use rasters::grid::Grid;
use rasters::tiling::aggregator::{PyramidAggregator, Step};
use rasters::tiling::DataInvariantError;
use rasters::tiling::dem::{Tile, TileSet};

const NAN: f64 = f64::NAN;

/// Mean of the values that are numbers; not a number if none is.
fn average(a: f64, b: f64, c: f64, d: f64) -> f64 {
    let mut sum = 0.;
    let mut count = 0;
    for v in [a, b, c, d] {
        if !v.is_nan() {
            sum += v;
            count += 1;
        }
    }
    if count > 0 {
        sum / count as f64
    } else {
        NAN
    }
}

fn tile(rows: usize, cols: usize, coords: (usize, usize), cells: Vec<f64>) -> Tile<f64> {
    Tile::new(Grid::from_vec(rows, cols, cells).unwrap(), coords)
}

fn flat(coords: (usize, usize), value: f64) -> Tile<f64> {
    Tile::new(Grid::from_elem(2, 2, value), coords)
}

fn cells(t: &Tile<f64>) -> Vec<f64> {
    let (rows, cols) = t.data().dim();
    let mut out = vec![];
    for r in 0..rows {
        for c in 0..cols {
            out.push(t.data().get(r, c));
        }
    }
    out
}

fn same(a: &[f64], b: &[f64]) -> bool {
    a.len() == b.len()
        && a.iter()
            .zip(b)
            .all(|(x, y)| (x.is_nan() && y.is_nan()) || x == y)
}

/// A row of flat 2x2 tiles: the tile at `x` holds `base + x`.
fn row(zoom: usize, xrange: (usize, usize), y: usize, base: f64) -> TileSet<f64> {
    let tiles = (xrange.0..xrange.1)
        .map(|x| flat((x, y), base + x as f64))
        .collect();
    TileSet::new(zoom, xrange, y, tiles)
}

type Summary = (usize, usize, (usize, usize), Vec<Vec<f64>>);

fn summary(ts: &TileSet<f64>) -> Summary {
    (
        ts.zoom(),
        ts.y(),
        ts.xrange(),
        ts.tiles().iter().map(cells).collect(),
    )
}

fn same_summary(a: &Summary, b: &Summary) -> bool {
    a.0 == b.0
        && a.1 == b.1
        && a.2 == b.2
        && a.3.len() == b.3.len()
        && a.3.iter().zip(&b.3).all(|(x, y)| same(x, y))
}

/// Offers a row and every row merged from it; returns the merged rows.
fn feed(agg: &mut PyramidAggregator<f64>, ts: TileSet<f64>) -> Result<Vec<Summary>, DataInvariantError> {
    let mut produced = vec![];
    let mut next = ts;
    loop {
        match agg.offer(next, NAN, &average)? {
            Step::Merged(out) => {
                produced.push(summary(&out));
                next = out;
            }
            Step::Stored | Step::Done => return Ok(produced),
        }
    }
}

/// Winds the pyramid up; returns the merged rows.
fn flush(agg: &mut PyramidAggregator<f64>) -> Vec<Summary> {
    let mut produced = vec![];
    while let Some(out) = agg.flush_next(NAN, &average) {
        produced.push(summary(&out));
        produced.extend(feed(agg, out).unwrap());
    }
    produced
}

#[test]
fn grid_is_row_major() {
    let mut g = Grid::from_vec(2, 3, vec![1, 2, 3, 4, 5, 6]).unwrap();
    assert_eq!(g.dim(), (2, 3));
    assert_eq!(g.get(0, 2), 3);
    assert_eq!(g.get(1, 0), 4);
    g.set(1, 1, 50);
    assert_eq!(g.get(1, 1), 50);
    assert_eq!(g.get(1, 2), 6);
    let doubled = g.map(&|v: i32| v * 2);
    assert_eq!(doubled.into_vec(), vec![2, 4, 6, 8, 100, 12]);
    assert!(Grid::from_vec(2, 3, vec![1, 2, 3]).is_none());
    assert!(Grid::from_vec(usize::MAX, 2, vec![1]).is_none());
    assert_eq!(Grid::from_elem(2, 2, 7u8).into_vec(), vec![7, 7, 7, 7]);
    assert_eq!(Grid::<u8>::from_elem_or_empty(0, 4, None).dim(), (0, 4));
}

#[test]
fn from_aggregate_finishes_every_cell() {
    let data = Grid::from_vec(1, 3, vec![(6., 2.), (0., NAN), (1., 4.)]).unwrap();
    let finish = |(sum, weight): (f64, f64)| if weight.is_nan() { weight } else { sum / weight };
    let t = Tile::from_aggregate(&data, (3, 9), &finish);
    assert_eq!(t.coords(), (3, 9));
    assert!(same(&cells(&t), &[3., NAN, 0.25]));
}

#[test]
fn scale_4_to_1_reads_each_corner_in_its_quadrant() {
    let ramp = |base: f64| (0..16).map(|i| base + i as f64).collect::<Vec<f64>>();
    let tl = tile(4, 4, (4, 6), ramp(0.));
    let tr = tile(4, 4, (5, 6), ramp(100.));
    let bl = tile(4, 4, (4, 7), ramp(200.));
    let br = tile(4, 4, (5, 7), ramp(300.));
    let out = Tile::scale_4_to_1([Some(&tl), Some(&tr), Some(&bl), Some(&br)], NAN, &average);
    assert_eq!(out.coords(), (2, 3));
    assert_eq!(out.data().dim(), (4, 4));
    assert!(same(
        &cells(&out),
        &[
            2.5, 4.5, 102.5, 104.5, //
            10.5, 12.5, 110.5, 112.5, //
            202.5, 204.5, 302.5, 304.5, //
            210.5, 212.5, 310.5, 312.5,
        ]
    ));
}

#[test]
fn scale_4_to_1_leaves_absent_corners_without_data() {
    let br = tile(2, 2, (7, 9), vec![1., 2., 3., 6.]);
    let out = Tile::scale_4_to_1([None, None, None, Some(&br)], NAN, &average);
    assert_eq!(out.coords(), (3, 4));
    assert!(same(&cells(&out), &[NAN, NAN, NAN, 3.]));
    // a flag in place of not-a-number shows that the absent value is handed through
    let out = Tile::scale_4_to_1([None, None, None, Some(&br)], -1., &average);
    assert!(same(&cells(&out), &[-1., -1., -1., 3.]));
}

#[test]
fn scale_4_to_1_averages_only_the_numbers() {
    let tl = tile(2, 2, (0, 0), vec![NAN, 4., NAN, 8.]);
    let tr = tile(2, 2, (1, 0), vec![NAN, NAN, NAN, NAN]);
    let out = Tile::scale_4_to_1([Some(&tl), Some(&tr), None, None], NAN, &average);
    assert!(same(&cells(&out), &[6., NAN, NAN, NAN]));
}

#[test]
fn scale_4_to_1_hands_the_block_over_in_order() {
    // top-left, bottom-left, top-right, bottom-right
    let order = |a: f64, b: f64, c: f64, d: f64| a * 1000. + b * 100. + c * 10. + d;
    let tl = tile(2, 2, (0, 0), vec![1., 2., 3., 4.]);
    let out = Tile::scale_4_to_1([Some(&tl), None, None, None], 0., &order);
    assert!(same(&cells(&out), &[1324., 0., 0., 0.]));
}

#[test]
fn try_new_accepts_only_a_proper_row() {
    let good = vec![flat((3, 5), 1.), flat((4, 5), 2.)];
    assert!(TileSet::try_new(2, (3, 5), 5, good).is_some());
    // too few tiles
    assert!(TileSet::try_new(2, (3, 6), 5, vec![flat((3, 5), 1.)]).is_none());
    // a row may be empty, but not run backwards or hold tiles beyond its range
    assert!(TileSet::<f64>::try_new(2, (3, 3), 5, vec![]).is_some());
    assert!(TileSet::<f64>::try_new(2, (4, 3), 5, vec![]).is_none());
    assert!(TileSet::try_new(2, (3, 3), 5, vec![flat((3, 5), 1.)]).is_none());
    // a tile out of place
    assert!(TileSet::try_new(2, (3, 5), 5, vec![flat((3, 5), 1.), flat((5, 5), 2.)]).is_none());
    assert!(TileSet::try_new(2, (3, 5), 5, vec![flat((3, 5), 1.), flat((4, 6), 2.)]).is_none());
    // tiles of different sizes, and of odd size
    let mixed = vec![flat((3, 5), 1.), tile(4, 4, (4, 5), vec![0.; 16])];
    assert!(TileSet::try_new(2, (3, 5), 5, mixed).is_none());
    let odd = vec![tile(3, 2, (3, 5), vec![0.; 6])];
    assert!(TileSet::try_new(2, (3, 4), 5, odd).is_none());
}

#[test]
fn row_knows_whether_it_is_the_lower_of_its_pair() {
    assert!(!row(3, (0, 2), 4, 0.).can_scale_down_with_top());
    assert!(row(3, (0, 2), 5, 0.).can_scale_down_with_top());
}

#[test]
fn scale_down_with_top_pairs_columns_and_rows() {
    // columns 1..4: column 1 is the right half of parent 0, columns 2 and 3 make parent 1
    let top = row(3, (1, 4), 6, 10.);
    let mut bottom = row(3, (1, 4), 7, 20.);
    bottom.scale_down_with_top(Some(top), NAN, &average);
    assert_eq!(bottom.zoom(), 2);
    assert_eq!(bottom.y(), 3);
    assert_eq!(bottom.xrange(), (0, 2));
    let tiles = bottom.tiles();
    assert_eq!(tiles.len(), 2);
    assert_eq!(tiles[0].coords(), (0, 3));
    assert_eq!(tiles[1].coords(), (1, 3));
    // the upper row fills the upper half, the lower row the lower half
    assert!(same(&cells(&tiles[0]), &[NAN, 11., NAN, 21.]));
    assert!(same(&cells(&tiles[1]), &[12., 13., 22., 23.]));
}

#[test]
fn scale_down_with_top_without_a_top_leaves_the_upper_half_empty() {
    let mut bottom = row(3, (2, 5), 7, 20.);
    bottom.scale_down_with_top(None, NAN, &average);
    assert_eq!((bottom.zoom(), bottom.y(), bottom.xrange()), (2, 3, (1, 3)));
    let tiles = bottom.tiles();
    assert!(same(&cells(&tiles[0]), &[NAN, NAN, 22., 23.]));
    // column 4 is the last one and has no right neighbour
    assert!(same(&cells(&tiles[1]), &[NAN, NAN, 24., NAN]));
}

#[test]
fn scale_down_as_top_leaves_the_lower_half_empty() {
    let mut top = row(3, (2, 4), 6, 10.);
    top.scale_down_as_top(NAN, &average);
    assert_eq!((top.zoom(), top.y(), top.xrange()), (2, 3, (1, 2)));
    assert!(same(&cells(&top.tiles()[0]), &[12., 13., NAN, NAN]));
}

#[test]
fn aggregator_merges_each_pair_as_soon_as_it_is_complete() {
    let mut agg = PyramidAggregator::new(1, 3);
    assert_eq!((agg.min_zoom(), agg.base_zoom()), (1, 3));
    assert!(agg.is_empty());
    assert!(feed(&mut agg, row(3, (0, 2), 0, 0.)).unwrap().is_empty());
    assert!(!agg.is_empty());
    let produced = feed(&mut agg, row(3, (0, 2), 1, 10.)).unwrap();
    // rows 0 and 1 of zoom 3 make row 0 of zoom 2, which waits
    assert_eq!(produced.len(), 1);
    assert!(same_summary(
        &produced[0],
        &(2, 0, (0, 1), vec![vec![0., 1., 10., 11.]])
    ));
    assert!(!agg.is_empty());
    assert!(feed(&mut agg, row(3, (0, 2), 2, 20.)).unwrap().is_empty());
    let produced = feed(&mut agg, row(3, (0, 2), 3, 30.)).unwrap();
    // rows 2 and 3 make row 1 of zoom 2, which pairs with row 0 into zoom 1
    assert_eq!(produced.len(), 2);
    assert!(same_summary(
        &produced[0],
        &(2, 1, (0, 1), vec![vec![20., 21., 30., 31.]])
    ));
    assert!(same_summary(
        &produced[1],
        &(1, 0, (0, 1), vec![vec![5.5, NAN, 25.5, NAN]])
    ));
    assert!(agg.is_empty());
}

#[test]
fn aggregator_merges_an_odd_first_row_alone() {
    let mut agg = PyramidAggregator::new(2, 3);
    let produced = feed(&mut agg, row(3, (0, 2), 5, 50.)).unwrap();
    assert_eq!(produced.len(), 1);
    assert!(same_summary(
        &produced[0],
        &(2, 2, (0, 1), vec![vec![NAN, NAN, 50., 51.]])
    ));
    assert!(agg.is_empty());
}

#[test]
fn aggregator_refuses_rows_that_do_not_fit() {
    let mut agg = PyramidAggregator::new(1, 3);
    assert_eq!(
        feed(&mut agg, row(4, (0, 2), 0, 0.)).unwrap_err(),
        DataInvariantError::ZoomOutOfRange
    );
    assert_eq!(
        feed(&mut agg, row(0, (0, 2), 0, 0.)).unwrap_err(),
        DataInvariantError::ZoomOutOfRange
    );
    feed(&mut agg, row(3, (0, 2), 2, 0.)).unwrap();
    // another upper row while one waits
    assert_eq!(
        feed(&mut agg, row(3, (0, 2), 4, 0.)).unwrap_err(),
        DataInvariantError::OutOfOrder
    );
    // a lower row that is not the one below
    assert_eq!(
        feed(&mut agg, row(3, (0, 2), 5, 0.)).unwrap_err(),
        DataInvariantError::OutOfOrder
    );
    // the row below, over other columns
    assert_eq!(
        feed(&mut agg, row(3, (0, 3), 3, 0.)).unwrap_err(),
        DataInvariantError::ShapeMismatch
    );
    // the row below, with tiles of another size
    let big = TileSet::new(
        3,
        (0, 2),
        3,
        vec![
            tile(4, 4, (0, 3), vec![0.; 16]),
            tile(4, 4, (1, 3), vec![0.; 16]),
        ],
    );
    assert_eq!(
        feed(&mut agg, big).unwrap_err(),
        DataInvariantError::ShapeMismatch
    );
    // the state is as it was: the row below still fits, and what is merged
    // from the two is merged alone once more, no row waiting above it
    let produced = feed(&mut agg, row(3, (0, 2), 3, 0.)).unwrap();
    assert_eq!(produced.len(), 2);
    assert_eq!((produced[0].0, produced[0].1), (2, 1));
    assert_eq!((produced[1].0, produced[1].1), (1, 0));
}

#[test]
fn a_row_at_the_coarsest_zoom_is_done() {
    let mut agg = PyramidAggregator::new(2, 3);
    assert!(matches!(
        agg.offer(row(2, (0, 1), 1, 0.), NAN, &average),
        Ok(Step::Done)
    ));
    assert!(agg.is_empty());
}

#[test]
fn flush_merges_what_is_left_alone_from_the_finest_zoom_up() {
    let mut agg = PyramidAggregator::new(0, 2);
    // rows 0 and 1 make row 0 of zoom 1, which waits; row 2 waits at zoom 2
    feed(&mut agg, row(2, (0, 2), 0, 0.)).unwrap();
    feed(&mut agg, row(2, (0, 2), 1, 10.)).unwrap();
    feed(&mut agg, row(2, (0, 2), 2, 20.)).unwrap();
    let produced = flush(&mut agg);
    assert!(agg.is_empty());
    assert_eq!(produced.len(), 2);
    // row 2 alone becomes row 1 of zoom 1, its lower half without data
    assert!(same_summary(
        &produced[0],
        &(1, 1, (0, 1), vec![vec![20., 21., NAN, NAN]])
    ));
    // which pairs with the row that waited at zoom 1
    assert!(same_summary(
        &produced[1],
        &(0, 0, (0, 1), vec![vec![5.5, NAN, 20.5, NAN]])
    ));
    assert!(flush(&mut agg).is_empty());
}

#[test]
fn flush_of_a_lone_upper_row_climbs_to_the_coarsest_zoom() {
    let mut agg = PyramidAggregator::new(0, 2);
    feed(&mut agg, row(2, (0, 1), 0, 7.)).unwrap();
    let produced = flush(&mut agg);
    assert_eq!(produced.len(), 2);
    assert!(same_summary(&produced[0], &(1, 0, (0, 1), vec![vec![7., NAN, NAN, NAN]])));
    assert!(same_summary(&produced[1], &(0, 0, (0, 1), vec![vec![7., NAN, NAN, NAN]])));
    assert!(agg.is_empty());
}

#[test]
fn absorb_lays_pending_rows_over() {
    let mut a = PyramidAggregator::new(0, 3);
    let mut b = PyramidAggregator::new(0, 3);
    // a is left with row 0 of zoom 1 pending
    for y in 0..4 {
        feed(&mut a, row(3, (0, 2), y, y as f64)).unwrap();
    }
    // b is left with row 2 of zoom 2 pending
    for y in 4..6 {
        feed(&mut b, row(3, (0, 2), y, y as f64)).unwrap();
    }
    assert_eq!(a.absorb(b), Ok(()));
    let produced = flush(&mut a);
    assert_eq!(produced.len(), 2);
    assert_eq!((produced[0].0, produced[0].1), (1, 1));
    assert_eq!((produced[1].0, produced[1].1), (0, 0));
}

#[test]
fn absorb_refuses_other_levels_and_collisions() {
    let mut a = PyramidAggregator::new(0, 3);
    assert_eq!(
        a.absorb(PyramidAggregator::new(1, 3)),
        Err(DataInvariantError::ZoomOutOfRange)
    );
    assert_eq!(
        a.absorb(PyramidAggregator::new(0, 2)),
        Err(DataInvariantError::ZoomOutOfRange)
    );
    let mut b = PyramidAggregator::new(0, 3);
    feed(&mut a, row(3, (0, 2), 0, 0.)).unwrap();
    feed(&mut b, row(3, (0, 2), 2, 0.)).unwrap();
    assert_eq!(a.absorb(b), Err(DataInvariantError::OutOfOrder));
    // a is as it was
    assert_eq!(feed(&mut a, row(3, (0, 2), 1, 0.)).unwrap().len(), 1);
}

/// Two private aggregators, combined, against one aggregator fed with all
/// rows: the rows merged and the rows left pending are the same.
fn check_parallel_is_sequential(min_zoom: usize, base_zoom: usize, first: (usize, usize), second: (usize, usize)) {
    let base_row = |y: usize| row(base_zoom, (1, 4), y, 100. * y as f64);

    let mut whole = PyramidAggregator::new(min_zoom, base_zoom);
    let mut merged_whole = vec![];
    for y in (first.0..first.1).chain(second.0..second.1) {
        merged_whole.extend(feed(&mut whole, base_row(y)).unwrap());
    }

    let mut a = PyramidAggregator::new(min_zoom, base_zoom);
    let mut b = PyramidAggregator::new(min_zoom, base_zoom);
    let mut merged_parts = vec![];
    for y in first.0..first.1 {
        merged_parts.extend(feed(&mut a, base_row(y)).unwrap());
    }
    for y in second.0..second.1 {
        merged_parts.extend(feed(&mut b, base_row(y)).unwrap());
    }
    assert_eq!(a.absorb(b), Ok(()));

    assert_eq!(merged_whole.len(), merged_parts.len());
    for (x, y) in merged_whole.iter().zip(&merged_parts) {
        assert!(same_summary(x, y));
    }
    // what is left pending is the same: winding up gives the same rows
    let rest_whole = flush(&mut whole);
    let rest_parts = flush(&mut a);
    assert_eq!(rest_whole.len(), rest_parts.len());
    for (x, y) in rest_whole.iter().zip(&rest_parts) {
        assert!(same_summary(x, y));
    }
}

#[test]
fn parallel_reduction_equals_sequential_execution() {
    // the second range starts at a block of the coarsest zoom
    check_parallel_is_sequential(1, 3, (0, 4), (4, 8));
    // the first leaves a row pending at zoom 1, the second stays at zooms 3 and 2
    check_parallel_is_sequential(0, 3, (0, 4), (4, 6));
    check_parallel_is_sequential(0, 3, (0, 4), (4, 5));
    // the first range starts in the middle of a pair
    check_parallel_is_sequential(0, 3, (1, 4), (4, 7));
    // an empty range on either side
    check_parallel_is_sequential(0, 3, (0, 0), (3, 7));
    check_parallel_is_sequential(0, 3, (0, 5), (5, 5));
}

#[test]
fn merged_result_does_not_depend_on_how_the_rows_were_grouped() {
    // four rows A, B, C, D of zoom 2 make one row of zoom 0
    let rows = |agg: &mut PyramidAggregator<f64>, ys: std::ops::Range<usize>| {
        let mut out = vec![];
        for y in ys {
            out.extend(feed(agg, row(2, (0, 4), y, 10. * y as f64)).unwrap());
        }
        out
    };
    let mut one = PyramidAggregator::new(0, 2);
    let all = rows(&mut one, 0..4);
    let mut first = PyramidAggregator::new(1, 2);
    let mut second = PyramidAggregator::new(1, 2);
    let ab = rows(&mut first, 0..2);
    let cd = rows(&mut second, 2..4);
    assert!(same_summary(&all[0], &ab[0]));
    assert!(same_summary(&all[1], &cd[0]));
    // top of the pyramid from the two halves
    let upper = TileSet::new(
        1,
        (0, 2),
        0,
        ab[0].3.iter().enumerate().map(|(x, c)| tile(2, 2, (x, 0), c.clone())).collect(),
    );
    let lower = TileSet::new(
        1,
        (0, 2),
        1,
        cd[0].3.iter().enumerate().map(|(x, c)| tile(2, 2, (x, 1), c.clone())).collect(),
    );
    let mut top = lower;
    top.scale_down_with_top(Some(upper), NAN, &average);
    assert!(same_summary(&all[2], &summary(&top)));
}

#[test]
fn quad_merge_checks_its_corners() {
    let a = tile(2, 2, (0, 0), vec![1., 2., 3., 4.]);
    let b = tile(4, 4, (1, 0), vec![0.; 16]);
    let odd = tile(2, 3, (0, 0), vec![0.; 6]);
    assert_eq!(
        Tile::<f64>::quad_merge([None, None, None, None], NAN, &average).err(),
        Some(DataInvariantError::NoCorner)
    );
    assert_eq!(
        Tile::quad_merge([Some(&a), Some(&b), None, None], NAN, &average).err(),
        Some(DataInvariantError::ShapeMismatch)
    );
    assert_eq!(
        Tile::quad_merge([None, Some(&odd), None, None], NAN, &average).err(),
        Some(DataInvariantError::ShapeMismatch)
    );
    let out = Tile::quad_merge([None, Some(&a), None, None], NAN, &average).unwrap();
    assert_eq!(out.coords(), (0, 0));
    assert!(same(&cells(&out), &[NAN, 2.5, NAN, NAN]));
}

#[test]
fn an_empty_row_is_a_row_but_is_not_merged() {
    let empty: TileSet<f64> = TileSet::new(3, (4, 4), 1, vec![]);
    assert_eq!((empty.zoom(), empty.y(), empty.xrange()), (3, 1, (4, 4)));
    assert!(empty.tiles().is_empty());
    let mut agg = PyramidAggregator::new(1, 3);
    assert_eq!(
        feed(&mut agg, empty).unwrap_err(),
        DataInvariantError::ShapeMismatch
    );
    // also at the coarsest zoom, and the state is as it was
    assert_eq!(
        feed(&mut agg, TileSet::new(1, (0, 0), 0, vec![])).unwrap_err(),
        DataInvariantError::ShapeMismatch
    );
    assert!(agg.is_empty());
}

fn is_nan(v: f64) -> bool {
    v.is_nan()
}

#[test]
fn mean_4_to_1_is_scale_4_to_1_with_the_mean_of_what_has_data() {
    let tl = tile(2, 2, (2, 4), vec![NAN, 4., NAN, 8.]);
    let tr = tile(2, 2, (3, 4), vec![NAN, NAN, NAN, NAN]);
    let br = tile(2, 2, (3, 5), vec![1., 2., 3., NAN]);
    let corners = [Some(&tl), Some(&tr), None, Some(&br)];
    let out = Tile::mean_4_to_1(
        corners,
        NAN,
        0.,
        &is_nan,
        &|a: f64, b: f64| a + b,
        &|s: f64, n: usize| s / n as f64,
    );
    assert_eq!(out.coords(), (1, 2));
    assert!(same(&cells(&out), &[6., NAN, NAN, 2.]));
    let plain = Tile::scale_4_to_1(corners, NAN, &average);
    assert!(same(&cells(&out), &cells(&plain)));
}

#[test]
fn from_weights_divides_what_has_weight() {
    let data = Grid::from_vec(1, 4, vec![(6., 2.), (0., NAN), (1., 4.), (9., NAN)]).unwrap();
    let t = Tile::from_weights(&data, (3, 9), &is_nan, &|a: f64, b: f64| a / b);
    assert_eq!(t.coords(), (3, 9));
    assert!(same(&cells(&t), &[3., NAN, 0.25, NAN]));
}

#[test]
fn a_uniform_block_stays_uniform() {
    let v = 0.1;
    let tiles: Vec<Tile<f64>> = (0..4).map(|k| Tile::new(Grid::from_elem(4, 4, v), (k % 2, k / 2))).collect();
    let out = Tile::scale_4_to_1(
        [Some(&tiles[0]), Some(&tiles[1]), Some(&tiles[2]), Some(&tiles[3])],
        NAN,
        &average,
    );
    assert!(cells(&out).iter().all(|c| (c - v).abs() <= 1e-12));
}
