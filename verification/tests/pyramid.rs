use rasters::grid::Grid;
use rasters::histogram::{HistBin, Histogram};
use rasters::pyramid::{levels_data, num_levels, plan_block, scaled_by_2, BlockPlan};
use rasters::volume::VolumePrecomputeMetadata;

#[test]
fn num_levels_counts_the_halvings() {
    assert_eq!(num_levels(0), 1);
    assert_eq!(num_levels(1), 1);
    assert_eq!(num_levels(2), 2);
    assert_eq!(num_levels(3), 3);
    assert_eq!(num_levels(4), 3);
    assert_eq!(num_levels(5), 4);
    assert_eq!(num_levels(1024), 11);
    assert_eq!(num_levels(1025), 12);
    assert_eq!(num_levels(usize::MAX), 65);
}

#[test]
fn levels_data_halves_rounding_up() {
    assert_eq!(levels_data(0, 10, 3), vec![]);
    assert_eq!(
        levels_data(4, 10, 3),
        vec![(3, 10), (2, 5), (1, 3), (1, 2)]
    );
}

#[test]
fn plan_of_a_base_block() {
    let levels = vec![(3, 10), (2, 5)];
    assert_eq!(
        plan_block(&levels, 0, 0, 4, 10),
        Some(BlockPlan::Read { y: 0, rows: 4 })
    );
    assert_eq!(
        plan_block(&levels, 0, 2, 4, 10),
        Some(BlockPlan::Read { y: 8, rows: 2 })
    );
    assert_eq!(plan_block(&levels, 0, 3, 4, 10), None);
    assert_eq!(plan_block(&levels, 2, 0, 4, 10), None);
}

#[test]
fn plan_of_a_block_above_the_base() {
    let levels = vec![(3, 10), (2, 5)];
    assert_eq!(
        plan_block(&levels, 1, 0, 4, 10),
        Some(BlockPlan::Two { below: 0 })
    );
    // block 1 of level 1 is made of block 2 alone: block 3 does not exist
    assert_eq!(
        plan_block(&levels, 1, 1, 4, 10),
        Some(BlockPlan::One { below: 2 })
    );
}

fn quarter_sum(a: f64, b: Option<f64>, c: Option<f64>, d: Option<f64>) -> f64 {
    let value = |v: f64| if v.is_nan() { 0. } else { v };
    let mut sum = value(a);
    for v in [b, c, d].iter().flatten() {
        sum += value(*v);
    }
    sum / 4.
}

#[test]
fn scaled_by_2_sums_the_blocks() {
    let data = Grid::from_vec(
        3,
        3,
        vec![1., 2., 3., 4., f64::NAN, 6., 7., 8., 9.],
    )
    .unwrap();
    let out = scaled_by_2(&data, &quarter_sum);
    assert_eq!(out.dim(), (2, 2));
    assert_eq!(out.get(0, 0), (1. + 4. + 2.) / 4.);
    assert_eq!(out.get(0, 1), (3. + 6.) / 4.);
    assert_eq!(out.get(1, 0), (7. + 8.) / 4.);
    assert_eq!(out.get(1, 1), 9. / 4.);
}

#[test]
fn scaled_by_2_of_nothing_is_nothing() {
    let data: Grid<f64> = Grid::from_vec(0, 5, vec![]).unwrap();
    let out = scaled_by_2(&data, &quarter_sum);
    assert_eq!(out.dim(), (0, 3));
}

#[test]
fn histogram_counts_values() {
    let mut h = Histogram::new(3);
    assert_eq!(h.len(), 3);
    h.add(HistBin::Min);
    h.add(HistBin::Bin(1));
    h.add(HistBin::Bin(1));
    h.add(HistBin::Max);
    h.add(HistBin::from_steps(2, 3));
    h.add(HistBin::from_steps(3, 3));
    assert_eq!((h.below(), h.beyond(), h.count()), (1, 2, 6));
    assert_eq!((h.bin(0), h.bin(1), h.bin(2)), (0, 2, 1));

    let mut other = Histogram::new(3);
    other.add(HistBin::Bin(0));
    other.add(HistBin::Min);
    h.merge(&other);
    assert_eq!((h.below(), h.beyond(), h.count()), (2, 2, 8));
    assert_eq!((h.bin(0), h.bin(1), h.bin(2)), (1, 2, 1));
}

#[test]
fn hist_bin_past_the_last_is_max() {
    assert_eq!(HistBin::from_steps(0, 4), HistBin::Bin(0));
    assert_eq!(HistBin::from_steps(3, 4), HistBin::Bin(3));
    assert_eq!(HistBin::from_steps(4, 4), HistBin::Max);
    assert_eq!(HistBin::from_steps(0, 0), HistBin::Max);
}

#[test]
fn top_level_of_a_volume_pyramid() {
    let meta = VolumePrecomputeMetadata {
        transform: (),
        projection: String::new(),
        levels: 4,
        chunks_y_offset: 16,
        levels_data: levels_data(4, 10, 3),
    };
    assert_eq!(meta.top_level(None), Some(3));
    assert_eq!(meta.top_level(Some(1)), Some(1));
    assert_eq!(meta.top_level(Some(9)), Some(3));
    let none = VolumePrecomputeMetadata {
        transform: (),
        projection: String::new(),
        levels: 0,
        chunks_y_offset: 16,
        levels_data: vec![],
    };
    assert_eq!(none.top_level(Some(0)), None);
}
