use rasters::grid::Grid;
use rasters::tiling::aggregator::{PyramidAggregator, Step};
use rasters::tiling::axis::Axis;
use rasters::tiling::base::{window_along, ChunkConfig, RowProc};
use rasters::tiling::dem::{Tile, TileSet};
use rasters::tiling::web_mercator::{
    largest_zoom_containing, largest_zoom_greater_than, tile_index, tile_size, zoom_for_resolution,
    Bounds, MAX_ZOOM, WEB_MERCATOR_EPSG,
};
use rasters::tiling::{Config, GeometryError};

const NAN: f64 = f64::NAN;

fn average(a: f64, b: f64, c: f64, d: f64) -> f64 {
    let mut sum = 0.;
    let mut count = 0;
    for v in [a, b, c, d] {
        if !v.is_nan() {
            sum += v;
            count += 1;
        }
    }
    if count > 0 {
        sum / count as f64
    } else {
        NAN
    }
}

fn finish((sum, weight): (f64, f64)) -> f64 {
    if weight.is_nan() {
        weight
    } else {
        sum / weight
    }
}

/// Resamples a band of `data`, `width` samples wide, into the tiles of one
/// tile row: the weight of a contribution is its share of the source pixel.
fn resample(chunk: &ChunkConfig, tile_size: usize, tiles: usize, data: &[f64], width: usize) -> Vec<Grid<(f64, f64)>> {
    let area = chunk.pixel_area() as f64;
    let init: Vec<Grid<(f64, f64)>> = (0..tiles)
        .map(|_| Grid::from_elem(tile_size, tile_size, (0., NAN)))
        .collect();
    chunk.process(
        init,
        &|mut acc: Vec<Grid<(f64, f64)>>,
          tile: (usize, usize),
          cell: (usize, usize),
          source: (usize, usize),
          weight: u128| {
            let value = data[source.1 * width + source.0];
            if !value.is_nan() {
                let mu = weight as f64 / area;
                let (sum, total) = acc[tile.0].get(cell.1, cell.0);
                let total = if total.is_nan() { mu } else { total + mu };
                acc[tile.0].set(cell.1, cell.0, (sum + mu * value, total));
            }
            acc
        },
    )
}

fn mean(t: &Tile<f64>, rows: std::ops::Range<usize>, cols: std::ops::Range<usize>) -> f64 {
    let mut sum = 0.;
    let mut n = 0;
    for r in rows {
        for c in cols.clone() {
            sum += t.data().get(r, c);
            n += 1;
        }
    }
    sum / n as f64
}

#[test]
fn web_mercator_constants() {
    assert_eq!(WEB_MERCATOR_EPSG, 3857);
    assert_eq!(MAX_ZOOM, 31);
}

#[test]
fn tile_size_halves_with_each_zoom() {
    assert_eq!(tile_size(0), 1 << 32);
    assert_eq!(tile_size(1), 1 << 31);
    assert_eq!(tile_size(31), 2);
    assert_eq!(tile_size(32), 1);
}

#[test]
fn tile_index_drops_the_low_bits() {
    assert_eq!(tile_index(0, (u32::MAX, 12345)), (0, 0));
    assert_eq!(tile_index(1, (0x8000_0000, 0x7fff_ffff)), (1, 0));
    assert_eq!(tile_index(31, (5, 4)), (2, 2));
    assert_eq!(tile_index(31, (u32::MAX, 0)), (0x7fff_ffff, 0));
    assert_eq!(tile_index(8, (0x1234_5678, 0xfedc_ba98)), (0x12, 0xfe));
    assert_eq!(tile_index(32, (5, 4)), (5, 4));
}

#[test]
fn tile_index_beyond_the_zoom_of_the_grid() {
    if usize::BITS < 64 {
        return;
    }
    // a grid cell is 2^(zoom - 32) tiles wide
    assert_eq!(tile_index(33, (5, 4)), (10, 8));
    assert_eq!(tile_index(40, (3, 1)), (768, 256));
    assert_eq!(tile_index(63, (u32::MAX, 0)), ((u32::MAX as usize) << 31, 0));
}

#[test]
fn largest_zoom_containing_probes_until_the_corners_part() {
    assert_eq!(largest_zoom_containing(Bounds::new((7, 7), (7, 7))), 31);
    assert_eq!(
        largest_zoom_containing(Bounds::new((0x7fff_ffff, 0), (0x8000_0000, 0))),
        0
    );
    assert_eq!(
        largest_zoom_containing(Bounds::new((0, 0x7fff_ffff), (0, 0x8000_0000))),
        0
    );
    assert_eq!(
        largest_zoom_containing(Bounds::new(
            (0x4000_0000, 0x4000_0000),
            (0x7fff_ffff, 0x7fff_ffff)
        )),
        2
    );
    // the corners may come in any order
    assert_eq!(
        largest_zoom_containing(Bounds::new(
            (0x7fff_ffff, 0x4000_0000),
            (0x4000_0000, 0x7fff_ffff)
        )),
        2
    );
}

#[test]
fn bounds_order_their_corners() {
    let b = Bounds::new((9, 2), (3, 8));
    assert_eq!(b.min(), (3, 2));
    assert_eq!(b.max(), (9, 8));
}

#[test]
fn zoom_for_resolution_rounds_the_logarithm_up() {
    // a source pixel is 2^10 cells; a tile pixel is as large at zoom 14
    assert_eq!(zoom_for_resolution(1 << 20, 1024, 256), 14);
    assert_eq!(zoom_for_resolution(1 << 20, 1025, 256), 15);
    assert_eq!(zoom_for_resolution(1 << 20, 2048, 256), 15);
    assert_eq!(zoom_for_resolution(1 << 20, 512, 256), 13);
    // a source pixel larger than a tile pixel of zoom 0
    assert_eq!(zoom_for_resolution(u32::MAX, 1, 256), 0);
    // nothing is fine enough for a raster without extent
    assert_eq!(zoom_for_resolution(0, 1024, 256), 31);
}

#[test]
fn largest_zoom_greater_than_rounds_the_logarithm_down() {
    assert_eq!(largest_zoom_greater_than(1 << 20, 1024, 256), 14);
    assert_eq!(largest_zoom_greater_than(1 << 20, 1023, 256), 13);
    assert_eq!(largest_zoom_greater_than(1 << 20, 2048, 256), 15);
    assert_eq!(largest_zoom_greater_than(0, 1024, 256), 31);
    // no zoom has pixels as large as these
    assert_eq!(largest_zoom_greater_than(u32::MAX, 1, 256), 0);
}

/// The corners of the upright rectangle spanned by `a` and `b`: upper left,
/// upper right, lower left, lower right.
fn upright(a: (u32, u32), b: (u32, u32)) -> [(u32, u32); 4] {
    [a, (b.0, a.1), (a.0, b.1), b]
}

fn sample_config() -> Config {
    let lo = 1u32 << 31;
    let hi = lo + (1 << 20) - 1;
    Config::for_raster(upright((lo, lo), (hi, hi)), (1024, 1024), 256).unwrap()
}

#[test]
fn for_raster_refuses_bad_tile_sizes() {
    assert_eq!(
        Config::for_raster(upright((0, 0), (99, 99)), (10, 10), 0).err(),
        Some(GeometryError::TileSize)
    );
    assert_eq!(
        Config::for_raster(upright((0, 0), (99, 99)), (10, 10), 255).err(),
        Some(GeometryError::TileSize)
    );
    // the tile size is looked at first
    assert_eq!(
        Config::for_raster(upright((0, 0), (99, 999)), (10, 10), 3).err(),
        Some(GeometryError::TileSize)
    );
}

#[test]
fn for_raster_refuses_pixels_that_are_not_square() {
    assert_eq!(
        Config::for_raster(upright((0, 0), (1000, 2000)), (100, 100), 256).err(),
        Some(GeometryError::NotSquare)
    );
    assert_eq!(
        Config::for_raster(upright((0, 0), (1000, 1000)), (100, 200), 256).err(),
        Some(GeometryError::NotSquare)
    );
    // a quarter off is still square, a little more is not
    assert!(Config::for_raster(upright((0, 0), (125, 100)), (1, 1), 256).is_ok());
    assert!(Config::for_raster(upright((0, 0), (100, 125)), (1, 1), 256).is_ok());
    assert_eq!(
        Config::for_raster(upright((0, 0), (126, 100)), (1, 1), 256).err(),
        Some(GeometryError::NotSquare)
    );
}

#[test]
fn for_raster_accepts_square_pixels_and_even_tiles() {
    let cfg = Config::for_raster(upright((0, 0), (512, 512)), (512, 512), 256).unwrap();
    assert_eq!(cfg.wm_bounds().min(), (0, 0));
    assert_eq!(cfg.wm_bounds().max(), (512, 512));
    assert_eq!(cfg.tile_size(), 256);
    assert_eq!(cfg.raster_size(), (512, 512));
}

#[test]
fn for_raster_refuses_a_raster_that_is_not_north_aligned() {
    let a = (0, 0);
    let b = (1_000_000, 1_000_000);
    // the right edge lies 2^31 - 10^6 cells from the middle of the world:
    // a hundred-thousandth of that is a little over 21464 cells
    let skewed = |dx: u32, dy: u32| [a, (b.0 + dx, a.1 + dy), (a.0, b.1), b];
    assert!(Config::for_raster(skewed(21464, 0), (1000, 1000), 256).is_ok());
    assert_eq!(
        Config::for_raster(skewed(21465, 0), (1000, 1000), 256).err(),
        Some(GeometryError::NotNorthAligned)
    );
    // the upper edge lies 2^31 cells from the middle
    assert!(Config::for_raster(skewed(0, 21474), (1000, 1000), 256).is_ok());
    assert_eq!(
        Config::for_raster(skewed(0, 21475), (1000, 1000), 256).err(),
        Some(GeometryError::NotNorthAligned)
    );
    // the lower left corner, off the left and off the lower edge
    assert_eq!(
        Config::for_raster([a, (b.0, a.1), (a.0 + 21475, b.1), b], (1000, 1000), 256).err(),
        Some(GeometryError::NotNorthAligned)
    );
    assert_eq!(
        Config::for_raster([a, (b.0, a.1), (a.0, b.1 - 21465), b], (1000, 1000), 256).err(),
        Some(GeometryError::NotNorthAligned)
    );
    // at the middle of the world nothing is tolerated
    let m = 1u32 << 31;
    let near = [(m - 100, m - 100), (m, m - 99), (m - 100, m), (m, m)];
    assert_eq!(
        Config::for_raster(near, (10, 10), 256).err(),
        Some(GeometryError::NotNorthAligned)
    );
    // the tile size is looked at first, the alignment before the pixels
    assert_eq!(
        Config::for_raster(skewed(21465, 0), (1000, 1000), 255).err(),
        Some(GeometryError::TileSize)
    );
    assert_eq!(
        Config::for_raster(skewed(21465, 0), (1000, 3000), 256).err(),
        Some(GeometryError::NotNorthAligned)
    );
}

#[test]
fn config_keeps_what_it_was_made_of() {
    let cfg = Config::for_raster(upright((90, 20), (10, 100)), (40, 40), 64).unwrap();
    assert_eq!(cfg.tile_size(), 64);
    assert_eq!(cfg.raster_size(), (40, 40));
    assert_eq!(cfg.wm_bounds().min(), (10, 20));
    assert_eq!(cfg.wm_bounds().max(), (90, 100));
}

#[test]
fn config_zoom_bounds() {
    let cfg = sample_config();
    assert_eq!(cfg.min_zoom(), 12);
    assert_eq!(cfg.max_zoom(), 15);
}

#[test]
fn tile_index_bounds_cover_the_raster() {
    let cfg = sample_config();
    assert_eq!(cfg.tile_index_bounds(0), [0, 0, 1, 1]);
    assert_eq!(cfg.tile_index_bounds(12), [2048, 2048, 2049, 2049]);
    assert_eq!(cfg.tile_index_bounds(13), [4096, 4096, 4098, 4098]);
    assert_eq!(cfg.tile_index_bounds(15), [16384, 16384, 16392, 16392]);
}

#[test]
fn tile_index_bounds_nest_across_zooms() {
    let configs = [
        sample_config(),
        Config::for_raster(upright((12345, 999_999), (3_000_000_000, 2_999_987_654)), (10, 10), 2).unwrap(),
        Config::for_raster(upright((0, 0), (u32::MAX, u32::MAX)), (8, 8), 2).unwrap(),
    ];
    let finest = usize::BITS as usize - 1;
    for cfg in &configs {
        for zoom in 0..finest {
            let coarse = cfg.tile_index_bounds(zoom);
            let fine = cfg.tile_index_bounds(zoom + 1);
            assert_eq!(coarse[0], fine[0] / 2);
            assert_eq!(coarse[1], fine[1] / 2);
            assert_eq!(coarse[2], (fine[2] - 1) / 2 + 1);
            assert_eq!(coarse[3], (fine[3] - 1) / 2 + 1);
        }
    }
}

#[test]
fn row_bounds_on_the_grid() {
    let proc = RowProc::new(13, 256, (4096, 4098));
    let span = 1u64 << 19;
    assert_eq!(
        proc.get_bounds(4096),
        Some(((4096 * span, 4096 * span), (4098 * span, 4097 * span)))
    );
    assert_eq!(proc.get_bounds(8191).map(|b| b.1 .1), Some(1 << 32));
    assert_eq!(proc.get_bounds(8192), None);
    assert_eq!(RowProc::new(32, 256, (0, 1)).get_bounds(0), None);
    assert_eq!(RowProc::new(3, 256, (2, 2)).get_bounds(0), None);
    assert_eq!(RowProc::new(3, 256, (2, 9)).get_bounds(0), None);
    assert_eq!(
        RowProc::new(3, 256, (7, 8)).get_bounds(7),
        Some(((7 << 29, 7 << 29), (1 << 32, 1 << 32)))
    );
}

#[test]
fn window_along_floors_and_ceils() {
    // the raster starts at 100 and has 10 pixels of 5 cells each
    assert_eq!(window_along(110, 127, 100, 50, 10), (2, 6));
    assert_eq!(window_along(110, 125, 100, 50, 10), (2, 5));
    assert_eq!(window_along(0, 103, 100, 50, 10), (0, 1));
    assert_eq!(window_along(149, 1000, 100, 50, 10), (9, 10));
    assert_eq!(window_along(0, 1000, 100, 50, 10), (0, 10));
    // beside the raster
    assert_eq!(window_along(0, 100, 100, 50, 10), (0, 0));
    assert_eq!(window_along(150, 160, 100, 50, 10), (0, 0));
    // a raster without extent
    assert_eq!(window_along(0, 1000, 100, 0, 10), (0, 0));
}

#[test]
fn pixel_window_of_a_tile_row() {
    let cfg = sample_config();
    // at zoom 13 two tiles of 2^19 cells cover the raster of 2^20 - 1 cells
    let proc = cfg.base_proc(13);
    assert_eq!(proc.pixel_window(4096, &cfg), ((0, 0), (1024, 513)));
    assert_eq!(proc.pixel_window(4097, &cfg), ((0, 512), (1024, 512)));
    // rows beside the raster, and off the grid
    assert_eq!(proc.pixel_window(4095, &cfg), ((0, 0), (0, 0)));
    assert_eq!(proc.pixel_window(4098, &cfg), ((0, 0), (0, 0)));
    assert_eq!(proc.pixel_window(1 << 13, &cfg), ((0, 0), (0, 0)));
}

#[test]
fn axis_limits() {
    assert!(Axis::new(0, 3, 2, 6, 4).is_some());
    assert!(Axis::new(0, 0, 2, 6, 4).is_none());
    assert!(Axis::new(0, 3, 0, 6, 4).is_none());
    assert!(Axis::new(0, (1 << 62) + 1, 2, 6, 4).is_none());
    assert!(Axis::new(0, 3, 2, (1 << 31) + 1, 4).is_none());
    assert!(Axis::new(0, 3, 2, 6, (1 << 31) + 1).is_none());
    assert!(Axis::new((1 << 100) + 1, 3, 2, 6, 4).is_none());
    assert!(Axis::new(-(1 << 100) - 1, 3, 2, 6, 4).is_none());
    assert!(Axis::new(-(1 << 100), 1 << 62, 1 << 62, 1 << 31, 1 << 31).is_some());
}

#[test]
fn axis_overlaps_are_exact() {
    // source pixels of 3 units over cells of 2 units
    let ax = Axis::new(0, 3, 2, 6, 4).unwrap();
    assert_eq!((ax.count(), ax.cells(), ax.step(), ax.cell()), (4, 6, 3, 2));
    assert_eq!(ax.span(0), (0, 3));
    assert_eq!(ax.range(0), (0, 2));
    assert_eq!((ax.overlap(0, 0), ax.overlap(0, 1), ax.overlap(0, 2)), (2, 1, 0));
    assert_eq!(ax.range(1), (1, 3));
    assert_eq!((ax.overlap(1, 1), ax.overlap(1, 2)), (1, 2));
    assert_eq!(ax.range(3), (4, 6));
    assert_eq!((ax.overlap(3, 4), ax.overlap(3, 5)), (1, 2));
}

#[test]
fn axis_clips_at_both_ends() {
    let ax = Axis::new(-4, 3, 2, 3, 5).unwrap();
    // pixel 0 covers -4..-1 and misses the cells
    assert_eq!(ax.span(0), (0, 0));
    assert_eq!(ax.range(0), (0, 0));
    // pixel 1 covers -1..2
    assert_eq!(ax.span(1), (0, 2));
    assert_eq!(ax.range(1), (0, 1));
    assert_eq!(ax.overlap(1, 0), 2);
    // pixel 3 covers 5..8, the cells end at 6
    assert_eq!(ax.span(3), (5, 6));
    assert_eq!(ax.range(3), (2, 3));
    assert_eq!(ax.overlap(3, 2), 1);
    // pixel 4 covers 8..11
    assert_eq!(ax.span(4), (6, 6));
    assert_eq!(ax.range(4), (3, 3));
}

#[test]
fn chunk_config_needs_tiles_with_pixels() {
    let x = Axis::new(0, 1, 1, 4, 4).unwrap();
    let y = Axis::new(0, 1, 1, 4, 4).unwrap();
    assert!(ChunkConfig::new(x, y, (0, 4)).is_none());
    let x = Axis::new(0, 1, 1, 4, 4).unwrap();
    let y = Axis::new(0, 1, 1, 4, 4).unwrap();
    let c = ChunkConfig::new(x, y, (4, 4)).unwrap();
    assert_eq!(c.data_size(), (4, 4));
    assert_eq!((c.pixel_area(), c.cell_area()), (1, 1));
}

type Seen = Vec<((usize, usize), (usize, usize), (usize, usize), u128)>;

fn record(mut acc: Seen, tile: (usize, usize), cell: (usize, usize), source: (usize, usize), weight: u128) -> Seen {
    acc.push((tile, cell, source, weight));
    acc
}

#[test]
fn process_pixel_hands_out_the_overlaps_row_by_row() {
    // 3-unit pixels over 2-unit cells, tiles of 2x2 cells
    let x = Axis::new(0, 3, 2, 6, 4).unwrap();
    let y = Axis::new(0, 3, 2, 2, 1).unwrap();
    let c = ChunkConfig::new(x, y, (2, 2)).unwrap();
    assert_eq!((c.pixel_area(), c.cell_area()), (9, 4));
    // pixel (1, 0) covers 3..6 across, cells 1 and 2, and 0..3 down, cells 0 and 1
    let seen = c.process_pixel(1, 0, vec![], &record);
    assert_eq!(
        seen,
        vec![
            ((0, 0), (1, 0), (1, 0), 2),
            ((1, 0), (0, 0), (1, 0), 4),
            ((0, 0), (1, 1), (1, 0), 1),
            ((1, 0), (0, 1), (1, 0), 2),
        ]
    );
}

#[test]
fn process_goes_through_the_band_pixel_by_pixel() {
    let x = Axis::new(0, 2, 2, 2, 2).unwrap();
    let y = Axis::new(0, 2, 2, 2, 2).unwrap();
    let c = ChunkConfig::new(x, y, (2, 2)).unwrap();
    let seen = c.process(vec![], &record);
    assert_eq!(
        seen,
        vec![
            ((0, 0), (0, 0), (0, 0), 4),
            ((0, 0), (1, 0), (1, 0), 4),
            ((0, 0), (0, 1), (0, 1), 4),
            ((0, 0), (1, 1), (1, 1), 4),
        ]
    );
}

#[test]
fn weights_of_an_interior_pixel_add_up_to_its_area() {
    for (step, cell) in [(3u64, 2u64), (2, 3), (5, 5), (1, 7), (7, 1), (10, 4)] {
        let cells = 40;
        let count = (cells as u64 * cell / step) as usize;
        let x = Axis::new(0, step, cell, cells, count).unwrap();
        let y = Axis::new(0, step, cell, cells, count).unwrap();
        let chunk = ChunkConfig::new(x, y, (4, 4)).unwrap();
        let area = chunk.pixel_area();
        assert_eq!(area, (step * step) as u128);
        for r in 0..count {
            for c in 0..count {
                let total = chunk.process_pixel(c, r, 0u128, &|acc: u128, _t, _p, _s, w: u128| {
                    assert!(w > 0 && w <= chunk.cell_area());
                    acc + w
                });
                assert_eq!(total, area);
                let share = chunk.process_pixel(c, r, 0f64, &|acc: f64, _t, _p, _s, w: u128| {
                    acc + w as f64 / area as f64
                });
                assert!((share - 1.).abs() <= 1e-9);
            }
        }
    }
}

#[test]
fn weights_of_a_clipped_pixel_add_up_to_what_is_inside() {
    // the band starts one unit into pixel 0 and ends two units into pixel 2
    let x = Axis::new(-1, 3, 2, 3, 3).unwrap();
    let y = Axis::new(0, 3, 3, 1, 1).unwrap();
    let chunk = ChunkConfig::new(x, y, (1, 1)).unwrap();
    let sum = |c: usize| chunk.process_pixel(c, 0, 0u128, &|acc: u128, _t, _p, _s, w: u128| acc + w);
    assert_eq!(sum(0), 2 * 3);
    assert_eq!(sum(1), 3 * 3);
    assert_eq!(sum(2), 1 * 3);
}

#[test]
fn uniform_raster_gives_uniform_tiles() {
    let value = 1234.5678;
    for (step, cell) in [(3u64, 2u64), (2, 3), (1, 1), (7, 4)] {
        let tile_size = 4;
        let tiles = 3;
        let cells = tile_size * tiles;
        // enough pixels to cover the tiles fully
        let count_x = (cells as u64 * cell).div_ceil(step) as usize;
        let count_y = (tile_size as u64 * cell).div_ceil(step) as usize;
        let x = Axis::new(0, step, cell, cells, count_x).unwrap();
        let y = Axis::new(0, step, cell, tile_size, count_y).unwrap();
        let chunk = ChunkConfig::new(x, y, (tile_size, tile_size)).unwrap();
        let data = vec![value; count_x * count_y];
        let grids = resample(&chunk, tile_size, tiles, &data, count_x);
        let row: Vec<Tile<f64>> = grids
            .iter()
            .enumerate()
            .map(|(i, g)| Tile::from_aggregate(g, (i, 0), &finish))
            .collect();
        for t in &row {
            for r in 0..tile_size {
                for c in 0..tile_size {
                    assert!((t.data().get(r, c) - value).abs() <= 1e-9 * value);
                }
            }
        }
        // and so at every coarser zoom
        let mut ts = TileSet::new(2, (0, tiles), 0, row);
        while ts.zoom() > 0 {
            ts.scale_down_as_top(NAN, &average);
            for t in ts.tiles() {
                for r in 0..tile_size {
                    for c in 0..tile_size {
                        let v = t.data().get(r, c);
                        assert!(v.is_nan() || (v - value).abs() <= 1e-9 * value);
                    }
                }
            }
        }
    }
}

#[test]
fn no_data_contributes_nothing() {
    let x = Axis::new(0, 1, 2, 2, 4).unwrap();
    let y = Axis::new(0, 1, 2, 2, 4).unwrap();
    let chunk = ChunkConfig::new(x, y, (2, 2)).unwrap();
    let data = vec![
        1., NAN, NAN, NAN,
        NAN, 3., NAN, NAN,
        5., 5., 2., 4.,
        5., 5., 6., 8.,
    ];
    let grids = resample(&chunk, 2, 1, &data, 4);
    let t = Tile::from_aggregate(&grids[0], (0, 0), &finish);
    assert_eq!(t.data().get(0, 0), 2.);
    assert!(t.data().get(0, 1).is_nan());
    assert_eq!(t.data().get(1, 0), 5.);
    assert_eq!(t.data().get(1, 1), 5.);
}

#[test]
fn rows_missing_at_the_edge_have_no_data() {
    // a raster of 300 rows under tiles of 256: the second tile row has 44 rows
    let size = 256;
    let x = Axis::new(0, 1, 1, size, size).unwrap();
    let y = Axis::new(0, 1, 1, size, 44).unwrap();
    let chunk = ChunkConfig::new(x, y, (size, size)).unwrap();
    let data = vec![8.; size * 44];
    let grids = resample(&chunk, size, 1, &data, size);
    let t = Tile::from_aggregate(&grids[0], (0, 1), &finish);
    assert_eq!(t.data().get(43, 0), 8.);
    assert!(t.data().get(44, 0).is_nan());
    assert!(t.data().get(255, 255).is_nan());
    // merged with a full row above, the missing rows stay out of the averages
    let full = Tile::new(Grid::from_elem(size, size, 2.), (0, 0));
    let merged = Tile::scale_4_to_1([Some(&full), None, Some(&t), None], NAN, &average);
    assert_eq!(merged.data().get(0, 0), 2.);
    assert_eq!(merged.data().get(128, 0), 8.);
    assert_eq!(merged.data().get(128 + 21, 0), 8.);
    assert!(merged.data().get(128 + 22, 0).is_nan());
    assert!(merged.data().get(255, 0).is_nan());
    assert!(merged.data().get(0, 128).is_nan());
}

#[test]
fn pyramid_of_a_ramp() {
    // 512 x 512 samples, value = row * 512 + column, tiles of 256
    let n = 512;
    let size = 256;
    let data: Vec<f64> = (0..n * n).map(|i| i as f64).collect();
    let mut agg = PyramidAggregator::new(0, 1);
    let mut top = None;
    for ty in 0..2 {
        let x = Axis::new(0, 1, 1, n, n).unwrap();
        let y = Axis::new(0, 1, 1, size, size).unwrap();
        let chunk = ChunkConfig::new(x, y, (size, size)).unwrap();
        let band = &data[ty * size * n..(ty + 1) * size * n];
        let grids = resample(&chunk, size, 2, band, n);
        let tiles: Vec<Tile<f64>> = grids
            .iter()
            .enumerate()
            .map(|(tx, g)| Tile::from_aggregate(g, (tx, ty), &finish))
            .collect();
        // each base tile spans its quarter of the ramp
        for (tx, t) in tiles.iter().enumerate() {
            let first = (ty * size * n + tx * size) as f64;
            let last = ((ty * size + size - 1) * n + tx * size + size - 1) as f64;
            assert_eq!(t.data().get(0, 0), first);
            assert_eq!(t.data().get(size - 1, size - 1), last);
        }
        if ty == 1 {
            assert_eq!(tiles[1].data().get(size - 1, size - 1), 262143.);
        }
        let ts = TileSet::try_new(1, (0, 2), ty, tiles).unwrap();
        match agg.offer(ts, NAN, &average).unwrap() {
            Step::Stored => assert_eq!(ty, 0),
            Step::Merged(out) => {
                assert_eq!(ty, 1);
                top = Some(out);
            }
            Step::Done => panic!("a base row is not done"),
        }
    }
    let top = top.unwrap();
    assert_eq!((top.zoom(), top.y(), top.xrange()), (0, 0, (0, 1)));
    assert_eq!(top.tiles().len(), 1);
    let t = &top.tiles()[0];
    assert_eq!(t.coords(), (0, 0));
    assert_eq!(t.data().dim(), (size, size));
    // each quadrant of the top tile averages to the mean of its quarter of the ramp
    for qy in 0..2 {
        for qx in 0..2 {
            let mut sum = 0.;
            for r in qy * size..(qy + 1) * size {
                for c in qx * size..(qx + 1) * size {
                    sum += data[r * n + c];
                }
            }
            let source_mean = sum / (size * size) as f64;
            let half = size / 2;
            let quadrant = mean(t, qy * half..(qy + 1) * half, qx * half..(qx + 1) * half);
            assert_eq!(quadrant, source_mean);
        }
    }
    assert!(matches!(agg.offer(top, NAN, &average), Ok(Step::Done)));
    assert!(agg.is_empty());
}

#[test]
fn chunk_processor_sets_up_both_axes() {
    let cfg = sample_config();
    let proc = cfg.base_proc(13);
    let ((off, size), tile_y) = (proc.pixel_window(4097, &cfg), 4097);
    let chunk = proc.chunk_processor(tile_y, &cfg, off, size).unwrap();
    assert_eq!(chunk.data_size(), (1024, 512));
    // a source pixel is (2^20 - 1) / 1024 cells wide, a tile pixel 2^19 / 256:
    // in units of a cell / (1024 * 256) they measure (2^20 - 1) * 256 and 2^29
    assert_eq!(chunk.pixel_area(), ((1u128 << 20) - 1) * 256 * ((1u128 << 20) - 1) * 256);
    assert_eq!(chunk.cell_area(), 1u128 << 58);
    // every contribution lands in one of the two tiles, within the tile
    let ok = chunk.process_pixel(1023, 511, true, &|ok: bool, tile: (usize, usize), cell: (usize, usize), _s, w: u128| {
        ok && tile.0 < 2 && tile.1 == 0 && cell.0 < 256 && cell.1 < 256 && w > 0
    });
    assert!(ok);
    // off the grid, or beyond the limits
    assert!(proc.chunk_processor(1 << 13, &cfg, off, size).is_none());
    assert!(proc.chunk_processor(tile_y, &cfg, (-1, 0), size).is_none());
    assert!(proc.chunk_processor(tile_y, &cfg, off, (usize::MAX, 1)).is_none());
    assert!(RowProc::new(13, 0, (4096, 4098)).chunk_processor(tile_y, &cfg, off, size).is_none());
}

#[test]
fn weights_reaching_a_covered_tile_pixel_add_up_to_its_area() {
    for (step, cell) in [(3u64, 2u64), (2, 3), (5, 5), (7, 4)] {
        let tile_size = 4;
        let tiles = 2;
        let cells = tile_size * tiles;
        let count_x = (cells as u64 * cell).div_ceil(step) as usize;
        let count_y = (tile_size as u64 * cell).div_ceil(step) as usize;
        let x = Axis::new(0, step, cell, cells, count_x).unwrap();
        let y = Axis::new(0, step, cell, tile_size, count_y).unwrap();
        let chunk = ChunkConfig::new(x, y, (tile_size, tile_size)).unwrap();
        let init = vec![0u128; cells * tile_size];
        let totals = chunk.process(init, &|mut acc: Vec<u128>, tile: (usize, usize), cell: (usize, usize), _s, w: u128| {
            acc[cell.1 * cells + tile.0 * tile_size + cell.0] += w;
            acc
        });
        for total in totals {
            assert_eq!(total, chunk.cell_area());
        }
    }
}
