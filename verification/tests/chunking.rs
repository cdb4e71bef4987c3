use rasters::chunking::{gcd, lcm, mod_ceil, ChunkConfig};

fn check_cfg(cfg: ChunkConfig, output: Vec<(usize, usize)>) {
    assert_eq!(cfg.iter(), output);
}

#[test]
fn test_simple() {
    check_cfg(
        ChunkConfig::with_dims(32, 20)
            .add_block_size(2)
            .with_padding(7)
            .with_end(10),
        vec![(0, 16), (2, 15)],
    )
}

#[test]
fn test_same_output() {
    let cfg = ChunkConfig::with_dims(1024, 1024)
        .add_block_size(7)
        .with_min_data_size(0x1000)
        .with_padding(3)
        .with_start(13)
        .with_end(999);

    let output1: Vec<(usize, usize)> = cfg.iter();

    let output2 = cfg.par_iter();

    assert_eq!(output1, output2);
    // the chunks are many, and they differ: an order that is not kept shows
    assert!(output1.len() > 100);
    assert!(output1.windows(2).all(|w| w[0].0 < w[1].0));
}

#[test]
fn mod_ceil_is_the_next_multiple() {
    assert_eq!(mod_ceil(0, 5), 0);
    assert_eq!(mod_ceil(1, 5), 5);
    assert_eq!(mod_ceil(5, 5), 5);
    assert_eq!(mod_ceil(6, 5), 10);
    assert_eq!(mod_ceil(16, 2), 16);
    assert_eq!(mod_ceil(17, 1), 17);
}

#[test]
fn gcd_and_lcm_values() {
    assert_eq!(gcd(12, 18), 6);
    assert_eq!(gcd(18, 12), 6);
    assert_eq!(gcd(7, 0), 7);
    assert_eq!(gcd(0, 7), 7);
    assert_eq!(gcd(0, 0), 0);
    assert_eq!(gcd(17, 5), 1);
    assert_eq!(lcm(4, 6), 12);
    assert_eq!(lcm(1, 7), 7);
    assert_eq!(lcm(7, 7), 7);
    assert_eq!(lcm(3, 5), 15);
    assert_eq!(lcm(0, 5), 0);
    assert_eq!(lcm(5, 0), 0);
}

#[test]
fn builder_keeps_its_invariants() {
    let cfg = ChunkConfig::with_dims(100, 50);
    assert_eq!((cfg.width(), cfg.height()), (100, 50));
    assert_eq!((cfg.block_size(), cfg.data_height(), cfg.padding()), (1, 1, 0));
    assert_eq!((cfg.start(), cfg.end()), (0, 50));

    let cfg = cfg.add_block_size(4).add_block_size(6);
    assert_eq!(cfg.block_size(), 12);
    assert_eq!(cfg.data_height(), 12);

    let cfg = cfg.with_min_data_height(13);
    assert_eq!(cfg.data_height(), 24);
    let cfg = cfg.with_min_data_height(0);
    assert_eq!(cfg.data_height(), 12);

    // 250 pixels at 100 per row need 3 rows, rounded up to one block
    let cfg = cfg.with_min_data_size(250);
    assert_eq!(cfg.data_height(), 12);
    let cfg = cfg.with_min_data_size(1201);
    assert_eq!(cfg.data_height(), 24);

    let cfg = cfg.with_padding(5);
    assert_eq!((cfg.padding(), cfg.start()), (5, 5));
    let cfg = cfg.with_start(2);
    assert_eq!(cfg.start(), 5);
    let cfg = cfg.with_start(9);
    assert_eq!(cfg.start(), 9);
    let cfg = cfg.with_end(1000);
    assert_eq!(cfg.end(), 50);
    let cfg = cfg.with_end(40);
    assert_eq!(cfg.end(), 40);
}

#[test]
fn no_chunks_where_start_is_not_before_end() {
    let cfg = ChunkConfig::with_dims(8, 8).with_start(5).with_end(5);
    assert_eq!(cfg.calc_initial_chunk(), [0, 0, 0]);
    assert_eq!(cfg.count(), 0);
    assert_eq!(cfg.iter(), vec![]);
}

#[test]
fn chunks_without_padding_tile_the_rows() {
    let cfg = ChunkConfig::with_dims(4, 10).add_block_size(4);
    assert_eq!(cfg.calc_initial_chunk(), [3, 4, 4]);
    assert_eq!(cfg.iter(), vec![(0, 4), (4, 4), (8, 2)]);
}

#[test]
fn chunks_stay_within_the_raster() {
    for height in 1..40usize {
        for block in 1..5usize {
            for padding in 0..4usize {
                let cfg = ChunkConfig::with_dims(3, height)
                    .add_block_size(block)
                    .with_min_data_height(5)
                    .with_padding(padding);
                let windows = cfg.iter();
                assert_eq!(windows.len(), cfg.count());
                for (i, (start, size)) in windows.iter().enumerate() {
                    assert!(start + size <= height);
                    assert_eq!((*start, *size), cfg.window(i));
                }
            }
        }
    }
}

#[test]
fn raster_too_short_for_the_padding_is_one_chunk() {
    let cfg = ChunkConfig::with_dims(4, 6).with_padding(4);
    // rows 4..6 are data, and only 2 rows of padding are left below
    assert_eq!(cfg.calc_initial_chunk(), [1, 4, 6]);
    assert_eq!(cfg.iter(), vec![(0, 6)]);
}
