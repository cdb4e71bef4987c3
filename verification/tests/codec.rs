use rasters::grid::Grid;
use rasters::tiling::codec::{decode, decode_code, encode, encode_level, quantize as quantize_whole, BINS};
use rasters::tiling::dem::Tile;
use rasters::tiling::index::{key_list, Index, YIndex};
use std::collections::HashMap;

/// The level of a value between `min` and `max`: the number of whole steps
/// above `min`, the value held to the range first.
fn quantize(val: f64, min: f64, max: f64) -> Option<u16> {
    if val.is_nan() {
        return None;
    }
    let val = if val < min {
        min
    } else if val > max {
        max
    } else {
        val
    };
    let coeff = BINS as f64 / (max - min);
    Some(((val - min) * coeff).floor() as u16)
}

fn reconstruct(level: Option<u16>, min: f64, max: f64) -> f64 {
    match level {
        None => f64::NAN,
        Some(l) => min + (max - min) * l as f64 / BINS as f64,
    }
}

#[test]
fn code_zero_stands_for_no_data() {
    assert_eq!(encode_level(None), 0);
    assert_eq!(decode_code(0), None);
}

#[test]
fn levels_are_stored_one_higher() {
    assert_eq!(encode_level(Some(0)), 1);
    assert_eq!(encode_level(Some(1)), 2);
    assert_eq!(encode_level(Some(65534)), 65535);
    // the top level shares the top code
    assert_eq!(encode_level(Some(65535)), 65535);
    assert_eq!(decode_code(1), Some(0));
    assert_eq!(decode_code(65535), Some(65534));
}

#[test]
fn codes_are_written_most_significant_byte_first() {
    let bytes = encode(&vec![None, Some(0), Some(255), Some(256), Some(65535)]);
    assert_eq!(bytes, vec![0, 0, 0, 1, 1, 0, 1, 1, 255, 255]);
    assert_eq!(encode(&vec![]), Vec::<u8>::new());
}

#[test]
fn decode_reads_pairs_of_bytes() {
    assert_eq!(
        decode(&vec![0, 0, 0, 1, 1, 0, 255, 255]),
        vec![None, Some(0), Some(255), Some(65534)]
    );
    // an odd last byte is left over
    assert_eq!(decode(&vec![0, 2, 7]), vec![Some(1)]);
    assert_eq!(decode(&vec![]), vec![]);
}

#[test]
fn round_trip_keeps_every_level_but_the_top() {
    let levels: Vec<Option<u16>> = (0..=65535u32)
        .map(|l| Some(l as u16))
        .chain(std::iter::once(None))
        .collect();
    let back = decode(&encode(&levels));
    assert_eq!(back.len(), levels.len());
    for (sent, got) in levels.iter().zip(&back) {
        match sent {
            None => assert_eq!(*got, None),
            Some(65535) => assert_eq!(*got, Some(65534)),
            Some(l) => assert_eq!(*got, Some(*l)),
        }
    }
}

#[test]
fn round_trip_error_is_within_one_step() {
    let (min, max) = (-3.5, 120.25);
    let step = (max - min) / BINS as f64;
    let mut values: Vec<f64> = (0..=1000).map(|i| min + (max - min) * i as f64 / 1000.).collect();
    values.extend([min, max, min + step / 2., max - step / 3., f64::NAN]);
    let levels: Vec<Option<u16>> = values.iter().map(|v| quantize(*v, min, max)).collect();
    let back = decode(&encode(&levels));
    for (v, l) in values.iter().zip(&back) {
        let r = reconstruct(*l, min, max);
        if v.is_nan() {
            assert!(r.is_nan());
        } else {
            assert!((v - r).abs() <= step * (1. + 1e-9), "{} came back as {}", v, r);
        }
    }
}

#[test]
fn values_outside_the_range_are_held_to_it() {
    assert_eq!(quantize(-10., 0., 1.), Some(0));
    assert_eq!(quantize(10., 0., 1.), Some(65535));
    assert_eq!(encode_level(quantize(10., 0., 1.)), 65535);
}

#[test]
fn row_index_records_and_replaces() {
    let mut idx = YIndex::new(7);
    assert_eq!(idx.y(), 7);
    assert_eq!(idx.get(3), None);
    idx.add_to_index(3, 'a');
    idx.add_to_index(5, 'b');
    idx.add_to_index(3, 'c');
    assert_eq!(idx.get(3), Some('c'));
    assert_eq!(idx.get(5), Some('b'));
    let mut xs = idx.columns();
    xs.sort();
    assert_eq!(xs, vec![3, 5]);
}

#[test]
fn row_index_combine_prefers_the_other() {
    let mut a = YIndex::new(7);
    a.add_to_index(1, 10);
    a.add_to_index(2, 20);
    let mut b = YIndex::new(7);
    b.add_to_index(2, 21);
    b.add_to_index(3, 31);
    a.combine(&b);
    assert_eq!((a.get(1), a.get(2), a.get(3)), (Some(10), Some(21), Some(31)));
    let copy = a.duplicate();
    assert_eq!(copy.y(), 7);
    assert_eq!((copy.get(1), copy.get(2), copy.get(3), copy.get(4)), (Some(10), Some(21), Some(31), None));
}

#[test]
fn key_list_has_every_key_once() {
    let mut m = HashMap::new();
    for k in [5usize, 1, 9, 3] {
        m.insert(k, ());
    }
    let mut keys = key_list(&m);
    keys.sort();
    assert_eq!(keys, vec![1, 3, 5, 9]);
    assert_eq!(key_list(&HashMap::<usize, u8>::new()), vec![]);
}

fn row_index(y: usize, entries: &[(usize, u32)]) -> YIndex<u32> {
    let mut idx = YIndex::new(y);
    for (x, s) in entries {
        idx.add_to_index(*x, *s);
    }
    idx
}

fn lookup(index: &Index<u32>, zoom: usize, y: usize, x: usize) -> Option<u32> {
    index.row(zoom, y).and_then(|r| r.get(x))
}

#[test]
fn index_files_rows_by_zoom() {
    let mut index = Index::new();
    assert_eq!(index.zooms(), vec![]);
    assert_eq!(index.rows(4), vec![]);
    index.update_index(4, row_index(2, &[(0, 1), (1, 2)]));
    index.update_index(4, row_index(3, &[(0, 3)]));
    index.update_index(3, row_index(1, &[(0, 4)]));
    let mut zooms = index.zooms();
    zooms.sort();
    assert_eq!(zooms, vec![3, 4]);
    let mut rows = index.rows(4);
    rows.sort();
    assert_eq!(rows, vec![2, 3]);
    assert_eq!(lookup(&index, 4, 2, 1), Some(2));
    assert_eq!(lookup(&index, 4, 3, 0), Some(3));
    assert_eq!(lookup(&index, 3, 1, 0), Some(4));
    assert_eq!(lookup(&index, 3, 2, 0), None);
    assert_eq!(lookup(&index, 5, 0, 0), None);
    // a row filed again replaces the row filed before
    index.update_index(4, row_index(2, &[(5, 9)]));
    assert_eq!(lookup(&index, 4, 2, 1), None);
    assert_eq!(lookup(&index, 4, 2, 5), Some(9));
}

#[test]
fn index_merge_is_a_union_by_zoom_and_row() {
    let mut a = Index::new();
    a.update_index(4, row_index(2, &[(0, 1)]));
    a.update_index(3, row_index(1, &[(0, 2)]));
    let mut b = Index::new();
    b.update_index(4, row_index(3, &[(0, 3)]));
    b.update_index(4, row_index(2, &[(1, 4)]));
    b.update_index(2, row_index(0, &[(0, 5)]));
    a.merge(&b);
    let mut zooms = a.zooms();
    zooms.sort();
    assert_eq!(zooms, vec![2, 3, 4]);
    assert_eq!(lookup(&a, 2, 0, 0), Some(5));
    assert_eq!(lookup(&a, 3, 1, 0), Some(2));
    assert_eq!(lookup(&a, 4, 3, 0), Some(3));
    // the row that both hold is the row of the other
    assert_eq!(lookup(&a, 4, 2, 1), Some(4));
    assert_eq!(lookup(&a, 4, 2, 0), None);
    // the other is as it was
    assert_eq!(lookup(&b, 4, 2, 1), Some(4));
}

#[test]
fn tile_bytes_are_the_codes_row_by_row() {
    let tile = Tile::new(
        Grid::from_vec(2, 2, vec![0., 0.5, f64::NAN, 1.]).unwrap(),
        (0, 0),
    );
    let range = tile.value_range((f64::INFINITY, f64::NEG_INFINITY), &|(lo, hi): (f64, f64), v: f64| {
        if v.is_nan() {
            (lo, hi)
        } else {
            (lo.min(v), hi.max(v))
        }
    });
    assert_eq!(range, (0., 1.));
    let bytes = tile.to_bytes(&|v: f64| quantize(v, range.0, range.1));
    // levels 0, 32767, none, 65535 are stored as codes 1, 32768, 0, 65535
    assert_eq!(bytes, vec![0, 1, 0x80, 0, 0, 0, 0xff, 0xff]);
    let order = tile.value_range(vec![], &|mut seen: Vec<u64>, v: f64| {
        seen.push(v.to_bits());
        seen
    });
    assert_eq!(
        order,
        vec![0f64.to_bits(), 0.5f64.to_bits(), f64::NAN.to_bits(), 1f64.to_bits()]
    );
}

#[test]
fn whole_numbers_are_quantized_exactly() {
    assert_eq!(quantize_whole(0, 0, 10), 0);
    assert_eq!(quantize_whole(5, 0, 10), 32767);
    assert_eq!(quantize_whole(9, 0, 10), 58981);
    assert_eq!(quantize_whole(10, 0, 10), 65535);
    // held to the range
    assert_eq!(quantize_whole(-3, 0, 10), 0);
    assert_eq!(quantize_whole(11, 0, 10), 65535);
    assert_eq!(quantize_whole(i64::MAX, i64::MIN, i64::MAX), 65535);
    assert_eq!(quantize_whole(0, i64::MIN, i64::MAX), 32767);
}

#[test]
fn whole_numbers_come_back_within_one_step() {
    for (min, max) in [(0i64, 10i64), (-1000, 1000), (5, 6), (0, 65535), (-7, 1_000_003)] {
        let step = (max - min).min(2001) as usize / 200 + 1;
        for v in (min..=max).step_by(step).chain([max]) {
            let level = quantize_whole(v, min, max);
            let stored = decode_code(encode_level(Some(level))).unwrap() as i128;
            // 65535 times the distance from the value that the stored level stands for
            let off = (v - min) as i128 * 65535 - stored * (max - min) as i128;
            assert!(0 <= off && off <= (max - min) as i128);
        }
    }
}

#[test]
fn tile_range_and_held_bytes() {
    let tile = Tile::new(
        Grid::from_vec(2, 3, vec![0.25, f64::NAN, -1., 3., 0.5, f64::NAN]).unwrap(),
        (0, 0),
    );
    let is_nan = |v: f64| v.is_nan();
    let range = tile.data_range(
        (f64::INFINITY, f64::NEG_INFINITY),
        &is_nan,
        &f64::min,
        &f64::max,
    );
    assert_eq!(range, (-1., 3.));
    // held to the range 0..1, in steps of a tenth
    let bytes = tile.to_bytes_held(
        0.,
        1.,
        &is_nan,
        &|a: f64, b: f64| a < b,
        &|held: f64| (held * 10.).floor() as u16,
    );
    // levels 2, none, 0, 10, 5, none are stored as codes 3, 0, 1, 11, 6, 0
    assert_eq!(bytes, vec![0, 3, 0, 0, 0, 1, 0, 11, 0, 6, 0, 0]);
    // a tile without data keeps the range it started from
    let empty = Tile::new(Grid::from_elem(2, 2, f64::NAN), (0, 0));
    assert_eq!(
        empty.data_range((7., -7.), &is_nan, &f64::min, &f64::max),
        (7., -7.)
    );
}
