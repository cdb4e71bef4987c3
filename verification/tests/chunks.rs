use rasters::chunks::{loaded_part, next_buffer, offsets_iterator as offsets, size_with_padding as padded_size};

#[test]
fn size_with_padding() {
    assert_eq!(padded_size(10, 5, 3), 20,);
    assert_eq!(padded_size(1, 0, 3), 7,);
}

#[test]
fn offsets_iterator() {
    let offsets: Vec<_> = offsets(1, 3, 1, 14);
    assert_eq!(
        offsets,
        vec![(1, 3, 0), (4, 3, 2), (7, 3, 2), (10, 3, 2), (13, 1, 2)]
    );
}

#[test]
fn offsets_of_an_empty_range() {
    assert_eq!(offsets(0, 4, 5, 5), vec![]);
    assert_eq!(offsets(0, 4, 6, 5), vec![]);
}

#[test]
fn offsets_of_a_whole_number_of_chunks() {
    assert_eq!(offsets(0, 4, 0, 8), vec![(0, 4, 0), (4, 4, 0)]);
    assert_eq!(offsets(1, 5, -5, 5), vec![(-5, 5, 0), (0, 5, 2)]);
}

#[test]
fn size_with_padding_is_a_multiple_of_the_block() {
    assert_eq!(padded_size(8, 8, 0), 8);
    assert_eq!(padded_size(8, 9, 0), 16);
    assert_eq!(padded_size(8, 1, 4), 16);
    assert_eq!(padded_size(3, 7, 1), 9);
}

#[test]
fn next_buffer_carries_the_tail_over() {
    let prev = vec![1, 2, 3, 4, 5, 6];
    // rows are 2 wide: carry 1 row, load 2 rows
    let out = next_buffer(&prev, 1, 2, 2, 0);
    assert_eq!(out, vec![5, 6, 0, 0, 0, 0]);
    let first = next_buffer(&Vec::<i32>::new(), 0, 2, 2, 9);
    assert_eq!(first, vec![9, 9, 9, 9]);
    assert_eq!(loaded_part(&out, 2), vec![0, 0, 0, 0]);
    assert_eq!(loaded_part(&prev, 6), Vec::<i32>::new());
}
