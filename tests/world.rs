use raytracer::world::{alignment_to_coordinates, assemble_chunks, pixel_count, split_range};

fn bounds(length: usize, div: usize) -> Vec<(usize, usize)> {
    split_range(length, div)
        .into_iter()
        .map(|r| (r.start, r.end))
        .collect()
}

#[test]
fn split_range_puts_remainder_last() {
    assert_eq!(bounds(10, 3), vec![(0, 3), (3, 6), (6, 10)]);
}

#[test]
fn split_range_even_division() {
    assert_eq!(bounds(12, 4), vec![(0, 3), (3, 6), (6, 9), (9, 12)]);
}

#[test]
fn split_range_single_worker_takes_everything() {
    assert_eq!(bounds(7, 1), vec![(0, 7)]);
}

#[test]
fn split_range_more_workers_than_pixels() {
    assert_eq!(bounds(3, 5), vec![(0, 0), (0, 0), (0, 0), (0, 0), (0, 3)]);
}

#[test]
fn split_range_empty_length() {
    assert_eq!(bounds(0, 2), vec![(0, 0), (0, 0)]);
}

#[test]
fn split_range_covers_without_overlap() {
    for length in 0..40usize {
        for div in 1..9usize {
            let ranges = split_range(length, div);
            assert_eq!(ranges.len(), div);
            assert_eq!(ranges[0].start, 0);
            assert_eq!(ranges[div - 1].end, length);
            for i in 0..div - 1 {
                assert_eq!(ranges[i].end, ranges[i + 1].start);
                assert_eq!(ranges[i].len(), length / div);
            }
            assert_eq!(ranges[div - 1].len(), length / div + length % div);
        }
    }
}

#[test]
fn alignment_to_coordinates_row_major() {
    assert_eq!(alignment_to_coordinates(0, 4), (0, 0));
    assert_eq!(alignment_to_coordinates(3, 4), (3, 0));
    assert_eq!(alignment_to_coordinates(4, 4), (0, 1));
    assert_eq!(alignment_to_coordinates(11, 4), (3, 2));
    assert_eq!(alignment_to_coordinates(5, 1), (0, 5));
}

#[test]
fn assemble_chunks_keeps_order() {
    let chunks = vec![vec![1u32, 2], vec![], vec![3], vec![4, 5, 6]];
    assert_eq!(assemble_chunks(chunks), vec![1, 2, 3, 4, 5, 6]);
}

#[test]
fn assemble_chunks_of_nothing() {
    let chunks: Vec<Vec<u8>> = vec![];
    assert!(assemble_chunks(chunks).is_empty());
}

#[test]
fn reassembled_pixels_independent_of_worker_count() {
    let (width, height) = (5usize, 3usize);
    let expected: Vec<(usize, usize)> = (0..width * height)
        .map(|i| alignment_to_coordinates(i, width))
        .collect();
    for workers in 1..=20usize {
        let chunks: Vec<Vec<(usize, usize)>> = split_range(width * height, workers)
            .into_iter()
            .map(|r| r.map(|i| alignment_to_coordinates(i, width)).collect())
            .collect();
        let pixels = assemble_chunks(chunks);
        assert_eq!(pixels.len(), width * height);
        assert_eq!(pixels, expected);
    }
}

#[test]
fn pixel_count_is_width_times_height() {
    assert_eq!(pixel_count(512, 288), Some(147456));
    assert_eq!(pixel_count(1, 1), Some(1));
    assert_eq!(pixel_count(0, 7), Some(0));
    let big = u32::MAX as u128 * u32::MAX as u128;
    let expected = if big <= usize::MAX as u128 { Some(big as usize) } else { None };
    assert_eq!(pixel_count(u32::MAX, u32::MAX), expected);
}
