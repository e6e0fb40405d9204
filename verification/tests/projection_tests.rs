use exam_paper_detector::projection::{column_projection, find_nonzero_ranges, row_projection, text_bands};

#[test]
fn test_find_nonzero_ranges_runs() {
    let proj = vec![0u32, 1, 1, 0, 2, 0, 0, 3];
    assert_eq!(find_nonzero_ranges(&proj), vec![(1usize, 3usize), (4, 5), (7, 8)]);
}

#[test]
fn test_find_nonzero_ranges_edges() {
    assert_eq!(find_nonzero_ranges(&[]), Vec::<(usize, usize)>::new());
    assert_eq!(find_nonzero_ranges(&[0, 0, 0]), Vec::<(usize, usize)>::new());
    assert_eq!(find_nonzero_ranges(&[5, 5, 5]), vec![(0usize, 3usize)]);
    assert_eq!(find_nonzero_ranges(&[7]), vec![(0usize, 1usize)]);
}

#[test]
fn test_row_and_column_projection() {
    // 3 rows x 4 columns
    let map: Vec<u8> = vec![
        0, 255, 255, 0, //
        0, 0, 0, 0, //
        9, 0, 255, 0,
    ];
    assert_eq!(row_projection(&map, 3, 4), vec![2u32, 0, 2]);
    assert_eq!(column_projection(&map, 3, 4, 0, 3), vec![1u32, 1, 2, 0]);
    assert_eq!(column_projection(&map, 3, 4, 1, 2), vec![0u32, 0, 0, 0]);
    assert_eq!(column_projection(&map, 3, 4, 2, 3), vec![1u32, 0, 1, 0]);
}

#[test]
fn test_text_bands_split_rows_then_columns() {
    // 5 rows x 6 columns: two text rows; the first has two words.
    let map: Vec<u8> = vec![
        255, 255, 0, 0, 255, 0, //
        255, 0, 0, 0, 255, 0, //
        0, 0, 0, 0, 0, 0, //
        0, 0, 255, 255, 255, 0, //
        0, 0, 0, 0, 0, 0,
    ];
    assert_eq!(text_bands(&map, 5, 6), vec![(0usize, 2usize, 0usize, 2usize), (0, 2, 4, 5), (3, 4, 2, 5)]);
}

#[test]
fn test_text_bands_empty_map() {
    let map: Vec<u8> = vec![0; 12];
    assert!(text_bands(&map, 3, 4).is_empty());
}
