use exam_paper_detector::bitmap::Bitmap;
use exam_paper_detector::block_detection::BlockDetector;
use exam_paper_detector::components::find_connected_components;
use exam_paper_detector::geometry::Rect;
use exam_paper_detector::sorting::stable_order;
use exam_paper_detector::union_find::UnionFind;

fn page_with_boxes(width: u32, height: u32, boxes: &[(u32, u32, u32, u32)]) -> Bitmap {
    let mut img = Bitmap::filled(width, height, 255);
    for &(x0, y0, x1, y1) in boxes {
        for y in y0..y1 {
            for x in x0..x1 {
                img.put_pixel(x, y, 0);
            }
        }
    }
    img
}

#[test]
fn test_filter_noise() {
    let detector = BlockDetector::default();
    let blocks = vec![
        Rect::new(0, 0, 5, 5),
        Rect::new(10, 10, 50, 30),
        Rect::new(100, 100, 100, 50),
    ];
    let filtered = detector.filter_noise(&blocks);
    assert_eq!(filtered.len(), 2);
}

#[test]
fn test_group_into_lines() {
    let detector = BlockDetector::default();
    let blocks = vec![
        Rect::new(0, 10, 50, 20),
        Rect::new(60, 12, 50, 20),
        Rect::new(0, 100, 50, 20),
        Rect::new(60, 102, 50, 20),
    ];
    let lines = detector.group_into_lines(&blocks, 10);
    assert_eq!(lines.len(), 2);
    assert_eq!(lines[0].len(), 2);
    assert_eq!(lines[1].len(), 2);
}

#[test]
fn components_of_two_separate_marks() {
    let img = page_with_boxes(40, 30, &[(2, 2, 6, 5), (20, 10, 30, 20)]);
    let mut rects = find_connected_components(&img);
    rects.sort_by_key(|r| (r.y, r.x));
    assert_eq!(rects.len(), 2);
    assert_eq!((rects[0].x, rects[0].y, rects[0].width, rects[0].height), (2, 2, 4, 3));
    assert_eq!((rects[1].x, rects[1].y, rects[1].width, rects[1].height), (20, 10, 10, 10));
}

#[test]
fn diagonal_pixels_are_one_component() {
    let mut img = Bitmap::filled(10, 10, 255);
    img.put_pixel(3, 3, 0);
    img.put_pixel(4, 4, 0);
    img.put_pixel(5, 5, 0);
    let rects = find_connected_components(&img);
    assert_eq!(rects.len(), 1);
    assert_eq!((rects[0].x, rects[0].y, rects[0].width, rects[0].height), (3, 3, 3, 3));
}

#[test]
fn blank_page_has_no_blocks() {
    let img = Bitmap::filled(50, 50, 255);
    let detector = BlockDetector::new();
    assert!(detector.detect(&img).is_empty());
    assert!(find_connected_components(&img).is_empty());
}

#[test]
fn detect_finds_words_and_skips_specks() {
    let img = page_with_boxes(300, 200, &[(10, 10, 60, 30), (1, 150, 3, 152), (100, 100, 200, 130)]);
    let detector = BlockDetector::new();
    let blocks = detector.detect(&img);
    assert_eq!(blocks.len(), 2);
    for (i, b) in blocks.iter().enumerate() {
        assert_eq!(b.id, i);
        assert!(b.bbox.width >= 10 && b.bbox.height >= 10);
    }
}

#[test]
fn merge_horizontal_neighbors_joins_close_boxes() {
    let detector = BlockDetector::new();
    let line = vec![Rect::new(0, 0, 10, 10), Rect::new(12, 0, 10, 10), Rect::new(100, 0, 10, 10)];
    let merged = detector.merge_horizontal_neighbors(&line, 5);
    assert_eq!(merged.len(), 2);
    assert_eq!((merged[0].x, merged[0].width), (0, 22));
    assert_eq!((merged[1].x, merged[1].width), (100, 10));
}

#[test]
fn single_column_page_has_one_column() {
    let img = page_with_boxes(200, 100, &[(10, 10, 190, 30), (10, 50, 190, 70)]);
    let detector = BlockDetector::new();
    let blocks = detector.detect(&img);
    let columns = detector.detect_columns(&blocks, 200);
    assert_eq!(columns.len(), 1);
    assert_eq!((columns[0].x_start, columns[0].x_end), (0, 200));
}

#[test]
fn two_column_page_has_two_columns() {
    let img = page_with_boxes(400, 100, &[(10, 10, 150, 30), (10, 50, 150, 70), (250, 10, 390, 30), (250, 50, 390, 70)]);
    let detector = BlockDetector::new();
    let blocks = detector.detect(&img);
    let columns = detector.detect_columns(&blocks, 400);
    assert_eq!(columns.len(), 2);
    assert!(columns[0].x_end <= columns[1].x_start);
    assert_eq!(columns[1].x_end, 400);
}

#[test]
fn stable_order_keeps_ties_in_place() {
    let keys = vec![3, 1, 3, 0, 1];
    let order = stable_order(&keys);
    assert_eq!(order, vec![3, 1, 4, 0, 2]);
}

#[test]
fn union_find_joins_sets() {
    let mut uf = UnionFind::new();
    for i in 0..5 {
        uf.make_set(i);
    }
    uf.union(0, 1);
    uf.union(3, 4);
    assert_eq!(uf.find(0), uf.find(1));
    assert_eq!(uf.find(3), uf.find(4));
    assert_ne!(uf.find(1), uf.find(3));
    uf.union(1, 4);
    assert_eq!(uf.find(0), uf.find(3));
    assert_ne!(uf.find(2), uf.find(0));
}

#[test]
fn columns_tile_the_page_from_left_to_right() {
    // A left margin wider than a twentieth of the page closes an empty first column.
    let img = page_with_boxes(400, 100, &[(50, 10, 150, 30), (250, 10, 390, 30)]);
    let detector = BlockDetector::new();
    let blocks = detector.detect(&img);
    let columns = detector.detect_columns(&blocks, 400);
    let spans: Vec<(usize, i64, i64)> = columns.iter().map(|c| (c.index, c.x_start, c.x_end)).collect();
    assert_eq!(spans, vec![(0, 0, 0), (1, 0, 150), (2, 150, 400)]);
    for k in 0..columns.len() {
        assert!(columns[k].x_start <= columns[k].x_end);
        if k + 1 < columns.len() {
            assert_eq!(columns[k].x_end, columns[k + 1].x_start);
        }
    }
}

#[test]
fn components_are_the_eight_connected_groups() {
    // (2, 0) joins through a label union, (3, 2) through a diagonal neighbour.
    let img = Bitmap {
        width: 5,
        height: 3,
        pixels: vec![0, 255, 0, 255, 0, 0, 0, 0, 255, 255, 255, 255, 255, 0, 255],
    };
    let mut rects: Vec<(i64, i64, i64, i64)> =
        find_connected_components(&img).iter().map(|r| (r.x, r.y, r.width, r.height)).collect();
    rects.sort();
    assert_eq!(rects, vec![(0, 0, 4, 3), (4, 0, 1, 1)]);
}

#[test]
fn union_keeps_the_root_of_higher_rank() {
    let mut uf = UnionFind::new();
    for i in 0..5 {
        uf.make_set(i);
    }
    uf.union(0, 1);
    assert_eq!(uf.find(1), 0);
    // rank 0 goes below rank 1
    uf.union(2, 0);
    assert_eq!(uf.find(2), 0);
    uf.union(3, 4);
    assert_eq!(uf.find(4), 3);
    // equal ranks: the root of the first argument stays
    uf.union(3, 0);
    assert_eq!(uf.find(0), 3);
    assert_eq!(uf.find(2), 3);
}

#[test]
fn make_set_resets_a_registered_label() {
    let mut uf = UnionFind::new();
    for i in 0..3 {
        uf.make_set(i);
    }
    uf.union(0, 1);
    uf.union(0, 2);
    assert_eq!(uf.find(2), 0);
    uf.make_set(0);
    assert_eq!(uf.find(0), 0);
    uf.make_set(1);
    assert_eq!(uf.find(1), 1);
    assert_eq!(uf.find(2), 0);
}
