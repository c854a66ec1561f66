use image_packer::{ImageLayoutInfo, Rect, Spaces};

fn rect(x: usize, y: usize, w: usize, h: usize) -> Rect {
    Rect { size: [w, h], position: [x, y] }
}

#[test]
fn intersection_is_of_interiors() {
    let a = rect(0, 0, 10, 10);
    assert!(a.has_intersection(&rect(5, 5, 10, 10)));
    assert!(a.has_intersection(&rect(2, 2, 2, 2)));
    assert!(!a.has_intersection(&rect(10, 0, 5, 5)));
    assert!(!a.has_intersection(&rect(0, 10, 5, 5)));
    assert!(!a.has_intersection(&rect(20, 20, 5, 5)));
    assert!(rect(9, 9, 1, 1).has_intersection(&a));
}

#[test]
fn includes_checks_every_edge() {
    let a = rect(2, 2, 6, 6);
    assert!(a.includes(&rect(2, 2, 6, 6)));
    assert!(a.includes(&rect(3, 3, 1, 1)));
    assert!(!a.includes(&rect(1, 2, 2, 2)));
    assert!(!a.includes(&rect(2, 1, 2, 2)));
    assert!(!a.includes(&rect(7, 2, 2, 2)));
    assert!(!a.includes(&rect(2, 7, 2, 2)));
}

#[test]
fn divide_gives_four_strips_in_order() {
    let s = rect(0, 0, 10, 10);
    let pieces = s.divide(&rect(3, 4, 2, 3));
    assert_eq!(
        pieces,
        vec![rect(0, 0, 3, 10), rect(5, 0, 5, 10), rect(0, 0, 10, 4), rect(0, 7, 10, 3)]
    );
}

#[test]
fn divide_by_corner_cut() {
    let pieces = rect(0, 0, 10, 10).divide(&rect(0, 0, 4, 6));
    assert_eq!(pieces, vec![rect(4, 0, 6, 10), rect(0, 6, 10, 4)]);
}

#[test]
fn divide_by_covering_cut_leaves_nothing() {
    assert!(rect(2, 2, 3, 3).divide(&rect(0, 0, 10, 10)).is_empty());
    assert!(rect(2, 2, 3, 3).divide(&rect(2, 2, 3, 3)).is_empty());
}

#[test]
fn divide_by_disjoint_cut_keeps_whole() {
    assert_eq!(rect(0, 0, 4, 4).divide(&rect(4, 0, 4, 4)), vec![rect(0, 0, 4, 4)]);
    assert_eq!(rect(0, 0, 4, 4).divide(&rect(10, 10, 1, 1)), vec![rect(0, 0, 4, 4)]);
}

#[test]
fn divide_by_disjoint_cut_crossing_an_edge_line() {
    // The cut lies below, but its left edge crosses the rectangle's width.
    assert_eq!(rect(0, 0, 10, 4).divide(&rect(5, 6, 2, 2)), vec![rect(0, 0, 5, 4), rect(7, 0, 3, 4)]);
}

#[test]
fn new_spaces_hold_whole_texture() {
    let spaces = Spaces::new([8, 6]);
    assert_eq!(spaces.find_space([8, 6]), Some(rect(0, 0, 8, 6)));
    assert_eq!(spaces.find_space([1, 1]), Some(rect(0, 0, 8, 6)));
    assert_eq!(spaces.find_space([9, 1]), None);
    assert_eq!(spaces.find_space([1, 7]), None);
}

#[test]
fn find_space_prefers_smallest_area_then_width() {
    let mut spaces = Spaces::new([100, 100]);
    spaces.exclude(&rect(0, 0, 100, 100));
    assert_eq!(spaces.find_space([1, 1]), None);
    spaces.add(rect(0, 0, 10, 10));
    spaces.add(rect(50, 50, 20, 5));
    spaces.add(rect(20, 20, 5, 20));
    spaces.add(rect(80, 80, 3, 3));
    assert_eq!(spaces.find_space([1, 1]), Some(rect(80, 80, 3, 3)));
    assert_eq!(spaces.find_space([4, 4]), Some(rect(20, 20, 5, 20)));
    assert_eq!(spaces.find_space([6, 6]), Some(rect(0, 0, 10, 10)));
    assert_eq!(spaces.find_space([11, 5]), Some(rect(50, 50, 20, 5)));
    assert_eq!(spaces.find_space([11, 6]), None);
}

#[test]
fn add_ignores_dominated_rect() {
    let mut spaces = Spaces::new([10, 10]);
    spaces.add(rect(2, 2, 3, 3));
    assert_eq!(spaces.find_space([1, 1]), Some(rect(0, 0, 10, 10)));
}

#[test]
fn add_keeps_existing_rect_that_new_one_dominates() {
    let mut spaces = Spaces::new([10, 10]);
    spaces.exclude(&rect(0, 0, 10, 10));
    spaces.add(rect(0, 0, 2, 2));
    spaces.add(rect(0, 0, 5, 5));
    assert_eq!(spaces.find_space([1, 1]), Some(rect(0, 0, 2, 2)));
}

#[test]
fn add_keeps_insertion_order_for_equal_keys() {
    let mut spaces = Spaces::new([10, 10]);
    spaces.exclude(&rect(0, 0, 10, 10));
    spaces.add(rect(5, 0, 2, 2));
    spaces.add(rect(0, 5, 2, 2));
    assert_eq!(spaces.find_space([2, 2]), Some(rect(5, 0, 2, 2)));
}

#[test]
fn exclude_splits_and_prunes() {
    let mut spaces = Spaces::new([10, 10]);
    spaces.exclude(&rect(0, 0, 4, 4));
    // Strips right (6 × 10) and below (10 × 6): both are of area 60, so the
    // narrower comes first.
    assert_eq!(spaces.find_space([1, 1]), Some(rect(4, 0, 6, 10)));
    assert_eq!(spaces.find_space([7, 1]), Some(rect(0, 4, 10, 6)));
    assert_eq!(spaces.find_space([7, 7]), None);
    spaces.exclude(&rect(4, 0, 6, 10));
    assert_eq!(spaces.find_space([1, 1]), Some(rect(0, 4, 4, 6)));
}

#[test]
fn empty_layout_info() {
    let info = ImageLayoutInfo::empty();
    assert_eq!(info.name, "");
    assert_eq!(info.texture, 0);
    assert_eq!(info.position, [0, 0]);
    assert_eq!(info.size, [0, 0]);
    assert!(!info.rotated);
}
