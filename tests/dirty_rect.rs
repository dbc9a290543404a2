use haranae_rs::util::DirtyRect;

#[test]
fn fresh_rect_is_clean() {
    let rect = DirtyRect::new();
    assert!(!rect.is_dirty());
    assert!(rect.range_x().is_empty());
    assert!(rect.range_y().is_empty());
}

#[test]
fn dirty_rect_lifecycle() {
    let mut rect = DirtyRect::new();
    assert!(!rect.is_dirty());
    rect.add_point(3, 4);
    assert_eq!(rect.range_x(), 3..=3);
    assert_eq!(rect.range_y(), 4..=4);
    assert!(rect.is_dirty());
    rect.reset();
    assert!(!rect.is_dirty());
}

#[test]
fn add_point_grows_the_bounding_box() {
    let mut rect = DirtyRect::new();
    rect.add_point(5, 2);
    rect.add_point(1, 7);
    rect.add_point(3, 3);
    assert_eq!(rect.range_x(), 1..=5);
    assert_eq!(rect.range_y(), 2..=7);
    assert!(rect.is_dirty());
}

#[test]
fn add_point_at_origin_marks_dirty() {
    let mut rect = DirtyRect::new();
    rect.add_point(0, 0);
    assert!(rect.is_dirty());
    assert_eq!(rect.range_x(), 0..=0);
    assert_eq!(rect.range_y(), 0..=0);
}

#[test]
fn reset_restores_the_empty_ranges() {
    let mut rect = DirtyRect::new();
    rect.add_point(2, 9);
    rect.reset();
    assert!(rect.range_x().is_empty());
    assert!(rect.range_y().is_empty());
    rect.add_point(6, 1);
    assert_eq!(rect.range_x(), 6..=6);
    assert_eq!(rect.range_y(), 1..=1);
}
