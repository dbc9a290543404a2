use haranae_rs::falling_sand::chunk::Chunk;
use haranae_rs::falling_sand::element::{element_colour, Element};

#[test]
fn element_colours() {
    assert_eq!(element_colour(Some(Element::Air)), (25, 24, 26));
    assert_eq!(element_colour(Some(Element::Sand)), (255, 216, 102));
    assert_eq!(element_colour(Some(Element::Water)), (120, 220, 232));
    assert_eq!(element_colour(Some(Element::Outside)), (0, 0, 0));
    assert_eq!(element_colour(None), (0, 0, 0));
}

#[test]
fn paint_dirty_covers_the_whole_new_chunk() {
    let chunk = Chunk::with_water_level(2, 2, 0);
    let mut pixels = vec![7u8; 16];
    chunk.paint_dirty(&mut pixels);
    assert_eq!(
        pixels,
        vec![
            120, 220, 232, 255, 120, 220, 232, 255, 25, 24, 26, 255, 25, 24, 26, 255
        ]
    );
}

#[test]
fn paint_dirty_touches_only_the_rectangle() {
    let mut chunk = Chunk::with_water_level(2, 2, 0);
    chunk.dirty_rect.reset();
    let mut pixels = vec![7u8; 16];
    chunk.paint_dirty(&mut pixels);
    assert_eq!(pixels, vec![7u8; 16]);

    chunk.set_cell(1, 1, Element::Sand);
    chunk.paint_dirty(&mut pixels);
    let mut expected = vec![7u8; 12];
    expected.extend_from_slice(&[255, 216, 102, 255]);
    assert_eq!(pixels, expected);
}

#[test]
fn paint_dirty_leaves_bytes_past_the_image_alone() {
    let chunk = Chunk::with_water_level(2, 1, 0);
    let mut pixels = vec![7u8; 12];
    chunk.paint_dirty(&mut pixels);
    assert_eq!(pixels, vec![120, 220, 232, 255, 120, 220, 232, 255, 7, 7, 7, 7]);
}

#[test]
fn reset_dirty_rect_changes_only_the_rectangle() {
    let mut chunk = Chunk::with_water_level(4, 2, 0);
    assert!(chunk.rect().is_dirty());
    chunk.reset_dirty_rect();
    assert!(!chunk.rect().is_dirty());
    assert_eq!(chunk.size(), (4, 2));
    assert_eq!(chunk.get_cell(3, 0), Some(Element::Water));
    assert_eq!(chunk.get_cell(3, 1), Some(Element::Air));
    let mut pixels = vec![9u8; 32];
    chunk.paint_dirty(&mut pixels);
    assert_eq!(pixels, vec![9u8; 32]);
}
