use haranae_rs::falling_sand::chunk::Chunk;
use haranae_rs::falling_sand::element::Element;
use haranae_rs::falling_sand::rules::FallingSandRules;

fn air_chunk(width: usize, height: usize) -> Chunk {
    let mut chunk = Chunk::with_water_level(width, height, 0);
    for x in 0..width {
        chunk.set_cell(x, 0, Element::Air);
    }
    chunk.dirty_rect.reset();
    chunk
}

fn assert_rect_in_grid(chunk: &Chunk) {
    if chunk.dirty_rect.is_dirty() {
        assert!(*chunk.dirty_rect.range_x().end() < chunk.width);
        assert!(*chunk.dirty_rect.range_y().end() < chunk.height);
    }
}

#[test]
fn water_level_fills_bottom_rows() {
    let chunk = Chunk::with_water_level(6, 8, 2);
    for y in 0..8 {
        for x in 0..6 {
            let expected = if y <= 2 { Element::Water } else { Element::Air };
            assert_eq!(chunk.get_cell(x, y), Some(expected));
        }
    }
    assert!(chunk.dirty_rect.is_dirty());
    assert_eq!(chunk.dirty_rect.range_x(), 0..=5);
    assert_eq!(chunk.dirty_rect.range_y(), 0..=7);
}

#[test]
fn water_level_above_the_grid_floods_it() {
    let chunk = Chunk::with_water_level(2, 2, 50);
    for y in 0..2 {
        for x in 0..2 {
            assert_eq!(chunk.get_cell(x, y), Some(Element::Water));
        }
    }
}

#[test]
fn new_chunk_has_water_below_air() {
    let chunk = Chunk::new(16, 36);
    assert_eq!(chunk.width, 16);
    assert_eq!(chunk.height, 36);
    let mut level = 0;
    while level < 36 && chunk.get_cell(0, level) == Some(Element::Water) {
        level += 1;
    }
    assert!(level >= 36 / 9 + 1 && level <= 36 / 2 + 1);
    for y in 0..36 {
        for x in 0..16 {
            let expected = if y < level { Element::Water } else { Element::Air };
            assert_eq!(chunk.get_cell(x, y), Some(expected));
        }
    }
}

#[test]
fn get_cell_outside_is_none() {
    let chunk = air_chunk(4, 4);
    assert_eq!(chunk.get_cell(4, 0), None);
    assert_eq!(chunk.get_cell(0, 4), None);
    assert_eq!(chunk.get_cell(3, 3), Some(Element::Air));
}

#[test]
fn set_cell_outside_is_ignored() {
    let mut chunk = air_chunk(4, 4);
    chunk.set_cell(4, 1, Element::Sand);
    chunk.set_cell(1, 9, Element::Sand);
    assert!(!chunk.dirty_rect.is_dirty());
    chunk.set_cell(1, 2, Element::Sand);
    assert_eq!(chunk.get_cell(1, 2), Some(Element::Sand));
    assert_eq!(chunk.dirty_rect.range_x(), 1..=1);
    assert_eq!(chunk.dirty_rect.range_y(), 2..=2);
}

#[test]
fn sand_falls_to_the_floor_in_one_cycle() {
    let rules = FallingSandRules::new();
    let mut chunk = air_chunk(4, 4);
    chunk.set_cell(2, 3, Element::Sand);
    for _ in 0..4 {
        chunk.update(&rules);
    }
    for y in 0..4 {
        for x in 0..4 {
            let expected = if x == 2 && y == 0 { Element::Sand } else { Element::Air };
            assert_eq!(chunk.get_cell(x, y), Some(expected));
        }
    }
}

#[test]
fn first_update_uses_the_unshifted_partition() {
    let rules = FallingSandRules::new();
    let mut chunk = air_chunk(4, 4);
    chunk.set_cell(2, 3, Element::Sand);
    chunk.dirty_rect.reset();
    chunk.update(&rules);
    assert_eq!(chunk.get_cell(2, 3), Some(Element::Air));
    assert_eq!(chunk.get_cell(2, 2), Some(Element::Sand));
    assert_eq!(chunk.dirty_rect.range_x(), 2..=2);
    assert_eq!(chunk.dirty_rect.range_y(), 2..=3);
}

#[test]
fn update_marks_only_cells_of_the_grid() {
    let rules = FallingSandRules::new();
    let mut chunk = air_chunk(4, 4);
    chunk.set_cell(3, 3, Element::Sand);
    chunk.set_cell(0, 2, Element::Water);
    chunk.dirty_rect.reset();
    for _ in 0..8 {
        chunk.update(&rules);
        assert_rect_in_grid(&chunk);
    }
    assert_eq!(chunk.get_cell(3, 0), Some(Element::Sand));
}

#[test]
fn blocks_on_the_edge_stay_put() {
    let rules = FallingSandRules::new();
    let mut chunk = air_chunk(4, 4);
    // Phase 0 moves the sand down one row; phase 1 pairs the right-hand
    // column with the outside, and those blocks do not change.
    chunk.set_cell(3, 3, Element::Sand);
    chunk.update(&rules);
    assert_eq!(chunk.get_cell(3, 2), Some(Element::Sand));
    chunk.dirty_rect.reset();
    chunk.update(&rules);
    assert_eq!(chunk.get_cell(3, 2), Some(Element::Sand));
    assert!(!chunk.dirty_rect.is_dirty());
}

#[test]
fn quiet_grid_stays_clean() {
    let rules = FallingSandRules::new();
    let mut chunk = Chunk::with_water_level(6, 6, 1);
    chunk.dirty_rect.reset();
    for _ in 0..4 {
        chunk.update(&rules);
        assert!(!chunk.dirty_rect.is_dirty());
    }
}

#[test]
fn place_sand_at_drops_into_the_top_row() {
    let mut chunk = air_chunk(8, 6);
    chunk.place_sand_at(3);
    // The middle half of a width of 8 starts at column 2.
    assert_eq!(chunk.get_cell(5, 5), Some(Element::Sand));
    assert_eq!(chunk.dirty_rect.range_x(), 5..=5);
    assert_eq!(chunk.dirty_rect.range_y(), 5..=5);
}

#[test]
fn place_random_sand_stays_in_the_middle_half() {
    for _ in 0..20 {
        let mut chunk = air_chunk(8, 6);
        chunk.place_random_sand();
        let mut found = 0;
        for x in 0..8 {
            if chunk.get_cell(x, 5) == Some(Element::Sand) {
                assert!((2..6).contains(&x));
                found += 1;
            }
        }
        assert_eq!(found, 1);
    }
}
