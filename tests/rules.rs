use haranae_rs::falling_sand::element::{update_sand, update_water, Element};
use haranae_rs::falling_sand::rules::{from_rule_state, to_rule_state, FallingSandRules, RuleBuilder};

const ALL: [Element; 4] = [Element::Air, Element::Sand, Element::Water, Element::Outside];
const REAL: [Element; 3] = [Element::Air, Element::Sand, Element::Water];

#[test]
fn element_from_ordinal() {
    assert_eq!(Element::from(0), Element::Air);
    assert_eq!(Element::from(1), Element::Sand);
    assert_eq!(Element::from(2), Element::Water);
    assert_eq!(Element::from(3), Element::Outside);
    assert_eq!(Element::from(99), Element::Outside);
    for e in ALL {
        assert_eq!(Element::from(e.ordinal()), e);
    }
}

#[test]
fn rule_state_packs_one_byte_per_cell() {
    let code = to_rule_state((Element::Air, Element::Sand, Element::Water, Element::Outside));
    assert_eq!(code, 0x0001_0203);
    assert_eq!(to_rule_state((Element::Water, Element::Air, Element::Air, Element::Sand)), 0x0200_0001);
    assert_eq!(
        from_rule_state(0x0700_0000),
        (Element::Outside, Element::Air, Element::Air, Element::Air)
    );
}

#[test]
fn rule_state_round_trip() {
    for a in ALL {
        for b in ALL {
            for c in ALL {
                for d in ALL {
                    let t = (a, b, c, d);
                    assert_eq!(from_rule_state(to_rule_state(t)), t);
                }
            }
        }
    }
}

#[test]
fn builder_addresses_relative_to_the_active_cell() {
    let block = RuleBuilder::new((Element::Air, Element::Sand, Element::Water, Element::Air), 1);
    assert_eq!(block.get(0, 0), Element::Sand);
    assert_eq!(block.get(-1, 0), Element::Air);
    assert_eq!(block.get(-1, -1), Element::Water);
    assert_eq!(block.get(0, -1), Element::Air);
    assert_eq!(block.get(1, 0), Element::Outside);
    assert_eq!(block.get(0, 1), Element::Outside);
}

#[test]
fn builder_ignores_writes_outside_the_block() {
    let mut block = RuleBuilder::new((Element::Air, Element::Sand, Element::Water, Element::Air), 1);
    block.set(1, 0, Element::Water);
    block.set(0, 1, Element::Water);
    assert_eq!(block.elements(), (Element::Air, Element::Sand, Element::Water, Element::Air));
    block.set(-1, -1, Element::Sand);
    assert_eq!(block.elements(), (Element::Air, Element::Sand, Element::Sand, Element::Air));
}

#[test]
fn sand_sinks_through_water() {
    let mut block = RuleBuilder::new((Element::Sand, Element::Air, Element::Water, Element::Air), 0);
    update_sand(&mut block, Element::Sand);
    assert_eq!(block.elements(), (Element::Water, Element::Air, Element::Sand, Element::Air));
}

#[test]
fn sand_slides_diagonally_when_blocked() {
    let mut block = RuleBuilder::new((Element::Air, Element::Sand, Element::Water, Element::Sand), 1);
    update_sand(&mut block, Element::Sand);
    assert_eq!(block.elements(), (Element::Air, Element::Water, Element::Sand, Element::Sand));
}

#[test]
fn sand_on_sand_stays() {
    let mut block = RuleBuilder::new((Element::Sand, Element::Air, Element::Sand, Element::Sand), 0);
    update_sand(&mut block, Element::Sand);
    assert_eq!(block.elements(), (Element::Sand, Element::Air, Element::Sand, Element::Sand));
}

#[test]
fn water_flows_sideways_into_air() {
    let mut block = RuleBuilder::new((Element::Water, Element::Air, Element::Sand, Element::Sand), 0);
    update_water(&mut block, Element::Water);
    assert_eq!(block.elements(), (Element::Air, Element::Water, Element::Sand, Element::Sand));
}

#[test]
fn water_does_not_sink_into_water() {
    let mut block = RuleBuilder::new((Element::Water, Element::Sand, Element::Water, Element::Water), 0);
    update_water(&mut block, Element::Water);
    assert_eq!(block.elements(), (Element::Water, Element::Sand, Element::Water, Element::Water));
}

#[test]
fn build_moves_sand_straight_down() {
    let t = (Element::Sand, Element::Air, Element::Air, Element::Air);
    assert_eq!(
        RuleBuilder::build(t),
        to_rule_state((Element::Air, Element::Air, Element::Sand, Element::Air))
    );
    let t = (Element::Air, Element::Sand, Element::Air, Element::Air);
    assert_eq!(
        RuleBuilder::build(t),
        to_rule_state((Element::Air, Element::Air, Element::Air, Element::Sand))
    );
}

#[test]
fn build_skips_cells_moved_earlier() {
    // The water swapped into the top-left cell by the falling sand does not
    // act again in the same evaluation.
    let t = (Element::Sand, Element::Air, Element::Water, Element::Air);
    assert_eq!(
        RuleBuilder::build(t),
        to_rule_state((Element::Water, Element::Air, Element::Sand, Element::Air))
    );
}

#[test]
fn water_above_sand_never_swaps() {
    let rules = FallingSandRules::new();
    let out = rules.get_result((Element::Water, Element::Air, Element::Sand, Element::Air));
    assert_eq!(out, (Element::Air, Element::Air, Element::Sand, Element::Water));
    let out = rules.get_result((Element::Air, Element::Water, Element::Air, Element::Sand));
    assert_eq!(out, (Element::Air, Element::Air, Element::Water, Element::Sand));
}

#[test]
fn sand_prefers_straight_down() {
    let rules = FallingSandRules::new();
    let out = rules.get_result((Element::Sand, Element::Air, Element::Air, Element::Air));
    assert_eq!(out, (Element::Air, Element::Air, Element::Sand, Element::Air));
    let out = rules.get_result((Element::Air, Element::Sand, Element::Air, Element::Air));
    assert_eq!(out, (Element::Air, Element::Air, Element::Air, Element::Sand));
}

#[test]
fn table_agrees_with_the_builder() {
    let rules = FallingSandRules::new();
    let mut entries = 0;
    for a in REAL {
        for b in REAL {
            for c in REAL {
                for d in REAL {
                    let t = (a, b, c, d);
                    let code = to_rule_state(t);
                    let out = rules.lookup(code);
                    assert_eq!(out, RuleBuilder::build(t));
                    if out != code {
                        entries += 1;
                    }
                }
            }
        }
    }
    assert!(entries > 0);
    assert!(entries < 81);
}

#[test]
fn table_leaves_blocks_with_the_sentinel_alone() {
    let rules = FallingSandRules::new();
    let t = (Element::Sand, Element::Air, Element::Outside, Element::Air);
    assert_eq!(rules.get_result(t), t);
    let t = (Element::Outside, Element::Outside, Element::Sand, Element::Air);
    assert_eq!(rules.get_result(t), t);
    let code = to_rule_state((Element::Water, Element::Outside, Element::Air, Element::Air));
    assert_eq!(rules.lookup(code), code);
}

#[test]
fn table_has_no_identity_entries() {
    let rules = FallingSandRules::default();
    for a in REAL {
        for b in REAL {
            for c in REAL {
                for d in REAL {
                    let t = (a, b, c, d);
                    let code = to_rule_state(t);
                    if RuleBuilder::build(t) == code {
                        assert_eq!(rules.lookup(code), code);
                        assert_eq!(rules.get_result(t), t);
                    } else {
                        assert_ne!(rules.lookup(code), code);
                    }
                }
            }
        }
    }
}

#[test]
fn lookup_is_deterministic() {
    let first = FallingSandRules::new();
    let second = FallingSandRules::default();
    for code in [0u32, 0x0100_0000, 0x0102_0000, 0x0200_0000, 0x0001_0203, 0xFFFF_FFFF] {
        let r = first.lookup(code);
        assert_eq!(first.lookup(code), r);
        assert_eq!(second.lookup(code), r);
    }
    assert_eq!(first.lookup(0x0100_0000), 0x0000_0100);
}

#[test]
fn builder_reads_back_a_written_slot() {
    for position in 0..4 {
        for dx in -1..=1 {
            for dy in -1..=1 {
                let mut block =
                    RuleBuilder::new((Element::Air, Element::Air, Element::Air, Element::Air), position);
                let inside = block.get(dx, dy) != Element::Outside;
                block.set(dx, dy, Element::Sand);
                if inside {
                    assert_eq!(block.get(dx, dy), Element::Sand);
                } else {
                    assert_eq!(block.elements(), (Element::Air, Element::Air, Element::Air, Element::Air));
                }
            }
        }
    }
}

#[test]
fn water_stays_put_without_air() {
    let mut block = RuleBuilder::new((Element::Sand, Element::Water, Element::Sand, Element::Water), 1);
    update_water(&mut block, Element::Water);
    assert_eq!(block.elements(), (Element::Sand, Element::Water, Element::Sand, Element::Water));
}
