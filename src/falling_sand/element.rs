use vstd::prelude::*;
use vstd::seq_lib::to_multiset_update;

use super::rules::{BlockView, RuleBuilder};

verus! {

/// What a cell holds. `Outside` is the sentinel read outside the grid; it is
/// never stored in a cell of the grid and never moves.
#[derive(Debug, Clone, Copy, PartialEq, Eq, Structural)]
pub enum Element {
    Outside,
    Air,
    Sand,
    Water,
}

/// How many elements a cell can hold; their ordinals are `0..ELEMENT_COUNT`.
pub const ELEMENT_COUNT: u32 = 3;

/// The ordinal of an element; the sentinel takes the first value past the
/// real elements.
pub open spec fn ordinal_of(e: Element) -> u32 {
    match e {
        Element::Air => 0,
        Element::Sand => 1,
        Element::Water => 2,
        Element::Outside => 3,
    }
}

/// The element with ordinal `v`; any ordinal that names no real element gives
/// the sentinel.
pub open spec fn element_of(v: u32) -> Element {
    if v == 0 {
        Element::Air
    } else if v == 1 {
        Element::Sand
    } else if v == 2 {
        Element::Water
    } else {
        Element::Outside
    }
}

pub open spec fn is_real(e: Element) -> bool {
    e != Element::Outside
}

impl Element {
    /// The element's ordinal, as packed into a block's state code.
    pub fn ordinal(self) -> (r: u32)
        ensures
            r == ordinal_of(self),
    {
        match self {
            Element::Air => 0,
            Element::Sand => 1,
            Element::Water => 2,
            Element::Outside => 3,
        }
    }
}

impl From<u32> for Element {
    fn from(value: u32) -> Self {
        match value {
            0 => Element::Air,
            1 => Element::Sand,
            2 => Element::Water,
            _ => Element::Outside,
        }
    }
}

impl vstd::std_specs::convert::FromSpecImpl<u32> for Element {
    open spec fn obeys_from_spec() -> bool {
        true
    }

    open spec fn from_spec(v: u32) -> Element {
        element_of(v)
    }
}

/// Decoding an ordinal gives back the element it was taken from.
pub proof fn lemma_ordinal_round_trip(e: Element)
    ensures
        element_of(ordinal_of(e)) == e,
        ordinal_of(e) < 4,
        is_real(e) <==> ordinal_of(e) < ELEMENT_COUNT,
{
}

/// What sand falls through.
pub open spec fn sand_displaces(e: Element) -> bool {
    e == Element::Air || e == Element::Water
}

/// What water flows into.
pub open spec fn water_displaces(e: Element) -> bool {
    e == Element::Air
}

/// Sand at the active cell: it trades places with the first of below,
/// below-left and below-right that holds air or water.
pub open spec fn sand_moved(b: BlockView, me: Element) -> BlockView {
    if sand_displaces(b.get(0, -1)) {
        b.swapped(0, -1, me)
    } else if sand_displaces(b.get(-1, -1)) {
        b.swapped(-1, -1, me)
    } else if sand_displaces(b.get(1, -1)) {
        b.swapped(1, -1, me)
    } else {
        b
    }
}

/// Water at the active cell: it trades places with the first of below,
/// below-left, below-right, left and right that holds air.
pub open spec fn water_moved(b: BlockView, me: Element) -> BlockView {
    if water_displaces(b.get(0, -1)) {
        b.swapped(0, -1, me)
    } else if water_displaces(b.get(-1, -1)) {
        b.swapped(-1, -1, me)
    } else if water_displaces(b.get(1, -1)) {
        b.swapped(1, -1, me)
    } else if water_displaces(b.get(-1, 0)) {
        b.swapped(-1, 0, me)
    } else if water_displaces(b.get(1, 0)) {
        b.swapped(1, 0, me)
    } else {
        b
    }
}

/// Sand with air directly below it falls straight down, whatever the cells
/// diagonally below hold: the active cell takes the air, the cell below takes
/// the sand, and the diagonal cells keep what they held.
pub proof fn lemma_sand_falls_straight_down(b: BlockView, me: Element)
    requires
        b.wf(),
        b.get(0, -1) == Element::Air,
    ensures
        sand_moved(b, me).get(0, 0) == Element::Air,
        sand_moved(b, me).get(0, -1) == me,
        sand_moved(b, me).get(-1, -1) == b.get(-1, -1),
        sand_moved(b, me).get(1, -1) == b.get(1, -1),
        sand_moved(b, me).position == b.position,
{
}

/// Water never takes the place of sand or of other water: every cell but
/// the active one that holds sand or water keeps its element and its moved
/// flag. In particular water directly above sand never trades places with it.
pub proof fn lemma_water_displaces_only_air(b: BlockView, me: Element)
    requires
        b.wf(),
    ensures
        forall|s: int|
            0 <= s < 4 && s != b.position && (b.cells[s] == Element::Sand || b.cells[s]
                == Element::Water) ==> #[trigger] water_moved(b, me).cells[s] == b.cells[s]
                && water_moved(b, me).moved[s] == b.moved[s],
        b.get(0, -1) == Element::Sand ==> water_moved(b, me).get(0, -1) == Element::Sand,
        water_moved(b, me).position == b.position,
{
}

/// Water stays where it is exactly when none of the five cells it may flow
/// into holds air, and it flows sideways only when all three cells below
/// hold something other than air.
pub proof fn lemma_water_moves_only_into_air(b: BlockView, me: Element)
    requires
        b.wf(),
        me == Element::Water,
        b.get(0, 0) == me,
    ensures
        (water_moved(b, me) == b) <==> !(b.get(0, -1) == Element::Air || b.get(-1, -1)
            == Element::Air || b.get(1, -1) == Element::Air || b.get(-1, 0) == Element::Air
            || b.get(1, 0) == Element::Air),
        water_moved(b, me).get(-1, 0) != b.get(-1, 0) || water_moved(b, me).get(1, 0) != b.get(
            1,
            0,
        ) ==> b.get(0, -1) != Element::Air && b.get(-1, -1) != Element::Air && b.get(1, -1)
            != Element::Air,
{
}

/// A sand move trades the contents of at most two cells: the cells after it
/// are a permutation of those before, and no cell holding sand or the
/// sentinel is ever the one the sand moves into.
pub proof fn lemma_sand_move_is_a_swap(b: BlockView, me: Element)
    requires
        b.wf(),
        me == Element::Sand,
        b.get(0, 0) == me,
    ensures
        sand_moved(b, me).cells.to_multiset() == b.cells.to_multiset(),
        forall|s: int, t: int|
            0 <= s < t < 4 && sand_moved(b, me).cells[s] != b.cells[s] && sand_moved(b, me).cells[t]
                != b.cells[t] ==> forall|u: int|
                0 <= u < 4 && u != s && u != t ==> #[trigger] sand_moved(b, me).cells[u]
                    == b.cells[u],
        forall|s: int|
            0 <= s < 4 && s != b.position && (b.cells[s] == Element::Sand || b.cells[s]
                == Element::Outside) ==> #[trigger] sand_moved(b, me).cells[s] == b.cells[s],
{
    let r = sand_moved(b, me);
    if r != b {
        let s = if sand_displaces(b.get(0, -1)) {
            b.slot(0, -1)
        } else if sand_displaces(b.get(-1, -1)) {
            b.slot(-1, -1)
        } else {
            b.slot(1, -1)
        };
        let p = b.position;
        assert(r.cells =~= b.cells.update(p, b.cells[s]).update(s, me));
        let c1 = b.cells.update(p, b.cells[s]);
        to_multiset_update(b.cells, p, b.cells[s]);
        to_multiset_update(c1, s, me);
        assert(c1[s] == b.cells[s]);
        assert(b.cells[p] == me);
        let m = b.cells.to_multiset();
        let x = b.cells[s];
        assert(c1.to_multiset() == m.insert(x).remove(me));
        assert(r.cells.to_multiset() == m.insert(x).remove(me).insert(me).remove(x));
        vstd::seq_lib::to_multiset_contains(b.cells, me);
        assert(m.contains(me)) by {
            assert(b.cells.contains(me)) by {
                assert(b.cells[p] == me);
            }
        }
        broadcast use vstd::multiset::group_multiset_axioms;
        assert forall|e: Element| #[trigger] r.cells.to_multiset().count(e) == m.count(e) by {}
        assert(r.cells.to_multiset() =~= m);
    }
}

/// Whether `e` is one of the elements a mover may trade places with.
fn displaces(swap_elements: &[Element], e: Element) -> (r: bool)
    ensures
        r == swap_elements@.contains(e),
{
    let mut i: usize = 0;
    while i < swap_elements.len()
        invariant
            i <= swap_elements@.len(),
            forall|j: int| 0 <= j < i ==> swap_elements@[j] != e,
        decreases swap_elements@.len() - i,
    {
        if swap_elements[i] == e {
            return true;
        }
        i += 1;
    }
    false
}

/// Moves the sand `me` at the block's active cell: down, else down-left, else
/// down-right, into the first of them that holds air or water.
pub fn update_sand(block: &mut RuleBuilder, me: Element)
    requires
        old(block).wf(),
    ensures
        final(block).wf(),
        final(block)@ == sand_moved(old(block)@, me),
{
    let swap_elements = [Element::Air, Element::Water];
    proof {
        assert forall|e: Element| swap_elements@.contains(e) <==> sand_displaces(e) by {
            if sand_displaces(e) {
                if e == Element::Air {
                    assert(swap_elements@[0] == e);
                } else {
                    assert(swap_elements@[1] == e);
                }
            }
        }
    }

    let bottom = block.get(0, -1);
    let bottom_left = block.get(-1, -1);
    let bottom_right = block.get(1, -1);

    if displaces(&swap_elements, bottom) {
        block.set(0, 0, bottom);
        block.set(0, -1, me);
    } else if displaces(&swap_elements, bottom_left) {
        block.set(0, 0, bottom_left);
        block.set(-1, -1, me);
    } else if displaces(&swap_elements, bottom_right) {
        block.set(0, 0, bottom_right);
        block.set(1, -1, me);
    }
}

/// Moves the water `me` at the block's active cell: down, else down-left,
/// else down-right, else left, else right, into the first that holds air.
pub fn update_water(block: &mut RuleBuilder, me: Element)
    requires
        old(block).wf(),
    ensures
        final(block).wf(),
        final(block)@ == water_moved(old(block)@, me),
{
    let swap_elements = [Element::Air];
    proof {
        assert forall|e: Element| swap_elements@.contains(e) <==> water_displaces(e) by {
            if water_displaces(e) {
                assert(swap_elements@[0] == e);
            }
        }
    }

    let bottom = block.get(0, -1);
    let bottom_left = block.get(-1, -1);
    let bottom_right = block.get(1, -1);
    let left = block.get(-1, 0);
    let right = block.get(1, 0);

    if displaces(&swap_elements, bottom) {
        block.set(0, 0, bottom);
        block.set(0, -1, me);
    } else if displaces(&swap_elements, bottom_left) {
        block.set(0, 0, bottom_left);
        block.set(-1, -1, me);
    } else if displaces(&swap_elements, bottom_right) {
        block.set(0, 0, bottom_right);
        block.set(1, -1, me);
    } else if displaces(&swap_elements, left) {
        block.set(0, 0, left);
        block.set(-1, 0, me);
    } else if displaces(&swap_elements, right) {
        block.set(0, 0, right);
        block.set(1, 0, me);
    }
}

/// The display colour of a cell as `get_cell` reports it; black for none.
pub open spec fn colour_of(cell: Option<Element>) -> (u8, u8, u8) {
    match cell {
        Some(Element::Air) => (25, 24, 26),
        Some(Element::Sand) => (255, 216, 102),
        Some(Element::Water) => (120, 220, 232),
        _ => (0, 0, 0),
    }
}

/// The colour a cell is drawn in.
pub fn element_colour(cell: Option<Element>) -> (r: (u8, u8, u8))
    ensures
        r == colour_of(cell),
{
    let mut colour = (0, 0, 0);
    if let Some(element) = cell {
        match element {
            Element::Air => colour = (25, 24, 26),
            Element::Sand => colour = (255, 216, 102),
            Element::Water => colour = (120, 220, 232),
            _ => {},
        }
    }
    colour
}

/// Byte `c` of the RGBA pixel that shows `cell`: its colour, fully opaque.
pub open spec fn pixel_byte(cell: Option<Element>, c: int) -> u8 {
    let colour = colour_of(cell);
    if c == 0 {
        colour.0
    } else if c == 1 {
        colour.1
    } else if c == 2 {
        colour.2
    } else {
        255
    }
}

} // verus!
