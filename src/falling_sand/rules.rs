use vstd::prelude::*;

use super::element::{
    element_of, is_real, lemma_ordinal_round_trip, ordinal_of, sand_moved, update_sand,
    update_water, water_moved, Element, ELEMENT_COUNT,
};

verus! {

/// The four cells of a 2x2 block: top-left, top-right, bottom-left,
/// bottom-right.
pub type Quad = (Element, Element, Element, Element);

/// A 2x2 block seen from one of its cells: the cells in raster order, which
/// of them have been moved in this evaluation, and the active cell.
pub struct BlockView {
    pub cells: Seq<Element>,
    pub moved: Seq<bool>,
    pub position: int,
}

impl BlockView {
    /// Four cells, four moved flags, and an active cell among them.
    pub open spec fn wf(self) -> bool {
        &&& self.cells.len() == 4
        &&& self.moved.len() == 4
        &&& 0 <= self.position < 4
    }

    /// The slot at offset `(dx, dy)` from the active cell (`+y` is up), or -1
    /// where that lands outside the block.
    pub open spec fn slot(self, dx: int, dy: int) -> int {
        let col = self.position % 2 + dx;
        let row = self.position / 2 - dy;
        if 0 <= col < 2 && 0 <= row < 2 {
            col + 2 * row
        } else {
            -1
        }
    }

    pub open spec fn get(self, dx: int, dy: int) -> Element {
        let s = self.slot(dx, dy);
        if s >= 0 {
            self.cells[s]
        } else {
            Element::Outside
        }
    }

    /// Writes `e` at the offset and marks that slot moved; a no-op outside.
    pub open spec fn set(self, dx: int, dy: int, e: Element) -> BlockView {
        let s = self.slot(dx, dy);
        if s >= 0 {
            BlockView {
                cells: self.cells.update(s, e),
                moved: self.moved.update(s, true),
                position: self.position,
            }
        } else {
            self
        }
    }

    /// The active cell, holding `me`, trades places with the cell at the offset.
    pub open spec fn swapped(self, dx: int, dy: int, me: Element) -> BlockView {
        self.set(0, 0, self.get(dx, dy)).set(dx, dy, me)
    }
}

pub open spec fn quad_seq(t: Quad) -> Seq<Element> {
    seq![t.0, t.1, t.2, t.3]
}

pub open spec fn seq_quad(s: Seq<Element>) -> Quad {
    (s[0], s[1], s[2], s[3])
}

pub open spec fn is_real_quad(t: Quad) -> bool {
    is_real(t.0) && is_real(t.1) && is_real(t.2) && is_real(t.3)
}

/// The block before any cell has acted.
pub open spec fn initial_block(t: Quad) -> BlockView {
    BlockView { cells: quad_seq(t), moved: seq![false, false, false, false], position: 0 }
}

/// Cell `i` acts, unless an earlier move has already touched it.
pub open spec fn initiate(b: BlockView, i: int) -> BlockView {
    if b.moved[i] {
        b
    } else {
        let a = BlockView { cells: b.cells, moved: b.moved, position: i };
        match a.cells[i] {
            Element::Sand => sand_moved(a, Element::Sand),
            Element::Water => water_moved(a, Element::Water),
            _ => a,
        }
    }
}

/// The block after each cell has acted in raster order.
pub open spec fn settled_block(t: Quad) -> Quad {
    seq_quad(initiate(initiate(initiate(initiate(initial_block(t), 0), 1), 2), 3).cells)
}

/// The state code of a block: one byte per cell, top-left in the highest.
pub open spec fn encode_quad(t: Quad) -> u32 {
    (ordinal_of(t.0) * 0x100_0000 + ordinal_of(t.1) * 0x1_0000 + ordinal_of(t.2) * 0x100
        + ordinal_of(t.3)) as u32
}

pub open spec fn decode_quad(code: u32) -> Quad {
    (
        element_of(((code / 0x100_0000) % 0x100) as u32),
        element_of(((code / 0x1_0000) % 0x100) as u32),
        element_of(((code / 0x100) % 0x100) as u32),
        element_of((code % 0x100) as u32),
    )
}

proof fn lemma_byte_fields(a: u32, b: u32, c: u32, d: u32)
    by (bit_vector)
    requires
        a < 0x100,
        b < 0x100,
        c < 0x100,
        d < 0x100,
    ensures
        a * 0x100_0000 + b * 0x1_0000 + c * 0x100 + d <= u32::MAX,
        ((a * 0x100_0000 + b * 0x1_0000 + c * 0x100 + d) as u32 / 0x100_0000) % 0x100 == a,
        ((a * 0x100_0000 + b * 0x1_0000 + c * 0x100 + d) as u32 / 0x1_0000) % 0x100 == b,
        ((a * 0x100_0000 + b * 0x1_0000 + c * 0x100 + d) as u32 / 0x100) % 0x100 == c,
        ((a * 0x100_0000 + b * 0x1_0000 + c * 0x100 + d) as u32) % 0x100 == d,
{
}

/// Decoding the code of a block gives back the block, whatever it holds.
pub proof fn lemma_code_round_trip(t: Quad)
    ensures
        decode_quad(encode_quad(t)) == t,
{
    lemma_ordinal_round_trip(t.0);
    lemma_ordinal_round_trip(t.1);
    lemma_ordinal_round_trip(t.2);
    lemma_ordinal_round_trip(t.3);
    lemma_byte_fields(ordinal_of(t.0), ordinal_of(t.1), ordinal_of(t.2), ordinal_of(t.3));
}

/// Packs a block into its state code.
pub fn to_rule_state(input: Quad) -> (r: u32)
    ensures
        r == encode_quad(input),
{
    let a = input.0.ordinal();
    let b = input.1.ordinal();
    let c = input.2.ordinal();
    let d = input.3.ordinal();
    proof {
        lemma_ordinal_round_trip(input.0);
        lemma_ordinal_round_trip(input.1);
        lemma_ordinal_round_trip(input.2);
        lemma_ordinal_round_trip(input.3);
        assert((a << 24) == a * 0x100_0000 && (b << 16) == b * 0x1_0000 && (c << 8) == c * 0x100)
            by (bit_vector)
            requires
                a < 4 && b < 4 && c < 4,
        ;
    }
    (a << 24) + (b << 16) + (c << 8) + d
}

/// Unpacks a state code; a byte that names no real element gives the sentinel.
pub fn from_rule_state(input: u32) -> (r: Quad)
    ensures
        r == decode_quad(input),
{
    proof {
        assert((input >> 24) & 0xFF == (input / 0x100_0000) % 0x100 && (input >> 16) & 0xFF == (
        input / 0x1_0000) % 0x100 && (input >> 8) & 0xFF == (input / 0x100) % 0x100 && input & 0xFF
            == input % 0x100) by (bit_vector);
    }
    (
        Element::from((input >> 24) & 0xFF),
        Element::from((input >> 16) & 0xFF),
        Element::from((input >> 8) & 0xFF),
        Element::from(input & 0xFF),
    )
}

/// A 2x2 block under evaluation, addressed relative to its active cell.
pub struct RuleBuilder {
    elements: [Element; 4],
    processed: [bool; 4],
    position: i8,
}

impl View for RuleBuilder {
    type V = BlockView;

    closed spec fn view(&self) -> BlockView {
        BlockView {
            cells: self.elements@,
            moved: self.processed@,
            position: self.position as int,
        }
    }
}

impl RuleBuilder {
    /// The block has four cells and four moved flags, and the active cell is
    /// one of them.
    pub open spec fn wf(&self) -> bool {
        self@.wf()
    }

    /// A block holding `input`, with no cell moved and `position` active.
    pub fn new(input: Quad, position: i8) -> (r: Self)
        requires
            0 <= position < 4,
        ensures
            r.wf(),
            r@ == (BlockView { cells: quad_seq(input), moved: seq![false, false, false, false], position: position as int }),
    {
        let r = RuleBuilder {
            elements: [input.0, input.1, input.2, input.3],
            processed: [false; 4],
            position,
        };
        assert(r@.cells =~= quad_seq(input));
        assert(r@.moved =~= seq![false, false, false, false]);
        r
    }

    /// The cells in raster order.
    pub fn elements(&self) -> (r: Quad)
        ensures
            r == seq_quad(self@.cells),
    {
        (self.elements[0], self.elements[1], self.elements[2], self.elements[3])
    }

    /// Runs each cell's movement rule in raster order and returns the code of
    /// the resulting block.
    pub fn build(input: Quad) -> (r: u32)
        ensures
            r == encode_quad(settled_block(input)),
    {
        let mut block = RuleBuilder::new(input, 0);
        let ghost b0 = block@;
        for i in 0..4
            invariant
                block.wf(),
                block@.cells.len() == 4,
                block@.moved.len() == 4,
                b0 == initial_block(input),
                block@ == {
                    let b1 = if i > 0 { initiate(b0, 0) } else { b0 };
                    let b2 = if i > 1 { initiate(b1, 1) } else { b1 };
                    let b3 = if i > 2 { initiate(b2, 2) } else { b2 };
                    let b4 = if i > 3 { initiate(b3, 3) } else { b3 };
                    b4
                },
        {
            if !block.processed[i] {
                block.position = i as i8;
                let element = block.elements[i];
                match element {
                    Element::Sand => update_sand(&mut block, element),
                    Element::Water => update_water(&mut block, element),
                    _ => {},
                }
            }
        }
        to_rule_state(block.elements())
    }

    /// The cell at offset `(x, y)` from the active cell (`+y` is up); the
    /// sentinel where that lands outside the block.
    pub fn get(&self, x: i8, y: i8) -> (r: Element)
        requires
            self.wf(),
        ensures
            r == self@.get(x as int, y as int),
    {
        let x = x as i16 + (self.position % 2) as i16;
        let y = (self.position / 2) as i16 - y as i16;
        if !(0..2).contains(&x) || !(0..2).contains(&y) {
            return Element::Outside;
        }
        let idx = (x + y * 2) as usize;
        self.elements[idx]
    }

    /// Writes at offset `(x, y)` from the active cell and marks that cell
    /// moved, so it does not act later in this evaluation; a no-op outside
    /// the block.
    pub fn set(&mut self, x: i8, y: i8, element: Element)
        requires
            old(self).wf(),
        ensures
            final(self).wf(),
            final(self)@ == old(self)@.set(x as int, y as int, element),
    {
        let x = x as i16 + (self.position % 2) as i16;
        let y = (self.position / 2) as i16 - y as i16;
        if (0..2).contains(&x) && (0..2).contains(&y) {
            let idx = (x + y * 2) as usize;
            self.elements[idx] = element;
            self.processed[idx] = true;
        }
    }
}

} // verus!

verus! {

/// The code a block's code turns into under the movement rules.
pub open spec fn rule_result(code: u32) -> u32 {
    encode_quad(settled_block(decode_quad(code)))
}

/// The code of a block of real elements.
pub open spec fn is_block_code(code: u32) -> bool {
    is_real_quad(decode_quad(code)) && encode_quad(decode_quad(code)) == code
}

/// The compiled table: every block of real elements whose rules change it,
/// mapped to what they change it into.
pub open spec fn compiled_rules() -> Map<u32, u32> {
    Map::new(|k: u32| is_block_code(k) && rule_result(k) != k, |k: u32| rule_result(k))
}

/// The table's answer for `code`: its entry, or `code` itself where it has none.
pub open spec fn table_lookup(code: u32) -> u32 {
    if compiled_rules().contains_key(code) {
        compiled_rules()[code]
    } else {
        code
    }
}

/// The rank of a block of real elements among all of them, in the order the
/// compiler visits them.
pub open spec fn quad_rank(t: Quad) -> int {
    ordinal_of(t.0) * 27 + ordinal_of(t.1) * 9 + ordinal_of(t.2) * 3 + ordinal_of(t.3)
}

/// The part of the compiled table that covers blocks of rank below `n`.
pub open spec fn compiled_below(n: int) -> Map<u32, u32> {
    Map::new(
        |k: u32| is_block_code(k) && rule_result(k) != k && quad_rank(decode_quad(k)) < n,
        |k: u32| rule_result(k),
    )
}

/// `s` lists the real elements in the order of their ordinals.
pub open spec fn lists_real_elements(s: Seq<Element>) -> bool {
    &&& s.len() == ELEMENT_COUNT
    &&& forall|j: int| 0 <= j < s.len() ==> ordinal_of(#[trigger] s[j]) == j && is_real(s[j])
}

/// The rule table in bevy's `HashMap` (hashbrown keyed through aHash).
#[verifier::external_body]
pub struct RuleMap {
    map: bevy::utils::HashMap<u32, u32>,
}

/// The entries of a [`RuleMap`].
pub uninterp spec fn rule_map_entries(m: RuleMap) -> Map<u32, u32>;

impl RuleMap {
    /// Relies on `Default` for bevy's `HashMap`: a map with no entries.
    #[verifier::external_body]
    fn new() -> (r: RuleMap)
        ensures
            forall|k: u32| !rule_map_entries(r).contains_key(k),
    {
        RuleMap { map: bevy::utils::HashMap::default() }
    }

    /// Relies on hashbrown's `HashMap::insert`: afterwards `k` maps to `v`
    /// and every other key keeps its entry.
    #[verifier::external_body]
    fn insert(&mut self, k: u32, v: u32)
        ensures
            rule_map_entries(*final(self)) == rule_map_entries(*old(self)).insert(k, v),
    {
        self.map.insert(k, v);
    }

    /// Relies on hashbrown's `HashMap::get`: the entry of `k`, if it has one.
    #[verifier::external_body]
    fn get(&self, k: u32) -> (r: Option<u32>)
        ensures
            r == (if rule_map_entries(*self).contains_key(k) {
                Some(rule_map_entries(*self)[k])
            } else {
                Option::<u32>::None
            }),
    {
        self.map.get(&k).copied()
    }
}

/// The rule table: built once from the movement rules, read-only after.
pub struct FallingSandRules {
    rules: RuleMap,
}

impl View for FallingSandRules {
    type V = Map<u32, u32>;

    closed spec fn view(&self) -> Map<u32, u32> {
        rule_map_entries(self.rules)
    }
}

impl FallingSandRules {
    /// Every table holds exactly the compiled rules.
    #[verifier::type_invariant]
    spec fn holds_compiled_rules(self) -> bool {
        rule_map_entries(self.rules) == compiled_rules()
    }

    /// Compiles the table: each block of real elements whose rules change it.
    pub fn new() -> (r: Self)
        ensures
            r@ == compiled_rules(),
    {
        let mut elements: Vec<Element> = Vec::new();
        for i in 0..ELEMENT_COUNT
            invariant
                elements@.len() == i,
                forall|j: int| 0 <= j < i ==> elements@[j] == element_of(j as u32),
        {
            elements.push(Element::from(i));
        }
        let n = elements.len();
        assert(lists_real_elements(elements@));

        let mut rules = RuleMap::new();
        proof {
            assert(rule_map_entries(rules) =~= compiled_below(0));
        }
        for a in 0..n
            invariant
                n == elements@.len(),
                lists_real_elements(elements@),
                rule_map_entries(rules) == compiled_below(27 * a),
        {
            for b in 0..n
                invariant
                    n == elements@.len(),
                    a < 3,
                    lists_real_elements(elements@),
                    rule_map_entries(rules) == compiled_below(27 * a + 9 * b),
            {
                for c in 0..n
                    invariant
                        n == elements@.len(),
                        a < 3,
                        b < 3,
                        lists_real_elements(elements@),
                        rule_map_entries(rules) == compiled_below(27 * a + 9 * b + 3 * c),
                {
                    for d in 0..n
                        invariant
                            n == elements@.len(),
                            a < 3,
                            b < 3,
                            c < 3,
                            lists_real_elements(elements@),
                            rule_map_entries(rules) == compiled_below(27 * a + 9 * b + 3 * c + d),
                    {
                        let input = (elements[a], elements[b], elements[c], elements[d]);
                        let in_rule = to_rule_state(input);
                        let out_rule = RuleBuilder::build(input);
                        proof {
                            lemma_compiled_step(input);
                        }
                        if in_rule != out_rule {
                            rules.insert(in_rule, out_rule);
                        }
                        proof {
                            assert(rule_map_entries(rules) =~= compiled_below(quad_rank(input) + 1));
                        }
                    }
                }
            }
        }
        proof {
            assert(compiled_below(81) =~= compiled_rules()) by {
                assert forall|k: u32| is_block_code(k) implies quad_rank(decode_quad(k)) < 81 by {
                    lemma_ordinal_round_trip(decode_quad(k).0);
                    lemma_ordinal_round_trip(decode_quad(k).1);
                    lemma_ordinal_round_trip(decode_quad(k).2);
                    lemma_ordinal_round_trip(decode_quad(k).3);
                }
            }
        }
        FallingSandRules { rules }
    }

    /// The table's answer for a state code: its entry, or the code itself.
    pub fn lookup(&self, code: u32) -> (r: u32)
        ensures
            self@ == compiled_rules(),
            r == table_lookup(code),
    {
        proof {
            use_type_invariant(self);
        }
        match self.rules.get(code) {
            Some(result) => result,
            Option::None => code,
        }
    }

    /// What the table makes of a block: its settled form where all four
    /// cells are real, the block itself otherwise.
    pub fn get_result(&self, input: Quad) -> (r: Quad)
        ensures
            r == decode_quad(table_lookup(encode_quad(input))),
            r == (if is_real_quad(input) { settled_block(input) } else { input }),
    {
        let input_rule = to_rule_state(input);
        let output_rule = self.lookup(input_rule);
        proof {
            lemma_table_answers_rules(input);
        }
        from_rule_state(output_rule)
    }
}

impl Default for FallingSandRules {
    fn default() -> (r: Self)
        ensures
            r@ == compiled_rules(),
    {
        FallingSandRules::new()
    }
}

/// No entry of the compiled table maps a code to itself.
pub proof fn lemma_no_identity_entries()
    ensures
        forall|k: u32| #[trigger] compiled_rules().contains_key(k) ==> compiled_rules()[k] != k,
{
}

/// Looking a code up is a function of the code alone: two lookups of one
/// code, in one table or in two, give one answer.
pub proof fn lemma_lookup_deterministic(t1: FallingSandRules, t2: FallingSandRules, code: u32)
    requires
        t1@ == compiled_rules(),
        t2@ == compiled_rules(),
    ensures
        (if t1@.contains_key(code) { t1@[code] } else { code }) == (if t2@.contains_key(code) { t2@[code] } else { code }),
        (if t1@.contains_key(code) { t1@[code] } else { code }) == table_lookup(code),
{
}

/// Water resting on sand with air beside them: the two never trade places;
/// the sand keeps its cell and the water slides down beside it.
pub proof fn lemma_water_never_sinks_into_sand()
    ensures
        settled_block((Element::Water, Element::Air, Element::Sand, Element::Air)) == (
        Element::Air,
        Element::Air,
        Element::Sand,
        Element::Water,
        ),
        settled_block((Element::Air, Element::Water, Element::Air, Element::Sand)) == (
        Element::Air,
        Element::Air,
        Element::Water,
        Element::Sand,
        ),
{
}

/// Sand with air below it and air diagonally below falls straight down.
pub proof fn lemma_sand_prefers_straight_down()
    ensures
        settled_block((Element::Sand, Element::Air, Element::Air, Element::Air)) == (
        Element::Air,
        Element::Air,
        Element::Sand,
        Element::Air,
        ),
        settled_block((Element::Air, Element::Sand, Element::Air, Element::Air)) == (
        Element::Air,
        Element::Air,
        Element::Air,
        Element::Sand,
        ),
{
}

/// Going past one block of real elements adds its entry to the compiled part
/// of the table exactly when the rules change it.
proof fn lemma_compiled_step(t: Quad)
    requires
        is_real_quad(t),
    ensures
        compiled_below(quad_rank(t) + 1) == (if encode_quad(settled_block(t)) != encode_quad(t) {
            compiled_below(quad_rank(t)).insert(encode_quad(t), encode_quad(settled_block(t)))
        } else {
            compiled_below(quad_rank(t))
        }),
{
    lemma_code_round_trip(t);
    let n = quad_rank(t);
    let k0 = encode_quad(t);
    assert(is_block_code(k0));
    assert forall|k: u32| #[trigger] is_block_code(k) && quad_rank(decode_quad(k)) == n implies k == k0 by {
        let s = decode_quad(k);
        lemma_ordinal_round_trip(s.0);
        lemma_ordinal_round_trip(s.1);
        lemma_ordinal_round_trip(s.2);
        lemma_ordinal_round_trip(s.3);
        lemma_ordinal_round_trip(t.0);
        lemma_ordinal_round_trip(t.1);
        lemma_ordinal_round_trip(t.2);
        lemma_ordinal_round_trip(t.3);
        assert(s == t);
    }
    if encode_quad(settled_block(t)) != k0 {
        assert(compiled_below(n + 1) =~= compiled_below(n).insert(k0, rule_result(k0)));
    } else {
        assert(compiled_below(n + 1) =~= compiled_below(n));
    }
}

/// What the table gives for a block: the settled block where every cell is
/// real, and the block unchanged where one is the sentinel.
pub proof fn lemma_table_answers_rules(t: Quad)
    ensures
        decode_quad(table_lookup(encode_quad(t))) == (if is_real_quad(t) {
            settled_block(t)
        } else {
            t
        }),
{
    lemma_code_round_trip(t);
    lemma_code_round_trip(settled_block(t));
}

} // verus!
