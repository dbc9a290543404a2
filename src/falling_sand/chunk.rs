use rand::Rng;
use vstd::arithmetic::div_mod::{
    lemma_fundamental_div_mod, lemma_fundamental_div_mod_converse_div,
    lemma_fundamental_div_mod_converse_mod,
};
use vstd::prelude::*;

use super::element::{element_colour, pixel_byte, Element};
use super::rules::{is_real_quad, settled_block, FallingSandRules, Quad};
use crate::util::{
    grown_by, lemma_grown_by_nothing, lemma_grown_by_point, lemma_grown_fits, rect_fits,
    DirtyRect, RectView,
};

verus! {

/// A chunk's cells framed by a border of sentinels, in an ndarray
/// two-dimensional array indexed `(x, y)`.
#[verifier::external_body]
pub struct CellArray {
    cells: ndarray::Array2<Element>,
}

/// The contents of a [`CellArray`], indexed `[x][y]`.
pub uninterp spec fn array_cells(a: CellArray) -> Seq<Seq<Element>>;

impl CellArray {
    /// Relies on ndarray's `Array2::from_elem`: a `w` by `h` array with `e` in
    /// every cell. It panics where the product of the non-zero axis lengths
    /// overflows `isize`, which these bounds rule out.
    #[verifier::external_body]
    fn filled(w: usize, h: usize, e: Element) -> (r: CellArray)
        requires
            w <= isize::MAX,
            h <= isize::MAX,
            w * h <= isize::MAX,
        ensures
            array_cells(r) == Seq::new(w as nat, |_x: int| Seq::new(h as nat, |_y: int| e)),
    {
        CellArray { cells: ndarray::Array2::from_elem((w, h), e) }
    }

    /// Relies on indexing an ndarray `Array2` by `(x, y)`, which panics only
    /// outside its shape.
    #[verifier::external_body]
    fn get(&self, x: usize, y: usize) -> (r: Element)
        requires
            x < array_cells(*self).len(),
            y < array_cells(*self)[x as int].len(),
        ensures
            r == array_cells(*self)[x as int][y as int],
    {
        self.cells[(x, y)]
    }

    /// Relies on mutably indexing an ndarray `Array2` by `(x, y)`: that cell
    /// takes `e` and no other changes.
    #[verifier::external_body]
    fn set(&mut self, x: usize, y: usize, e: Element)
        requires
            x < array_cells(*old(self)).len(),
            y < array_cells(*old(self))[x as int].len(),
        ensures
            array_cells(*final(self)) == array_cells(*old(self)).update(
                x as int,
                array_cells(*old(self))[x as int].update(y as int, e),
            ),
    {
        self.cells[(x, y)] = e;
    }
}

/// A grid of cells, `+y` up, with its phase in the cycle of block partitions
/// and the rectangle of cells written since the last reset.
pub struct Chunk {
    step: usize,
    pub width: usize,
    pub height: usize,
    cells: CellArray,
    pub dirty_rect: DirtyRect,
}

/// The offset of the block partition in each phase of the cycle.
pub open spec fn phase_offset(phase: int) -> (int, int) {
    if phase == 0 {
        (0, 0)
    } else if phase == 1 {
        (1, 1)
    } else if phase == 2 {
        (0, 1)
    } else {
        (1, 0)
    }
}

/// The cell of a block at column `dx` and row `dy` (`dy == 1` is the top row).
pub open spec fn quad_at(t: Quad, dx: int, dy: int) -> Element {
    if dy == 1 {
        if dx == 0 {
            t.0
        } else {
            t.1
        }
    } else {
        if dx == 0 {
            t.2
        } else {
            t.3
        }
    }
}

/// What the rule table makes of a block: the settled block where all four
/// cells are real, the block itself where one is the sentinel.
pub open spec fn block_outcome(t: Quad) -> Quad {
    if is_real_quad(t) {
        settled_block(t)
    } else {
        t
    }
}

/// The points of a `w` by `h` grid.
pub open spec fn grid_points(w: int, h: int) -> Set<(int, int)> {
    Set::new(|p: (int, int)| 0 <= p.0 < w && 0 <= p.1 < h)
}

/// What a chunk holds: its size, its phase in the cycle of partitions, its
/// cells indexed `[x][y]`, and its dirty rectangle.
pub struct ChunkView {
    pub width: int,
    pub height: int,
    pub phase: int,
    pub cells: Seq<Seq<Element>>,
    pub rect: RectView,
}

impl ChunkView {
    /// The cell at `(x, y)`; the sentinel outside the grid.
    pub open spec fn cell(self, x: int, y: int) -> Element {
        if 0 <= x < self.width && 0 <= y < self.height {
            self.cells[x][y]
        } else {
            Element::Outside
        }
    }

    /// The block whose bottom-left cell is `(x0, y0)`.
    pub open spec fn block_of(self, x0: int, y0: int) -> Quad {
        (self.cell(x0, y0 + 1), self.cell(x0 + 1, y0 + 1), self.cell(x0, y0), self.cell(x0 + 1, y0))
    }

    /// Whether an update visits the block in column `bx` and row `by` of the
    /// partition.
    pub open spec fn visits(self, bx: int, by: int) -> bool {
        0 <= bx < self.width / 2 && 0 <= by < self.height / 2
    }

    /// The cell at `(x, y)` after the next update: the table's outcome for the
    /// block of this phase's partition that holds it, where the update visits
    /// that block.
    pub open spec fn next_cell(self, x: int, y: int) -> Element {
        let o = phase_offset(self.phase);
        let bx = (x - o.0) / 2;
        let by = (y - o.1) / 2;
        if self.visits(bx, by) {
            let x0 = o.0 + 2 * bx;
            let y0 = o.1 + 2 * by;
            quad_at(block_outcome(self.block_of(x0, y0)), x - x0, y - y0)
        } else {
            self.cell(x, y)
        }
    }

    /// The points of the grid the next update changes.
    pub open spec fn changed_cells(self) -> Set<(int, int)> {
        Set::new(
            |p: (int, int)|
                0 <= p.0 < self.width && 0 <= p.1 < self.height && self.next_cell(p.0, p.1)
                    != self.cell(p.0, p.1),
        )
    }
}

/// `after` is `before` with `e` written at `(x, y)` and the point taken into
/// the dirty rectangle, where the point is in the grid; `before` unchanged
/// where it is not.
pub open spec fn written(before: ChunkView, after: ChunkView, x: int, y: int, e: Element) -> bool {
    let inside = 0 <= x < before.width && 0 <= y < before.height;
    &&& after.width == before.width
    &&& after.height == before.height
    &&& after.phase == before.phase
    &&& forall|i: int, j: int|
        #[trigger] after.cell(i, j) == if inside && i == x && j == y {
            e
        } else {
            before.cell(i, j)
        }
    &&& after.rect == if inside {
        before.rect.with_point(x, y)
    } else {
        before.rect
    }
}

/// Every cell of the grid holds water in rows `0..=level` and air above.
pub open spec fn water_up_to(v: ChunkView, level: int) -> bool {
    forall|x: int, y: int|
        0 <= x < v.width && 0 <= y < v.height ==> #[trigger] v.cell(x, y) == if y <= level {
            Element::Water
        } else {
            Element::Air
        }
}

/// Relies on rand's `thread_rng` and `Rng::gen_range`: a number drawn from
/// `low..high`, which must not be empty.
#[verifier::external_body]
fn random_in(low: usize, high: usize) -> (r: usize)
    requires
        low < high,
    ensures
        low <= r < high,
{
    rand::thread_rng().gen_range(low..high)
}

/// Relies on `RangeInclusive::start`: the lower bound the range was made with.
pub assume_specification<Idx>[ core::ops::RangeInclusive::<Idx>::start ](
    r: &core::ops::RangeInclusive<Idx>,
) -> (ret: &Idx)
    ensures
        *ret == r@.start,
;

/// Relies on `RangeInclusive::end`: the upper bound the range was made with.
pub assume_specification<Idx>[ core::ops::RangeInclusive::<Idx>::end ](
    r: &core::ops::RangeInclusive<Idx>,
) -> (ret: &Idx)
    ensures
        *ret == r@.end,
;

/// Byte `k` of an RGBA image of the chunk, one pixel per cell row by row,
/// once its dirty rectangle is painted over `prev`.
pub open spec fn painted_byte(v: ChunkView, prev: u8, k: int) -> u8 {
    let p = k / 4;
    let x = p % v.width;
    let y = p / v.width;
    if v.rect.contains(x, y) {
        pixel_byte(Some(v.cell(x, y)), k % 4)
    } else {
        prev
    }
}

/// The points of the grid where two chunks differ.
pub open spec fn diff_cells(a: ChunkView, b: ChunkView) -> Set<(int, int)> {
    Set::new(
        |p: (int, int)|
            0 <= p.0 < a.width && 0 <= p.1 < a.height && a.cell(p.0, p.1) != b.cell(p.0, p.1),
    )
}

impl View for Chunk {
    type V = ChunkView;

    closed spec fn view(&self) -> ChunkView {
        let a = array_cells(self.cells);
        ChunkView {
            width: self.width as int,
            height: self.height as int,
            phase: self.step as int,
            cells: Seq::new(
                self.width as nat,
                |x: int| Seq::new(self.height as nat, |y: int| a[x + 1][y + 1]),
            ),
            rect: self.dirty_rect@,
        }
    }
}

impl Chunk {
    /// The phase is one of four; the array holds the grid inside a border of
    /// sentinels and is small enough to index; the dirty rectangle is at rest
    /// or a box of the grid.
    pub closed spec fn wf(&self) -> bool {
        let a = array_cells(self.cells);
        &&& self.step < 4
        &&& (self.width + 2) * (self.height + 2) <= isize::MAX
        &&& self.width + 2 <= isize::MAX
        &&& self.height + 2 <= isize::MAX
        &&& a.len() == self.width + 2
        &&& forall|i: int| 0 <= i < a.len() ==> #[trigger] a[i].len() == self.height + 2
        &&& forall|i: int, j: int|
            0 <= i < self.width + 2 && 0 <= j < self.height + 2 && (i == 0 || j == 0 || i
                == self.width + 1 || j == self.height + 1) ==> #[trigger] a[i][j]
                == Element::Outside
        &&& rect_fits(self.dirty_rect@, self.width as int, self.height as int)
    }

    /// The cell at `(x, y)` of the grid or its border.
    fn read(&self, x: usize, y: usize) -> (r: Element)
        requires
            self.wf(),
            x <= self.width,
            y <= self.height,
        ensures
            r == self@.cell(x as int, y as int),
    {
        self.cells.get(x + 1, y + 1)
    }

    /// Writes `after` over `before` at `(x, y)` where they differ and the
    /// point is in the grid, and takes the point into the dirty rectangle.
    fn write_back(
        &mut self,
        x: usize,
        y: usize,
        before: Element,
        after: Element,
        Ghost(start): Ghost<Chunk>,
    )
        requires
            old(self).wf(),
            start.wf(),
            x <= old(self).width,
            y <= old(self).height,
            start.width == old(self).width,
            start.height == old(self).height,
            before == old(self)@.cell(x as int, y as int),
            before == start@.cell(x as int, y as int),
            grown_by(start@.rect, diff_cells(start@, old(self)@), old(self)@.rect),
        ensures
            final(self).wf(),
            final(self).width == old(self).width,
            final(self).height == old(self).height,
            final(self).step == old(self).step,
            forall|i: int, j: int|
                #[trigger] final(self)@.cell(i, j) == if i == x && j == y && x < old(self).width
                    && y < old(self).height {
                    after
                } else {
                    old(self)@.cell(i, j)
                },
            grown_by(start@.rect, diff_cells(start@, final(self)@), final(self)@.rect),
    {
        let ghost pre = *self;
        if before != after && x < self.width && y < self.height {
            self.cells.set(x + 1, y + 1, after);
            self.dirty_rect.add_point(x, y);
            proof {
                let ghost post = *self;
                assert forall|i: int, j: int| #[trigger]
                    post@.cell(i, j) == if i == x && j == y { after } else { pre@.cell(i, j) } by {}
                lemma_grown_by_point(
                    start@.rect,
                    diff_cells(start@, pre@),
                    pre@.rect,
                    x as int,
                    y as int,
                );
                assert(diff_cells(start@, post@) =~= diff_cells(start@, pre@).insert((x as int, y as int)));
                lemma_grown_fits(
                    start@.rect,
                    diff_cells(start@, post@),
                    post@.rect,
                    post.width as int,
                    post.height as int,
                );
            }
        }
    }

    /// Looks up the block whose bottom-left cell is `(x0, y0)` and writes back
    /// the cells the table changes.
    fn update_block(
        &mut self,
        rules: &FallingSandRules,
        x0: usize,
        y0: usize,
        Ghost(start): Ghost<Chunk>,
    )
        requires
            old(self).wf(),
            start.wf(),
            x0 < old(self).width,
            y0 < old(self).height,
            start.width == old(self).width,
            start.height == old(self).height,
            old(self)@.block_of(x0 as int, y0 as int) == start@.block_of(x0 as int, y0 as int),
            grown_by(start@.rect, diff_cells(start@, old(self)@), old(self)@.rect),
        ensures
            final(self).wf(),
            final(self).width == old(self).width,
            final(self).height == old(self).height,
            final(self).step == old(self).step,
            forall|i: int, j: int|
                #[trigger] final(self)@.cell(i, j) == if x0 <= i <= x0 + 1 && y0 <= j <= y0 + 1
                    && i < old(self).width && j < old(self).height {
                    quad_at(block_outcome(start@.block_of(x0 as int, y0 as int)), i - x0, j - y0)
                } else {
                    old(self)@.cell(i, j)
                },
            grown_by(start@.rect, diff_cells(start@, final(self)@), final(self)@.rect),
    {
        let ghost pre = *self;
        let in_elements = (
            self.read(x0, y0 + 1),
            self.read(x0 + 1, y0 + 1),
            self.read(x0, y0),
            self.read(x0 + 1, y0),
        );
        let out_elements = rules.get_result(in_elements);
        self.write_back(x0, y0 + 1, in_elements.0, out_elements.0, Ghost(start));
        self.write_back(x0 + 1, y0 + 1, in_elements.1, out_elements.1, Ghost(start));
        self.write_back(x0, y0, in_elements.2, out_elements.2, Ghost(start));
        self.write_back(x0 + 1, y0, in_elements.3, out_elements.3, Ghost(start));
    }

    /// Advances the phase and runs the rule table over every block of the
    /// phase's partition, writing back the cells it changes and taking them
    /// into the dirty rectangle.
    pub fn update(&mut self, rules: &FallingSandRules)
        requires
            old(self).wf(),
        ensures
            final(self).wf(),
            final(self)@.width == old(self)@.width,
            final(self)@.height == old(self)@.height,
            final(self)@.phase == (old(self)@.phase + 1) % 4,
            forall|x: int, y: int|
                0 <= x < old(self)@.width && 0 <= y < old(self)@.height ==> #[trigger] final(self)@.cell(x, y) == old(self)@.next_cell(x, y),
            grown_by(old(self)@.rect, old(self)@.changed_cells(), final(self)@.rect),
            rect_fits(final(self)@.rect, final(self)@.width, final(self)@.height),
    {
        let block_offset: (usize, usize) = if self.step == 0 {
            (0, 0)
        } else if self.step == 1 {
            (1, 1)
        } else if self.step == 2 {
            (0, 1)
        } else {
            (1, 0)
        };
        let ghost start = *self;
        self.step = (self.step + 1) % 4;
        proof {
            assert(diff_cells(start@, self@) =~= Set::empty());
            lemma_grown_by_nothing(start@.rect);
        }
        let ghost o = phase_offset(start@.phase);
        let blocks_y = self.height / 2;
        let blocks_x = self.width / 2;
        for block_y in 0..blocks_y
            invariant
                blocks_y == start.height / 2,
                blocks_x == start.width / 2,
                self.wf(),
                start.wf(),
                self.width == start.width,
                self.height == start.height,
                self.step == (start.step + 1) % 4,
                block_offset.0 as int == o.0,
                block_offset.1 as int == o.1,
                o == phase_offset(start@.phase),
                forall|x: int, y: int|
                    0 <= x < start.width && 0 <= y < start.height ==> #[trigger] self@.cell(x, y)
                        == if start@.visits((x - o.0) / 2, (y - o.1) / 2) && (y - o.1) / 2
                        < block_y {
                        start@.next_cell(x, y)
                    } else {
                        start@.cell(x, y)
                    },
                grown_by(start@.rect, diff_cells(start@, self@), self@.rect),
        {
            let y = block_y * 2 + block_offset.1;
            for block_x in 0..blocks_x
                invariant
                    blocks_x == start.width / 2,
                    self.wf(),
                    start.wf(),
                    self.width == start.width,
                    self.height == start.height,
                    self.step == (start.step + 1) % 4,
                    block_offset.0 as int == o.0,
                    block_offset.1 as int == o.1,
                    o == phase_offset(start@.phase),
                    block_y < start.height / 2,
                    y == block_y * 2 + block_offset.1,
                    forall|x: int, y: int|
                        0 <= x < start.width && 0 <= y < start.height ==> #[trigger] self@.cell(x, y)
                            == if start@.visits((x - o.0) / 2, (y - o.1) / 2) && ((y - o.1) / 2
                            < block_y || ((y - o.1) / 2 == block_y && (x - o.0) / 2 < block_x)) {
                            start@.next_cell(x, y)
                        } else {
                            start@.cell(x, y)
                        },
                    grown_by(start@.rect, diff_cells(start@, self@), self@.rect),
            {
                let x = block_x * 2 + block_offset.0;
                let ghost pre = *self;
                proof {
                    let xi = x as int;
                    let yi = y as int;
                    assert((xi - o.0) / 2 == block_x);
                    assert((xi + 1 - o.0) / 2 == block_x);
                    assert((yi - o.1) / 2 == block_y);
                    assert((yi + 1 - o.1) / 2 == block_y);
                    assert(pre@.cell(xi, yi) == start@.cell(xi, yi));
                    assert(pre@.cell(xi + 1, yi) == start@.cell(xi + 1, yi));
                    assert(pre@.cell(xi, yi + 1) == start@.cell(xi, yi + 1));
                    assert(pre@.cell(xi + 1, yi + 1) == start@.cell(xi + 1, yi + 1));
                    assert(pre@.block_of(xi, yi) == start@.block_of(xi, yi));
                }
                self.update_block(rules, x, y, Ghost(start));
                proof {
                    let xi = x as int;
                    let yi = y as int;
                    assert forall|i: int, j: int|
                        0 <= i < start.width && 0 <= j < start.height implies #[trigger] self@.cell(i, j)
                            == if start@.visits((i - o.0) / 2, (j - o.1) / 2) && ((j - o.1) / 2
                            < block_y || ((j - o.1) / 2 == block_y && (i - o.0) / 2 < block_x + 1)) {
                            start@.next_cell(i, j)
                        } else {
                            start@.cell(i, j)
                        } by {
                        if xi <= i <= xi + 1 && yi <= j <= yi + 1 {
                            assert((i - o.0) / 2 == block_x);
                            assert((j - o.1) / 2 == block_y);
                        } else {
                            assert(self@.cell(i, j) == pre@.cell(i, j));
                            assert((i - o.0) / 2 != block_x || (j - o.1) / 2 != block_y);
                        }
                    }
                }
            }
        }
        proof {
            assert(diff_cells(start@, self@) =~= start@.changed_cells());
        }
    }

    /// A chunk of air with water in rows `0..=level`, in phase 0, with every
    /// cell of the grid in its dirty rectangle.
    pub fn with_water_level(width: usize, height: usize, level: usize) -> (r: Self)
        requires
            (width + 2) * (height + 2) <= isize::MAX,
        ensures
            r.wf(),
            r@.width == width,
            r@.height == height,
            r@.phase == 0,
            water_up_to(r@, level as int),
            grown_by(RectView::clean(), grid_points(width as int, height as int), r@.rect),
    {
        assert(width + 2 <= (width + 2) * (height + 2)) by (nonlinear_arith);
        assert(height + 2 <= (width + 2) * (height + 2)) by (nonlinear_arith);
        let mut initial = Chunk {
            step: 0,
            width,
            height,
            cells: CellArray::filled(width + 2, height + 2, Element::Outside),
            dirty_rect: DirtyRect::new(),
        };
        proof {
            lemma_grown_by_nothing(RectView::clean());
            assert(Set::<(int, int)>::empty() =~= Set::new(
                |p: (int, int)| 0 <= p.0 < width && 0 <= p.1 < height && (p.1 < 0 || (p.1 == 0 && p.0 < 0)),
            ));
        }

        // The grid starts as air.
        for y in 0..height
            invariant
                initial.wf(),
                initial.width == width,
                initial.height == height,
                initial.step == 0,
                forall|i: int, j: int|
                    0 <= i < width && 0 <= j < height ==> #[trigger] initial@.cell(i, j) == if j < y {
                        Element::Air
                    } else {
                        Element::Outside
                    },
                grown_by(RectView::clean(), Set::new(
                    |p: (int, int)| 0 <= p.0 < width && 0 <= p.1 < height && (p.1 < y || (p.1 == y && p.0 < 0)),
                ), initial@.rect),
        {
            proof {
                assert(Set::new(
                    |p: (int, int)| 0 <= p.0 < width && 0 <= p.1 < height && (p.1 < y || (p.1 == y && p.0 < 0)),
                ) =~= Set::new(
                    |p: (int, int)| 0 <= p.0 < width && 0 <= p.1 < height && p.1 < y,
                ));
            }
            for x in 0..width
                invariant
                    initial.wf(),
                    initial.width == width,
                    initial.height == height,
                    initial.step == 0,
                    y < height,
                    forall|i: int, j: int|
                        0 <= i < width && 0 <= j < height ==> #[trigger] initial@.cell(i, j) == if j < y
                            || (j == y && i < x) {
                            Element::Air
                        } else {
                            Element::Outside
                        },
                    grown_by(RectView::clean(), Set::new(
                        |p: (int, int)| 0 <= p.0 < width && 0 <= p.1 < height && (p.1 < y || (p.1 == y && p.0 < x)),
                    ), initial@.rect),
            {
                let ghost pre = initial@;
                initial.set_cell(x, y, Element::Air);
                proof {
                    lemma_grown_by_point(RectView::clean(), Set::new(
                        |p: (int, int)| 0 <= p.0 < width && 0 <= p.1 < height && (p.1 < y || (p.1 == y && p.0 < x)),
                    ), pre.rect, x as int, y as int);
                    assert(Set::new(
                        |p: (int, int)| 0 <= p.0 < width && 0 <= p.1 < height && (p.1 < y || (p.1 == y && p.0 < x)),
                    ).insert((x as int, y as int)) =~= Set::new(
                        |p: (int, int)| 0 <= p.0 < width && 0 <= p.1 < height && (p.1 < y || (p.1 == y && p.0 < x + 1)),
                    ));
                }
            }
            proof {
                assert(Set::new(
                    |p: (int, int)| 0 <= p.0 < width && 0 <= p.1 < height && (p.1 < y || (p.1 == y && p.0 < width)),
                ) =~= Set::new(
                    |p: (int, int)| 0 <= p.0 < width && 0 <= p.1 < height && (p.1 < y + 1 || (p.1 == y + 1 && p.0 < 0)),
                ));
            }
        }
        proof {
            assert(Set::new(
                |p: (int, int)| 0 <= p.0 < width && 0 <= p.1 < height && (p.1 < height || (p.1 == height && p.0 < 0)),
            ) =~= grid_points(width as int, height as int));
        }

        // Then water fills the rows up to `level`.
        let top = if level < height {
            level + 1
        } else {
            height
        };
        for y in 0..top
            invariant
                initial.wf(),
                initial.width == width,
                initial.height == height,
                initial.step == 0,
                top <= height,
                top == height || top == level + 1,
                forall|i: int, j: int|
                    0 <= i < width && 0 <= j < height ==> #[trigger] initial@.cell(i, j) == if j < y {
                        Element::Water
                    } else {
                        Element::Air
                    },
                grown_by(RectView::clean(), grid_points(width as int, height as int), initial@.rect),
        {
            for x in 0..width
                invariant
                    initial.wf(),
                    initial.width == width,
                    initial.height == height,
                    initial.step == 0,
                    y < height,
                    forall|i: int, j: int|
                        0 <= i < width && 0 <= j < height ==> #[trigger] initial@.cell(i, j) == if j < y
                            || (j == y && i < x) {
                            Element::Water
                        } else {
                            Element::Air
                        },
                    grown_by(RectView::clean(), grid_points(width as int, height as int), initial@.rect),
            {
                let ghost pre = initial@;
                initial.set_cell(x, y, Element::Water);
                proof {
                    lemma_grown_by_point(RectView::clean(), grid_points(width as int, height as int), pre.rect, x as int, y as int);
                    assert(grid_points(width as int, height as int).insert((x as int, y as int)) =~= grid_points(width as int, height as int));
                }
            }
        }
        initial
    }

    /// A chunk of air with water in its bottom rows, up to a level drawn at
    /// random between a ninth and a half of its height.
    pub fn new(width: usize, height: usize) -> (r: Self)
        requires
            (width + 2) * (height + 2) <= isize::MAX,
        ensures
            r.wf(),
            r@.width == width,
            r@.height == height,
            r@.phase == 0,
            exists|d: int| 2 <= d < 10 && #[trigger] water_up_to(r@, height as int / d),
            grown_by(RectView::clean(), grid_points(width as int, height as int), r@.rect),
    {
        let divisor = random_in(2, 10);
        let r = Chunk::with_water_level(width, height, height / divisor);
        assert(water_up_to(r@, height as int / divisor as int));
        r
    }

    /// Writes `element` at `(x, y)` and takes the point into the dirty
    /// rectangle; a point outside the grid is ignored.
    pub fn set_cell(&mut self, x: usize, y: usize, element: Element)
        requires
            old(self).wf(),
        ensures
            final(self).wf(),
            written(old(self)@, final(self)@, x as int, y as int, element),
    {
        if x >= self.width || y >= self.height {
            return;
        }
        let ghost pre = *self;
        let x = x + 1;
        let y = y + 1;

        self.cells.set(x, y, element);
        self.dirty_rect.add_point(x - 1, y - 1);
        proof {
            lemma_grown_by_point(pre@.rect, Set::empty(), pre@.rect, x - 1, y - 1);
            lemma_grown_by_nothing(pre@.rect);
            lemma_grown_fits(pre@.rect, Set::empty().insert((x - 1, y - 1)), self@.rect, self.width as int, self.height as int);
        }
    }

    /// The cell at `(x, y)`, or `None` outside the grid.
    pub fn get_cell(&self, x: usize, y: usize) -> (r: Option<Element>)
        requires
            self.wf(),
        ensures
            r == if x < self@.width && y < self@.height {
                Some(self@.cell(x as int, y as int))
            } else {
                Option::<Element>::None
            },
    {
        if x >= self.width || y >= self.height {
            return Option::None;
        }
        let x = x + 1;
        let y = y + 1;

        Some(self.cells.get(x, y))
    }

    /// Drops a grain of sand into the top row, `offset` columns right of the
    /// start of the middle half of the width.
    pub fn place_sand_at(&mut self, offset: usize)
        requires
            old(self).wf(),
            old(self)@.height > 0,
            offset < old(self)@.width / 2,
        ensures
            final(self).wf(),
            written(
                old(self)@,
                final(self)@,
                (old(self)@.width - old(self)@.width / 2) / 2 + offset,
                old(self)@.height - 1,
                Element::Sand,
            ),
    {
        let frac = self.width / 2;
        let x = (self.width - frac) / 2 + offset;
        let y = self.height - 1;
        self.set_cell(x, y, Element::Sand);
    }

    /// Drops a grain of sand into the top row, in a column of the middle
    /// half of the width drawn at random.
    pub fn place_random_sand(&mut self)
        requires
            old(self).wf(),
            old(self)@.height > 0,
            old(self)@.width >= 2,
        ensures
            final(self).wf(),
            exists|offset: int|
                0 <= offset < old(self)@.width / 2 && #[trigger] written(
                    old(self)@,
                    final(self)@,
                    (old(self)@.width - old(self)@.width / 2) / 2 + offset,
                    old(self)@.height - 1,
                    Element::Sand,
                ),
    {
        let offset = random_in(0, self.width / 2);
        self.place_sand_at(offset);
    }

    /// The grid's width and height.
    pub fn size(&self) -> (r: (usize, usize))
        ensures
            r.0 == self@.width,
            r.1 == self@.height,
    {
        (self.width, self.height)
    }

    /// The dirty rectangle: at rest, or a box of the grid.
    pub fn rect(&self) -> (r: &DirtyRect)
        requires
            self.wf(),
        ensures
            r@ == self@.rect,
            rect_fits(r@, self@.width, self@.height),
    {
        &self.dirty_rect
    }

    /// Returns the dirty rectangle to rest once its region has been synced;
    /// nothing else changes.
    pub fn reset_dirty_rect(&mut self)
        requires
            old(self).wf(),
        ensures
            final(self).wf(),
            final(self)@ == (ChunkView { rect: RectView::clean(), ..old(self)@ }),
    {
        self.dirty_rect.reset();
    }

    /// Paints the cells in the dirty rectangle into an RGBA image of the
    /// chunk, one pixel per cell, row by row.
    pub fn paint_dirty(&self, pixels: &mut Vec<u8>)
        requires
            self.wf(),
            old(pixels)@.len() >= 4 * self@.width * self@.height,
        ensures
            final(pixels)@.len() == old(pixels)@.len(),
            forall|k: int|
                0 <= k < old(pixels)@.len() ==> #[trigger] final(pixels)@[k] == painted_byte(
                    self@,
                    old(pixels)@[k],
                    k,
                ),
            forall|k: int|
                4 * self@.width * self@.height <= k < old(pixels)@.len() ==> #[trigger] final(pixels)@[k] == old(pixels)@[k],
            !self@.rect.dirty ==> final(pixels)@ == old(pixels)@,
    {
        let ghost v = self@;
        let ghost orig = pixels@;
        let ghost len = pixels@.len() as int;
        proof {
            self.lemma_painted_region(len);
        }
        if !self.dirty_rect.is_dirty() {
            assert forall|k: int| 0 <= k < len implies #[trigger] pixels@[k] == painted_byte(v, orig[k], k) by {}
            assert(pixels@ =~= orig);
            return;
        }
        let w = self.width;
        let range_x = self.dirty_rect.range_x();
        let range_y = self.dirty_rect.range_y();
        let x0 = *range_x.start();
        let x1 = *range_x.end();
        let y0 = *range_y.start();
        let y1 = *range_y.end();
        assert(w > 0);
        let mut y = y0;
        while y <= y1
            invariant
                v == self@,
                self.wf(),
                w == v.width,
                v.rect.dirty,
                x0 == v.rect.min_x,
                x1 == v.rect.max_x,
                y0 == v.rect.min_y,
                y1 == v.rect.max_y,
                0 <= x0 <= x1 < v.width,
                0 <= y0 <= y1 < v.height,
                y0 <= y <= y1 + 1,
                len >= 4 * v.width * v.height,
                pixels@.len() == len,
                forall|k: int|
                    0 <= k < len ==> #[trigger] pixels@[k] == if v.rect.contains((k / 4) % v.width, (k / 4) / v.width)
                        && (k / 4) / v.width < y {
                        painted_byte(v, orig[k], k)
                    } else {
                        orig[k]
                    },
            decreases y1 + 1 - y,
        {
            let mut x = x0;
            while x <= x1
                invariant
                    v == self@,
                    self.wf(),
                    w == v.width,
                    v.rect.dirty,
                    x0 == v.rect.min_x,
                    x1 == v.rect.max_x,
                    y0 == v.rect.min_y,
                    y1 == v.rect.max_y,
                    0 <= x0 <= x1 < v.width,
                    0 <= y0 <= y1 < v.height,
                    y0 <= y <= y1,
                    x0 <= x <= x1 + 1,
                    len >= 4 * v.width * v.height,
                    pixels@.len() == len,
                    forall|k: int|
                        0 <= k < len ==> #[trigger] pixels@[k] == if v.rect.contains((k / 4) % v.width, (k / 4) / v.width)
                            && ((k / 4) / v.width < y || ((k / 4) / v.width == y && (k / 4) % v.width < x)) {
                            painted_byte(v, orig[k], k)
                        } else {
                            orig[k]
                        },
                decreases x1 + 1 - x,
            {
                let colour = element_colour(self.get_cell(x, y));
                let n = pixels.len();
                proof {
                    assert(y * w + x < w * v.height) by (nonlinear_arith)
                        requires
                            x < w,
                            y < v.height,
                    ;
                    assert((x + y * w) * 4 + 3 < n) by (nonlinear_arith)
                        requires
                            y * w + x < w * v.height,
                            n >= 4 * v.width * v.height,
                            w == v.width,
                    ;
                }
                let index = (x + y * w) * 4;
                let ghost pre = pixels@;
                pixels[index] = colour.0;
                pixels[index + 1] = colour.1;
                pixels[index + 2] = colour.2;
                pixels[index + 3] = 255;
                proof {
                    let base = index as int;
                    let p0 = x + y * w;
                    assert forall|k: int| 0 <= k < len implies #[trigger] pixels@[k] == if v.rect.contains((k / 4) % v.width, (k / 4) / v.width)
                        && ((k / 4) / v.width < y || ((k / 4) / v.width == y && (k / 4) % v.width < x + 1)) {
                        painted_byte(v, orig[k], k)
                    } else {
                        orig[k]
                    } by {
                        let p = k / 4;
                        lemma_fundamental_div_mod(k, 4);
                        lemma_fundamental_div_mod(p, w as int);
                        if base <= k < base + 4 {
                            lemma_fundamental_div_mod_converse_div(k, 4, p0, k - base);
                            lemma_fundamental_div_mod_converse_mod(k, 4, p0, k - base);
                            lemma_fundamental_div_mod_converse_div(p0, w as int, y as int, x as int);
                            lemma_fundamental_div_mod_converse_mod(p0, w as int, y as int, x as int);
                        } else {
                            assert(pixels@[k] == pre[k]);
                            if p % (w as int) == x && p / (w as int) == y {
                                assert(p == p0) by (nonlinear_arith)
                                    requires
                                        p == (w as int) * (p / (w as int)) + (p % (w as int)),
                                        p % (w as int) == x,
                                        p / (w as int) == y,
                                        p0 == x + y * w,
                                ;
                            }
                        }
                    }
                }
                x += 1;
            }
            y += 1;
        }
        proof {
            assert forall|k: int| 0 <= k < len implies #[trigger] pixels@[k] == painted_byte(v, orig[k], k) by {}
        }
    }

    /// A well-formed chunk's rectangle is at rest or a box of its grid, so
    /// the painted bytes all lie in the first `4 * width * height`, and a
    /// clean rectangle paints none.
    proof fn lemma_painted_region(&self, len: int)
        requires
            self.wf(),
        ensures
            rect_fits(self@.rect, self@.width, self@.height),
            !self@.rect.dirty ==> forall|k: int|
                0 <= k ==> !self@.rect.contains(#[trigger] (k / 4) % self@.width, (k / 4) / self@.width),
            forall|k: int|
                4 * self@.width * self@.height <= k < len ==> !self@.rect.contains(
                    #[trigger] (k / 4) % self@.width,
                    (k / 4) / self@.width,
                ),
    {
        let v = self@;
        assert forall|k: int|
            4 * v.width * v.height <= k < len implies !v.rect.contains(
                #[trigger] (k / 4) % v.width,
                (k / 4) / v.width,
            ) by {
            if v.rect.contains((k / 4) % v.width, (k / 4) / v.width) {
                assert(v.rect.dirty && v.rect.max_x < v.width && v.rect.max_y < v.height);
                let p = k / 4;
                lemma_fundamental_div_mod(k, 4);
                lemma_fundamental_div_mod(p, v.width);
                let px = p % v.width;
                let py = p / v.width;
                assert(p < v.width * v.height) by (nonlinear_arith)
                    requires
                        p == v.width * py + px,
                        0 <= px < v.width,
                        0 <= py < v.height,
                ;
                assert(k < 4 * v.width * v.height) by (nonlinear_arith)
                    requires
                        k == 4 * p + k % 4,
                        k % 4 < 4,
                        p < v.width * v.height,
                ;
            }
        }
    }
}

} // verus!
