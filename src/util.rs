use vstd::prelude::*;

verus! {

/// What a [`DirtyRect`] records: a flag and an inclusive bounding box.
pub struct RectView {
    pub dirty: bool,
    pub min_x: int,
    pub min_y: int,
    pub max_x: int,
    pub max_y: int,
}

impl RectView {
    /// The rest state: not dirty, and a box that holds no point.
    pub open spec fn clean() -> RectView {
        RectView {
            dirty: false,
            min_x: usize::MAX as int,
            min_y: usize::MAX as int,
            max_x: 0,
            max_y: 0,
        }
    }

    /// The box grown to take in `(x, y)`; it turns dirty when a bound moves.
    pub open spec fn with_point(self, x: int, y: int) -> RectView {
        RectView {
            dirty: self.dirty || x < self.min_x || x > self.max_x || y < self.min_y || y
                > self.max_y,
            min_x: if x < self.min_x { x } else { self.min_x },
            min_y: if y < self.min_y { y } else { self.min_y },
            max_x: if x > self.max_x { x } else { self.max_x },
            max_y: if y > self.max_y { y } else { self.max_y },
        }
    }

    /// Whether `(x, y)` lies in the box.
    pub open spec fn contains(self, x: int, y: int) -> bool {
        self.min_x <= x <= self.max_x && self.min_y <= y <= self.max_y
    }
}

/// `r` is `r0` grown just enough to take in every point of `s`, and it is
/// dirty exactly when `r0` was or one of those points lay outside `r0`.
pub open spec fn grown_by(r0: RectView, s: Set<(int, int)>, r: RectView) -> bool {
    &&& forall|p: (int, int)| #[trigger] s.contains(p) ==> r.contains(p.0, p.1)
    &&& r.min_x <= r0.min_x && r.min_y <= r0.min_y && r.max_x >= r0.max_x && r.max_y >= r0.max_y
    &&& (r.min_x == r0.min_x || exists|p: (int, int)| #[trigger] s.contains(p) && p.0 == r.min_x)
    &&& (r.min_y == r0.min_y || exists|p: (int, int)| #[trigger] s.contains(p) && p.1 == r.min_y)
    &&& (r.max_x == r0.max_x || exists|p: (int, int)| #[trigger] s.contains(p) && p.0 == r.max_x)
    &&& (r.max_y == r0.max_y || exists|p: (int, int)| #[trigger] s.contains(p) && p.1 == r.max_y)
    &&& r.dirty == (r0.dirty || exists|p: (int, int)| #[trigger] s.contains(p) && !r0.contains(p.0, p.1))
}

/// The rectangle is at rest, or a dirty box inside a `w` by `h` grid.
pub open spec fn rect_fits(r: RectView, w: int, h: int) -> bool {
    ||| r == RectView::clean()
    ||| (r.dirty && 0 <= r.min_x <= r.max_x < w && 0 <= r.min_y <= r.max_y < h)
}

/// Growing by no point leaves the rectangle as it is.
pub proof fn lemma_grown_by_nothing(r: RectView)
    ensures
        grown_by(r, Set::empty(), r),
{
}

/// Adding a point to a rectangle grown by `s` gives it grown by `s` and that point.
pub proof fn lemma_grown_by_point(r0: RectView, s: Set<(int, int)>, r: RectView, x: int, y: int)
    requires
        grown_by(r0, s, r),
    ensures
        grown_by(r0, s.insert((x, y)), r.with_point(x, y)),
{
    let t = s.insert((x, y));
    let r1 = r.with_point(x, y);
    assert(t.contains((x, y)));
    assert forall|p: (int, int)| #[trigger] t.contains(p) implies r1.contains(p.0, p.1) by {
        if p != (x, y) {
            assert(s.contains(p));
        }
    }
    if r1.min_x != r0.min_x {
        if r1.min_x == x {
            assert(t.contains((x, y)) && (x, y).0 == r1.min_x);
        } else {
            let q = choose|q: (int, int)| #[trigger] s.contains(q) && q.0 == r.min_x;
            assert(t.contains(q));
        }
    }
    if r1.min_y != r0.min_y {
        if r1.min_y == y {
            assert(t.contains((x, y)) && (x, y).1 == r1.min_y);
        } else {
            let q = choose|q: (int, int)| #[trigger] s.contains(q) && q.1 == r.min_y;
            assert(t.contains(q));
        }
    }
    if r1.max_x != r0.max_x {
        if r1.max_x == x {
            assert(t.contains((x, y)) && (x, y).0 == r1.max_x);
        } else {
            let q = choose|q: (int, int)| #[trigger] s.contains(q) && q.0 == r.max_x;
            assert(t.contains(q));
        }
    }
    if r1.max_y != r0.max_y {
        if r1.max_y == y {
            assert(t.contains((x, y)) && (x, y).1 == r1.max_y);
        } else {
            let q = choose|q: (int, int)| #[trigger] s.contains(q) && q.1 == r.max_y;
            assert(t.contains(q));
        }
    }
    let outside = exists|p: (int, int)| #[trigger] t.contains(p) && !r0.contains(p.0, p.1);
    if r.dirty {
        if !r0.dirty {
            let q = choose|q: (int, int)| #[trigger] s.contains(q) && !r0.contains(q.0, q.1);
            assert(t.contains(q));
        }
    } else {
        assert(!r0.dirty);
        assert(!exists|p: (int, int)| #[trigger] s.contains(p) && !r0.contains(p.0, p.1));
        // No point of `s` lay outside `r0`, so no bound has moved.
        if r.min_x != r0.min_x {
            let q = choose|q: (int, int)| #[trigger] s.contains(q) && q.0 == r.min_x;
            assert(r0.contains(q.0, q.1));
        }
        if r.min_y != r0.min_y {
            let q = choose|q: (int, int)| #[trigger] s.contains(q) && q.1 == r.min_y;
            assert(r0.contains(q.0, q.1));
        }
        if r.max_x != r0.max_x {
            let q = choose|q: (int, int)| #[trigger] s.contains(q) && q.0 == r.max_x;
            assert(r0.contains(q.0, q.1));
        }
        if r.max_y != r0.max_y {
            let q = choose|q: (int, int)| #[trigger] s.contains(q) && q.1 == r.max_y;
            assert(r0.contains(q.0, q.1));
        }
        if !r0.contains(x, y) {
            assert(t.contains((x, y)));
        }
        if outside {
            let q = choose|q: (int, int)| #[trigger] t.contains(q) && !r0.contains(q.0, q.1);
            if q != (x, y) {
                assert(s.contains(q));
            }
        }
    }
}

/// A rectangle that fits a grid, grown by points of the grid, still fits it.
pub proof fn lemma_grown_fits(r0: RectView, s: Set<(int, int)>, r: RectView, w: int, h: int)
    requires
        grown_by(r0, s, r),
        rect_fits(r0, w, h),
        forall|p: (int, int)| #[trigger] s.contains(p) ==> 0 <= p.0 < w && 0 <= p.1 < h,
        w <= usize::MAX,
        h <= usize::MAX,
    ensures
        rect_fits(r, w, h),
{
    if exists|p: (int, int)| #[trigger] s.contains(p) {
        let q = choose|q: (int, int)| #[trigger] s.contains(q);
        assert(r.contains(q.0, q.1));
        if r0 == RectView::clean() {
            assert(!r0.contains(q.0, q.1));
        }
        if r.min_x != r0.min_x {
            let p = choose|p: (int, int)| #[trigger] s.contains(p) && p.0 == r.min_x;
        }
        if r.min_y != r0.min_y {
            let p = choose|p: (int, int)| #[trigger] s.contains(p) && p.1 == r.min_y;
        }
        if r.max_x != r0.max_x {
            let p = choose|p: (int, int)| #[trigger] s.contains(p) && p.0 == r.max_x;
        }
        if r.max_y != r0.max_y {
            let p = choose|p: (int, int)| #[trigger] s.contains(p) && p.1 == r.max_y;
        }
    } else {
        assert(r.min_x == r0.min_x);
        assert(r.min_y == r0.min_y);
        assert(r.max_x == r0.max_x);
        assert(r.max_y == r0.max_y);
        assert(r == r0);
    }
}

/// The bounding box of every cell touched since the last reset.
#[derive(Debug)]
pub struct DirtyRect {
    dirty: bool,
    rect: (usize, usize, usize, usize),
}

impl View for DirtyRect {
    type V = RectView;

    closed spec fn view(&self) -> RectView {
        RectView {
            dirty: self.dirty,
            min_x: self.rect.0 as int,
            min_y: self.rect.1 as int,
            max_x: self.rect.2 as int,
            max_y: self.rect.3 as int,
        }
    }
}

impl DirtyRect {
    /// A rectangle at rest.
    pub fn new() -> (r: Self)
        ensures
            r@ == RectView::clean(),
    {
        Self { dirty: false, rect: (usize::MAX, usize::MAX, usize::MIN, usize::MIN) }
    }

    /// The inclusive range of columns the box spans.
    pub fn range_x(&self) -> (r: std::ops::RangeInclusive<usize>)
        ensures
            r@.start == self@.min_x,
            r@.end == self@.max_x,
            !r@.exhausted,
    {
        self.rect.0..=self.rect.2
    }

    /// The inclusive range of rows the box spans.
    pub fn range_y(&self) -> (r: std::ops::RangeInclusive<usize>)
        ensures
            r@.start == self@.min_y,
            r@.end == self@.max_y,
            !r@.exhausted,
    {
        self.rect.1..=self.rect.3
    }

    /// Returns the rectangle to rest: not dirty, holding no point.
    pub fn reset(&mut self)
        ensures
            final(self)@ == RectView::clean(),
    {
        self.dirty = false;
        self.rect = (usize::MAX, usize::MAX, usize::MIN, usize::MIN);
    }

    /// Grows the box to take in `(x, y)`, turning dirty if a bound moves.
    pub fn add_point(&mut self, x: usize, y: usize)
        ensures
            final(self)@ == old(self)@.with_point(x as int, y as int),
    {
        if x < self.rect.0 {
            self.rect.0 = x;
            self.dirty = true;
        }
        if x > self.rect.2 {
            self.rect.2 = x;
            self.dirty = true;
        }
        if y < self.rect.1 {
            self.rect.1 = y;
            self.dirty = true;
        }
        if y > self.rect.3 {
            self.rect.3 = y;
            self.dirty = true;
        }
    }

    pub fn is_dirty(&self) -> (r: bool)
        ensures
            r == self@.dirty,
    {
        self.dirty
    }
}

} // verus!
