//! The mathematical model of a rectangle: four integer bounds, the unit cells
//! they enclose, and the geometry of two rectangles stated over them.

use vstd::prelude::*;

verus! {

/// A unit cell of the integer grid, named by its lower-left corner `(x, y)`.
pub type Cell = (int, int);

/// The bounds of an axis-aligned rectangle. `top` and `right` are the larger
/// values on their axes, `bottom` and `left` the smaller ones.
pub struct Bounds {
    pub top: int,
    pub left: int,
    pub bottom: int,
    pub right: int,
}

/// The smaller of two integers.
pub open spec fn lesser(a: int, b: int) -> int {
    if a <= b {
        a
    } else {
        b
    }
}

/// The larger of two integers.
pub open spec fn greater(a: int, b: int) -> int {
    if a >= b {
        a
    } else {
        b
    }
}

/// The bounds with the given top, left, bottom and right.
pub open spec fn tlbr(top: int, left: int, bottom: int, right: int) -> Bounds {
    Bounds { top, left, bottom, right }
}

/// The bounds spanned by two corners, whichever way round they are given.
pub open spec fn spanning(c1: Cell, c2: Cell) -> Bounds {
    Bounds {
        top: greater(c1.1, c2.1),
        left: lesser(c1.0, c2.0),
        bottom: lesser(c1.1, c2.1),
        right: greater(c1.0, c2.0),
    }
}

impl Bounds {
    /// Canonical bounds: positive extent on both axes.
    pub open spec fn valid(self) -> bool {
        self.top > self.bottom && self.right > self.left
    }

    /// No bound lies on the wrong side of its opposite. Every rectangle value
    /// satisfies this; a valid one satisfies it strictly.
    pub open spec fn ordered(self) -> bool {
        self.top >= self.bottom && self.right >= self.left
    }

    /// Zero extent on at least one axis.
    pub open spec fn degenerate(self) -> bool {
        self.top == self.bottom || self.right == self.left
    }

    /// The extent from left to right.
    pub open spec fn width(self) -> int {
        self.right - self.left
    }

    /// The extent from bottom to top.
    pub open spec fn height(self) -> int {
        self.top - self.bottom
    }

    /// Height times width.
    pub open spec fn area(self) -> int {
        (self.top - self.bottom) * (self.right - self.left)
    }

    /// Whether the cell lies inside the bounds.
    pub open spec fn covers(self, c: Cell) -> bool {
        self.left <= c.0 < self.right && self.bottom <= c.1 < self.top
    }

    /// All cells inside the bounds.
    pub open spec fn cells(self) -> Set<Cell> {
        Set::new(|c: Cell| self.covers(c))
    }

    /// `self` reaches at least as far as `other` on all four sides.
    pub open spec fn encloses(self, other: Bounds) -> bool {
        &&& self.top >= other.top
        &&& self.left <= other.left
        &&& self.bottom <= other.bottom
        &&& self.right >= other.right
    }

    /// The projections overlap with positive extent on both axes; touching
    /// edges do not count.
    pub open spec fn overlaps(self, other: Bounds) -> bool {
        &&& self.right > other.left
        &&& self.left < other.right
        &&& self.bottom < other.top
        &&& self.top > other.bottom
    }

    /// The bounds shared by both: the lower top, the higher bottom, the
    /// rightmost left and the leftmost right. They need not be valid.
    pub open spec fn meet(self, other: Bounds) -> Bounds {
        Bounds {
            top: lesser(self.top, other.top),
            left: greater(self.left, other.left),
            bottom: greater(self.bottom, other.bottom),
            right: lesser(self.right, other.right),
        }
    }

    /// The overlap of two rectangles, where they share positive area.
    pub open spec fn overlap(self, other: Bounds) -> Option<Bounds> {
        if self.meet(other).valid() {
            Some(self.meet(other))
        } else {
            None
        }
    }

    /// The area that two rectangles share; zero where they share none.
    pub open spec fn overlap_area(self, other: Bounds) -> int {
        match self.overlap(other) {
            Some(m) => m.area(),
            None => 0,
        }
    }

    /// The part of `self` above `other`, over the full width of `self`.
    pub open spec fn top_strip(self, other: Bounds) -> Bounds {
        Bounds { top: self.top, left: self.left, bottom: other.top, right: self.right }
    }

    /// The part of `self` below `other`, over the full width of `self`.
    pub open spec fn bottom_strip(self, other: Bounds) -> Bounds {
        Bounds { top: other.bottom, left: self.left, bottom: self.bottom, right: self.right }
    }

    /// The part of `self` left of `other`, within the rows that both share.
    pub open spec fn left_strip(self, other: Bounds) -> Bounds {
        Bounds {
            top: lesser(other.top, self.top),
            left: self.left,
            bottom: greater(other.bottom, self.bottom),
            right: other.left,
        }
    }

    /// The part of `self` right of `other`, within the rows that both share.
    pub open spec fn right_strip(self, other: Bounds) -> Bounds {
        Bounds {
            top: lesser(other.top, self.top),
            left: other.right,
            bottom: greater(other.bottom, self.bottom),
            right: self.right,
        }
    }

    /// The pieces of `self` minus `other`: `self` itself where the two do not
    /// overlap, nothing where `other` encloses `self`, and otherwise those of
    /// the four strips around `other` that are valid.
    pub open spec fn minus(self, other: Bounds) -> Set<Bounds> {
        if !self.overlaps(other) {
            Set::empty().insert(self)
        } else if other.encloses(self) {
            Set::empty()
        } else {
            with_valid(
                with_valid(
                    with_valid(
                        with_valid(Set::empty(), self.top_strip(other)),
                        self.left_strip(other),
                    ),
                    self.bottom_strip(other),
                ),
                self.right_strip(other),
            )
        }
    }

    /// The pieces of the union: `self`, and `other` minus `self`.
    pub open spec fn join(self, other: Bounds) -> Set<Bounds> {
        other.minus(self).insert(self)
    }

    /// The pieces that lie in exactly one of the two: `self` minus `other`
    /// together with `other` minus `self`.
    pub open spec fn symmetric_minus(self, other: Bounds) -> Set<Bounds> {
        self.minus(other).union(other.minus(self))
    }
}

/// A rectangle has no area exactly when it is degenerate.
pub proof fn lemma_area_zero(b: Bounds)
    ensures
        b.area() == 0 <==> b.degenerate(),
{
    let h = b.top - b.bottom;
    let w = b.right - b.left;
    assert(h * w == 0 <==> (h == 0 || w == 0)) by (nonlinear_arith);
}

/// An ordered rectangle has no negative area, and a valid one has some.
pub proof fn lemma_area_sign(b: Bounds)
    requires
        b.ordered(),
    ensures
        b.area() >= 0,
        b.valid() <==> b.area() > 0,
        b.valid() ==> b.area() >= b.height() && b.area() >= b.width(),
{
    let h = b.top - b.bottom;
    let w = b.right - b.left;
    assert(h >= 0 && w >= 0 ==> h * w >= 0) by (nonlinear_arith);
    assert(h > 0 && w > 0 ==> h * w >= h && h * w >= w && h * w > 0) by (nonlinear_arith);
    assert(h == 0 || w == 0 ==> h * w == 0) by (nonlinear_arith);
}

/// A rectangle covers some cell exactly when it is valid.
pub proof fn lemma_cells_inhabited(b: Bounds)
    ensures
        b.valid() <==> exists|c: Cell| b.covers(c),
        b.valid() ==> b.covers((b.left, b.bottom)),
{
    if b.valid() {
        assert(b.covers((b.left, b.bottom)));
    }
}

/// The cells of row `y` from column `left` up to, not including, `right`.
pub open spec fn row(left: int, right: int, y: int) -> Set<Cell> {
    Set::new(|c: Cell| left <= c.0 < right && c.1 == y)
}

/// A row holds one cell for each of its columns.
pub proof fn lemma_row_count(left: int, right: int, y: int)
    requires
        left <= right,
    ensures
        row(left, right, y).finite(),
        row(left, right, y).len() == right - left,
    decreases right - left,
{
    if left == right {
        assert(row(left, right, y) =~= Set::<Cell>::empty());
    } else {
        lemma_row_count(left, right - 1, y);
        assert(row(left, right, y) =~= row(left, right - 1, y).insert((right - 1, y)));
    }
}

/// The area of an ordered rectangle is the number of cells that it covers.
pub proof fn lemma_area_counts_cells(b: Bounds)
    requires
        b.ordered(),
    ensures
        b.cells().finite(),
        b.cells().len() == b.area(),
    decreases b.top - b.bottom,
{
    if b.top == b.bottom {
        assert(b.cells() =~= Set::<Cell>::empty());
        lemma_area_zero(b);
    } else {
        let lower = Bounds { top: b.top - 1, left: b.left, bottom: b.bottom, right: b.right };
        let last = row(b.left, b.right, b.top - 1);
        lemma_area_counts_cells(lower);
        lemma_row_count(b.left, b.right, b.top - 1);
        assert(b.cells() =~= lower.cells().union(last));
        assert(lower.cells().disjoint(last));
        vstd::set_lib::lemma_set_disjoint_lens(lower.cells(), last);
        let h = b.top - b.bottom;
        let w = b.right - b.left;
        assert(h * w == (h - 1) * w + w) by (nonlinear_arith);
    }
}

/// Enclosing a valid rectangle is the same as covering all of its cells.
pub proof fn lemma_encloses_cells(a: Bounds, b: Bounds)
    requires
        b.valid(),
    ensures
        a.encloses(b) <==> b.cells().subset_of(a.cells()),
{
    if b.cells().subset_of(a.cells()) {
        let low: Cell = (b.left, b.bottom);
        let high: Cell = (b.right - 1, b.top - 1);
        assert(b.cells().contains(low));
        assert(b.cells().contains(high));
        assert(a.cells().contains(low));
        assert(a.cells().contains(high));
    }
}

/// The cells of the meet are the cells that both rectangles cover, and the
/// meet is valid exactly when there is such a cell.
pub proof fn lemma_meet_cells(a: Bounds, b: Bounds)
    ensures
        a.meet(b).cells() == a.cells().intersect(b.cells()),
        a.meet(b).valid() <==> !a.cells().disjoint(b.cells()),
{
    assert(a.meet(b).cells() =~= a.cells().intersect(b.cells()));
    let m = a.meet(b);
    if m.valid() {
        let c: Cell = (m.left, m.bottom);
        assert(a.cells().contains(c) && b.cells().contains(c));
    }
    if !a.cells().disjoint(b.cells()) {
        let c = choose|c: Cell| a.cells().contains(c) && b.cells().contains(c);
        assert(m.covers(c));
    }
}

/// Two valid rectangles overlap exactly when they share a cell.
pub proof fn lemma_overlaps_cells(a: Bounds, b: Bounds)
    requires
        a.valid(),
        b.valid(),
    ensures
        a.overlaps(b) <==> !a.cells().disjoint(b.cells()),
        a.overlaps(b) <==> a.meet(b).valid(),
{
    lemma_meet_cells(a, b);
}

/// `pieces` with `candidate` added if it is valid, and unchanged if not.
pub open spec fn with_valid(pieces: Set<Bounds>, candidate: Bounds) -> Set<Bounds> {
    if candidate.valid() {
        pieces.insert(candidate)
    } else {
        pieces
    }
}

} // verus!
