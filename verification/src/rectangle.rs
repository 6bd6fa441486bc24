//! The rectangle: a single axis-aligned box.

use crate::bounds::{
    greater, lemma_area_sign, lemma_area_zero, lemma_encloses_cells, lemma_meet_cells,
    lemma_overlaps_cells, lesser, spanning, tlbr, with_valid, Bounds, Cell,
};
use crate::pieces::{covered, lemma_covered_insert, lemma_covered_union, lemma_minus_covers};
use crate::range_set::RangeSet;
use crate::table::Entry;
use crate::{Point, Rangelike};
use vstd::prelude::*;

verus! {

/// An axis-aligned rectangle with integer bounds.
///
/// `from_tlbr` only makes rectangles with positive extent on both axes. `new`
/// takes any two corners, and gives a degenerate rectangle where they share a
/// coordinate. No rectangle has its top below its bottom or its right left of
/// its left.
#[derive(Clone, Copy, Debug, PartialEq, Eq, Hash, Structural)]
pub struct Rectangle {
    top: i64,
    left: i64,
    bottom: i64,
    right: i64,
}

impl View for Rectangle {
    type V = Bounds;

    /// The four bounds as integers.
    closed spec fn view(&self) -> Bounds {
        Bounds {
            top: self.top as int,
            left: self.left as int,
            bottom: self.bottom as int,
            right: self.right as int,
        }
    }
}

/// The bounds that an entry stands for.
pub open spec fn entry_bounds(e: Entry) -> Bounds {
    tlbr(e.0 as int, e.1 as int, e.2 as int, e.3 as int)
}

/// The bounds of the rectangles of a sequence, as a set.
pub open spec fn piece_set(items: Seq<Rectangle>) -> Set<Bounds> {
    Set::new(|b: Bounds| exists|i: int| 0 <= i < items.len() && #[trigger] items[i]@ == b)
}

/// The bounds of the rectangles of a sequence, in its order.
pub open spec fn bounds_seq(items: Seq<Rectangle>) -> Seq<Bounds> {
    Seq::new(items.len(), |i: int| items[i]@)
}

/// The set of a sequence's bounds holds the bounds that occur in it.
pub proof fn lemma_bounds_seq(items: Seq<Rectangle>)
    ensures
        bounds_seq(items).to_set() == piece_set(items),
{
    let bs = bounds_seq(items);
    assert forall|b: Bounds| bs.to_set().contains(b) <==> piece_set(items).contains(b) by {
        if bs.to_set().contains(b) {
            let i = choose|i: int| 0 <= i < bs.len() && bs[i] == b;
            assert(items[i]@ == b);
        }
        if piece_set(items).contains(b) {
            let i = choose|i: int| 0 <= i < items.len() && #[trigger] items[i]@ == b;
            assert(bs[i] == b);
        }
    }
    assert(bs.to_set() =~= piece_set(items));
}

/// No rectangles, no bounds.
pub proof fn lemma_piece_set_empty()
    ensures
        piece_set(Seq::<Rectangle>::empty()) == Set::<Bounds>::empty(),
{
    assert(piece_set(Seq::<Rectangle>::empty()) =~= Set::<Bounds>::empty());
}

/// A rectangle appended adds its bounds.
pub proof fn lemma_piece_set_push(items: Seq<Rectangle>, r: Rectangle)
    ensures
        piece_set(items.push(r)) == piece_set(items).insert(r@),
{
    let longer = items.push(r);
    assert forall|b: Bounds| piece_set(longer).contains(b) <==> piece_set(items).insert(
        r@,
    ).contains(b) by {
        if piece_set(longer).contains(b) {
            let i = choose|i: int| 0 <= i < longer.len() && #[trigger] longer[i]@ == b;
            if i < items.len() {
                assert(items[i]@ == b);
            }
        }
        if piece_set(items).contains(b) {
            let i = choose|i: int| 0 <= i < items.len() && #[trigger] items[i]@ == b;
            assert(longer[i]@ == b);
        }
        if b == r@ {
            assert(longer[items.len() as int]@ == b);
        }
    }
    assert(piece_set(longer) =~= piece_set(items).insert(r@));
}

/// Two sequences in a row give the bounds of both.
pub proof fn lemma_piece_set_add(front: Seq<Rectangle>, back: Seq<Rectangle>)
    ensures
        piece_set(front + back) == piece_set(front).union(piece_set(back)),
{
    let whole = front + back;
    assert forall|b: Bounds| piece_set(whole).contains(b) <==> piece_set(front).union(
        piece_set(back),
    ).contains(b) by {
        if piece_set(whole).contains(b) {
            let i = choose|i: int| 0 <= i < whole.len() && #[trigger] whole[i]@ == b;
            if i < front.len() {
                assert(front[i]@ == b);
            } else {
                assert(back[i - front.len()]@ == b);
            }
        }
        if piece_set(front).contains(b) {
            let i = choose|i: int| 0 <= i < front.len() && #[trigger] front[i]@ == b;
            assert(whole[i]@ == b);
        }
        if piece_set(back).contains(b) {
            let i = choose|i: int| 0 <= i < back.len() && #[trigger] back[i]@ == b;
            assert(whole[front.len() + i]@ == b);
        }
    }
    assert(piece_set(whole) =~= piece_set(front).union(piece_set(back)));
}

/// Appends the candidate to the pieces, if there is one.
fn keep(pieces: &mut Vec<Rectangle>, candidate: Option<Rectangle>, Ghost(wanted): Ghost<Bounds>)
    requires
        candidate is Some <==> wanted.valid(),
        candidate matches Some(r) ==> r@ == wanted,
    ensures
        piece_set(final(pieces)@) == with_valid(piece_set(old(pieces)@), wanted),
{
    if let Some(r) = candidate {
        proof {
            lemma_piece_set_push(pieces@, r);
        }
        pieces.push(r);
    }
}

/// Appends all of `more` to `items`.
pub(crate) fn push_all(items: &mut Vec<Rectangle>, more: &Vec<Rectangle>)
    ensures
        final(items)@ == old(items)@ + more@,
{
    let mut i: usize = 0;
    while i < more.len()
        invariant
            i <= more.len(),
            items@ == old(items)@ + more@.subrange(0, i as int),
        decreases more.len() - i,
    {
        items.push(more[i]);
        i += 1;
        assert(items@ =~= old(items)@ + more@.subrange(0, i as int));
    }
    assert(more@.subrange(0, more.len() as int) =~= more@);
}

/// The smaller of two coordinates.
fn lower(a: i64, b: i64) -> (m: i64)
    ensures
        m == lesser(a as int, b as int),
{
    if a <= b {
        a
    } else {
        b
    }
}

/// The larger of two coordinates.
fn upper(a: i64, b: i64) -> (m: i64)
    ensures
        m == greater(a as int, b as int),
{
    if a >= b {
        a
    } else {
        b
    }
}

impl Rectangle {
    /// No bound lies on the wrong side of its opposite.
    #[verifier::type_invariant]
    spec fn ordered(self) -> bool {
        self.top >= self.bottom && self.right >= self.left
    }

    /// The rectangle with the given bounds, if they are canonical.
    pub fn from_tlbr(top: i64, left: i64, bottom: i64, right: i64) -> (r: Option<Self>)
        ensures
            r is Some <==> top > bottom && right > left,
            r matches Some(rect) ==> rect@ == tlbr(
                top as int,
                left as int,
                bottom as int,
                right as int,
            ),
    {
        if top <= bottom || right <= left {
            return None;
        }
        Some(Self { top, left, bottom, right })
    }

    /// The rectangle spanned by two corners, in either order.
    pub fn new(c1: Point, c2: Point) -> (r: Self)
        ensures
            r@ == spanning(c1@, c2@),
    {
        let top: i64 = upper(c1.y(), c2.y());
        let left: i64 = lower(c1.x(), c2.x());
        let bottom: i64 = lower(c1.y(), c2.y());
        let right: i64 = upper(c1.x(), c2.x());
        Self { top, left, bottom, right }
    }

    /// The rectangle as an entry of the hash set.
    pub(crate) fn entry(&self) -> (e: Entry)
        ensures
            entry_bounds(e) == self@,
            self@.ordered(),
    {
        proof {
            use_type_invariant(self);
        }
        (self.top, self.left, self.bottom, self.right)
    }

    /// The rectangle that an entry of the hash set stands for.
    pub(crate) fn from_entry(e: Entry) -> (r: Self)
        requires
            entry_bounds(e).ordered(),
        ensures
            r@ == entry_bounds(e),
    {
        Self { top: e.0, left: e.1, bottom: e.2, right: e.3 }
    }

    /// The pieces of `self` outside `other`, as `difference` collects them.
    pub(crate) fn difference_pieces(&self, other: &Self) -> (pieces: Vec<Rectangle>)
        ensures
            piece_set(pieces@) == self@.minus(other@),
    {
        let mut pieces: Vec<Rectangle> = Vec::new();
        proof {
            lemma_piece_set_empty();
        }
        if !self.intersects(other) {
            proof {
                lemma_piece_set_push(pieces@, *self);
            }
            pieces.push(*self);
            return pieces;
        }
        if other.contains(self) {
            return pieces;
        }
        let band_top: i64 = lower(other.top, self.top);
        let band_bottom: i64 = upper(other.bottom, self.bottom);
        let t = Rectangle::from_tlbr(self.top, self.left, other.top, self.right);
        let b = Rectangle::from_tlbr(other.bottom, self.left, self.bottom, self.right);
        let l = Rectangle::from_tlbr(band_top, self.left, band_bottom, other.left);
        let r = Rectangle::from_tlbr(band_top, other.right, band_bottom, self.right);
        keep(&mut pieces, t, Ghost(self@.top_strip(other@)));
        keep(&mut pieces, l, Ghost(self@.left_strip(other@)));
        keep(&mut pieces, b, Ghost(self@.bottom_strip(other@)));
        keep(&mut pieces, r, Ghost(self@.right_strip(other@)));
        pieces
    }
}

impl Rangelike for Rectangle {
    /// The cells inside the bounds.
    open spec fn region(&self) -> Set<Cell> {
        self@.cells()
    }

    /// The area.
    open spec fn measure(&self) -> int {
        self@.area()
    }

    /// The bounds are valid.
    open spec fn regular(&self) -> bool {
        self@.valid()
    }

    /// Whether the rectangle is degenerate.
    fn is_empty(&self) -> (empty: bool)
        ensures
            empty <==> self@.degenerate(),
    {
        proof {
            lemma_area_zero(self@);
        }
        (self.top == self.bottom) || (self.right == self.left)
    }

    /// The area: height times width.
    fn count(&self) -> (n: i64)
        ensures
            n == self@.area(),
    {
        proof {
            use_type_invariant(self);
            lemma_area_zero(self@);
            lemma_area_sign(self@);
        }
        if self.top == self.bottom || self.right == self.left {
            return 0;
        }
        let height: i64 = self.top - self.bottom;
        let width: i64 = self.right - self.left;
        height * width
    }

    /// Whether the two rectangles overlap with positive extent on both axes.
    fn intersects(&self, other: &Self) -> (hit: bool)
        ensures
            hit <==> self@.overlaps(other@),
    {
        proof {
            if self@.valid() && other@.valid() {
                lemma_overlaps_cells(self@, other@);
            }
        }
        if self.right <= other.left {
            return false;
        }
        if self.left >= other.right {
            return false;
        }
        if self.bottom >= other.top {
            return false;
        }
        if self.top <= other.bottom {
            return false;
        }
        true
    }

    /// Whether `self` reaches at least as far as `other` on all four sides.
    fn contains(&self, other: &Self) -> (inside: bool)
        ensures
            inside <==> self@.encloses(other@),
    {
        proof {
            if other@.valid() {
                lemma_encloses_cells(self@, other@);
            }
        }
        self.top >= other.top && self.left <= other.left && self.bottom <= other.bottom
            && self.right >= other.right
    }

    /// The rectangle that both share, where they share positive area.
    fn intersection(&self, other: &Self) -> (shared: Option<Self>)
        ensures
            shared is Some <==> self@.meet(other@).valid(),
            shared matches Some(s) ==> s@ == self@.meet(other@),
    {
        proof {
            lemma_meet_cells(self@, other@);
        }
        Rectangle::from_tlbr(
            lower(self.top, other.top),
            upper(self.left, other.left),
            upper(self.bottom, other.bottom),
            lower(self.right, other.right),
        )
    }

    /// The pieces of `self` outside `other`.
    fn difference(&self, other: &Self) -> (rest: RangeSet)
        ensures
            rest@ == self@.minus(other@),
    {
        proof {
            lemma_minus_covers(self@, other@);
        }
        RangeSet::from_iter(self.difference_pieces(other))
    }

    /// `self`, and the pieces of `other` outside `self`.
    fn union(&self, other: &Self) -> (all: RangeSet)
        ensures
            all@ == self@.join(other@),
    {
        let mut items: Vec<Rectangle> = Vec::new();
        items.push(*self);
        let rest = other.difference(self).into_iter();
        proof {
            lemma_piece_set_empty();
            lemma_piece_set_push(Seq::<Rectangle>::empty(), *self);
            assert(items@ =~= Seq::<Rectangle>::empty().push(*self));
            lemma_piece_set_add(items@, rest@);
            assert(piece_set(items@ + rest@) =~= self@.join(other@));
            lemma_minus_covers(other@, self@);
            lemma_covered_insert(other@.minus(self@), self@);
            assert(covered(self@.join(other@)) =~= self@.cells().union(other@.cells()));
        }
        push_all(&mut items, &rest);
        RangeSet::from_iter(items)
    }

    /// The pieces of `self` outside `other`, and those of `other` outside
    /// `self`.
    fn symmetric_difference(&self, other: &Self) -> (odd: RangeSet)
        ensures
            odd@ == self@.symmetric_minus(other@),
    {
        let mut items = self.difference(other).into_iter();
        let back = other.difference(self).into_iter();
        proof {
            lemma_piece_set_add(items@, back@);
            lemma_minus_covers(self@, other@);
            lemma_minus_covers(other@, self@);
            lemma_covered_union(self@.minus(other@), other@.minus(self@));
        }
        push_all(&mut items, &back);
        RangeSet::from_iter(items)
    }
}

} // verus!
