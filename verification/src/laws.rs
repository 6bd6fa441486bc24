//! What holds of the geometry for all rectangles, proved over their bounds.

use crate::bounds::{
    lemma_area_zero, lemma_cells_inhabited, spanning, Bounds, Cell,
};
use crate::pieces::{
    apart, covered, lemma_minus_area, lemma_minus_covers, lemma_minus_pieces,
    lemma_total_area_insert, total_area, void,
};
use vstd::prelude::*;

verus! {

/// Two corners span the same bounds whichever of them comes first. The
/// bounds are always ordered, and they are canonical exactly when the
/// corners differ on both axes.
pub proof fn lemma_spanning_canonical(c1: Cell, c2: Cell)
    ensures
        spanning(c1, c2) == spanning(c2, c1),
        spanning(c1, c2).ordered(),
        spanning(c1, c2).valid() <==> c1.0 != c2.0 && c1.1 != c2.1,
{
}

/// Every rectangle encloses itself.
pub proof fn lemma_encloses_reflexive(a: Bounds)
    ensures
        a.encloses(a),
{
}

/// The overlap of two rectangles does not depend on which of them is asked.
pub proof fn lemma_overlap_symmetric(a: Bounds, b: Bounds)
    ensures
        a.overlap(b) == b.overlap(a),
        a.overlap_area(b) == b.overlap_area(a),
        a.overlaps(b) == b.overlaps(a),
{
}

/// The pieces of a difference tile it: their areas add up to the area of the
/// first rectangle less what it shares with the second, no two of them
/// overlap, and together they cover the cells of the first rectangle that
/// the second does not cover.
pub proof fn lemma_difference_tiles(a: Bounds, b: Bounds)
    requires
        a.ordered(),
        b.ordered(),
    ensures
        total_area(a.minus(b)) == a.area() - a.overlap_area(b),
        apart(a.minus(b)),
        covered(a.minus(b)) == a.cells().difference(b.cells()),
{
    lemma_minus_area(a, b);
    lemma_minus_pieces(a, b);
    lemma_minus_covers(a, b);
}

/// The pieces of a union have the area of both rectangles less what they
/// share, and some piece is not degenerate exactly when one of the two
/// rectangles is not.
pub proof fn lemma_union_measures(a: Bounds, b: Bounds)
    requires
        a.ordered(),
        b.ordered(),
    ensures
        total_area(a.join(b)) == a.area() + b.area() - a.overlap_area(b),
        !void(a.join(b)) <==> !a.degenerate() || !b.degenerate(),
{
    let rest = b.minus(a);
    lemma_minus_area(b, a);
    lemma_minus_pieces(b, a);
    lemma_minus_covers(b, a);
    lemma_overlap_symmetric(a, b);
    if rest.contains(a) {
        lemma_area_zero(a);
        assert(rest.insert(a) =~= rest);
    } else {
        lemma_total_area_insert(rest, a);
    }
    if !a.degenerate() {
        assert(a.join(b).contains(a));
    } else if !b.degenerate() {
        lemma_cells_inhabited(a);
        lemma_cells_inhabited(b);
        let c: Cell = (b.left, b.bottom);
        assert(b.cells().difference(a.cells()).contains(c));
        let q = choose|q: Bounds| #[trigger] rest.contains(q) && q.covers(c);
        assert(a.join(b).contains(q));
    } else {
        lemma_cells_inhabited(b);
        assert forall|q: Bounds| #[trigger] a.join(b).contains(q) implies q.degenerate() by {
            if q != a && q.valid() {
                lemma_cells_inhabited(q);
                let c: Cell = (q.left, q.bottom);
                assert(rest.contains(q) && q.covers(c));
                assert(covered(rest).contains(c));
            }
        }
    }
}

} // verus!
