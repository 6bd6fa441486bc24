//! Sets of rectangle bounds read as regions: the cells they cover, their
//! summed area, and whether their members keep clear of each other.

use crate::bounds::{
    greater, lemma_area_counts_cells, lemma_area_sign, lemma_area_zero, lemma_cells_inhabited,
    lemma_overlaps_cells, with_valid, Bounds, Cell,
};
use vstd::prelude::*;
use vstd::set::fold::{is_fun_commutative, lemma_fold_empty, lemma_fold_insert};

verus! {

/// The cells covered by at least one member.
pub open spec fn covered(pieces: Set<Bounds>) -> Set<Cell> {
    Set::new(|c: Cell| exists|b: Bounds| #[trigger] pieces.contains(b) && b.covers(c))
}

/// No two distinct members overlap.
pub open spec fn apart(pieces: Set<Bounds>) -> bool {
    forall|a: Bounds, b: Bounds|
        #[trigger] pieces.contains(a) && #[trigger] pieces.contains(b) && a != b
            ==> !a.overlaps(b)
}

/// Every member is degenerate.
pub open spec fn void(pieces: Set<Bounds>) -> bool {
    forall|b: Bounds| #[trigger] pieces.contains(b) ==> b.degenerate()
}

/// Every member is ordered.
pub open spec fn all_ordered(pieces: Set<Bounds>) -> bool {
    forall|b: Bounds| #[trigger] pieces.contains(b) ==> b.ordered()
}

/// Every member is valid.
pub open spec fn all_valid(pieces: Set<Bounds>) -> bool {
    forall|b: Bounds| #[trigger] pieces.contains(b) ==> b.valid()
}

/// The sum of the members' areas. Where members overlap, shared area is
/// counted once for each member that holds it.
pub open spec fn total_area(pieces: Set<Bounds>) -> int {
    pieces.fold(0int, area_step())
}

/// Adds the area of one member to a running sum.
pub open spec fn area_step() -> spec_fn(int, Bounds) -> int {
    |sum: int, b: Bounds| sum + b.area()
}

/// No members, no area.
pub proof fn lemma_total_area_empty()
    ensures
        total_area(Set::<Bounds>::empty()) == 0,
{
    lemma_fold_empty(0int, area_step());
}

/// A new member adds its area to the total.
pub proof fn lemma_total_area_insert(pieces: Set<Bounds>, b: Bounds)
    requires
        pieces.finite(),
        !pieces.contains(b),
    ensures
        total_area(pieces.insert(b)) == total_area(pieces) + b.area(),
{
    assert(is_fun_commutative(area_step()));
    lemma_fold_insert(pieces, 0int, area_step(), b);
}

/// No members, no cells.
pub proof fn lemma_covered_empty()
    ensures
        covered(Set::<Bounds>::empty()) == Set::<Cell>::empty(),
{
    assert(covered(Set::<Bounds>::empty()) =~= Set::<Cell>::empty());
}

/// A member adds its cells to those covered.
pub proof fn lemma_covered_insert(pieces: Set<Bounds>, b: Bounds)
    ensures
        covered(pieces.insert(b)) == covered(pieces).union(b.cells()),
{
    let grown = pieces.insert(b);
    assert forall|c: Cell| covered(grown).contains(c) <==> covered(pieces).union(
        b.cells(),
    ).contains(c) by {
        if covered(grown).contains(c) {
            let p = choose|p: Bounds| #[trigger] grown.contains(p) && p.covers(c);
            if p != b {
                assert(pieces.contains(p) && p.covers(c));
            }
        }
        if covered(pieces).contains(c) {
            let p = choose|p: Bounds| #[trigger] pieces.contains(p) && p.covers(c);
            assert(grown.contains(p) && p.covers(c));
        }
        if b.covers(c) {
            assert(grown.contains(b) && b.covers(c));
        }
    }
    assert(covered(grown) =~= covered(pieces).union(b.cells()));
}

/// Two sets together cover what either covers.
pub proof fn lemma_covered_union(s: Set<Bounds>, t: Set<Bounds>)
    ensures
        covered(s.union(t)) == covered(s).union(covered(t)),
{
    let both = s.union(t);
    assert forall|c: Cell| covered(both).contains(c) <==> covered(s).union(covered(t)).contains(
        c,
    ) by {
        if covered(both).contains(c) {
            let p = choose|p: Bounds| #[trigger] both.contains(p) && p.covers(c);
            if s.contains(p) {
                assert(s.contains(p) && p.covers(c));
            } else {
                assert(t.contains(p) && p.covers(c));
            }
        }
        if covered(s).contains(c) {
            let p = choose|p: Bounds| #[trigger] s.contains(p) && p.covers(c);
            assert(both.contains(p) && p.covers(c));
        }
        if covered(t).contains(c) {
            let p = choose|p: Bounds| #[trigger] t.contains(p) && p.covers(c);
            assert(both.contains(p) && p.covers(c));
        }
    }
    assert(covered(both) =~= covered(s).union(covered(t)));
}

/// Where the members keep apart, their total area is the number of cells
/// that they cover.
pub proof fn lemma_total_area_counts_cells(pieces: Set<Bounds>)
    requires
        pieces.finite(),
        all_ordered(pieces),
        apart(pieces),
    ensures
        covered(pieces).finite(),
        covered(pieces).len() == total_area(pieces),
    decreases pieces.len(),
{
    if pieces.len() == 0 {
        assert(pieces =~= Set::<Bounds>::empty());
        lemma_covered_empty();
        lemma_total_area_empty();
    } else {
        let b = pieces.choose();
        let rest = pieces.remove(b);
        lemma_total_area_counts_cells(rest);
        assert(pieces =~= rest.insert(b));
        lemma_total_area_insert(rest, b);
        lemma_covered_insert(rest, b);
        lemma_area_counts_cells(b);
        assert forall|c: Cell| covered(rest).contains(c) implies !b.cells().contains(c) by {
            let p = choose|p: Bounds| #[trigger] rest.contains(p) && p.covers(c);
            if b.covers(c) {
                assert(pieces.contains(p) && pieces.contains(b) && p != b);
                assert(p.overlaps(b));
            }
        }
        vstd::set_lib::lemma_set_disjoint_lens(covered(rest), b.cells());
    }
}

/// The pieces of a difference cover what the first rectangle covers and the
/// second does not.
pub proof fn lemma_minus_covers(a: Bounds, b: Bounds)
    ensures
        covered(a.minus(b)) == a.cells().difference(b.cells()),
{
    let pieces = a.minus(b);
    assert forall|c: Cell| covered(pieces).contains(c) <==> (a.covers(c) && !b.covers(c)) by {
        if covered(pieces).contains(c) {
            let p = choose|p: Bounds| #[trigger] pieces.contains(p) && p.covers(c);
            assert(a.covers(c) && !b.covers(c));
        }
        if a.covers(c) && !b.covers(c) {
            if !a.overlaps(b) {
                assert(pieces.contains(a) && a.covers(c));
            } else if c.1 >= b.top {
                let p = a.top_strip(b);
                assert(pieces.contains(p) && p.covers(c));
            } else if c.1 < b.bottom {
                let p = a.bottom_strip(b);
                assert(pieces.contains(p) && p.covers(c));
            } else if c.0 < b.left {
                let p = a.left_strip(b);
                assert(pieces.contains(p) && p.covers(c));
            } else {
                let p = a.right_strip(b);
                assert(pieces.contains(p) && p.covers(c));
            }
        }
    }
    assert(covered(pieces) =~= a.cells().difference(b.cells()));
}

/// What holds of each piece of a difference, and of any two of them.
pub proof fn lemma_minus_pieces(a: Bounds, b: Bounds)
    requires
        b.ordered(),
    ensures
        a.minus(b).finite(),
        apart(a.minus(b)),
        forall|p: Bounds| #[trigger]
            a.minus(b).contains(p) ==> a.encloses(p) && !p.overlaps(b) && (p.valid() || p == a),
{
}

/// The pieces of a difference have the area of the first rectangle less the
/// area that it shares with the second.
pub proof fn lemma_minus_area(a: Bounds, b: Bounds)
    requires
        a.ordered(),
        b.ordered(),
    ensures
        total_area(a.minus(b)) == a.area() - a.overlap_area(b),
{
    let none = Set::<Bounds>::empty();
    lemma_total_area_empty();
    if !a.overlaps(b) {
        lemma_total_area_insert(none, a);
    } else if b.encloses(a) {
        assert(a.meet(b) == a);
        lemma_area_zero(a);
    } else {
        let t = a.top_strip(b);
        let l = a.left_strip(b);
        let u = a.bottom_strip(b);
        let r = a.right_strip(b);
        let s1 = with_valid(none, t);
        let s2 = with_valid(s1, l);
        let s3 = with_valid(s2, u);
        let s4 = with_valid(s3, r);
        let ta = if t.valid() { t.area() } else { 0 };
        let la = if l.valid() { l.area() } else { 0 };
        let ua = if u.valid() { u.area() } else { 0 };
        let ra = if r.valid() { r.area() } else { 0 };
        if t.valid() {
            lemma_total_area_insert(none, t);
        }
        assert(total_area(s1) == ta);
        if l.valid() {
            lemma_total_area_insert(s1, l);
        }
        assert(total_area(s2) == ta + la);
        if u.valid() {
            lemma_total_area_insert(s2, u);
        }
        assert(total_area(s3) == ta + la + ua);
        if r.valid() {
            lemma_total_area_insert(s3, r);
        }
        assert(total_area(s4) == ta + la + ua + ra);
        let w = a.right - a.left;
        let h = a.top - a.bottom;
        let th = greater(0, a.top - b.top);
        let uh = greater(0, b.bottom - a.bottom);
        let lw = greater(0, b.left - a.left);
        let rw = greater(0, a.right - b.right);
        let band = h - th - uh;
        let m = a.meet(b);
        assert(m.top - m.bottom == band);
        assert(m.right - m.left == w - lw - rw);
        assert(ta == th * w) by (nonlinear_arith)
            requires
                w >= 0,
                th >= 0,
                ta == (if th > 0 && w > 0 { th * w } else { 0 }),
        ;
        assert(ua == uh * w) by (nonlinear_arith)
            requires
                w >= 0,
                uh >= 0,
                ua == (if uh > 0 && w > 0 { uh * w } else { 0 }),
        ;
        assert(la == band * lw) by (nonlinear_arith)
            requires
                band >= 0,
                lw >= 0,
                la == (if band > 0 && lw > 0 { band * lw } else { 0 }),
        ;
        assert(ra == band * rw) by (nonlinear_arith)
            requires
                band >= 0,
                rw >= 0,
                ra == (if band > 0 && rw > 0 { band * rw } else { 0 }),
        ;
        let shared = a.overlap_area(b);
        assert(shared == band * (w - lw - rw)) by (nonlinear_arith)
            requires
                band >= 0,
                w - lw - rw >= 0,
                shared == (if band > 0 && w - lw - rw > 0 { band * (w - lw - rw) } else { 0 }),
        ;
        assert(th * w + band * lw + uh * w + band * rw == h * w - band * (w - lw - rw))
            by (nonlinear_arith)
            requires
                band == h - th - uh,
        ;
    }
}

/// What is left of the members of `pieces` outside `cut`: the pieces of each
/// member minus `cut`, taken together.
pub open spec fn cut_pieces(pieces: Set<Bounds>, cut: Bounds) -> Set<Bounds> {
    Set::new(
        |q: Bounds| exists|p: Bounds| #[trigger] pieces.contains(p) && p.minus(cut).contains(q),
    )
}

/// What is left of `pieces` after cutting away each of `cuts` in turn.
pub open spec fn cut_in_turn(pieces: Set<Bounds>, cuts: Seq<Bounds>) -> Set<Bounds>
    decreases cuts.len(),
{
    if cuts.len() == 0 {
        pieces
    } else {
        cut_pieces(cut_in_turn(pieces, cuts.drop_last()), cuts.last())
    }
}

/// The sequence holds each member of the set once, and nothing else.
pub open spec fn lists(order: Seq<Bounds>, members: Set<Bounds>) -> bool {
    order.no_duplicates() && order.to_set() == members
}

/// Every member of `inner` lies within a member of `outer`, and is valid
/// unless it is that member.
pub open spec fn carved_from(inner: Set<Bounds>, outer: Set<Bounds>) -> bool {
    forall|q: Bounds| #[trigger]
        inner.contains(q) ==> exists|p: Bounds| #[trigger]
            outer.contains(p) && p.encloses(q) && (q.valid() || q == p)
}

/// No member of `pieces` overlaps a member of `others`.
pub open spec fn clear_of(pieces: Set<Bounds>, others: Set<Bounds>) -> bool {
    forall|q: Bounds, c: Bounds| #[trigger]
        pieces.contains(q) && #[trigger] others.contains(c) ==> !q.overlaps(c)
}

/// Rectangles that overlap within two others make those two overlap.
pub proof fn lemma_overlap_widens(pa: Bounds, qa: Bounds, pb: Bounds, qb: Bounds)
    requires
        pa.encloses(qa),
        pb.encloses(qb),
        qa.overlaps(qb),
    ensures
        pa.overlaps(pb),
{
}

/// A cut removes its cells from the region, and nothing else.
pub proof fn lemma_cut_pieces_covered(pieces: Set<Bounds>, cut: Bounds)
    ensures
        covered(cut_pieces(pieces, cut)) == covered(pieces).difference(cut.cells()),
{
    let rest = cut_pieces(pieces, cut);
    assert forall|c: Cell| covered(rest).contains(c) <==> (covered(pieces).contains(c)
        && !cut.covers(c)) by {
        if covered(rest).contains(c) {
            let q = choose|q: Bounds| #[trigger] rest.contains(q) && q.covers(c);
            let p = choose|p: Bounds| #[trigger] pieces.contains(p) && p.minus(cut).contains(q);
            lemma_minus_covers(p, cut);
            assert(p.minus(cut).contains(q) && q.covers(c));
            assert(covered(p.minus(cut)).contains(c));
            assert(p.cells().contains(c));
            assert(pieces.contains(p) && p.covers(c));
        }
        if covered(pieces).contains(c) && !cut.covers(c) {
            let p = choose|p: Bounds| #[trigger] pieces.contains(p) && p.covers(c);
            lemma_minus_covers(p, cut);
            assert(p.cells().difference(cut.cells()).contains(c));
            assert(covered(p.minus(cut)).contains(c));
            let q = choose|q: Bounds| #[trigger] p.minus(cut).contains(q) && q.covers(c);
            assert(pieces.contains(p) && p.minus(cut).contains(q));
            assert(rest.contains(q) && q.covers(c));
        }
    }
    assert(covered(rest) =~= covered(pieces).difference(cut.cells()));
}

/// Pieces that keep apart still do after a cut.
pub proof fn lemma_cut_pieces_apart(pieces: Set<Bounds>, cut: Bounds)
    requires
        cut.ordered(),
        apart(pieces),
    ensures
        apart(cut_pieces(pieces, cut)),
{
    let rest = cut_pieces(pieces, cut);
    assert forall|qa: Bounds, qb: Bounds| #[trigger]
        rest.contains(qa) && #[trigger] rest.contains(qb) && qa != qb implies !qa.overlaps(
        qb,
    ) by {
        let pa = choose|p: Bounds| #[trigger] pieces.contains(p) && p.minus(cut).contains(qa);
        let pb = choose|p: Bounds| #[trigger] pieces.contains(p) && p.minus(cut).contains(qb);
        lemma_minus_pieces(pa, cut);
        lemma_minus_pieces(pb, cut);
        if pa != pb && qa.overlaps(qb) {
            lemma_overlap_widens(pa, qa, pb, qb);
        }
    }
}

/// After a cut, every piece lies within one from before and clear of the
/// cut.
pub proof fn lemma_cut_pieces_carved(pieces: Set<Bounds>, cut: Bounds)
    requires
        cut.ordered(),
    ensures
        carved_from(cut_pieces(pieces, cut), pieces),
        clear_of(cut_pieces(pieces, cut), Set::empty().insert(cut)),
{
    let rest = cut_pieces(pieces, cut);
    assert forall|q: Bounds| #[trigger] rest.contains(q) implies (exists|p: Bounds| #[trigger]
        pieces.contains(p) && p.encloses(q) && (q.valid() || q == p)) && !q.overlaps(cut) by {
        let p = choose|p: Bounds| #[trigger] pieces.contains(p) && p.minus(cut).contains(q);
        lemma_minus_pieces(p, cut);
        assert(pieces.contains(p) && p.encloses(q) && (q.valid() || q == p));
    }
}

/// Being carved from carries over two steps.
pub proof fn lemma_carved_twice(inner: Set<Bounds>, middle: Set<Bounds>, outer: Set<Bounds>)
    requires
        carved_from(inner, middle),
        carved_from(middle, outer),
    ensures
        carved_from(inner, outer),
{
    assert forall|q: Bounds| #[trigger] inner.contains(q) implies exists|p: Bounds| #[trigger]
        outer.contains(p) && p.encloses(q) && (q.valid() || q == p) by {
        let m = choose|m: Bounds| #[trigger]
            middle.contains(m) && m.encloses(q) && (q.valid() || q == m);
        let p = choose|p: Bounds| #[trigger]
            outer.contains(p) && p.encloses(m) && (m.valid() || m == p);
        assert(outer.contains(p) && p.encloses(q) && (q.valid() || q == p));
    }
}

/// What is carved from pieces that are clear of some others is clear of them
/// too.
pub proof fn lemma_carved_stays_clear(inner: Set<Bounds>, outer: Set<Bounds>, others: Set<Bounds>)
    requires
        carved_from(inner, outer),
        clear_of(outer, others),
    ensures
        clear_of(inner, others),
{
    assert forall|q: Bounds, c: Bounds| #[trigger]
        inner.contains(q) && #[trigger] others.contains(c) implies !q.overlaps(c) by {
        let p = choose|p: Bounds| #[trigger]
            outer.contains(p) && p.encloses(q) && (q.valid() || q == p);
        if q.overlaps(c) {
            lemma_overlap_widens(p, q, c, c);
        }
    }
}

/// Cutting in turn removes from the region what the cuts cover, keeps pieces
/// apart that were apart, and leaves pieces that lie within the old ones and
/// overlap none of the cuts.
pub proof fn lemma_cut_in_turn(pieces: Set<Bounds>, cuts: Seq<Bounds>)
    requires
        forall|i: int| 0 <= i < cuts.len() ==> (#[trigger] cuts[i]).ordered(),
    ensures
        covered(cut_in_turn(pieces, cuts)) == covered(pieces).difference(covered(cuts.to_set())),
        apart(pieces) ==> apart(cut_in_turn(pieces, cuts)),
        carved_from(cut_in_turn(pieces, cuts), pieces),
        clear_of(cut_in_turn(pieces, cuts), cuts.to_set()),
    decreases cuts.len(),
{
    let rest = cut_in_turn(pieces, cuts);
    if cuts.len() == 0 {
        assert(cuts.to_set() =~= Set::<Bounds>::empty());
        lemma_covered_empty();
        assert(covered(pieces).difference(Set::<Cell>::empty()) =~= covered(pieces));
        assert forall|q: Bounds| #[trigger] pieces.contains(q) implies exists|p: Bounds| #[trigger]
            pieces.contains(p) && p.encloses(q) && (q.valid() || q == p) by {
            assert(pieces.contains(q) && q.encloses(q));
        }
    } else {
        let front = cuts.drop_last();
        let cut = cuts.last();
        let before = cut_in_turn(pieces, front);
        lemma_cut_in_turn(pieces, front);
        lemma_cut_pieces_covered(before, cut);
        lemma_cut_pieces_carved(before, cut);
        if apart(pieces) {
            lemma_cut_pieces_apart(before, cut);
        }
        lemma_carved_twice(rest, before, pieces);
        lemma_carved_stays_clear(rest, before, front.to_set());
        assert(cuts =~= front.push(cut));
        assert(cuts.to_set() =~= front.to_set().insert(cut)) by {
            assert forall|b: Bounds| cuts.to_set().contains(b) <==> front.to_set().insert(
                cut,
            ).contains(b) by {
                if cuts.to_set().contains(b) {
                    let i = choose|i: int| 0 <= i < cuts.len() && cuts[i] == b;
                    if i < front.len() {
                        assert(front[i] == b);
                    }
                }
                if front.to_set().contains(b) {
                    let i = choose|i: int| 0 <= i < front.len() && front[i] == b;
                    assert(cuts[i] == b);
                }
                if b == cut {
                    assert(cuts[cuts.len() - 1] == b);
                }
            }
        }
        lemma_covered_insert(front.to_set(), cut);
        assert(covered(rest) =~= covered(pieces).difference(covered(cuts.to_set())));
    }
}

/// Cutting one more piece adds what is left of that piece.
pub proof fn lemma_cut_pieces_insert(pieces: Set<Bounds>, p: Bounds, cut: Bounds)
    ensures
        cut_pieces(pieces.insert(p), cut) == cut_pieces(pieces, cut).union(p.minus(cut)),
{
    let grown = pieces.insert(p);
    assert forall|q: Bounds| cut_pieces(grown, cut).contains(q) <==> cut_pieces(pieces, cut).union(
        p.minus(cut),
    ).contains(q) by {
        if cut_pieces(grown, cut).contains(q) {
            let m = choose|m: Bounds| #[trigger] grown.contains(m) && m.minus(cut).contains(q);
            if m != p {
                assert(pieces.contains(m) && m.minus(cut).contains(q));
            }
        }
        if cut_pieces(pieces, cut).contains(q) {
            let m = choose|m: Bounds| #[trigger] pieces.contains(m) && m.minus(cut).contains(q);
            assert(grown.contains(m) && m.minus(cut).contains(q));
        }
        if p.minus(cut).contains(q) {
            assert(grown.contains(p) && p.minus(cut).contains(q));
        }
    }
    assert(cut_pieces(grown, cut) =~= cut_pieces(pieces, cut).union(p.minus(cut)));
}

/// Cutting nothing leaves nothing.
pub proof fn lemma_cut_pieces_empty(cut: Bounds)
    ensures
        cut_pieces(Set::empty(), cut) == Set::<Bounds>::empty(),
{
    assert(cut_pieces(Set::empty(), cut) =~= Set::<Bounds>::empty());
}

/// A set of ordered rectangles covers no cell exactly when all of them are
/// degenerate.
pub proof fn lemma_void_covers_nothing(pieces: Set<Bounds>)
    requires
        all_ordered(pieces),
    ensures
        void(pieces) <==> covered(pieces) == Set::<Cell>::empty(),
{
    if void(pieces) {
        assert forall|c: Cell| !covered(pieces).contains(c) by {
            if covered(pieces).contains(c) {
                let b = choose|b: Bounds| #[trigger] pieces.contains(b) && b.covers(c);
                assert(b.degenerate());
            }
        }
        assert(covered(pieces) =~= Set::<Cell>::empty());
    } else {
        let b = choose|b: Bounds| #[trigger] pieces.contains(b) && !b.degenerate();
        lemma_cells_inhabited(b);
        assert(pieces.contains(b) && b.covers((b.left, b.bottom)));
        assert(covered(pieces).contains((b.left, b.bottom)));
    }
}

/// Some member of the first set overlaps some member of the second.
pub open spec fn any_overlap(s: Set<Bounds>, t: Set<Bounds>) -> bool {
    exists|a: Bounds, o: Bounds| #[trigger] s.contains(a) && #[trigger] t.contains(o) && a.overlaps(o)
}

/// Sets of valid rectangles hold an overlapping pair exactly when their
/// regions share a cell.
pub proof fn lemma_any_overlap_cells(s: Set<Bounds>, t: Set<Bounds>)
    requires
        all_valid(s),
        all_valid(t),
    ensures
        any_overlap(s, t) <==> !covered(s).disjoint(covered(t)),
{
    if any_overlap(s, t) {
        let (a, o) = choose|a: Bounds, o: Bounds| #[trigger]
            s.contains(a) && #[trigger] t.contains(o) && a.overlaps(o);
        lemma_overlaps_cells(a, o);
        let c = choose|c: Cell| a.cells().contains(c) && o.cells().contains(c);
        assert(s.contains(a) && a.covers(c));
        assert(t.contains(o) && o.covers(c));
        assert(covered(s).contains(c) && covered(t).contains(c));
    }
    if !covered(s).disjoint(covered(t)) {
        let c = choose|c: Cell| covered(s).contains(c) && covered(t).contains(c);
        let a = choose|a: Bounds| #[trigger] s.contains(a) && a.covers(c);
        let o = choose|o: Bounds| #[trigger] t.contains(o) && o.covers(c);
        assert(a.cells().contains(c) && o.cells().contains(c));
        lemma_overlaps_cells(a, o);
        assert(s.contains(a) && t.contains(o) && a.overlaps(o));
    }
}

/// The sum of the areas of a sequence of rectangles.
pub open spec fn seq_area(items: Seq<Bounds>) -> int
    decreases items.len(),
{
    if items.len() == 0 {
        0
    } else {
        seq_area(items.drop_last()) + items.last().area()
    }
}

/// Without repetitions, a sequence sums to the total area of its set.
pub proof fn lemma_seq_area(items: Seq<Bounds>)
    requires
        items.no_duplicates(),
    ensures
        items.to_set().finite(),
        seq_area(items) == total_area(items.to_set()),
    decreases items.len(),
{
    if items.len() == 0 {
        assert(items.to_set() =~= Set::<Bounds>::empty());
        lemma_total_area_empty();
    } else {
        let front = items.drop_last();
        let last = items.last();
        lemma_seq_area(front);
        assert(!front.to_set().contains(last)) by {
            if front.to_set().contains(last) {
                let i = choose|i: int| 0 <= i < front.len() && front[i] == last;
                assert(items[i] == items[items.len() - 1]);
            }
        }
        assert(items.to_set() =~= front.to_set().insert(last)) by {
            assert forall|b: Bounds| items.to_set().contains(b) <==> front.to_set().insert(
                last,
            ).contains(b) by {
                if items.to_set().contains(b) {
                    let i = choose|i: int| 0 <= i < items.len() && items[i] == b;
                    if i < front.len() {
                        assert(front[i] == b);
                    }
                }
                if front.to_set().contains(b) {
                    let i = choose|i: int| 0 <= i < front.len() && front[i] == b;
                    assert(items[i] == b);
                }
                if b == last {
                    assert(items[items.len() - 1] == b);
                }
            }
        }
        lemma_total_area_insert(front.to_set(), last);
    }
}

/// The areas of ordered rectangles sum to zero exactly when all of them are
/// degenerate, and never to less.
pub proof fn lemma_seq_area_sign(items: Seq<Bounds>)
    requires
        forall|i: int| 0 <= i < items.len() ==> (#[trigger] items[i]).ordered(),
    ensures
        seq_area(items) >= 0,
        seq_area(items) == 0 <==> forall|i: int|
            0 <= i < items.len() ==> (#[trigger] items[i]).degenerate(),
    decreases items.len(),
{
    if items.len() > 0 {
        let front = items.drop_last();
        let last = items.last();
        lemma_seq_area_sign(front);
        lemma_area_sign(last);
        lemma_area_zero(last);
        if seq_area(items) == 0 {
            assert forall|i: int| 0 <= i < items.len() implies (#[trigger] items[i]).degenerate() by {
                if i < front.len() {
                    assert(front[i].degenerate());
                }
            }
        }
        if forall|i: int| 0 <= i < items.len() ==> (#[trigger] items[i]).degenerate() {
            assert forall|i: int| 0 <= i < front.len() implies (#[trigger] front[i]).degenerate() by {
                assert(items[i].degenerate());
            }
        }
    }
}

/// The first `n` of a sequence of ordered rectangles sum to no more than all
/// of them.
pub proof fn lemma_seq_area_prefix(items: Seq<Bounds>, n: int)
    requires
        forall|i: int| 0 <= i < items.len() ==> (#[trigger] items[i]).ordered(),
        0 <= n <= items.len(),
    ensures
        0 <= seq_area(items.take(n)) <= seq_area(items),
    decreases items.len(),
{
    lemma_seq_area_sign(items.take(n));
    if n == items.len() {
        assert(items.take(n) =~= items);
    } else {
        let front = items.drop_last();
        assert(items.take(n) =~= front.take(n));
        lemma_seq_area_prefix(front, n);
        lemma_area_sign(items.last());
    }
}

/// One more rectangle adds its area to the sum of those before it.
pub proof fn lemma_seq_area_step(items: Seq<Bounds>, n: int)
    requires
        0 <= n < items.len(),
    ensures
        seq_area(items.take(n + 1)) == seq_area(items.take(n)) + items[n].area(),
{
    assert(items.take(n + 1).drop_last() =~= items.take(n));
}

/// The valid meets of a member of the first set with a member of the second.
pub open spec fn shared_pieces(s: Set<Bounds>, t: Set<Bounds>) -> Set<Bounds> {
    Set::new(
        |m: Bounds|
            exists|a: Bounds, o: Bounds| #[trigger]
                s.contains(a) && #[trigger] t.contains(o) && a.meet(o).valid() && a.meet(o) == m,
    )
}

/// The shared pieces cover what both regions cover, and there are none
/// exactly when the regions share no cell.
pub proof fn lemma_shared_pieces_covered(s: Set<Bounds>, t: Set<Bounds>)
    ensures
        covered(shared_pieces(s, t)) == covered(s).intersect(covered(t)),
        shared_pieces(s, t) == Set::<Bounds>::empty() <==> covered(s).disjoint(covered(t)),
        all_valid(shared_pieces(s, t)),
{
    let both = shared_pieces(s, t);
    assert forall|c: Cell| covered(both).contains(c) <==> (covered(s).contains(c) && covered(
        t,
    ).contains(c)) by {
        if covered(both).contains(c) {
            let m = choose|m: Bounds| #[trigger] both.contains(m) && m.covers(c);
            let (a, o) = choose|a: Bounds, o: Bounds| #[trigger]
                s.contains(a) && #[trigger] t.contains(o) && a.meet(o).valid() && a.meet(o) == m;
            assert(s.contains(a) && a.covers(c));
            assert(t.contains(o) && o.covers(c));
        }
        if covered(s).contains(c) && covered(t).contains(c) {
            let a = choose|a: Bounds| #[trigger] s.contains(a) && a.covers(c);
            let o = choose|o: Bounds| #[trigger] t.contains(o) && o.covers(c);
            let m = a.meet(o);
            assert(m.covers(c));
            assert(s.contains(a) && t.contains(o) && a.meet(o).valid() && a.meet(o) == m);
            assert(both.contains(m) && m.covers(c));
        }
    }
    assert(covered(both) =~= covered(s).intersect(covered(t)));
    if both == Set::<Bounds>::empty() {
        assert forall|c: Cell| covered(s).contains(c) implies !covered(t).contains(c) by {
            if covered(t).contains(c) {
                assert(covered(both).contains(c));
                let m = choose|m: Bounds| #[trigger] both.contains(m) && m.covers(c);
                assert(both.contains(m));
            }
        }
    }
    if covered(s).disjoint(covered(t)) {
        assert forall|m: Bounds| !both.contains(m) by {
            if both.contains(m) {
                lemma_cells_inhabited(m);
                let c: Cell = (m.left, m.bottom);
                assert(both.contains(m) && m.covers(c));
                assert(covered(both).contains(c));
                assert(covered(s).contains(c) && covered(t).contains(c));
            }
        }
        assert(both =~= Set::<Bounds>::empty());
    }
}

/// A set shares nothing with the empty set.
pub proof fn lemma_shared_pieces_none(s: Set<Bounds>)
    ensures
        shared_pieces(s, Set::empty()) == Set::<Bounds>::empty(),
        shared_pieces(Set::empty(), s) == Set::<Bounds>::empty(),
{
    assert(shared_pieces(s, Set::empty()) =~= Set::<Bounds>::empty());
    assert(shared_pieces(Set::empty(), s) =~= Set::<Bounds>::empty());
}

/// One more member on the left adds what that member shares.
pub proof fn lemma_shared_pieces_more_left(s: Set<Bounds>, a: Bounds, t: Set<Bounds>)
    ensures
        shared_pieces(s.insert(a), t) == shared_pieces(s, t).union(shared_pieces(set![a], t)),
{
    let grown = s.insert(a);
    let one = set![a];
    assert forall|m: Bounds| shared_pieces(grown, t).contains(m) <==> shared_pieces(s, t).union(
        shared_pieces(one, t),
    ).contains(m) by {
        if shared_pieces(grown, t).contains(m) {
            let (x, o) = choose|x: Bounds, o: Bounds| #[trigger]
                grown.contains(x) && #[trigger] t.contains(o) && x.meet(o).valid() && x.meet(o)
                    == m;
            if x == a {
                assert(one.contains(x) && t.contains(o) && x.meet(o).valid() && x.meet(o) == m);
            } else {
                assert(s.contains(x) && t.contains(o) && x.meet(o).valid() && x.meet(o) == m);
            }
        }
        if shared_pieces(s, t).contains(m) {
            let (x, o) = choose|x: Bounds, o: Bounds| #[trigger]
                s.contains(x) && #[trigger] t.contains(o) && x.meet(o).valid() && x.meet(o) == m;
            assert(grown.contains(x) && t.contains(o) && x.meet(o).valid() && x.meet(o) == m);
        }
        if shared_pieces(one, t).contains(m) {
            let (x, o) = choose|x: Bounds, o: Bounds| #[trigger]
                one.contains(x) && #[trigger] t.contains(o) && x.meet(o).valid() && x.meet(o) == m;
            assert(grown.contains(x) && t.contains(o) && x.meet(o).valid() && x.meet(o) == m);
        }
    }
    assert(shared_pieces(grown, t) =~= shared_pieces(s, t).union(shared_pieces(one, t)));
}

/// One more member on the right adds its meet with `a`, if that is valid.
pub proof fn lemma_shared_pieces_more_right(a: Bounds, t: Set<Bounds>, o: Bounds)
    ensures
        shared_pieces(set![a], t.insert(o)) == with_valid(shared_pieces(set![a], t), a.meet(o)),
{
    let one = set![a];
    let grown = t.insert(o);
    let want = with_valid(shared_pieces(one, t), a.meet(o));
    assert forall|m: Bounds| shared_pieces(one, grown).contains(m) <==> want.contains(m) by {
        if shared_pieces(one, grown).contains(m) {
            let (x, y) = choose|x: Bounds, y: Bounds| #[trigger]
                one.contains(x) && #[trigger] grown.contains(y) && x.meet(y).valid() && x.meet(y)
                    == m;
            if y != o {
                assert(one.contains(x) && t.contains(y) && x.meet(y).valid() && x.meet(y) == m);
            }
        }
        if shared_pieces(one, t).contains(m) {
            let (x, y) = choose|x: Bounds, y: Bounds| #[trigger]
                one.contains(x) && #[trigger] t.contains(y) && x.meet(y).valid() && x.meet(y) == m;
            assert(one.contains(x) && grown.contains(y) && x.meet(y).valid() && x.meet(y) == m);
        }
        if a.meet(o).valid() && m == a.meet(o) {
            assert(one.contains(a) && grown.contains(o) && a.meet(o).valid() && a.meet(o) == m);
        }
    }
    assert(shared_pieces(one, grown) =~= want);
}

/// The pieces gathered when each of `more` joins `base` in turn: to those
/// gathered before it, a rectangle adds what is left of it after cutting away
/// each of them, in the order that `orders` gives for its step.
pub open spec fn join_in_turn(
    base: Set<Bounds>,
    more: Seq<Bounds>,
    orders: Seq<Seq<Bounds>>,
) -> Set<Bounds>
    decreases more.len(),
{
    if more.len() == 0 {
        base
    } else {
        join_in_turn(base, more.drop_last(), orders.drop_last()).union(
            cut_in_turn(set![more.last()], orders.last()),
        )
    }
}

/// There is one order for each step, and it holds exactly the pieces
/// gathered before that step.
#[verifier::opaque]
pub open spec fn staged(base: Set<Bounds>, more: Seq<Bounds>, orders: Seq<Seq<Bounds>>) -> bool {
    &&& orders.len() == more.len()
    &&& forall|k: int|
        0 <= k < more.len() ==> (#[trigger] orders[k]).to_set() == join_in_turn(
            base,
            more.take(k),
            orders.take(k),
        )
}

/// Before the first step there is no order to give.
pub proof fn lemma_staged_start(base: Set<Bounds>)
    ensures
        staged(base, Seq::empty(), Seq::empty()),
{
    reveal(staged);
}

/// One more step keeps the orders in step with the pieces.
pub proof fn lemma_staged_push(
    base: Set<Bounds>,
    more: Seq<Bounds>,
    orders: Seq<Seq<Bounds>>,
    o: Bounds,
    order: Seq<Bounds>,
)
    requires
        staged(base, more, orders),
        order.to_set() == join_in_turn(base, more, orders),
    ensures
        staged(base, more.push(o), orders.push(order)),
        join_in_turn(base, more.push(o), orders.push(order)) == join_in_turn(
            base,
            more,
            orders,
        ).union(cut_in_turn(set![o], order)),
{
    reveal(staged);
    let longer = more.push(o);
    let staged_orders = orders.push(order);
    assert(longer.drop_last() =~= more);
    assert(staged_orders.drop_last() =~= orders);
    assert forall|k: int| 0 <= k < longer.len() implies (#[trigger] staged_orders[k]).to_set()
        == join_in_turn(base, longer.take(k), staged_orders.take(k)) by {
        assert(longer.take(k) =~= more.take(k));
        assert(staged_orders.take(k) =~= orders.take(k));
        if k == more.len() {
            assert(more.take(k) =~= more);
            assert(orders.take(k) =~= orders);
        }
    }
}

/// What holds of the pieces `acc` gathered for the union of `base` with the
/// rectangles `added` so far: they are ordered, they hold all of `base`,
/// they are apart if `base` is, each lies within a member of `base` or of
/// `added`, those that are not of `base` overlap none of `base`, and they
/// cover what `base` and `added` cover.
#[verifier::opaque]
pub open spec fn joined(base: Set<Bounds>, added: Set<Bounds>, acc: Set<Bounds>) -> bool {
    &&& all_ordered(acc)
    &&& base.subset_of(acc)
    &&& apart(base) ==> apart(acc)
    &&& carved_from(acc, base.union(added))
    &&& clear_of(acc.difference(base), base)
    &&& covered(acc) == covered(base).union(covered(added))
}

/// Before anything is added, the pieces are those of `base`.
pub proof fn lemma_join_start(base: Set<Bounds>)
    requires
        all_ordered(base),
    ensures
        joined(base, Set::empty(), base),
{
    reveal(joined);
    lemma_covered_empty();
    assert(covered(base).union(Set::<Cell>::empty()) =~= covered(base));
    assert(base.union(Set::<Bounds>::empty()) =~= base);
    assert forall|q: Bounds| #[trigger] base.contains(q) implies exists|p: Bounds| #[trigger]
        base.contains(p) && p.encloses(q) && (q.valid() || q == p) by {
        assert(base.contains(q) && q.encloses(q));
    }
}

/// One step of a union: what is left of `o` outside the pieces gathered so
/// far joins them without disturbing what held of them.
pub proof fn lemma_join_step(
    base: Set<Bounds>,
    added: Set<Bounds>,
    acc: Set<Bounds>,
    order: Seq<Bounds>,
    o: Bounds,
)
    requires
        order.to_set() == acc,
        o.ordered(),
        joined(base, added, acc),
    ensures
        joined(base, added.insert(o), acc.union(cut_in_turn(set![o], order))),
{
    reveal(joined);
    lemma_join_facts(base, added, acc, order, o);
    lemma_covered_insert(added, o);
    let grown = acc.union(cut_in_turn(set![o], order));
    assert(covered(grown) =~= covered(base).union(covered(added.insert(o))));
}

/// What the gathered pieces give once every rectangle has been added.
pub proof fn lemma_join_end(base: Set<Bounds>, added: Set<Bounds>, acc: Set<Bounds>)
    requires
        joined(base, added, acc),
    ensures
        all_ordered(acc),
        base.subset_of(acc),
        apart(base) ==> apart(acc),
        carved_from(acc, base.union(added)),
        clear_of(acc.difference(base), base),
        covered(acc) == covered(base).union(covered(added)),
{
    reveal(joined);
}

/// The step of a union, with what `joined` bundles written out.
proof fn lemma_join_facts(
    base: Set<Bounds>,
    added: Set<Bounds>,
    acc: Set<Bounds>,
    order: Seq<Bounds>,
    o: Bounds,
)
    requires
        order.to_set() == acc,
        all_ordered(acc),
        o.ordered(),
        base.subset_of(acc),
        apart(base) ==> apart(acc),
        carved_from(acc, base.union(added)),
        clear_of(acc.difference(base), base),
    ensures
        ({
            let grown = acc.union(cut_in_turn(set![o], order));
            &&& covered(grown) == covered(acc).union(o.cells())
            &&& all_ordered(grown)
            &&& base.subset_of(grown)
            &&& apart(base) ==> apart(grown)
            &&& carved_from(grown, base.union(added.insert(o)))
            &&& clear_of(grown.difference(base), base)
        }),
{
    let one = set![o];
    let fresh = cut_in_turn(one, order);
    let grown = acc.union(fresh);
    assert forall|i: int| 0 <= i < order.len() implies (#[trigger] order[i]).ordered() by {
        assert(order.to_set().contains(order[i]));
    }
    lemma_cut_in_turn(one, order);
    lemma_covered_union(acc, fresh);
    lemma_covered_insert(Set::empty(), o);
    lemma_covered_empty();
    assert(covered(grown) =~= covered(acc).union(o.cells()));
    assert forall|q: Bounds| #[trigger] fresh.contains(q) implies q.ordered() && (exists|
        p: Bounds,
    | #[trigger]
        base.union(added.insert(o)).contains(p) && p.encloses(q) && (q.valid() || q == p)) by {
        let p = choose|p: Bounds| #[trigger] one.contains(p) && p.encloses(q) && (q.valid() || q == p);
        assert(p == o);
        assert(base.union(added.insert(o)).contains(o) && o.encloses(q) && (q.valid() || q == o));
    }
    assert forall|q: Bounds| #[trigger] acc.contains(q) implies exists|p: Bounds| #[trigger]
        base.union(added.insert(o)).contains(p) && p.encloses(q) && (q.valid() || q == p) by {
        let p = choose|p: Bounds| #[trigger]
            base.union(added).contains(p) && p.encloses(q) && (q.valid() || q == p);
        assert(base.union(added.insert(o)).contains(p) && p.encloses(q) && (q.valid() || q == p));
    }
    assert(apart(one));
    if apart(base) {
        assert forall|x: Bounds, y: Bounds| #[trigger]
            grown.contains(x) && #[trigger] grown.contains(y) && x != y implies !x.overlaps(y) by {
            if fresh.contains(x) && acc.contains(y) {
                assert(!x.overlaps(y));
            }
            if acc.contains(x) && fresh.contains(y) {
                assert(!y.overlaps(x));
            }
        }
    }
    assert forall|q: Bounds, c: Bounds| #[trigger]
        grown.difference(base).contains(q) && #[trigger] base.contains(c) implies !q.overlaps(
        c,
    ) by {
        if acc.contains(q) {
            assert(acc.difference(base).contains(q));
        } else {
            assert(fresh.contains(q) && acc.contains(c));
        }
    }
}

/// Pieces carved from two sets, each clear of the other set, keep apart
/// across the two.
pub proof fn lemma_two_sided_apart(
    left: Set<Bounds>,
    right: Set<Bounds>,
    s: Set<Bounds>,
    t: Set<Bounds>,
)
    requires
        apart(left),
        apart(right),
        carved_from(right, t),
        clear_of(left, t),
    ensures
        apart(left.union(right)),
{
    let both = left.union(right);
    assert forall|x: Bounds, y: Bounds| #[trigger]
        both.contains(x) && #[trigger] both.contains(y) && x != y implies !x.overlaps(y) by {
        if left.contains(x) && right.contains(y) {
            let p = choose|p: Bounds| #[trigger]
                t.contains(p) && p.encloses(y) && (y.valid() || y == p);
            if x.overlaps(y) {
                lemma_overlap_widens(x, x, p, y);
            }
        }
        if right.contains(x) && left.contains(y) {
            let p = choose|p: Bounds| #[trigger]
                t.contains(p) && p.encloses(x) && (x.valid() || x == p);
            if y.overlaps(x) {
                lemma_overlap_widens(y, y, p, x);
            }
        }
    }
}

/// Being carved from carries over to unions.
pub proof fn lemma_carved_union(
    left: Set<Bounds>,
    right: Set<Bounds>,
    s: Set<Bounds>,
    t: Set<Bounds>,
)
    requires
        carved_from(left, s),
        carved_from(right, t),
    ensures
        carved_from(left.union(right), s.union(t)),
{
    let both = left.union(right);
    assert forall|q: Bounds| #[trigger] both.contains(q) implies exists|p: Bounds| #[trigger]
        s.union(t).contains(p) && p.encloses(q) && (q.valid() || q == p) by {
        if left.contains(q) {
            let p = choose|p: Bounds| #[trigger]
                s.contains(p) && p.encloses(q) && (q.valid() || q == p);
            assert(s.union(t).contains(p) && p.encloses(q) && (q.valid() || q == p));
        } else {
            let p = choose|p: Bounds| #[trigger]
                t.contains(p) && p.encloses(q) && (q.valid() || q == p);
            assert(s.union(t).contains(p) && p.encloses(q) && (q.valid() || q == p));
        }
    }
}

} // verus!
