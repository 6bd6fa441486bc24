//! The region set: a collection of rectangles that stands for their union.

use crate::bounds::{lemma_area_sign, Bounds, Cell};
use crate::pieces::{
    all_ordered, all_valid, any_overlap, apart, carved_from, clear_of, covered, cut_in_turn,
    cut_pieces, lemma_any_overlap_cells, lemma_carved_union, lemma_covered_insert,
    lemma_covered_empty, lemma_covered_union, lemma_cut_in_turn, lemma_cut_pieces_empty,
    lemma_cut_pieces_insert, lemma_join_end, lemma_join_start, lemma_join_step,
    lemma_staged_push, lemma_staged_start, join_in_turn, joined, staged,
    lemma_seq_area, lemma_seq_area_prefix,
    lemma_seq_area_sign, lemma_seq_area_step, lemma_shared_pieces_covered,
    lemma_shared_pieces_more_left, lemma_shared_pieces_more_right, lemma_shared_pieces_none,
    lemma_two_sided_apart, lemma_void_covers_nothing, lists, seq_area, shared_pieces, total_area, void,
};
use crate::rectangle::{
    bounds_seq, entry_bounds, lemma_bounds_seq, lemma_piece_set_add, lemma_piece_set_empty,
    lemma_piece_set_push, piece_set, push_all, Rectangle,
};
use crate::table::{collect_set, empty_set, entries, walk_set, Entry, EntrySet};
use crate::Rangelike;
use vstd::prelude::*;

verus! {

/// An unordered collection of rectangles without repetitions.
///
/// The set stands for the union of its members. `count` adds up the members'
/// areas, so it is the area of that union only while the members keep clear
/// of each other: that is for whoever builds the set to see to. The sets that
/// the operations of this crate return have that property whenever their
/// operands have it.
pub struct RangeSet {
    table: EntrySet,
}

impl View for RangeSet {
    type V = Set<Bounds>;

    /// The bounds of the members.
    closed spec fn view(&self) -> Set<Bounds> {
        Set::new(
            |b: Bounds| exists|e: Entry| #[trigger] entries(self.table).contains(e) && entry_bounds(e) == b,
        )
    }
}

impl RangeSet {
    /// No stored entry has a bound on the wrong side of its opposite.
    #[verifier::type_invariant]
    spec fn members_ordered(self) -> bool {
        forall|e: Entry| #[trigger] entries(self.table).contains(e) ==> entry_bounds(e).ordered()
    }

    /// The set without members.
    pub fn new() -> (s: Self)
        ensures
            s@ == Set::<Bounds>::empty(),
            s@.finite(),
            all_ordered(s@),
    {
        let s = Self { table: empty_set() };
        assert(s@ =~= Set::<Bounds>::empty());
        s
    }

    /// The set of the given rectangles.
    pub fn from_iter(items: Vec<Rectangle>) -> (s: Self)
        ensures
            s@ == piece_set(items@),
            s@.finite(),
            all_ordered(s@),
    {
        let mut es: Vec<Entry> = Vec::new();
        let mut i: usize = 0;
        while i < items.len()
            invariant
                i <= items.len(),
                es.len() == i,
                forall|k: int| 0 <= k < i ==> entry_bounds(#[trigger] es[k]) == items[k]@,
                forall|k: int| 0 <= k < i ==> entry_bounds(#[trigger] es[k]).ordered(),
            decreases items.len() - i,
        {
            es.push(items[i].entry());
            i += 1;
        }
        let ghost stored = es@;
        let s = Self { table: collect_set(es) };
        proof {
            assert forall|b: Bounds| s@.contains(b) <==> piece_set(items@).contains(b) by {
                if s@.contains(b) {
                    let e = choose|e: Entry| #[trigger]
                        entries(s.table).contains(e) && entry_bounds(e) == b;
                    assert(stored.to_set().contains(e));
                    let k = choose|k: int| 0 <= k < stored.len() && stored[k] == e;
                    assert(items[k]@ == b);
                }
                if piece_set(items@).contains(b) {
                    let k = choose|k: int| 0 <= k < items.len() && #[trigger] items[k]@ == b;
                    assert(stored.to_set().contains(stored[k]));
                }
            }
            assert(s@ =~= piece_set(items@));
            lemma_bounds_seq(items@);
            vstd::seq_lib::seq_to_set_is_finite(bounds_seq(items@));
            assert forall|b: Bounds| #[trigger] s@.contains(b) implies b.ordered() by {
                let k = choose|k: int| 0 <= k < items.len() && #[trigger] items[k]@ == b;
                assert(entry_bounds(stored[k]).ordered());
            }
        }
        s
    }

    /// The members, each once, in no particular order.
    pub fn into_iter(&self) -> (items: Vec<Rectangle>)
        ensures
            piece_set(items@) == self@,
            bounds_seq(items@).no_duplicates(),
            all_ordered(self@),
            self@.finite(),
    {
        proof {
            use_type_invariant(self);
        }
        let es = walk_set(&self.table);
        let mut items: Vec<Rectangle> = Vec::new();
        let mut i: usize = 0;
        while i < es.len()
            invariant
                i <= es.len(),
                items.len() == i,
                es@.to_set() == entries(self.table),
                forall|e: Entry| #[trigger]
                    entries(self.table).contains(e) ==> entry_bounds(e).ordered(),
                forall|k: int| 0 <= k < i ==> (#[trigger] items[k])@ == entry_bounds(es[k]),
            decreases es.len() - i,
        {
            assert(es@.to_set().contains(es[i as int]));
            items.push(Rectangle::from_entry(es[i]));
            i += 1;
        }
        proof {
            assert forall|b: Bounds| self@.contains(b) <==> piece_set(items@).contains(b) by {
                if self@.contains(b) {
                    let e = choose|e: Entry| #[trigger]
                        entries(self.table).contains(e) && entry_bounds(e) == b;
                    assert(es@.to_set().contains(e));
                    let k = choose|k: int| 0 <= k < es.len() && es[k] == e;
                    assert(items[k]@ == b);
                }
                if piece_set(items@).contains(b) {
                    let k = choose|k: int| 0 <= k < items.len() && #[trigger] items[k]@ == b;
                    assert(es@.to_set().contains(es[k]));
                }
            }
            assert(piece_set(items@) =~= self@);
            assert forall|i: int, j: int| 0 <= i < j < items.len() implies #[trigger] items[i]@
                != #[trigger] items[j]@ by {
                assert(es[i] != es[j]);
            }
            assert forall|i: int| 0 <= i < items.len() implies (#[trigger] items[i])@.ordered() by {
                assert(es@.to_set().contains(es[i]));
            }
            assert forall|b: Bounds| #[trigger] self@.contains(b) implies b.ordered() by {
                let k = choose|k: int| 0 <= k < items.len() && #[trigger] items[k]@ == b;
                assert(items[k]@.ordered());
            }
            lemma_bounds_seq(items@);
            vstd::seq_lib::seq_to_set_is_finite(bounds_seq(items@));
        }
        items
    }
}

/// One more rectangle of a sequence adds its bounds to those before it.
pub proof fn lemma_piece_set_take(items: Seq<Rectangle>, n: int)
    requires
        0 <= n < items.len(),
    ensures
        piece_set(items.take(n + 1)) == piece_set(items.take(n)).insert(items[n]@),
        bounds_seq(items).take(n + 1) == bounds_seq(items).take(n).push(items[n]@),
        bounds_seq(items.take(n)) == bounds_seq(items).take(n),
{
    assert(items.take(n + 1) =~= items.take(n).push(items[n]));
    lemma_piece_set_push(items.take(n), items[n]);
    assert(bounds_seq(items).take(n + 1) =~= bounds_seq(items).take(n).push(items[n]@));
    assert(bounds_seq(items.take(n)) =~= bounds_seq(items).take(n));
}

/// Whether every rectangle of `items` is degenerate.
fn all_degenerate(items: &Vec<Rectangle>) -> (all: bool)
    ensures
        all <==> void(piece_set(items@)),
{
    let mut i: usize = 0;
    while i < items.len()
        invariant
            i <= items.len(),
            forall|k: int| 0 <= k < i ==> (#[trigger] items[k])@.degenerate(),
        decreases items.len() - i,
    {
        if !items[i].is_empty() {
            proof {
                assert(piece_set(items@).contains(items[i as int]@));
            }
            return false;
        }
        i += 1;
    }
    true
}

/// What is left of each of `pieces` outside `cut`.
fn cut_all(pieces: &Vec<Rectangle>, cut: &Rectangle) -> (rest: Vec<Rectangle>)
    ensures
        piece_set(rest@) == cut_pieces(piece_set(pieces@), cut@),
{
    let mut rest: Vec<Rectangle> = Vec::new();
    let mut i: usize = 0;
    proof {
        lemma_piece_set_empty();
        assert(pieces@.take(0) =~= Seq::<Rectangle>::empty());
        lemma_cut_pieces_empty(cut@);
    }
    while i < pieces.len()
        invariant
            i <= pieces.len(),
            piece_set(rest@) == cut_pieces(piece_set(pieces@.take(i as int)), cut@),
        decreases pieces.len() - i,
    {
        let part = pieces[i].difference_pieces(cut);
        proof {
            lemma_piece_set_add(rest@, part@);
            lemma_piece_set_take(pieces@, i as int);
            lemma_cut_pieces_insert(piece_set(pieces@.take(i as int)), pieces[i as int]@, cut@);
        }
        push_all(&mut rest, &part);
        i += 1;
    }
    proof {
        assert(pieces@.take(pieces.len() as int) =~= pieces@);
    }
    rest
}

/// What is left of `pieces` after cutting away each of `cuts` in turn.
fn cut_away(pieces: Vec<Rectangle>, cuts: &Vec<Rectangle>) -> (rest: Vec<Rectangle>)
    ensures
        piece_set(rest@) == cut_in_turn(piece_set(pieces@), bounds_seq(cuts@)),
{
    let ghost start = piece_set(pieces@);
    let ghost order = bounds_seq(cuts@);
    let mut rest = pieces;
    let mut k: usize = 0;
    proof {
        assert(order.take(0) =~= Seq::<Bounds>::empty());
    }
    while k < cuts.len()
        invariant
            k <= cuts.len(),
            order == bounds_seq(cuts@),
            piece_set(rest@) == cut_in_turn(start, order.take(k as int)),
        decreases cuts.len() - k,
    {
        rest = cut_all(&rest, &cuts[k]);
        proof {
            let longer = order.take(k + 1);
            assert(longer.drop_last() =~= order.take(k as int));
            assert(longer.last() == cuts[k as int]@);
        }
        k += 1;
    }
    proof {
        assert(order.take(cuts.len() as int) =~= order);
    }
    rest
}

/// What is left of `one` after cutting away each of `cuts` in turn.
fn left_of(one: Rectangle, cuts: &Vec<Rectangle>) -> (rest: Vec<Rectangle>)
    ensures
        piece_set(rest@) == cut_in_turn(set![one@], bounds_seq(cuts@)),
{
    let mut whole: Vec<Rectangle> = Vec::new();
    whole.push(one);
    proof {
        lemma_piece_set_empty();
        lemma_piece_set_push(Seq::<Rectangle>::empty(), one);
        assert(whole@ =~= Seq::<Rectangle>::empty().push(one));
        assert(piece_set(whole@) =~= set![one@]);
    }
    cut_away(whole, cuts)
}

/// The valid meets of `one` with each of `theirs`.
fn meets_of(one: &Rectangle, theirs: &Vec<Rectangle>) -> (found: Vec<Rectangle>)
    ensures
        piece_set(found@) == shared_pieces(set![one@], piece_set(theirs@)),
{
    let mut found: Vec<Rectangle> = Vec::new();
    let mut j: usize = 0;
    proof {
        lemma_piece_set_empty();
        assert(theirs@.take(0) =~= Seq::<Rectangle>::empty());
        lemma_shared_pieces_none(set![one@]);
    }
    while j < theirs.len()
        invariant
            j <= theirs.len(),
            piece_set(found@) == shared_pieces(set![one@], piece_set(theirs@.take(j as int))),
        decreases theirs.len() - j,
    {
        proof {
            lemma_piece_set_take(theirs@, j as int);
            lemma_shared_pieces_more_right(
                one@,
                piece_set(theirs@.take(j as int)),
                theirs[j as int]@,
            );
        }
        if let Some(m) = one.intersection(&theirs[j]) {
            proof {
                lemma_piece_set_push(found@, m);
            }
            found.push(m);
        }
        j += 1;
    }
    proof {
        assert(theirs@.take(theirs.len() as int) =~= theirs@);
    }
    found
}

impl Rangelike for RangeSet {
    /// The cells that some member covers.
    open spec fn region(&self) -> Set<Cell> {
        covered(self@)
    }

    /// The sum of the members' areas.
    open spec fn measure(&self) -> int {
        total_area(self@)
    }

    /// Every member is valid.
    open spec fn regular(&self) -> bool {
        all_valid(self@)
    }

    /// Whether every member is degenerate; so it is for a set without
    /// members.
    fn is_empty(&self) -> (empty: bool)
        ensures
            empty <==> void(self@),
    {
        let items = self.into_iter();
        proof {
            let bs = bounds_seq(items@);
            lemma_bounds_seq(items@);
            lemma_seq_area(bs);
            assert forall|i: int| 0 <= i < bs.len() implies (#[trigger] bs[i]).ordered() by {
                assert(bs.to_set().contains(bs[i]));
            }
            lemma_seq_area_sign(bs);
            if void(self@) {
                assert forall|i: int| 0 <= i < bs.len() implies (#[trigger] bs[i]).degenerate() by {
                    assert(bs.to_set().contains(bs[i]));
                }
            }
            if forall|i: int| 0 <= i < bs.len() ==> (#[trigger] bs[i]).degenerate() {
                assert forall|b: Bounds| #[trigger] self@.contains(b) implies b.degenerate() by {
                    let i = choose|i: int| 0 <= i < bs.len() && bs[i] == b;
                    assert(bs[i].degenerate());
                }
            }
        }
        all_degenerate(&items)
    }

    /// The sum of the members' areas.
    fn count(&self) -> (n: i64)
        ensures
            n == total_area(self@),
    {
        let items = self.into_iter();
        let ghost bs = bounds_seq(items@);
        proof {
            lemma_bounds_seq(items@);
            lemma_seq_area(bs);
            assert forall|i: int| 0 <= i < bs.len() implies (#[trigger] bs[i]).ordered() by {
                assert(bs.to_set().contains(bs[i]));
            }
            assert(bs.take(0) =~= Seq::<Bounds>::empty());
        }
        let mut sum: i64 = 0;
        let mut i: usize = 0;
        while i < items.len()
            invariant
                i <= items.len(),
                bs == bounds_seq(items@),
                forall|k: int| 0 <= k < bs.len() ==> (#[trigger] bs[k]).ordered(),
                seq_area(bs) <= i64::MAX,
                sum == seq_area(bs.take(i as int)),
            decreases items.len() - i,
        {
            proof {
                lemma_seq_area_step(bs, i as int);
                lemma_seq_area_prefix(bs, i as int);
                lemma_seq_area_prefix(bs, i + 1);
                lemma_area_sign(bs[i as int]);
            }
            let area: i64 = items[i].count();
            sum = sum + area;
            i += 1;
        }
        proof {
            assert(bs.take(items.len() as int) =~= bs);
        }
        sum
    }

    /// Whether some member of `self` overlaps some member of `other`.
    fn intersects(&self, other: &Self) -> (hit: bool)
        ensures
            hit <==> any_overlap(self@, other@),
    {
        let ours = self.into_iter();
        let theirs = other.into_iter();
        let mut i: usize = 0;
        while i < ours.len()
            invariant
                i <= ours.len(),
                piece_set(ours@) == self@,
                piece_set(theirs@) == other@,
                forall|a: int, b: int|
                    0 <= a < i && 0 <= b < theirs.len() ==> !(#[trigger] ours[a])@.overlaps(
                        (#[trigger] theirs[b])@,
                    ),
            decreases ours.len() - i,
        {
            let mut j: usize = 0;
            while j < theirs.len()
                invariant
                    i < ours.len(),
                    j <= theirs.len(),
                    piece_set(ours@) == self@,
                    piece_set(theirs@) == other@,
                    forall|a: int, b: int|
                        0 <= a < i && 0 <= b < theirs.len() ==> !(#[trigger] ours[a])@.overlaps(
                            (#[trigger] theirs[b])@,
                        ),
                    forall|b: int|
                        0 <= b < j ==> !ours[i as int]@.overlaps((#[trigger] theirs[b])@),
                decreases theirs.len() - j,
            {
                if ours[i].intersects(&theirs[j]) {
                    proof {
                        assert(self@.contains(ours[i as int]@));
                        assert(other@.contains(theirs[j as int]@));
                        if all_valid(self@) && all_valid(other@) {
                            lemma_any_overlap_cells(self@, other@);
                        }
                    }
                    return true;
                }
                j += 1;
            }
            i += 1;
        }
        proof {
            if any_overlap(self@, other@) {
                let (a, o) = choose|a: Bounds, o: Bounds| #[trigger]
                    self@.contains(a) && #[trigger] other@.contains(o) && a.overlaps(o);
                let x = choose|x: int| 0 <= x < ours.len() && #[trigger] ours[x]@ == a;
                let y = choose|y: int| 0 <= y < theirs.len() && #[trigger] theirs[y]@ == o;
                assert(!ours[x]@.overlaps(theirs[y]@));
            }
            if all_valid(self@) && all_valid(other@) {
                lemma_any_overlap_cells(self@, other@);
            }
        }
        false
    }

    /// Whether every cell of `other` is a cell of `self`.
    fn contains(&self, other: &Self) -> (inside: bool)
        ensures
            inside <==> covered(other@).subset_of(covered(self@)),
    {
        let cuts = self.into_iter();
        let theirs = other.into_iter();
        let ghost order = bounds_seq(cuts@);
        proof {
            lemma_bounds_seq(cuts@);
            assert forall|i: int| 0 <= i < order.len() implies (#[trigger] order[i]).ordered() by {
                assert(order.to_set().contains(order[i]));
            }
        }
        let mut j: usize = 0;
        while j < theirs.len()
            invariant
                j <= theirs.len(),
                order == bounds_seq(cuts@),
                order.to_set() == self@,
                forall|i: int| 0 <= i < order.len() ==> (#[trigger] order[i]).ordered(),
                piece_set(theirs@) == other@,
                all_ordered(other@),
                forall|k: int|
                    0 <= k < j ==> (#[trigger] theirs[k])@.cells().subset_of(covered(self@)),
            decreases theirs.len() - j,
        {
            let ghost o = theirs[j as int]@;
            let rest = left_of(theirs[j], &cuts);
            proof {
                lemma_cut_in_turn(set![o], order);
                lemma_covered_empty();
                lemma_covered_insert(Set::empty(), o);
                assert(covered(set![o]) =~= o.cells());
                assert(other@.contains(o));
                let left = piece_set(rest@);
                assert forall|q: Bounds| #[trigger] left.contains(q) implies q.ordered() by {
                    let p = choose|p: Bounds| #[trigger]
                        set![o].contains(p) && p.encloses(q) && (q.valid() || q == p);
                    assert(p == o);
                }
                lemma_void_covers_nothing(left);
            }
            if !all_degenerate(&rest) {
                proof {
                    let left = piece_set(rest@);
                    let q = choose|q: Bounds| #[trigger] left.contains(q) && !q.degenerate();
                    let c: Cell = (q.left, q.bottom);
                    assert(left.contains(q) && q.covers(c));
                    assert(covered(left).contains(c));
                    assert(o.cells().contains(c) && !covered(self@).contains(c));
                    assert(other@.contains(o) && o.covers(c));
                    assert(covered(other@).contains(c));
                }
                return false;
            }
            proof {
                assert forall|c: Cell| o.cells().contains(c) implies covered(self@).contains(c) by {
                    if !covered(self@).contains(c) {
                        assert(o.cells().difference(covered(self@)).contains(c));
                    }
                }
            }
            j += 1;
        }
        proof {
            assert forall|c: Cell| covered(other@).contains(c) implies covered(self@).contains(
                c,
            ) by {
                let o = choose|o: Bounds| #[trigger] other@.contains(o) && o.covers(c);
                let k = choose|k: int| 0 <= k < theirs.len() && #[trigger] theirs[k]@ == o;
                assert(theirs[k]@.cells().contains(c));
            }
        }
        true
    }

    /// The valid meets of a member of `self` with a member of `other`, or
    /// nothing where there is none.
    fn intersection(&self, other: &Self) -> (shared: Option<Self>)
        ensures
            shared is Some <==> shared_pieces(self@, other@) != Set::<Bounds>::empty(),
            shared matches Some(s) ==> s@ == shared_pieces(self@, other@),
    {
        let ours = self.into_iter();
        let theirs = other.into_iter();
        let mut found: Vec<Rectangle> = Vec::new();
        let mut i: usize = 0;
        proof {
            lemma_piece_set_empty();
            assert(ours@.take(0) =~= Seq::<Rectangle>::empty());
            lemma_shared_pieces_none(other@);
            lemma_shared_pieces_covered(self@, other@);
        }
        while i < ours.len()
            invariant
                i <= ours.len(),
                piece_set(theirs@) == other@,
                piece_set(found@) == shared_pieces(piece_set(ours@.take(i as int)), other@),
            decreases ours.len() - i,
        {
            let more = meets_of(&ours[i], &theirs);
            proof {
                lemma_piece_set_add(found@, more@);
                lemma_piece_set_take(ours@, i as int);
                lemma_shared_pieces_more_left(
                    piece_set(ours@.take(i as int)),
                    ours[i as int]@,
                    other@,
                );
            }
            push_all(&mut found, &more);
            i += 1;
        }
        proof {
            assert(ours@.take(ours.len() as int) =~= ours@);
        }
        if found.len() == 0 {
            proof {
                assert(found@ =~= Seq::<Rectangle>::empty());
            }
            return None;
        }
        proof {
            assert(piece_set(found@).contains(found[0]@));
        }
        Some(RangeSet::from_iter(found))
    }

    /// The members of `self` with every member of `other` cut away, one
    /// after the other.
    fn difference(&self, other: &Self) -> (rest: RangeSet)
        ensures
            exists|order: Seq<Bounds>| #[trigger]
                lists(order, other@) && rest@ == cut_in_turn(self@, order),
            apart(self@) ==> apart(rest@),
            carved_from(rest@, self@),
            clear_of(rest@, other@),
    {
        let pieces = self.into_iter();
        let cuts = other.into_iter();
        let left = cut_away(pieces, &cuts);
        proof {
            let order = bounds_seq(cuts@);
            lemma_bounds_seq(cuts@);
            assert forall|i: int| 0 <= i < order.len() implies (#[trigger] order[i]).ordered() by {
                assert(order.to_set().contains(order[i]));
            }
            lemma_cut_in_turn(self@, order);
            assert(lists(order, other@) && piece_set(left@) == cut_in_turn(self@, order));
        }
        RangeSet::from_iter(left)
    }

    /// The members of `self`, and of each member of `other` what lies
    /// outside everything gathered before it.
    fn union(&self, other: &Self) -> (all: RangeSet)
        ensures
            exists|more: Seq<Bounds>, orders: Seq<Seq<Bounds>>|
                lists(more, other@) && #[trigger] staged(self@, more, orders) && all@
                    == join_in_turn(self@, more, orders),
            self@.subset_of(all@),
            apart(self@) ==> apart(all@),
            carved_from(all@, self@.union(other@)),
            clear_of(all@.difference(self@), self@),
    {
        let mut acc = self.into_iter();
        let more = other.into_iter();
        let mut j: usize = 0;
        let ghost joining = bounds_seq(more@);
        let ghost orders = Seq::<Seq<Bounds>>::empty();
        proof {
            assert(more@.take(0) =~= Seq::<Rectangle>::empty());
            assert(joining.take(0) =~= Seq::<Bounds>::empty());
            lemma_piece_set_empty();
            lemma_join_start(self@);
            lemma_staged_start(self@);
        }
        while j < more.len()
            invariant
                j <= more.len(),
                joining == bounds_seq(more@),
                piece_set(more@) == other@,
                all_ordered(other@),
                joined(self@, piece_set(more@.take(j as int)), piece_set(acc@)),
                staged(self@, joining.take(j as int), orders),
                piece_set(acc@) == join_in_turn(self@, joining.take(j as int), orders),
            decreases more.len() - j,
        {
            let ghost o = more[j as int]@;
            let ghost before = acc@;
            let fresh = left_of(more[j], &acc);
            push_all(&mut acc, &fresh);
            proof {
                let gathered = piece_set(before);
                let grown = gathered.union(cut_in_turn(set![o], bounds_seq(before)));
                assert(piece_set(acc@) == grown) by {
                    lemma_piece_set_add(before, fresh@);
                }
                assert(bounds_seq(before).to_set() == gathered) by {
                    lemma_bounds_seq(before);
                }
                assert(o.ordered()) by {
                    assert(other@.contains(o));
                }
                assert(joined(self@, piece_set(more@.take(j + 1)), grown)) by {
                    lemma_join_step(
                        self@,
                        piece_set(more@.take(j as int)),
                        gathered,
                        bounds_seq(before),
                        o,
                    );
                    lemma_piece_set_take(more@, j as int);
                }
                assert(joining.take(j + 1) == joining.take(j as int).push(o)) by {
                    lemma_piece_set_take(more@, j as int);
                }
                lemma_staged_push(self@, joining.take(j as int), orders, o, bounds_seq(before));
                orders = orders.push(bounds_seq(before));
            }
            j += 1;
        }
        proof {
            assert(more@.take(more.len() as int) =~= more@);
            assert(joining.take(more.len() as int) =~= joining);
            lemma_bounds_seq(more@);
            lemma_join_end(self@, other@, piece_set(acc@));
            assert(lists(joining, other@) && staged(self@, joining, orders) && piece_set(acc@)
                == join_in_turn(self@, joining, orders));
        }
        RangeSet::from_iter(acc)
    }

    /// What is left of `self` outside `other`, together with what is left
    /// of `other` outside `self`.
    fn symmetric_difference(&self, other: &Self) -> (odd: RangeSet)
        ensures
            exists|theirs: Seq<Bounds>, ours: Seq<Bounds>| #[trigger]
                lists(theirs, other@) && #[trigger] lists(ours, self@) && odd@ == cut_in_turn(
                    self@,
                    theirs,
                ).union(cut_in_turn(other@, ours)),
            apart(self@) && apart(other@) ==> apart(odd@),
            carved_from(odd@, self@.union(other@)),
    {
        let ours = self.difference(other);
        let theirs = other.difference(self);
        let mut items = ours.into_iter();
        let back = theirs.into_iter();
        proof {
            let cuts = choose|order: Seq<Bounds>| #[trigger]
                lists(order, other@) && ours@ == cut_in_turn(self@, order);
            let back_cuts = choose|order: Seq<Bounds>| #[trigger]
                lists(order, self@) && theirs@ == cut_in_turn(other@, order);
            assert(lists(cuts, other@) && lists(back_cuts, self@) && ours@.union(theirs@)
                == cut_in_turn(self@, cuts).union(cut_in_turn(other@, back_cuts)));
            lemma_piece_set_add(items@, back@);
            lemma_covered_union(ours@, theirs@);
            lemma_carved_union(ours@, theirs@, self@, other@);
            if apart(self@) && apart(other@) {
                lemma_two_sided_apart(ours@, theirs@, self@, other@);
            }
        }
        push_all(&mut items, &back);
        RangeSet::from_iter(items)
    }
}

impl Default for RangeSet {
    /// The set without members.
    fn default() -> (s: Self)
        ensures
            s@ == Set::<Bounds>::empty(),
            s@.finite(),
            all_ordered(s@),
    {
        Self::new()
    }
}

} // verus!
