//! An algebra of axis-aligned regions over integer coordinates.
//!
//! A region is a single [`rectangle::Rectangle`] or a [`range_set::RangeSet`]
//! of them. Both answer the same questions through [`Rangelike`]: how much
//! they measure, whether two of them overlap or nest, and what their
//! intersection, difference, union and symmetric difference are.

pub mod bounds;
pub mod laws;
pub mod pieces;
pub mod range_set;
pub mod rectangle;
mod table;

use crate::bounds::Cell;
use crate::pieces::{all_ordered, covered};
use crate::range_set::RangeSet;
use vstd::prelude::*;

verus! {

/// A point of the plane with integer coordinates.
#[derive(Clone, Copy, Debug, PartialEq, Eq, Hash, Structural)]
pub struct Point {
    x: i64,
    y: i64,
}

impl View for Point {
    type V = Cell;

    /// The coordinates as a pair: `x`, then `y`.
    closed spec fn view(&self) -> Cell {
        (self.x as int, self.y as int)
    }
}

impl Point {
    /// The point with the given coordinates.
    pub fn new(x: i64, y: i64) -> (p: Self)
        ensures
            p@ == (x as int, y as int),
    {
        Self { x, y }
    }

    /// The horizontal coordinate.
    pub(crate) fn x(&self) -> (x: i64)
        ensures
            x == self@.0,
    {
        self.x
    }

    /// The vertical coordinate.
    pub(crate) fn y(&self) -> (y: i64)
        ensures
            y == self@.1,
    {
        self.y
    }
}

/// What every region can be asked.
///
/// A region stands for a set of unit cells, its `region`. The contracts here
/// hold of every implementation; each implementation adds what is specific to
/// it.
pub trait Rangelike: Sized {
    /// The cells that the region covers.
    spec fn region(&self) -> Set<Cell>;

    /// The size that `count` reports.
    spec fn measure(&self) -> int;

    /// No part of the region is degenerate.
    spec fn regular(&self) -> bool;

    /// Whether the region measures nothing.
    fn is_empty(&self) -> (empty: bool)
        ensures
            empty <==> self.measure() == 0,
    ;

    /// The measure of the region. It has to fit the result type.
    fn count(&self) -> (n: i64)
        requires
            self.measure() <= i64::MAX,
        ensures
            n == self.measure(),
    ;

    /// Whether the two regions share area.
    fn intersects(&self, other: &Self) -> (hit: bool)
        ensures
            self.regular() && other.regular() ==> (hit <==> !self.region().disjoint(
                other.region(),
            )),
    ;

    /// Whether `other` lies within `self`.
    fn contains(&self, other: &Self) -> (inside: bool)
        ensures
            other.regular() ==> (inside <==> other.region().subset_of(self.region())),
    ;

    /// The region shared by both, or nothing where they share no area.
    fn intersection(&self, other: &Self) -> (shared: Option<Self>)
        ensures
            shared is Some <==> !self.region().disjoint(other.region()),
            shared matches Some(s) ==> s.region() == self.region().intersect(other.region()),
    ;

    /// The part of `self` outside `other`.
    fn difference(&self, other: &Self) -> (rest: RangeSet)
        ensures
            rest@.finite(),
            all_ordered(rest@),
            covered(rest@) == self.region().difference(other.region()),
    ;

    /// Everything in `self` or in `other`.
    fn union(&self, other: &Self) -> (all: RangeSet)
        ensures
            all@.finite(),
            all_ordered(all@),
            covered(all@) == self.region().union(other.region()),
    ;

    /// Everything in exactly one of `self` and `other`.
    fn symmetric_difference(&self, other: &Self) -> (odd: RangeSet)
        ensures
            odd@.finite(),
            all_ordered(odd@),
            covered(odd@) == self.region().difference(other.region()).union(
                other.region().difference(self.region()),
            ),
    ;
}

} // verus!
