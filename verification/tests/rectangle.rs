use rangelike::rectangle::Rectangle;
use rangelike::{Point, Rangelike};

fn rect(top: i64, left: i64, bottom: i64, right: i64) -> Rectangle {
    Rectangle::from_tlbr(top, left, bottom, right).unwrap()
}

fn sorted(mut items: Vec<Rectangle>) -> Vec<(i64, i64)> {
    let mut areas: Vec<(i64, i64)> = Vec::new();
    while let Some(r) = items.pop() {
        areas.push((r.count(), 0));
    }
    areas.sort();
    areas
}

#[test]
fn from_tlbr_accepts_canonical_bounds() {
    assert!(Rectangle::from_tlbr(10, 0, 2, 5).is_some());
    assert!(Rectangle::from_tlbr(1, 0, 0, 1).is_some());
    assert!(Rectangle::from_tlbr(-1, -5, -2, -4).is_some());
}

#[test]
fn from_tlbr_rejects_flat_or_inverted_bounds() {
    assert!(Rectangle::from_tlbr(2, 0, 2, 5).is_none());
    assert!(Rectangle::from_tlbr(1, 0, 2, 5).is_none());
    assert!(Rectangle::from_tlbr(10, 5, 2, 5).is_none());
    assert!(Rectangle::from_tlbr(10, 6, 2, 5).is_none());
    assert!(Rectangle::from_tlbr(0, 0, 0, 0).is_none());
}

#[test]
fn new_normalizes_corner_order() {
    let want = rect(7, 1, 3, 4);
    assert_eq!(Rectangle::new(Point::new(1, 3), Point::new(4, 7)), want);
    assert_eq!(Rectangle::new(Point::new(4, 7), Point::new(1, 3)), want);
    assert_eq!(Rectangle::new(Point::new(1, 7), Point::new(4, 3)), want);
    assert_eq!(Rectangle::new(Point::new(4, 3), Point::new(1, 7)), want);
}

#[test]
fn new_with_shared_coordinate_is_empty() {
    let flat = Rectangle::new(Point::new(1, 3), Point::new(4, 3));
    assert!(flat.is_empty());
    assert_eq!(flat.count(), 0);
    let dot = Rectangle::new(Point::new(2, 2), Point::new(2, 2));
    assert!(dot.is_empty());
    assert_eq!(dot.count(), 0);
}

#[test]
fn area_of_ten_by_five() {
    let r = rect(10, 0, 2, 5);
    assert_eq!(r.count(), 40);
    assert!(!r.is_empty());
}

#[test]
fn area_at_the_limits() {
    let r = rect(i64::MAX, 0, 0, 1);
    assert_eq!(r.count(), i64::MAX);
    let low = rect(0, i64::MIN, -1, -1);
    assert_eq!(low.count(), i64::MAX);
}

#[test]
fn contains_is_reflexive_and_closed_at_the_boundary() {
    let a = rect(10, 0, 0, 10);
    assert!(a.contains(&a));
    assert!(a.contains(&rect(8, 2, 2, 8)));
    assert!(!a.contains(&rect(11, 0, 0, 10)));
    assert!(a.contains(&rect(10, 0, 5, 10)));
    assert!(!rect(8, 2, 2, 8).contains(&a));
}

#[test]
fn touching_edges_do_not_intersect() {
    let a = rect(4, 0, 0, 4);
    assert!(!a.intersects(&rect(4, 4, 0, 8)));
    assert!(!a.intersects(&rect(8, 0, 4, 4)));
    assert!(!rect(4, 4, 0, 8).intersects(&a));
    assert!(a.intersects(&rect(5, 3, 3, 5)));
    assert!(a.intersection(&rect(4, 4, 0, 8)).is_none());
}

#[test]
fn intersection_is_symmetric() {
    let a = rect(10, 0, 0, 10);
    let b = rect(6, 4, -2, 14);
    assert_eq!(a.intersection(&b), Some(rect(6, 4, 0, 10)));
    assert_eq!(b.intersection(&a), Some(rect(6, 4, 0, 10)));
    assert_eq!(a.intersection(&a), Some(a));
}

#[test]
fn disjoint_case() {
    let a = rect(4, 0, 0, 4);
    let b = rect(4, 10, 0, 14);
    assert!(!a.intersects(&b));
    assert_eq!(a.difference(&b).into_iter(), vec![a]);
    assert_eq!(a.intersection(&b), None);
}

#[test]
fn full_containment_case() {
    let a = rect(10, 0, 0, 10);
    let b = rect(8, 2, 2, 8);
    assert!(b.difference(&a).into_iter().is_empty());
    let rest = a.difference(&b);
    let pieces = rest.into_iter();
    assert_eq!(pieces.len(), 4);
    assert_eq!(rest.count(), 100 - 36);
    assert_eq!(sorted(pieces), vec![(12, 0), (12, 0), (20, 0), (20, 0)]);
    for want in [rect(10, 0, 8, 10), rect(2, 0, 0, 10), rect(8, 0, 2, 2), rect(8, 8, 2, 10)] {
        assert!(rest.into_iter().contains(&want));
    }
}

#[test]
fn partial_overlap_case() {
    let a = rect(10, 0, 0, 10);
    let b = rect(6, 4, -2, 14);
    assert!(a.intersects(&b));
    let rest = a.difference(&b);
    let pieces = rest.into_iter();
    assert_eq!(pieces.len(), 2);
    assert!(pieces.contains(&rect(10, 0, 6, 10)));
    assert!(pieces.contains(&rect(6, 0, 0, 4)));
    assert_eq!(rest.count(), 100 - 36);
    for p in &pieces {
        for q in &pieces {
            assert!(p == q || !p.intersects(q));
        }
        assert!(a.contains(p));
        assert!(!p.intersects(&b));
    }
}

#[test]
fn union_has_area_by_inclusion_and_exclusion() {
    let a = rect(10, 0, 0, 10);
    let b = rect(6, 4, -2, 14);
    let all = a.union(&b);
    assert_eq!(all.count(), 100 + 80 - 36);
    assert!(all.into_iter().contains(&a));
    assert!(!all.is_empty());
    let swapped = b.union(&a);
    assert_eq!(swapped.count(), 100 + 80 - 36);
    assert!(swapped.into_iter().contains(&b));
}

#[test]
fn union_of_nested_rectangles_is_the_outer_one() {
    let a = rect(10, 0, 0, 10);
    let b = rect(8, 2, 2, 8);
    assert_eq!(a.union(&b).into_iter(), vec![a]);
    assert_eq!(b.union(&a).count(), 100);
    assert_eq!(a.union(&a).into_iter(), vec![a]);
}

#[test]
fn symmetric_difference_leaves_out_the_shared_part() {
    let a = rect(10, 0, 0, 10);
    let b = rect(6, 4, -2, 14);
    let odd = a.symmetric_difference(&b);
    assert_eq!(odd.count(), (100 - 36) + (80 - 36));
    let shared = rect(6, 4, 0, 10);
    for p in odd.into_iter() {
        assert!(!p.intersects(&shared));
    }
    assert!(a.symmetric_difference(&a).into_iter().is_empty());
}

#[test]
fn flat_rectangle_of_any_length_counts_nothing() {
    let flat = Rectangle::new(Point::new(i64::MIN, 0), Point::new(i64::MAX, 0));
    assert!(flat.is_empty());
    assert_eq!(flat.count(), 0);
}

#[test]
fn union_is_empty_only_where_both_are() {
    let flat = Rectangle::new(Point::new(0, 3), Point::new(8, 3));
    let dot = Rectangle::new(Point::new(1, 1), Point::new(1, 1));
    let a = rect(10, 0, 0, 10);
    assert!(flat.union(&dot).is_empty());
    assert!(dot.union(&dot).is_empty());
    assert!(!flat.union(&a).is_empty());
    assert!(!a.union(&flat).is_empty());
    assert!(!a.union(&a).is_empty());
    assert_eq!(flat.union(&a).count(), 100);
    assert_eq!(a.union(&flat).count(), 100);
}

#[test]
fn difference_pieces_are_the_four_strips() {
    let a = rect(10, 0, 0, 10);
    let b = rect(8, 2, 2, 8);
    let mut pieces = a.difference(&b).into_iter();
    pieces.sort_by_key(|p| (p.count(), p.contains(&rect(10, 0, 9, 1)), p.contains(&rect(5, 0, 4, 1))));
    assert_eq!(
        pieces,
        vec![rect(8, 8, 2, 10), rect(8, 0, 2, 2), rect(2, 0, 0, 10), rect(10, 0, 8, 10)]
    );
}

#[test]
fn difference_drops_strips_without_extent() {
    let a = rect(10, 0, 0, 10);
    let upper_half = rect(10, 0, 5, 10);
    assert_eq!(a.difference(&upper_half).into_iter(), vec![rect(5, 0, 0, 10)]);
    let corner = rect(12, 8, 8, 12);
    let mut pieces = a.difference(&corner).into_iter();
    pieces.sort_by_key(|p| p.count());
    assert_eq!(pieces, vec![rect(10, 0, 8, 8), rect(8, 0, 0, 10)]);
    assert_eq!(a.difference(&a).into_iter(), Vec::new());
}

#[test]
fn segment_inside_a_rectangle_cuts_it_in_four() {
    let a = rect(10, 0, 0, 10);
    let segment = Rectangle::new(Point::new(5, 2), Point::new(5, 8));
    assert!(a.intersects(&segment));
    assert!(a.intersection(&segment).is_none());
    let rest = a.difference(&segment);
    assert_eq!(rest.into_iter().len(), 4);
    assert_eq!(rest.count(), 100);
    assert!(segment.difference(&a).into_iter().is_empty());
}
