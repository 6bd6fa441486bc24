use rangelike::range_set::RangeSet;
use rangelike::rectangle::Rectangle;
use rangelike::{Point, Rangelike};

fn rect(top: i64, left: i64, bottom: i64, right: i64) -> Rectangle {
    Rectangle::from_tlbr(top, left, bottom, right).unwrap()
}

fn square() -> Rectangle {
    rect(10, 0, 0, 10)
}

fn right_low() -> Rectangle {
    rect(6, 4, -2, 14)
}

fn left_high() -> Rectangle {
    rect(12, -2, 8, 2)
}

fn keeps_apart(set: &RangeSet) -> bool {
    let items = set.into_iter();
    for (i, p) in items.iter().enumerate() {
        for (j, q) in items.iter().enumerate() {
            if i != j && p.intersects(q) {
                return false;
            }
        }
    }
    true
}

#[test]
fn new_set_has_no_members() {
    let set = RangeSet::new();
    assert!(set.into_iter().is_empty());
    assert!(set.is_empty());
    assert_eq!(set.count(), 0);
}

#[test]
fn default_set_has_no_members() {
    let set = RangeSet::default();
    assert!(set.into_iter().is_empty());
    assert_eq!(set.count(), 0);
}

#[test]
fn from_iter_keeps_each_rectangle_once() {
    let set = RangeSet::from_iter(vec![square(), right_low(), square(), square()]);
    let items = set.into_iter();
    assert_eq!(items.len(), 2);
    assert!(items.contains(&square()));
    assert!(items.contains(&right_low()));
}

#[test]
fn from_iter_of_nothing_is_the_new_set() {
    let set = RangeSet::from_iter(Vec::new());
    assert!(set.into_iter().is_empty());
}

#[test]
fn into_iter_gives_back_what_went_in() {
    let mut want = vec![rect(1, 0, 0, 1), rect(2, 1, 1, 2), rect(3, 2, 2, 3), rect(-1, -2, -3, -1)];
    let set = RangeSet::from_iter(want.clone());
    let mut got = set.into_iter();
    assert_eq!(got.len(), 4);
    while let Some(r) = want.pop() {
        let at = got.iter().position(|g| *g == r).unwrap();
        got.remove(at);
    }
    assert!(got.is_empty());
}

#[test]
fn set_of_degenerate_members_is_empty() {
    let flat = Rectangle::new(Point::new(0, 3), Point::new(8, 3));
    let dot = Rectangle::new(Point::new(1, 1), Point::new(1, 1));
    let set = RangeSet::from_iter(vec![flat, dot]);
    assert_eq!(set.into_iter().len(), 2);
    assert!(set.is_empty());
    assert_eq!(set.count(), 0);
    let mixed = RangeSet::from_iter(vec![flat, square()]);
    assert!(!mixed.is_empty());
    assert_eq!(mixed.count(), 100);
}

#[test]
fn count_adds_up_the_members() {
    let set = RangeSet::from_iter(vec![rect(1, 0, 0, 1), rect(2, 5, 0, 8), rect(10, 10, 0, 20)]);
    assert_eq!(set.count(), 1 + 6 + 100);
}

#[test]
fn count_takes_overlapping_members_twice() {
    let set = RangeSet::from_iter(vec![square(), right_low()]);
    assert_eq!(set.count(), 100 + 80);
}

#[test]
fn sets_intersect_where_some_pair_does() {
    let ours = RangeSet::from_iter(vec![rect(1, 0, 0, 1), square()]);
    let theirs = RangeSet::from_iter(vec![rect(30, 30, 20, 40), right_low()]);
    assert!(ours.intersects(&theirs));
    assert!(theirs.intersects(&ours));
    let far = RangeSet::from_iter(vec![rect(30, 30, 20, 40), rect(10, 10, 0, 20)]);
    assert!(!ours.intersects(&far));
    assert!(!ours.intersects(&RangeSet::new()));
    assert!(!RangeSet::new().intersects(&ours));
}

#[test]
fn intersects_agrees_with_intersection() {
    let ours = RangeSet::from_iter(vec![square()]);
    let near = RangeSet::from_iter(vec![right_low(), left_high()]);
    let far = RangeSet::from_iter(vec![rect(10, 10, 0, 20)]);
    assert_eq!(ours.intersects(&near), ours.intersection(&near).is_some());
    assert_eq!(ours.intersects(&far), ours.intersection(&far).is_some());
    assert!(ours.intersection(&far).is_none());
}

#[test]
fn intersection_holds_every_pairwise_overlap() {
    let ours = RangeSet::from_iter(vec![square()]);
    let theirs = RangeSet::from_iter(vec![right_low(), left_high(), rect(30, 30, 20, 40)]);
    let shared = ours.intersection(&theirs).unwrap();
    let items = shared.into_iter();
    assert_eq!(items.len(), 2);
    assert!(items.contains(&rect(6, 4, 0, 10)));
    assert!(items.contains(&rect(10, 0, 8, 2)));
    assert_eq!(shared.count(), 36 + 4);
    let back = theirs.intersection(&ours).unwrap();
    assert_eq!(back.count(), 40);
}

#[test]
fn contains_goes_by_the_region() {
    let whole = RangeSet::from_iter(vec![square()]);
    let halves = RangeSet::from_iter(vec![rect(10, 0, 0, 5), rect(10, 5, 0, 10)]);
    assert!(whole.contains(&halves));
    assert!(halves.contains(&whole));
    assert!(whole.contains(&RangeSet::from_iter(vec![rect(5, 1, 1, 5)])));
    assert!(!whole.contains(&RangeSet::from_iter(vec![rect(5, 1, 1, 5), right_low()])));
    assert!(whole.contains(&RangeSet::new()));
    assert!(!RangeSet::new().contains(&whole));
    assert!(RangeSet::new().contains(&RangeSet::new()));
    let straddling = RangeSet::from_iter(vec![rect(8, 3, 2, 7)]);
    assert!(halves.contains(&straddling));
    let gap = RangeSet::from_iter(vec![rect(10, 0, 0, 4), rect(10, 5, 0, 10)]);
    assert!(!gap.contains(&straddling));
}

#[test]
fn difference_cuts_every_member_of_the_other_away() {
    let ours = RangeSet::from_iter(vec![square()]);
    let theirs = RangeSet::from_iter(vec![right_low(), left_high()]);
    let rest = ours.difference(&theirs);
    assert_eq!(rest.count(), 100 - 36 - 4);
    assert!(keeps_apart(&rest));
    for p in rest.into_iter() {
        assert!(square().contains(&p));
        assert!(!p.intersects(&right_low()));
        assert!(!p.intersects(&left_high()));
    }
    assert!(!rest.intersects(&theirs));
    assert!(ours.contains(&rest));
}

#[test]
fn difference_with_nothing_changes_nothing() {
    let ours = RangeSet::from_iter(vec![square(), rect(30, 30, 20, 40)]);
    let rest = ours.difference(&RangeSet::new());
    let items = rest.into_iter();
    assert_eq!(items.len(), 2);
    assert!(items.contains(&square()));
    assert!(items.contains(&rect(30, 30, 20, 40)));
    assert!(RangeSet::new().difference(&ours).into_iter().is_empty());
    assert!(ours.difference(&ours).into_iter().is_empty());
}

#[test]
fn union_adds_what_the_left_set_lacks() {
    let ours = RangeSet::from_iter(vec![square()]);
    let theirs = RangeSet::from_iter(vec![right_low(), left_high()]);
    let all = ours.union(&theirs);
    assert_eq!(all.count(), 100 + (80 - 36) + (16 - 4));
    assert!(all.into_iter().contains(&square()));
    assert!(keeps_apart(&all));
    assert!(all.contains(&ours));
    assert!(all.contains(&theirs));
    let back = theirs.union(&ours);
    assert_eq!(back.count(), 156);
    assert!(back.into_iter().contains(&right_low()));
    assert!(back.into_iter().contains(&left_high()));
    assert!(keeps_apart(&back));
}

#[test]
fn union_untangles_members_that_overlap_each_other() {
    let ours = RangeSet::new();
    let theirs = RangeSet::from_iter(vec![square(), right_low()]);
    let all = ours.union(&theirs);
    assert_eq!(all.count(), 100 + 80 - 36);
    assert!(keeps_apart(&all));
    assert!(all.contains(&theirs));
    assert!(theirs.contains(&all));
}

#[test]
fn symmetric_difference_of_sets() {
    let ours = RangeSet::from_iter(vec![square()]);
    let theirs = RangeSet::from_iter(vec![right_low(), left_high()]);
    let odd = ours.symmetric_difference(&theirs);
    assert_eq!(odd.count(), 60 + (80 - 36) + (16 - 4));
    assert!(keeps_apart(&odd));
    let shared = ours.intersection(&theirs).unwrap();
    assert!(!odd.intersects(&shared));
    assert!(ours.symmetric_difference(&ours).into_iter().is_empty());
}
