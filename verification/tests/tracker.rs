use double_fetch::memory_tracking::MemoryTracker;
use double_fetch::span::Span;

fn tracker_of(ranges: &[(usize, usize)]) -> MemoryTracker {
    let mut t = MemoryTracker::default();
    for &(a, sz) in ranges {
        assert!(t.can_track(a, sz));
        t.track_access(a, sz);
    }
    t
}

#[test]
fn merge_adjacent() {
    let mut t = MemoryTracker::default();
    assert!(t.can_track(0x2000, 4));
    t.track_access(0x2000, 4);
    assert!(t.can_track(0x2004, 4));
    t.track_access(0x2004, 4);
    assert_eq!(t.redzones(), vec![(0x2000, 8)]);
}

#[test]
fn merge_adjacent_from_above() {
    let t = tracker_of(&[(0x2004, 4), (0x2000, 4)]);
    assert_eq!(t.redzones(), vec![(0x2000, 8)]);
}

#[test]
fn split() {
    let mut t = tracker_of(&[(0x1000, 0x10)]);
    assert!(t.can_remove(0x1004, 4));
    t.remove_access(0x1004, 4);
    assert_eq!(t.redzones(), vec![(0x1000, 4), (0x1008, 8)]);
    assert_eq!(t.len(), 2);
}

#[test]
fn round_trip_restores_emptiness() {
    let mut t = MemoryTracker::default();
    assert!(t.is_empty());
    t.track_access(0x4141, 8);
    assert!(!t.is_empty());
    assert!(t.can_remove(0x4141, 8));
    t.remove_access(0x4141, 8);
    assert!(t.is_empty());
    assert_eq!(t.len(), 0);
}

#[test]
fn round_trip_of_an_empty_range_leaves_its_span() {
    let mut t = MemoryTracker::default();
    t.track_access(0x4141, 0);
    assert!(t.can_remove(0x4141, 0));
    t.remove_access(0x4141, 0);
    assert_eq!(t.redzones(), vec![(0x4141, 0)]);
}

#[test]
fn apart_inserts_are_counted() {
    let t = tracker_of(&[(0x5000, 4), (0x1000, 8), (0x3000, 1), (0x1009, 2), (0x4ffe, 1)]);
    assert_eq!(t.len(), 5);
    assert_eq!(
        t.redzones(),
        vec![(0x1000, 8), (0x1009, 2), (0x3000, 1), (0x4ffe, 1), (0x5000, 4)]
    );
}

#[test]
fn insert_order_does_not_matter() {
    let pairs: [((usize, usize), (usize, usize)); 5] = [
        ((0x1000, 8), (0x1004, 8)),
        ((0x1000, 8), (0x1008, 8)),
        ((0x1000, 0x10), (0x1004, 4)),
        ((0x1000, 8), (0x1000, 8)),
        ((0x1000, 0), (0x1000, 4)),
    ];
    for (a, b) in pairs {
        let ab = tracker_of(&[a, b]);
        let ba = tracker_of(&[b, a]);
        assert_eq!(ab.redzones(), ba.redzones());
        assert_eq!(ab, ba);
        assert_eq!(ab.len(), 1);
    }
}

#[test]
fn merge_over_several_spans() {
    let t = tracker_of(&[(0x1000, 4), (0x1010, 4), (0x1020, 4), (0x1002, 0x20)]);
    assert_eq!(t.redzones(), vec![(0x1000, 0x24)]);
    let t = tracker_of(&[(0x1000, 4), (0x1010, 4), (0x1020, 4), (0x1008, 0x10)]);
    assert_eq!(t.redzones(), vec![(0x1000, 4), (0x1008, 0x10), (0x1020, 4)]);
    let t = tracker_of(&[(0x1000, 4), (0x1010, 4), (0x1020, 4), (0x1004, 0xc)]);
    assert_eq!(t.redzones(), vec![(0x1000, 0x14), (0x1020, 4)]);
}

#[test]
fn a_span_that_covers_the_range_stays() {
    let t = tracker_of(&[(0x1000, 0x10), (0x1004, 4)]);
    assert_eq!(t.redzones(), vec![(0x1000, 0x10)]);
}

#[test]
fn shared_edge_inside_the_range_is_refused() {
    let t = tracker_of(&[(0x1000, 4)]);
    assert!(!t.can_track(0x1000, 8));
    assert!(!t.can_track(0xffc, 8));
    assert!(t.can_track(0xffc, 9));
    assert!(t.can_track(0x1000, 4));
    assert!(t.can_track(0x1000, 2));
}

#[test]
fn removal_by_relation() {
    let mut t = tracker_of(&[(0x1000, 0x10)]);
    assert!(t.can_remove(0xff8, 0x10));
    t.remove_access(0xff8, 0x10);
    assert_eq!(t.redzones(), vec![(0x1008, 8)]);

    let mut t = tracker_of(&[(0x1000, 0x10)]);
    assert!(t.can_remove(0x1008, 0x10));
    t.remove_access(0x1008, 0x10);
    assert_eq!(t.redzones(), vec![(0x1000, 8)]);

    let mut t = tracker_of(&[(0x1000, 0x10)]);
    assert!(t.can_remove(0xff0, 0x100));
    t.remove_access(0xff0, 0x100);
    assert!(t.is_empty());

    let mut t = tracker_of(&[(0x1000, 4), (0x1008, 4), (0x1010, 4), (0x1018, 4)]);
    assert!(t.can_remove(0x1002, 0x10));
    t.remove_access(0x1002, 0x10);
    assert_eq!(t.redzones(), vec![(0x1000, 2), (0x1012, 2), (0x1018, 4)]);
}

#[test]
fn removal_that_shares_one_edge_with_a_longer_span_is_refused() {
    let t = tracker_of(&[(0x1000, 0x10)]);
    assert!(!t.can_remove(0x1000, 4));
    assert!(!t.can_remove(0x100c, 4));
    assert!(t.can_remove(0x1000, 0x10));
    assert!(t.can_remove(0x1000, 0x11));
    assert!(t.can_remove(0x2000, 4));
}

#[test]
fn removal_of_an_untouched_range_changes_nothing() {
    let mut t = tracker_of(&[(0x1000, 4), (0x2000, 4)]);
    t.remove_access(0x1004, 0xffc);
    assert_eq!(t.redzones(), vec![(0x1000, 4), (0x2000, 4)]);
}

#[test]
fn check_reports_the_highest_overlap() {
    let mut t = tracker_of(&[(0x4141, 8)]);
    t.remove_access(0x4143, 4);
    assert_eq!(t.redzones(), vec![(0x4141, 2), (0x4147, 2)]);
    assert_eq!(t.check(0x4141, 8), Err(0x4147));
    assert_eq!(t.check(0x4141, 2), Err(0x4141));
    assert_eq!(t.check(0x4142, 1), Err(0x4141));
}

#[test]
fn check_passes_apart_from_every_span() {
    let t = tracker_of(&[(0x4141, 8), (0x5151, 8)]);
    assert_eq!(t.check(0x5159, 1), Ok(()));
    assert_eq!(t.check(0x4149, 0x1008), Ok(()));
    assert_eq!(t.check(0, 0x4141), Ok(()));
    assert_eq!(t.check(0x4141, 0), Ok(()));
    assert_eq!(t.check(0x4149, 0), Ok(()));
    assert_eq!(t.check(0x4144, 0), Err(0x4141));
    assert_eq!(t.check(0x4144, 1), Err(0x4141));
    assert_eq!(t.check(0, usize::MAX), Err(0x5151));
    assert_eq!(MemoryTracker::default().check(0, usize::MAX), Ok(()));
}

#[test]
fn lookup_range_runs_downwards() {
    let t = tracker_of(&[(0x1000, 4), (0x1008, 4), (0x1010, 4), (0x1018, 4)]);
    assert_eq!(
        t.lookup_range(0x1003, 0x0e),
        vec![Span::new(0x1010, 0x1014), Span::new(0x1008, 0x100c), Span::new(0x1000, 0x1004)]
    );
    assert_eq!(t.lookup_range(0x1004, 4), Vec::<Span>::new());
    assert_eq!(t.lookup_range(0x1019, usize::MAX), vec![Span::new(0x1018, 0x101c)]);
}

#[test]
fn redzones_are_in_ascending_order() {
    let t = tracker_of(&[(0x5151, 8), (0x4141, 8)]);
    let zones = t.redzones();
    let mut it = zones.iter();
    assert_eq!(it.next(), Some(&(0x4141, 8)));
    assert_eq!(it.next(), Some(&(0x5151, 8)));
    assert_eq!(it.next(), None);
    assert_eq!(t.redzones(), zones);
}

#[test]
fn clear_forgets_everything() {
    let mut t = tracker_of(&[(0x4141, 8), (0x5151, 8)]);
    assert!(t.check(0x4144, 1).is_err());
    t.clear();
    assert!(t.check(0x4144, 1).is_ok());
    assert!(t.is_empty());
    assert_eq!(t.redzones(), vec![]);
}

#[test]
fn ranges_are_cut_off_at_the_highest_address() {
    let t = tracker_of(&[(usize::MAX - 3, 10)]);
    assert_eq!(t.redzones(), vec![(usize::MAX - 3, 3)]);
    let t = tracker_of(&[(usize::MAX - 8, 4), (usize::MAX - 4, usize::MAX)]);
    assert_eq!(t.redzones(), vec![(usize::MAX - 8, 8)]);
    let t = tracker_of(&[(0, 4), (4, 4)]);
    assert_eq!(t.redzones(), vec![(0, 8)]);
    let t = tracker_of(&[(usize::MAX, 1), (usize::MAX - 4, 4)]);
    assert_eq!(t.redzones(), vec![(usize::MAX - 4, 4)]);
}

#[test]
fn a_clone_holds_the_same_spans() {
    let t = tracker_of(&[(0x4141, 8), (0x5151, 8)]);
    let c = t.clone();
    assert_eq!(c, t);
    assert_eq!(c.redzones(), vec![(0x4141, 8), (0x5151, 8)]);
}
