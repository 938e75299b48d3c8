use double_fetch::detector::{
    asan_register_shmat, asan_remember_shm_id, fault_injection, injected, Detector, Verdict,
};
use double_fetch::span::Span;

fn ready() -> Detector {
    let mut d = Detector::new();
    assert!(!d.is_initialized());
    d.initialize();
    assert!(d.is_initialized());
    d
}

#[test]
fn end_to_end() {
    let mut d = ready();
    d.watch_region(0x9000, 0x100);
    assert_eq!(d.lookup(0x9010, 4), Some(0));

    assert!(d.admits(0x9010, 4, false));
    assert_eq!(d.classify(0x9010, 4, false), Verdict::Marked);
    assert_eq!(d.tracker(0).redzones(), vec![(0x9010, 4)]);

    assert_eq!(d.classify(0x9010, 4, false), Verdict::DoubleFetch(0x9010));
    assert_eq!(d.tracker(0).redzones(), vec![(0x9010, 4)]);
    let noise = injected(true, 4);
    assert_eq!(noise.map(|bytes| bytes.len()), Some(4));
    assert_eq!(injected(false, 4), None);

    assert_eq!(d.classify(0x9020, 4, false), Verdict::Marked);
    assert_eq!(d.tracker(0).redzones(), vec![(0x9010, 4), (0x9020, 4)]);
}

#[test]
fn check_access_overwrites_only_a_double_fetch() {
    let mut d = ready();
    d.watch_region(0x9000, 0x100);
    assert_eq!(d.check_access(0x9010, 4, false), (Verdict::Marked, None));
    for _ in 0..64 {
        let (verdict, noise) = d.check_access(0x9012, 8, false);
        assert_eq!(verdict, Verdict::DoubleFetch(0x9010));
        assert!(!verdict.fault());
        if let Some(bytes) = noise {
            assert_eq!(bytes.len(), 8);
        }
    }
    assert_eq!(d.check_access(0x8000, 4, false), (Verdict::Unwatched, None));
    assert_eq!(d.tracker(0).redzones(), vec![(0x9010, 4)]);
}

#[test]
fn the_signal_is_always_no_fault() {
    assert!(!Verdict::Unwatched.fault());
    assert!(!Verdict::Marked.fault());
    assert!(!Verdict::DoubleFetch(0x9010).fault());
}

#[test]
fn a_write_marks_the_range_as_read() {
    let mut d = ready();
    d.watch_region(0x9000, 0x100);
    assert_eq!(d.classify(0x9010, 4, true), Verdict::Marked);
    assert_eq!(d.classify(0x9010, 4, false), Verdict::DoubleFetch(0x9010));
    assert!(d.admits(0x9010, 4, true));
    assert_eq!(d.classify(0x9010, 4, true), Verdict::Marked);
    assert!(d.admits(0x900c, 0x10, true));
    assert_eq!(d.classify(0x900c, 0x10, true), Verdict::Marked);
    assert_eq!(d.tracker(0).redzones(), vec![(0x900c, 0x10)]);
    assert_eq!(d.classify(0x901b, 2, false), Verdict::DoubleFetch(0x900c));
}

#[test]
fn a_write_that_cannot_be_merged_is_not_admitted() {
    let mut d = ready();
    d.watch_region(0x9000, 0x100);
    assert_eq!(d.classify(0x9010, 4, false), Verdict::Marked);
    assert!(!d.admits(0x9010, 8, true));
    assert!(d.admits(0x9010, 8, false));
    assert_eq!(d.classify(0x9010, 8, false), Verdict::DoubleFetch(0x9010));
    assert!(d.admits(0x7010, 8, true));
}

#[test]
fn unwatched_memory_is_not_checked() {
    let mut d = ready();
    assert_eq!(d.lookup(0x9010, 4), None);
    assert_eq!(d.classify(0x9010, 4, false), Verdict::Unwatched);
    assert_eq!(d.classify(0x9010, 4, false), Verdict::Unwatched);
    assert_eq!(d.classify(0x9010, 4, true), Verdict::Unwatched);
    d.watch_region(0x9000, 0x100);
    assert_eq!(d.classify(0x9102, 4, false), Verdict::Unwatched);
    assert_eq!(d.classify(0x8000, 4, false), Verdict::Unwatched);
    assert!(d.tracker(0).is_empty());
}

#[test]
fn unwatch_forgets_the_region() {
    let mut d = ready();
    d.watch_region(0x9000, 0x100);
    d.watch_region(0xa000, 0x100);
    assert_eq!(d.classify(0x9010, 4, false), Verdict::Marked);
    assert_eq!(d.classify(0xa010, 4, false), Verdict::Marked);
    assert!(d.unwatch_region(0x9080));
    assert_eq!(d.len(), 1);
    assert_eq!(d.region(0), Span::new(0xa000, 0xa100));
    assert_eq!(d.lookup(0x9010, 4), None);
    assert_eq!(d.classify(0x9010, 4, false), Verdict::Unwatched);
    assert_eq!(d.classify(0xa010, 4, false), Verdict::DoubleFetch(0xa010));
    assert!(!d.unwatch_region(0x9080));
    assert_eq!(d.len(), 1);
    d.watch_region(0x9000, 0x100);
    assert_eq!(d.classify(0x9010, 4, false), Verdict::Marked);
}

#[test]
fn unwatch_takes_the_first_related_region() {
    let mut d = ready();
    d.watch_region(0x9000, 0x100);
    d.watch_region(0x9100, 0x100);
    assert!(d.unwatch_region(0x9100));
    assert_eq!(d.len(), 1);
    assert_eq!(d.region(0), Span::new(0x9100, 0x9200));
    assert!(d.unwatch_region(0x90ff));
    assert_eq!(d.len(), 0);
}

#[test]
fn lookup_needs_a_relation_not_containment() {
    let mut d = ready();
    d.watch_region(0x9000, 0x100);
    d.watch_region(0xa000, 0x100);
    assert_eq!(d.lookup(0x8ff0, 0x20), Some(0));
    assert_eq!(d.lookup(0x90f0, 0x20), Some(0));
    assert_eq!(d.lookup(0x8000, 0x4000), Some(0));
    assert_eq!(d.lookup(0x8ff0, 0x10), Some(0));
    assert_eq!(d.lookup(0x9100, 0x10), Some(0));
    assert_eq!(d.lookup(0x9000, 0x200), None);
    assert_eq!(d.lookup(0x8f00, 0x200), None);
    assert_eq!(d.lookup(0xa010, 1), Some(1));
    assert_eq!(d.lookup(0x9800, 1), None);
}

#[test]
fn initialize_starts_with_nothing() {
    let d = ready();
    assert_eq!(d.len(), 0);
}

#[test]
fn an_attached_segment_is_watched() {
    let mut d = ready();
    asan_remember_shm_id(&mut d, 7, 0x100);
    asan_remember_shm_id(&mut d, 9, 0x40);
    asan_remember_shm_id(&mut d, 7, 0x200);
    assert_eq!(d.len(), 0);
    assert_eq!(asan_register_shmat(&mut d, 8, 0x9000), None);
    assert_eq!(d.len(), 0);
    assert_eq!(asan_register_shmat(&mut d, 7, 0x9000), Some(0x100));
    assert_eq!(d.len(), 1);
    assert_eq!(d.region(0), Span::new(0x9000, 0x9100));
    assert!(d.tracker(0).is_empty());
    assert_eq!(asan_register_shmat(&mut d, 7, 0xa000), Some(0x200));
    assert_eq!(d.region(1), Span::new(0xa000, 0xa200));
    assert_eq!(asan_register_shmat(&mut d, 7, 0xb000), None);
    assert_eq!(asan_register_shmat(&mut d, 9, 0xb000), Some(0x40));
    assert_eq!(d.len(), 3);
}

#[test]
fn injection_hands_out_as_many_bytes_as_were_fetched() {
    assert_eq!(injected(true, 0), Some(vec![]));
    assert_eq!(injected(true, 16).map(|bytes| bytes.len()), Some(16));
    assert_eq!(injected(false, 16), None);
    let mut some = 0;
    for _ in 0..200 {
        if let Some(bytes) = fault_injection(3) {
            assert_eq!(bytes.len(), 3);
            some += 1;
        }
    }
    assert!(0 < some && some < 200);
}

#[test]
fn random_bytes_vary() {
    let a = injected(true, 64);
    let b = injected(true, 64);
    assert_ne!(a, b);
}
