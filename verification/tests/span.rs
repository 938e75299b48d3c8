use double_fetch::span::{Span, SpanRelation};

#[test]
fn it_works() {
    assert_eq!(2 + 2, 4);
}

#[test]
fn with_len() {
    let a = Span::new(0x4141, 0x4142);
    let b = Span::with_len(0x4141, 1);

    assert_eq!(a, b);
}

#[test]
fn start() {
    let s = Span::new(0x4141, 0x4242);

    assert_eq!(s.start(), 0x4141);
}

#[test]
fn end() {
    let s = Span::new(0x4141, 0x4242);

    assert_eq!(s.end(), 0x4242);
}

#[test]
fn ord() {
    let a = Span::new(0x4040, 0x4141);
    let b = Span::new(0x4141, 0x4242);

    assert!(a < b);
    assert!(b > a);
}

#[test]
fn len() {
    assert_eq!(Span::new(0x4141, 0x4242).len(), 0x4242 - 0x4141);
}

#[test]
fn break_engulf() {
    let a = Span::new(0, 0xffff);
    let b = Span::new(0x4141, 0x4242);

    assert_eq!(a.relation(&b), SpanRelation::Break);
    assert_eq!(b.relation(&a), SpanRelation::Engulf);
}

#[test]
fn adjacent() {
    let a = Span::new(0x4040, 0x4141);
    let b = Span::new(0x4141, 0x4242);

    assert_eq!(a.relation(&b), SpanRelation::AdjacentEnd);
    assert_eq!(b.relation(&a), SpanRelation::AdjacentStart);
}

#[test]
fn overlap() {
    let a = Span::new(0x4040, 0x4141 + 1);
    let b = Span::new(0x4141 - 1, 0x4242);

    assert_eq!(a.relation(&b), SpanRelation::OverlapEnd);
    assert_eq!(b.relation(&a), SpanRelation::OverlapStart);
}

#[test]
fn na() {
    let a = Span::new(0x4141, 0x4242);
    let b = Span::new(0x5151, 0x5252);

    assert_eq!(a.relation(&b), SpanRelation::Disjoint);
    assert_eq!(b.relation(&a), SpanRelation::Disjoint);
}

#[test]
fn with_len_is_cut_off_at_the_highest_address() {
    let s = Span::with_len(usize::MAX - 1, 5);
    assert_eq!(s.start(), usize::MAX - 1);
    assert_eq!(s.end(), usize::MAX);
    assert_eq!(s.len(), 1);
    assert_eq!(Span::with_len(7, 0), Span::new(7, 7));
}

#[test]
fn relation_takes_the_first_rule_that_matches() {
    let r = Span::new(0x10, 0x20);
    assert_eq!(r.relation(&Span::new(0x10, 0x20)), SpanRelation::Engulf);
    assert_eq!(r.relation(&Span::new(0x00, 0x30)), SpanRelation::Engulf);
    assert_eq!(r.relation(&Span::new(0x00, 0x10)), SpanRelation::AdjacentStart);
    assert_eq!(r.relation(&Span::new(0x20, 0x30)), SpanRelation::AdjacentEnd);
    assert_eq!(r.relation(&Span::new(0x00, 0x11)), SpanRelation::OverlapStart);
    assert_eq!(r.relation(&Span::new(0x1f, 0x30)), SpanRelation::OverlapEnd);
    assert_eq!(r.relation(&Span::new(0x11, 0x1f)), SpanRelation::Break);
    assert_eq!(r.relation(&Span::new(0x10, 0x1f)), SpanRelation::Disjoint);
    assert_eq!(r.relation(&Span::new(0x11, 0x20)), SpanRelation::Disjoint);
    assert_eq!(r.relation(&Span::new(0x21, 0x30)), SpanRelation::Disjoint);
    assert_eq!(r.relation(&Span::new(0x10, 0x10)), SpanRelation::AdjacentStart);
    assert_eq!(r.relation(&Span::new(0x20, 0x20)), SpanRelation::AdjacentEnd);
    let point = Span::new(0x10, 0x10);
    assert_eq!(point.relation(&Span::new(0x10, 0x10)), SpanRelation::Engulf);
    assert_eq!(point.relation(&Span::new(0x10, 0x20)), SpanRelation::Engulf);
}

#[test]
fn order_goes_by_start_alone() {
    let a = Span::new(0x4040, 0x5000);
    let b = Span::new(0x4040, 0x4141);
    assert!(!(a < b));
    assert!(!(a > b));
    assert!(a <= b);
    assert!(a >= b);
    assert_ne!(a, b);
    assert_eq!(a.partial_cmp(&b), Some(std::cmp::Ordering::Equal));
}
