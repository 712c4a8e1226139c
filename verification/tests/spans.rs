//! The span algebra: canonical construction, joins, exclusion and the
//! filled-interval closure.

use qcs_core::span::Span;

#[test]
fn new_sorts_and_dedups() {
    let s = Span::new(vec![3, 1, 3, 0]);
    assert_eq!(s, Span::new(vec![0, 1, 3]));
    assert_eq!(s.span_len(), 3);
    assert_eq!(s.start(), 0);
    assert_eq!(s.end(), 3);
}

#[test]
fn full_join_merges_without_duplicates() {
    let a = Span::new(vec![0, 1, 2, 3]);
    let b = Span::new(vec![2, 3, 4, 5]);
    assert_eq!(a.full_join(&b), Span::new(vec![0, 1, 2, 3, 4, 5]));
}

#[test]
fn inner_join_intersects() {
    let a = Span::new(vec![0, 1, 2, 3]);
    let b = Span::new(vec![2, 3, 4, 5]);
    assert_eq!(a.inner_join(&b).unwrap(), Span::new(vec![2, 3]));
    let c = Span::new(vec![7, 9]);
    assert!(a.inner_join(&c).is_none());
}

#[test]
fn exclude_subtracts() {
    let a = Span::new(vec![0, 1, 2, 3]);
    let b = Span::new(vec![2, 3, 4, 5]);
    assert_eq!(a.clone().exclude(&b).unwrap(), Span::new(vec![0, 1]));
}

/// Filling is idempotent on concrete spans.
#[test]
fn filled_is_idempotent() {
    let s = Span::new(vec![0, 3]);
    let f = s.filled();
    assert_eq!(f, Span::new(vec![0, 1, 2, 3]));
    assert_eq!(f.filled(), f);
}

/// Joining with the empty span returns the span unchanged.
#[test]
fn union_with_empty_is_identity() {
    let s = Span::new(vec![1, 4, 6]);
    let empty = Span::new(vec![]);
    assert_eq!(s.full_join(&empty), s);
    assert_eq!(empty.full_join(&s), s);
}

/// Intersecting a span with itself returns it unchanged.
#[test]
fn intersection_with_self_is_identity() {
    let s = Span::new(vec![1, 4, 6]);
    assert_eq!(s.inner_join(&s).unwrap(), s);
}

/// Excluding a span from itself leaves nothing.
#[test]
fn exclude_self_is_empty() {
    let s = Span::new(vec![1, 4, 6]);
    assert!(s.clone().exclude(&s).is_none());
}

#[test]
fn contains_reports_membership() {
    let s = Span::new(vec![1, 4, 6]);
    assert!(s.contains(4));
    assert!(!s.contains(5));
}

#[test]
fn range_constructors() {
    assert_eq!(Span::range(2..5), Span::new(vec![2, 3, 4]));
    assert_eq!(Span::range_in(2..=5), Span::new(vec![2, 3, 4, 5]));
    assert_eq!(Span::single(7), Span::new(vec![7]));
}
