//! The slice register: applying values over lane groups and reading the
//! surviving sub-spans back.

use qcs_core::span::{GateSliceView, Span};
use qcs_core::utils::{MultipleSpan, SpanRegister};

#[test]
fn span_test_span_register() {
    let mut register: GateSliceView<i32> = GateSliceView::new();
    register.apply(Span::range(0..5), 1);
    register.apply(Span::range(1..2), 2);
    register.apply(Span::range(0..1), 3);

    assert!(register.spans.contains(&(Span::range(0..1), 3)));
    assert!(register.spans.contains(&(Span::range(1..2), 2)));
    assert!(register.spans.contains(&(Span::range(2..5), 1)));

    let res = register.get(&Span::range(1..3));
    assert_eq!(res.len(), 2);
    assert!(res.contains(&(Span::range(1..2), 2)));
    assert!(res.contains(&(Span::range(2..3), 1)));
}

#[test]
fn utils_test_span_register() {
    let mut register: SpanRegister<i32> = SpanRegister::new();
    register.apply(MultipleSpan::range(0..5), 1);
    register.apply(MultipleSpan::range(1..2), 2);
    register.apply(MultipleSpan::range(0..1), 3);

    let entries = register.entries();
    assert!(entries.contains(&(MultipleSpan::range(0..1), 3)));
    assert!(entries.contains(&(MultipleSpan::range(1..2), 2)));
    assert!(entries.contains(&(MultipleSpan::range(2..5), 1)));

    let res = register.get(&MultipleSpan::range(1..3));
    assert_eq!(res.len(), 2);
    assert!(res.contains(&(MultipleSpan::range(1..2), 2)));
    assert!(res.contains(&(MultipleSpan::range(2..3), 1)));
}

/// Overwriting a span with itself leaves exactly one entry for it.
#[test]
fn apply_is_idempotent() {
    let mut register: GateSliceView<i32> = GateSliceView::new();
    register.apply(Span::range(2..6), 7);
    register.apply(Span::range(2..6), 7);

    let res = register.get(&Span::range(0..8));
    assert_eq!(res.len(), 1);
    assert!(res.contains(&(Span::range(2..6), 7)));
}

/// Applying a sparse span records its whole filled interval.
#[test]
fn apply_records_filled_interval() {
    let mut register: GateSliceView<i32> = GateSliceView::new();
    register.apply(Span::new(vec![0, 5]), 1);
    register.apply(Span::range(1..2), 2);

    let res = register.get(&Span::range(1..3));
    assert_eq!(res.len(), 2);
    assert!(res.contains(&(Span::range(1..2), 2)));
    assert!(res.contains(&(Span::range(2..3), 1)));
}
