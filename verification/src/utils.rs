//! Interval spans and a span register over them: a compact companion to
//! the span algebra for callers that track contiguous lane ranges.

use vstd::prelude::*;
use crate::span::GateSliceView;
use crate::span::Span;

verus! {

/// A contiguous half-open range of lanes.
#[derive(Clone, Copy, PartialEq, Eq, Structural, Debug)]
pub struct GateSpan {
    pub lo: usize,
    pub hi: usize,
}

impl GateSpan {
    /// Holds when the range is non-empty.
    pub open spec fn wf(&self) -> bool {
        self.lo < self.hi
    }

    /// Creates the range of a single lane.
    pub fn single(lane: usize) -> (r: Self)
        requires
            lane < usize::MAX,
        ensures
            r.wf(),
            r.lo == lane,
            r.hi == lane + 1,
    {
        Self { lo: lane, hi: lane + 1 }
    }

    /// Creates a range of lanes.
    pub fn range(range: core::ops::Range<usize>) -> (r: Self)
        ensures
            r.lo == range.start,
            r.hi == range.end,
    {
        Self { lo: range.start, hi: range.end }
    }

    /// Returns the first lane of the range.
    pub fn start(&self) -> (r: usize)
        ensures
            r == self.lo,
    {
        self.lo
    }

    /// Returns the end of the range, one past its last lane.
    pub fn end(&self) -> (r: usize)
        ensures
            r == self.hi,
    {
        self.hi
    }

    /// Returns the number of lanes in the range.
    pub fn span_len(&self) -> (r: usize)
        requires
            self.lo <= self.hi,
        ensures
            r == self.hi - self.lo,
    {
        self.hi - self.lo
    }

    /// Returns the smallest range covering both ranges.
    pub fn full_join(&self, other: &Self) -> (r: Self)
        ensures
            r.lo == if self.lo <= other.lo {
                self.lo
            } else {
                other.lo
            },
            r.hi == if self.hi >= other.hi {
                self.hi
            } else {
                other.hi
            },
    {
        let lo = if self.lo <= other.lo {
            self.lo
        } else {
            other.lo
        };
        let hi = if self.hi >= other.hi {
            self.hi
        } else {
            other.hi
        };
        Self { lo, hi }
    }

    /// Returns the overlap of two ranges, or nothing when they are
    /// disjoint.
    pub fn inner_join(&self, other: &Self) -> (r: Option<Self>)
        ensures
            match r {
                Some(s) => {
                    &&& s.wf()
                    &&& s.lo == if self.lo >= other.lo {
                        self.lo
                    } else {
                        other.lo
                    }
                    &&& s.hi == if self.hi <= other.hi {
                        self.hi
                    } else {
                        other.hi
                    }
                },
                None => (if self.lo >= other.lo {
                    self.lo
                } else {
                    other.lo
                }) >= (if self.hi <= other.hi {
                    self.hi
                } else {
                    other.hi
                }),
            },
    {
        let lo = if self.lo >= other.lo {
            self.lo
        } else {
            other.lo
        };
        let hi = if self.hi <= other.hi {
            self.hi
        } else {
            other.hi
        };
        if lo < hi {
            Some(Self { lo, hi })
        } else {
            None
        }
    }

    /// Returns the range as a standard half-open range.
    pub fn into_range(self) -> (r: core::ops::Range<usize>)
        ensures
            r.start == self.lo,
            r.end == self.hi,
    {
        self.lo..self.hi
    }
}

/// A sorted set of lanes, not necessarily contiguous.
#[derive(Clone, PartialEq, Eq, Debug)]
pub struct MultipleSpan {
    pub span: Span,
}

impl MultipleSpan {
    /// Holds when the lanes are strictly ascending.
    pub open spec fn wf(&self) -> bool {
        self.span.wf()
    }

    /// Creates a span of a single lane.
    pub fn single(lane: usize) -> (r: Self)
        ensures
            r.wf(),
            r.span@ == seq![lane],
    {
        Self { span: Span::single(lane) }
    }

    /// Creates a span of a contiguous range of lanes.
    pub fn range(range: core::ops::Range<usize>) -> (r: Self)
        ensures
            r.wf(),
            forall|l: usize| r.span@.contains(l) <==> range.start <= l < range.end,
            r.span@.len() == if range.start <= range.end {
                range.end - range.start
            } else {
                0int
            },
    {
        Self { span: Span::range(range) }
    }

    /// Returns the number of lanes in the span.
    pub fn span_len(&self) -> (r: usize)
        ensures
            r == self.span@.len(),
    {
        self.span.span_len()
    }

    /// Returns the least lane of the span.
    pub fn min(&self) -> (r: usize)
        requires
            self.span@.len() > 0,
        ensures
            r == self.span.spec_start(),
    {
        self.span.start()
    }

    /// Returns the greatest lane of the span.
    pub fn max(&self) -> (r: usize)
        requires
            self.span@.len() > 0,
        ensures
            r == self.span.spec_end(),
    {
        self.span.end()
    }

    /// Returns the union of two spans.
    pub fn full_join(&self, other: &Self) -> (r: Self)
        requires
            self.wf(),
            other.wf(),
        ensures
            r.wf(),
            forall|l: usize|
                r.span@.contains(l) <==> (self.span@.contains(l) || other.span@.contains(l)),
    {
        Self { span: self.span.full_join(&other.span) }
    }

    /// Returns the intersection of two spans, or nothing when it is empty.
    pub fn inner_join(&self, other: &Self) -> (r: Option<Self>)
        requires
            self.wf(),
            other.wf(),
        ensures
            match r {
                Some(s) => s.wf() && s.span@.len() > 0 && (forall|l: usize|
                    s.span@.contains(l) <==> (self.span@.contains(l) && other.span@.contains(l))),
                None => forall|l: usize| !(self.span@.contains(l) && other.span@.contains(l)),
            },
    {
        match self.span.inner_join(&other.span) {
            Some(s) => Some(Self { span: s }),
            None => None,
        }
    }

    /// Returns the lanes of this span not covered by the other span, or
    /// nothing when every lane is covered.
    pub fn exclude(self, other: &Self) -> (r: Option<Self>)
        requires
            self.wf(),
            other.wf(),
        ensures
            match r {
                Some(s) => s.wf() && s.span@.len() > 0 && (forall|l: usize|
                    s.span@.contains(l) <==> (self.span@.contains(l) && !other.span@.contains(l))),
                None => forall|l: usize| self.span@.contains(l) ==> other.span@.contains(l),
            },
    {
        match self.span.exclude(&other.span) {
            Some(s) => Some(Self { span: s }),
            None => None,
        }
    }
}

/// A register from lane groups to the most recent writer of each: the
/// interval-flavoured face of the slice register.
pub struct SpanRegister<T> {
    pub inner: GateSliceView<T>,
}

impl<T: Copy> SpanRegister<T> {
    /// Holds when the stored spans are canonical, non-empty and pairwise
    /// disjoint.
    pub open spec fn wf(&self) -> bool {
        self.inner.wf()
    }

    /// The value recorded for a lane, if any.
    pub open spec fn spec_at(&self, l: usize) -> Option<T> {
        self.inner.spec_at(l)
    }

    /// Creates an empty register.
    pub fn new() -> (r: Self)
        ensures
            r.wf(),
            forall|l: usize| r.spec_at(l) is None,
    {
        Self { inner: GateSliceView::new() }
    }

    /// Applies a value to the filled interval of the span, overwriting
    /// every portion of a stored span that the interval covers.
    pub fn apply(&mut self, span: MultipleSpan, value: T)
        requires
            old(self).wf(),
            span.wf(),
            span.span@.len() > 0,
            span.span.spec_end() < usize::MAX,
        ensures
            final(self).wf(),
            final(self).inner.spans@.len() <= old(self).inner.spans@.len() + 1,
            forall|l: usize|
                final(self).spec_at(l) == if span.span.spec_start() <= l
                    <= span.span.spec_end() {
                    Some(value)
                } else {
                    old(self).spec_at(l)
                },
    {
        self.inner.apply(span.span, value);
    }

    /// Returns the stored sub-spans, with their values, that intersect the
    /// given span: one pairwise-disjoint piece per intersected stored
    /// entry, each piece exactly that entry's intersection with the query.
    pub fn get(&self, span: &MultipleSpan) -> (r: Vec<(MultipleSpan, T)>)
        requires
            self.wf(),
            span.wf(),
        ensures
            r@.len() <= self.inner.spans@.len(),
            forall|k: int| 0 <= k < r@.len() ==> (#[trigger] r@[k]).0.span@.len() > 0,
            forall|k: int, l: usize|
                0 <= k < r@.len() && #[trigger] r@[k].0.span@.contains(l) ==> (
                span.span@.contains(l) && self.spec_at(l) == Some(r@[k].1)),
            forall|l: usize|
                span.span@.contains(l) && self.spec_at(l) is Some ==> exists|k: int|
                    0 <= k < r@.len() && #[trigger] r@[k].0.span@.contains(l),
            forall|k1: int, k2: int, l: usize|
                0 <= k1 < k2 < r@.len() ==> !(r@[k1].0.span@.contains(l)
                    && r@[k2].0.span@.contains(l)),
    {
        let pieces = self.inner.get(&span.span);
        proof {
            assert(pieces@.len() <= self.inner.spans@.len());
        }
        let mut out: Vec<(MultipleSpan, T)> = Vec::new();
        let mut i: usize = 0;
        while i < pieces.len()
            invariant
                i <= pieces@.len(),
                out@.len() == i,
                forall|k: int|
                    0 <= k < i ==> (#[trigger] out@[k]).0.span@ == pieces@[k].0@ && out@[k].1
                        == pieces@[k].1,
            decreases pieces@.len() - i,
        {
            let sp = pieces[i].0.clone();
            let v = pieces[i].1;
            out.push((MultipleSpan { span: sp }, v));
            i = i + 1;
        }
        proof {
            assert forall|k: int, l: usize|
                0 <= k < out@.len() && #[trigger] out@[k].0.span@.contains(l) implies (
            span.span@.contains(l) && self.spec_at(l) == Some(out@[k].1)) by {
                assert(pieces@[k].0@.contains(l));
            }
            assert forall|l: usize|
                span.span@.contains(l) && self.spec_at(l) is Some implies exists|k: int|
                0 <= k < out@.len() && #[trigger] out@[k].0.span@.contains(l) by {
                let k = choose|k: int| 0 <= k < pieces@.len() && #[trigger] pieces@[k].0@.contains(
                    l,
                );
                assert(out@[k].0.span@.contains(l));
            }
            assert forall|k1: int, k2: int, l: usize|
                0 <= k1 < k2 < out@.len() implies !(out@[k1].0.span@.contains(l)
                && out@[k2].0.span@.contains(l)) by {
                if out@[k1].0.span@.contains(l) && out@[k2].0.span@.contains(l) {
                    assert(pieces@[k1].0@.contains(l) && pieces@[k2].0@.contains(l));
                }
            }
        }
        out
    }

    /// Returns the stored spans with their values.
    pub fn entries(&self) -> (r: Vec<(MultipleSpan, T)>)
        ensures
            r@.len() == self.inner.spans@.len(),
            forall|k: int|
                0 <= k < r@.len() ==> (#[trigger] r@[k]).0.span@ == self.inner.spans@[k].0@
                    && r@[k].1 == self.inner.spans@[k].1,
    {
        let mut out: Vec<(MultipleSpan, T)> = Vec::new();
        let mut i: usize = 0;
        while i < self.inner.spans.len()
            invariant
                i <= self.inner.spans@.len(),
                out@.len() == i,
                forall|k: int|
                    0 <= k < i ==> (#[trigger] out@[k]).0.span@ == self.inner.spans@[k].0@
                        && out@[k].1 == self.inner.spans@[k].1,
            decreases self.inner.spans@.len() - i,
        {
            let sp = self.inner.spans[i].0.clone();
            let v = self.inner.spans[i].1;
            out.push((MultipleSpan { span: sp }, v));
            i = i + 1;
        }
        out
    }
}

} // verus!
