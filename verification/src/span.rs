//! The span algebra: canonical sorted sets of lane indices with union,
//! intersection and subtraction, and the filled-interval closure on which
//! the contraction cost metric rests.

use vstd::prelude::*;

verus! {

broadcast use vstd::seq_lib::lemma_seq_contains_after_push;

/// Holds when a sequence of lanes is strictly ascending, i.e. sorted and
/// free of duplicates.
pub open spec fn strictly_ascending(s: Seq<usize>) -> bool {
    forall|i: int, j: int| 0 <= i < j < s.len() ==> s[i] < s[j]
}

/// The inclusive interval from the first to the last lane of a non-empty
/// strictly ascending sequence.
pub open spec fn spec_filled(s: Seq<usize>) -> Seq<usize>
    recommends
        s.len() > 0,
{
    Seq::new((s.last() - s[0] + 1) as nat, |k: int| (s[0] + k) as usize)
}

/// A span: the set of lanes a gate or a sub-circuit touches, kept as a
/// strictly ascending list of lane indices.
///
/// A span is *sparse* when it holds exactly the acted-upon lanes and
/// *filled* when it is the closed interval from its least to its greatest
/// lane.  The empty span appears only as an intermediate result of
/// [`Span::inner_join`] and [`Span::exclude`], which therefore return
/// `Option`.
#[derive(Debug)]
pub struct Span {
    pub lanes: Vec<usize>,
}

impl View for Span {
    type V = Seq<usize>;

    open spec fn view(&self) -> Seq<usize> {
        self.lanes@
    }
}

/// Relies on std's RangeInclusive::start: it returns the lower bound the
/// range was created with.
pub assume_specification<Idx>[ core::ops::RangeInclusive::<Idx>::start ](
    r: &core::ops::RangeInclusive<Idx>,
) -> (ret: &Idx)
    ensures
        *ret == r@.start,
;

/// Relies on std's RangeInclusive::end: it returns the upper bound the
/// range was created with.
pub assume_specification<Idx>[ core::ops::RangeInclusive::<Idx>::end ](
    r: &core::ops::RangeInclusive<Idx>,
) -> (ret: &Idx)
    ensures
        *ret == r@.end,
;

/// In a strictly ascending non-empty sequence every member lies between the
/// first and the last element.
pub proof fn lemma_ascending_bounds(s: Seq<usize>)
    requires
        strictly_ascending(s),
        s.len() > 0,
    ensures
        forall|l: usize| s.contains(l) ==> s[0] <= l <= s.last(),
{
    assert forall|l: usize| s.contains(l) implies s[0] <= l <= s.last() by {
        let i = choose|i: int| 0 <= i < s.len() && s[i] == l;
        if i > 0 {
            assert(s[0] < s[i]);
        }
        if i < s.len() - 1 {
            assert(s[i] < s[s.len() - 1]);
        }
    }
}

/// Two strictly ascending sequences with the same members are equal.
pub proof fn lemma_ascending_unique(a: Seq<usize>, b: Seq<usize>)
    requires
        strictly_ascending(a),
        strictly_ascending(b),
        forall|l: usize| a.contains(l) <==> b.contains(l),
    ensures
        a == b,
    decreases a.len(),
{
    if a.len() == 0 {
        if b.len() > 0 {
            assert(b.contains(b[0]));
        }
        assert(a =~= b);
    } else {
        assert(a.contains(a[0]));
        assert(b.contains(b[0]));
        assert(b.contains(a[0]));
        assert(a.contains(b[0]));
        lemma_ascending_bounds(a);
        lemma_ascending_bounds(b);
        assert(a[0] == b[0]);
        let at = a.subrange(1, a.len() as int);
        let bt = b.subrange(1, b.len() as int);
        assert forall|l: usize| at.contains(l) implies bt.contains(l) by {
            let i = choose|i: int| 0 <= i < at.len() && at[i] == l;
            assert(a[i + 1] == l);
            assert(a[0] < l);
            assert(b.contains(l));
            let j = choose|j: int| 0 <= j < b.len() && b[j] == l;
            assert(j > 0);
            assert(bt[j - 1] == l);
        }
        assert forall|l: usize| bt.contains(l) implies at.contains(l) by {
            let i = choose|i: int| 0 <= i < bt.len() && bt[i] == l;
            assert(b[i + 1] == l);
            assert(b[0] < l);
            assert(a.contains(l));
            let j = choose|j: int| 0 <= j < a.len() && a[j] == l;
            assert(j > 0);
            assert(at[j - 1] == l);
        }
        lemma_ascending_unique(at, bt);
        assert(b.len() > 0);
        assert(at.len() == a.len() - 1);
        assert(bt.len() == b.len() - 1);
        assert(a.len() == b.len());
        assert forall|k: int| 0 <= k < a.len() implies a[k] == b[k] by {
            if k > 0 {
                assert(at[k - 1] == bt[k - 1]);
            }
        }
        assert(a =~= b);
    }
}

impl Span {
    /// Holds when the span is canonical: strictly ascending lanes.
    pub open spec fn wf(&self) -> bool {
        strictly_ascending(self@)
    }

    /// The least lane of a non-empty span.
    pub open spec fn spec_start(&self) -> usize
        recommends
            self@.len() > 0,
    {
        self@[0]
    }

    /// The greatest lane of a non-empty span.
    pub open spec fn spec_end(&self) -> usize
        recommends
            self@.len() > 0,
    {
        self@.last()
    }

    /// Creates a new span from a list of lanes: the result is the sorted
    /// duplicate-free set of the given lanes.
    pub fn new(lanes: Vec<usize>) -> (r: Self)
        ensures
            r.wf(),
            forall|l: usize| r@.contains(l) <==> lanes@.contains(l),
            r@.len() <= lanes@.len(),
    {
        let mut out: Vec<usize> = Vec::new();
        let mut i: usize = 0;
        while i < lanes.len()
            invariant
                i <= lanes@.len(),
                strictly_ascending(out@),
                out@.len() <= i,
                forall|l: usize| out@.contains(l) <==> lanes@.subrange(0, i as int).contains(l),
            decreases lanes@.len() - i,
        {
            let ghost pre = out@;
            insert_lane(&mut out, lanes[i]);
            proof {
                assert(lanes@.subrange(0, i + 1 as int)
                    =~= lanes@.subrange(0, i as int).push(lanes@[i as int]));
                assert forall|l: usize|
                    out@.contains(l) <==> lanes@.subrange(0, i + 1 as int).contains(l) by {
                    if lanes@.subrange(0, i + 1 as int).contains(l) {
                        if l == lanes@[i as int] {
                            assert(out@.contains(l));
                        } else {
                            assert(lanes@.subrange(0, i as int).contains(l));
                        }
                    }
                }
            }
            i = i + 1;
        }
        proof {
            assert(lanes@.subrange(0, lanes@.len() as int) =~= lanes@);
        }
        Span { lanes: out }
    }

    /// Creates a new span holding a single lane.
    pub fn single(lane: usize) -> (r: Self)
        ensures
            r.wf(),
            r@ == seq![lane],
            r@.len() == 1,
            r@[0] == lane,
            forall|l: usize| r@.contains(l) <==> l == lane,
    {
        let r = Span { lanes: vec![lane] };
        proof {
            assert forall|l: usize| r@.contains(l) <==> l == lane by {
                if l == lane {
                    assert(r@[0] == l);
                }
            }
        }
        r
    }

    /// Creates a new span holding every lane of a half-open range.
    pub fn range(range: core::ops::Range<usize>) -> (r: Self)
        ensures
            r.wf(),
            r@.len() == if range.start <= range.end { range.end - range.start } else { 0int },
            forall|l: usize| r@.contains(l) <==> range.start <= l < range.end,
            forall|k: int| 0 <= k < r@.len() ==> r@[k] == range.start + k,
    {
        let mut out: Vec<usize> = Vec::new();
        let mut i: usize = range.start;
        while i < range.end
            invariant
                range.start <= i <= range.end || (i == range.start && range.end < range.start),
                out@.len() == if i >= range.start { i - range.start } else { 0int },
                forall|k: int| 0 <= k < out@.len() ==> out@[k] == range.start + k,
            decreases range.end - i,
        {
            out.push(i);
            i = i + 1;
        }
        proof {
            assert forall|l: usize| out@.contains(l) implies range.start <= l < range.end by {}
            assert forall|l: usize| range.start <= l < range.end implies out@.contains(l) by {
                assert(out@[l - range.start] == l);
            }
        }
        Span { lanes: out }
    }

    /// Creates a new span holding every lane of an inclusive range.
    pub fn range_in(range: core::ops::RangeInclusive<usize>) -> (r: Self)
        requires
            !range@.exhausted,
            range@.end < usize::MAX,
        ensures
            r.wf(),
            forall|l: usize| r@.contains(l) <==> range@.start <= l <= range@.end,
            r@.len() == if range@.start <= range@.end { range@.end - range@.start + 1 } else {
                0int
            },
            forall|k: int| 0 <= k < r@.len() ==> r@[k] == range@.start + k,
    {
        let start = *range.start();
        let end = *range.end();
        let r = Self::range(start..end + 1);
        r
    }

    /// Returns the number of lanes in the span.
    pub fn span_len(&self) -> (n: usize)
        ensures
            n == self@.len(),
    {
        self.lanes.len()
    }

    /// Returns the least lane of the span.
    pub fn start(&self) -> (l: usize)
        requires
            self@.len() > 0,
        ensures
            l == self.spec_start(),
    {
        self.lanes[0]
    }

    /// Returns the greatest lane of the span.
    pub fn end(&self) -> (l: usize)
        requires
            self@.len() > 0,
        ensures
            l == self.spec_end(),
    {
        self.lanes[self.lanes.len() - 1]
    }

    /// Returns the filled span: the closed interval from the least to the
    /// greatest lane.  Filling is idempotent; see
    /// [`lemma_filled_idempotent`].
    pub fn filled(&self) -> (r: Self)
        requires
            self.wf(),
            self@.len() > 0,
            self.spec_end() < usize::MAX,
        ensures
            r.wf(),
            r@ == spec_filled(self@),
            r@.len() == self.spec_end() - self.spec_start() + 1,
            forall|l: usize| r@.contains(l) <==> self.spec_start() <= l <= self.spec_end(),
            r.spec_start() == self.spec_start(),
            r.spec_end() == self.spec_end(),
            forall|l: usize| self@.contains(l) ==> r@.contains(l),
    {
        let start = self.start();
        let end = self.end();
        let r = Self::range(start..end + 1);
        proof {
            assert(r@ =~= spec_filled(self@));
            assert(r@.contains(start));
            assert(r@.contains(end));
            lemma_ascending_bounds(self@);
            assert forall|l: usize| self@.contains(l) implies r@.contains(l) by {}
        }
        r
    }

    /// Returns whether the given lane is in the span.
    pub fn contains(&self, value: usize) -> (r: bool)
        ensures
            r == self@.contains(value),
    {
        let mut i: usize = 0;
        while i < self.lanes.len()
            invariant
                i <= self@.len(),
                forall|k: int| 0 <= k < i ==> self@[k] != value,
            decreases self@.len() - i,
        {
            if self.lanes[i] == value {
                return true;
            }
            i = i + 1;
        }
        false
    }

    /// Returns the full join (union) of two spans: the sorted merge of
    /// their lanes without duplicates.  Joining with the empty span returns
    /// the other operand unchanged, and joining a span with itself returns
    /// it unchanged.
    pub fn full_join(&self, other: &Self) -> (r: Self)
        requires
            self.wf(),
            other.wf(),
        ensures
            r.wf(),
            forall|l: usize| r@.contains(l) <==> (self@.contains(l) || other@.contains(l)),
            r@.len() <= self@.len() + other@.len(),
            self@.len() <= r@.len(),
            other@.len() <= r@.len(),
            other@.len() == 0 ==> r@ == self@,
            self@.len() == 0 ==> r@ == other@,
            self@ == other@ ==> r@ == self@,
    {
        let mut out: Vec<usize> = Vec::new();
        let mut i: usize = 0;
        let mut j: usize = 0;
        while i < self.lanes.len() || j < other.lanes.len()
            invariant
                self.wf(),
                other.wf(),
                i <= self@.len(),
                j <= other@.len(),
                strictly_ascending(out@),
                i <= out@.len() <= i + j,
                j <= out@.len(),
                forall|l: usize|
                    out@.contains(l) <==> (self@.subrange(0, i as int).contains(l)
                        || other@.subrange(0, j as int).contains(l)),
                out@.len() > 0 && i < self@.len() ==> out@.last() < self@[i as int],
                out@.len() > 0 && j < other@.len() ==> out@.last() < other@[j as int],
                other@.len() == 0 ==> out@ == self@.subrange(0, i as int),
                self@.len() == 0 ==> out@ == other@.subrange(0, j as int),
                self@ == other@ ==> i == j && out@ == self@.subrange(0, i as int),
            decreases self@.len() - i + other@.len() - j,
        {
            let ghost pre = out@;
            let ghost pi = i;
            let ghost pj = j;
            if i < self.lanes.len() && j < other.lanes.len() {
                let x = self.lanes[i];
                let y = other.lanes[j];
                if x == y {
                    out.push(x);
                    i = i + 1;
                    j = j + 1;
                } else if x < y {
                    out.push(x);
                    i = i + 1;
                } else {
                    out.push(y);
                    j = j + 1;
                }
            } else if i < self.lanes.len() {
                out.push(self.lanes[i]);
                i = i + 1;
            } else {
                out.push(other.lanes[j]);
                j = j + 1;
            }
            proof {
                assert(self@.subrange(0, i as int) =~= if i == pi {
                    self@.subrange(0, pi as int)
                } else {
                    self@.subrange(0, pi as int).push(self@[pi as int])
                });
                assert(other@.subrange(0, j as int) =~= if j == pj {
                    other@.subrange(0, pj as int)
                } else {
                    other@.subrange(0, pj as int).push(other@[pj as int])
                });
            }
        }
        proof {
            assert(self@.subrange(0, self@.len() as int) =~= self@);
            assert(other@.subrange(0, other@.len() as int) =~= other@);
            assert(self@.len() <= out@.len() && other@.len() <= out@.len()) by {
                lemma_subset_of_ascending_len(self@, out@);
                lemma_subset_of_ascending_len(other@, out@);
            }
        }
        Span { lanes: out }
    }

    /// Returns the inner join (intersection) of two spans, or `None` when
    /// they share no lane.  The inner join of a span with itself is the
    /// span unchanged.
    pub fn inner_join(&self, other: &Self) -> (r: Option<Self>)
        requires
            self.wf(),
            other.wf(),
        ensures
            match r {
                None => forall|l: usize| !(self@.contains(l) && other@.contains(l)),
                Some(s) => {
                    &&& s.wf()
                    &&& s@.len() > 0
                    &&& forall|l: usize| s@.contains(l) <==> (self@.contains(l) && other@.contains(l))
                },
            },
            self@ == other@ && self@.len() > 0 ==> (r matches Some(s) && s@ == self@),
            self@ == other@ && self@.len() == 0 ==> r is None,
    {
        let mut out: Vec<usize> = Vec::new();
        let mut i: usize = 0;
        let mut j: usize = 0;
        while i < self.lanes.len() && j < other.lanes.len()
            invariant
                self.wf(),
                other.wf(),
                i <= self@.len(),
                j <= other@.len(),
                strictly_ascending(out@),
                forall|l: usize|
                    out@.contains(l) <==> (self@.subrange(0, i as int).contains(l)
                        && other@.subrange(0, j as int).contains(l)),
                out@.len() > 0 && i < self@.len() ==> out@.last() < self@[i as int],
                out@.len() > 0 && j < other@.len() ==> out@.last() < other@[j as int],
                forall|l: usize|
                    self@.subrange(0, i as int).contains(l) && other@.contains(l) ==> (
                    other@.subrange(0, j as int).contains(l) || out@.contains(l)),
                forall|l: usize|
                    other@.subrange(0, j as int).contains(l) && self@.contains(l) ==> (
                    self@.subrange(0, i as int).contains(l) || out@.contains(l)),
                self@ == other@ ==> i == j && out@ == self@.subrange(0, i as int),
            decreases self@.len() - i + other@.len() - j,
        {
            let ghost pi = i;
            let ghost pj = j;
            let x = self.lanes[i];
            let y = other.lanes[j];
            if x == y {
                out.push(x);
                i = i + 1;
                j = j + 1;
            } else if x < y {
                i = i + 1;
            } else {
                j = j + 1;
            }
            proof {
                lemma_ascending_bounds(self@);
                lemma_ascending_bounds(other@);
                assert(self@.subrange(0, i as int) =~= if i == pi {
                    self@.subrange(0, pi as int)
                } else {
                    self@.subrange(0, pi as int).push(self@[pi as int])
                });
                assert(other@.subrange(0, j as int) =~= if j == pj {
                    other@.subrange(0, pj as int)
                } else {
                    other@.subrange(0, pj as int).push(other@[pj as int])
                });
                if i != pi && j == pj {
                    assert forall|l: usize|
                        self@.subrange(0, i as int).contains(l) && other@.contains(l) implies (
                    other@.subrange(0, j as int).contains(l) || out@.contains(l)) by {
                        if l == self@[pi as int] {
                            let k = choose|k: int| 0 <= k < other@.len() && other@[k] == l;
                            assert(k < pj ==> other@.subrange(0, pj as int)[k] == l);
                            assert(k >= pj ==> other@[pj as int] <= l);
                        }
                    }
                }
                if j != pj && i == pi {
                    assert forall|l: usize|
                        other@.subrange(0, j as int).contains(l) && self@.contains(l) implies (
                    self@.subrange(0, i as int).contains(l) || out@.contains(l)) by {
                        if l == other@[pj as int] {
                            let k = choose|k: int| 0 <= k < self@.len() && self@[k] == l;
                            assert(k < pi ==> self@.subrange(0, pi as int)[k] == l);
                            assert(k >= pi ==> self@[pi as int] <= l);
                        }
                    }
                }
            }
        }
        proof {
            assert(self@.subrange(0, self@.len() as int) =~= self@);
            assert(other@.subrange(0, other@.len() as int) =~= other@);
            if i == self@.len() {
                assert forall|l: usize| self@.contains(l) && other@.contains(l) implies
                    out@.contains(l) by {
                    assert(self@.subrange(0, i as int).contains(l));
                }
            } else {
                assert(j == other@.len());
                assert forall|l: usize| self@.contains(l) && other@.contains(l) implies
                    out@.contains(l) by {
                    assert(other@.subrange(0, j as int).contains(l));
                }
            }
        }
        if out.len() == 0 {
            None
        } else {
            Some(Span { lanes: out })
        }
    }

    /// Returns the lanes of this span not covered by the other span, or
    /// `None` when every lane is covered.  Excluding a span from itself
    /// leaves nothing.
    pub fn exclude(self, other: &Self) -> (r: Option<Self>)
        requires
            self.wf(),
            other.wf(),
        ensures
            match r {
                None => forall|l: usize| self@.contains(l) ==> other@.contains(l),
                Some(s) => {
                    &&& s.wf()
                    &&& s@.len() > 0
                    &&& forall|l: usize| s@.contains(l) <==> (self@.contains(l)
                        && !other@.contains(l))
                },
            },
            self@ == other@ ==> r is None,
    {
        let mut out: Vec<usize> = Vec::new();
        let mut i: usize = 0;
        while i < self.lanes.len()
            invariant
                self.wf(),
                other.wf(),
                i <= self@.len(),
                strictly_ascending(out@),
                forall|l: usize|
                    out@.contains(l) <==> (self@.subrange(0, i as int).contains(l)
                        && !other@.contains(l)),
                out@.len() > 0 && i < self@.len() ==> out@.last() < self@[i as int],
            decreases self@.len() - i,
        {
            let ghost pi = i;
            let x = self.lanes[i];
            if !other.contains(x) {
                out.push(x);
            }
            i = i + 1;
            proof {
                lemma_ascending_bounds(self@);
                assert(self@.subrange(0, i as int)
                    =~= self@.subrange(0, pi as int).push(self@[pi as int]));
            }
        }
        proof {
            assert(self@.subrange(0, self@.len() as int) =~= self@);
            if self@ == other@ && out@.len() > 0 {
                assert(out@.contains(out@[0]));
                assert(false);
            }
        }
        if out.len() == 0 {
            None
        } else {
            Some(Span { lanes: out })
        }
    }
}

/// Inserts a lane into a strictly ascending vector, keeping it strictly
/// ascending; a lane already present is left alone.
fn insert_lane(v: &mut Vec<usize>, x: usize)
    requires
        strictly_ascending(old(v)@),
    ensures
        strictly_ascending(final(v)@),
        forall|l: usize| final(v)@.contains(l) <==> (old(v)@.contains(l) || l == x),
        final(v)@.len() <= old(v)@.len() + 1,
{
    let mut i: usize = 0;
    while i < v.len() && v[i] < x
        invariant
            strictly_ascending(v@),
            v@ == old(v)@,
            i <= v@.len(),
            forall|k: int| 0 <= k < i ==> v@[k] < x,
        decreases v@.len() - i,
    {
        i = i + 1;
    }
    if i < v.len() && v[i] == x {
        return;
    }
    let ghost pre = v@;
    v.insert(i, x);
    proof {
        assert forall|p: int, q: int| 0 <= p < q < v@.len() implies v@[p] < v@[q] by {
            if p < i && q == i {
                assert(pre[p] < x);
            } else if p == i && q > i {
                assert(pre[q - 1] > x || pre[q - 1] == x);
                if pre[q - 1] == x {
                    assert(false);
                }
            }
        }
        assert forall|l: usize| v@.contains(l) <==> (pre.contains(l) || l == x) by {
            if v@.contains(l) {
                let k = choose|k: int| 0 <= k < v@.len() && v@[k] == l;
                if k < i {
                    assert(pre[k] == l);
                } else if k > i {
                    assert(pre[k - 1] == l);
                }
            }
            if pre.contains(l) {
                let k = choose|k: int| 0 <= k < pre.len() && pre[k] == l;
                if k < i {
                    assert(v@[k] == l);
                } else {
                    assert(v@[k + 1] == l);
                }
            }
            if l == x {
                assert(v@[i as int] == l);
            }
        }
    }
}

/// A strictly ascending sequence whose members all occur in another strictly
/// ascending sequence is no longer than it.
pub proof fn lemma_subset_of_ascending_len(a: Seq<usize>, b: Seq<usize>)
    requires
        strictly_ascending(a),
        strictly_ascending(b),
        forall|l: usize| a.contains(l) ==> b.contains(l),
    ensures
        a.len() <= b.len(),
    decreases b.len(),
{
    if a.len() > 0 {
        assert(b.len() > 0) by {
            assert(a.contains(a.last()));
        }
        let at = a.subrange(0, a.len() - 1);
        let bt = b.subrange(0, b.len() - 1);
        lemma_ascending_bounds(b);
        assert(a.contains(a.last()));
        assert(a.last() <= b.last());
        assert forall|l: usize| at.contains(l) implies bt.contains(l) by {
            let i = choose|i: int| 0 <= i < at.len() && at[i] == l;
            assert(a[i] == l);
            assert(l < a.last());
            assert(b.contains(l));
            let j = choose|j: int| 0 <= j < b.len() && b[j] == l;
            assert(l <= b.last());
            if j == b.len() - 1 {
                assert(l == b.last());
                assert(a.last() <= l);
                assert(false);
            }
            assert(bt[j] == l);
        }
        lemma_subset_of_ascending_len(at, bt);
    }
}

/// Filling a span is idempotent: the filled span of a filled span is the
/// filled span itself.
pub proof fn lemma_filled_idempotent(s: Span)
    requires
        s.wf(),
        s@.len() > 0,
    ensures
        spec_filled(spec_filled(s@)) == spec_filled(s@),
{
    let f = spec_filled(s@);
    lemma_ascending_bounds(s@);
    assert(s@.contains(s@[0]));
    assert(s@.contains(s@.last()));
    assert(s@[0] <= s@.last());
    assert(f[0] == s@[0]);
    assert(f.last() == s@.last());
    assert(spec_filled(f) =~= f);
}

impl Clone for Span {
    /// Cloning a span keeps its lanes.
    fn clone(&self) -> (r: Self)
        ensures
            r@ == self@,
    {
        Span { lanes: self.lanes.clone() }
    }
}

impl PartialEq for Span {
    /// Two spans are equal exactly when they hold the same lane lists.
    fn eq(&self, other: &Self) -> (r: bool)
        ensures
            r == (self@ == other@),
    {
        if self.lanes.len() != other.lanes.len() {
            return false;
        }
        let mut i: usize = 0;
        while i < self.lanes.len()
            invariant
                i <= self@.len(),
                self@.len() == other@.len(),
                forall|k: int| 0 <= k < i ==> self@[k] == other@[k],
            decreases self@.len() - i,
        {
            if self.lanes[i] != other.lanes[i] {
                return false;
            }
            i = i + 1;
        }
        proof {
            assert(self@ =~= other@);
        }
        true
    }
}

impl vstd::std_specs::cmp::PartialEqSpecImpl for Span {
    open spec fn obeys_eq_spec() -> bool {
        true
    }

    open spec fn eq_spec(&self, other: &Span) -> bool {
        self@ == other@
    }
}

impl Eq for Span {

}

/// The value a slice register holds at a lane: the value of the latest
/// entry whose span contains the lane, if any.
pub open spec fn slice_lookup<T>(s: Seq<(Span, T)>, l: usize) -> Option<T>
    decreases s.len(),
{
    if s.len() == 0 {
        None
    } else if s.last().0@.contains(l) {
        Some(s.last().1)
    } else {
        slice_lookup(s.drop_last(), l)
    }
}

/// Appending an entry to a slice register overrides the lanes of its span
/// and leaves every other lane alone.
pub proof fn lemma_slice_lookup_push<T>(s: Seq<(Span, T)>, e: (Span, T), l: usize)
    ensures
        slice_lookup(s.push(e), l) == if e.0@.contains(l) {
            Some(e.1)
        } else {
            slice_lookup(s, l)
        },
{
    assert(s.push(e).drop_last() =~= s);
}

/// In a register of pairwise disjoint spans, a lane inside some entry's
/// span looks up to that entry's value.
pub proof fn lemma_slice_lookup_at<T>(s: Seq<(Span, T)>, j: int, l: usize)
    requires
        0 <= j < s.len(),
        s[j].0@.contains(l),
        forall|k1: int, k2: int, m: usize|
            0 <= k1 < k2 < s.len() ==> !(s[k1].0@.contains(m) && s[k2].0@.contains(m)),
    ensures
        slice_lookup(s, l) == Some(s[j].1),
    decreases s.len(),
{
    if j == s.len() - 1 {
    } else {
        assert(!s.last().0@.contains(l));
        lemma_slice_lookup_at(s.drop_last(), j, l);
    }
}

/// A lane that looks up to a value lies in some entry's span with that
/// value.
pub proof fn lemma_slice_lookup_some<T>(s: Seq<(Span, T)>, l: usize)
    requires
        slice_lookup(s, l) is Some,
    ensures
        exists|j: int|
            0 <= j < s.len() && s[j].0@.contains(l) && s[j].1 == slice_lookup(s, l)->Some_0,
    decreases s.len(),
{
    if s.last().0@.contains(l) {
        assert(s[s.len() - 1].0@.contains(l));
    } else {
        lemma_slice_lookup_some(s.drop_last(), l);
        let j = choose|j: int|
            0 <= j < s.drop_last().len() && s.drop_last()[j].0@.contains(l) && s.drop_last()[j].1
                == slice_lookup(s.drop_last(), l)->Some_0;
        assert(s[j].0@.contains(l));
    }
}

/// A slice register: a sliding vertical view over the lanes of a circuit
/// that records, for each group of lanes, the most recent writer.
///
/// Applying a span writes its *filled* interval; stored spans that straddle
/// the boundary are split, so the stored spans stay pairwise disjoint.
pub struct GateSliceView<T> {
    pub spans: Vec<(Span, T)>,
}

impl<T: Copy> GateSliceView<T> {
    /// Holds when every stored span is canonical and non-empty and the
    /// stored spans are pairwise disjoint.
    pub open spec fn wf(&self) -> bool {
        &&& forall|k: int|
            0 <= k < self.spans@.len() ==> (#[trigger] self.spans@[k]).0.wf()
                && self.spans@[k].0@.len() > 0
        &&& forall|k1: int, k2: int, m: usize|
            0 <= k1 < k2 < self.spans@.len() ==> !(self.spans@[k1].0@.contains(m)
                && self.spans@[k2].0@.contains(m))
    }

    /// The value recorded for a lane, if any.
    pub open spec fn spec_at(&self, l: usize) -> Option<T> {
        slice_lookup(self.spans@, l)
    }

    /// Creates an empty slice register.
    pub fn new() -> (r: Self)
        ensures
            r.wf(),
            forall|l: usize| r.spec_at(l) is None,
            r.spans@.len() == 0,
    {
        GateSliceView { spans: Vec::new() }
    }

    /// Applies a value to the filled interval of the span, overwriting
    /// every portion of a stored span that the interval covers.
    pub fn apply(&mut self, span: Span, value: T)
        requires
            old(self).wf(),
            span.wf(),
            span@.len() > 0,
            span.spec_end() < usize::MAX,
        ensures
            final(self).wf(),
            final(self).spans@.len() <= old(self).spans@.len() + 1,
            forall|l: usize|
                final(self).spec_at(l) == if span.spec_start() <= l <= span.spec_end() {
                    Some(value)
                } else {
                    old(self).spec_at(l)
                },
    {
        let filled = span.filled();
        let ghost fstart = span.spec_start();
        let ghost fend = span.spec_end();
        let ghost olds = self.spans@;
        let mut out: Vec<(Span, T)> = Vec::new();
        let ghost mut prov: Seq<int> = Seq::empty();
        let mut i: usize = 0;
        while i < self.spans.len()
            invariant
                old(self).wf(),
                self.spans@ == olds,
                filled.wf(),
                forall|l: usize| filled@.contains(l) <==> fstart <= l <= fend,
                i <= olds.len(),
                out@.len() <= i,
                prov.len() == out@.len(),
                forall|k: int| 0 <= k < out@.len() ==> 0 <= #[trigger] prov[k] < i,
                forall|k1: int, k2: int| 0 <= k1 < k2 < out@.len() ==> prov[k1] < prov[k2],
                forall|k: int, m: usize|
                    0 <= k < out@.len() && #[trigger] out@[k].0@.contains(m) ==> (
                    olds[prov[k]].0@.contains(m) && !(fstart <= m <= fend)),
                forall|k: int|
                    0 <= k < out@.len() ==> (#[trigger] out@[k]).0.wf() && out@[k].0@.len() > 0,
                forall|l: usize|
                    !(fstart <= l <= fend) ==> slice_lookup(out@, l) == slice_lookup(
                        olds.subrange(0, i as int),
                        l,
                    ),
            decreases olds.len() - i,
        {
            let ghost pre = out@;
            let entry_span = self.spans[i].0.clone();
            let entry_val = self.spans[i].1;
            proof {
                assert(olds[i as int].0.wf());
            }
            let rest = entry_span.exclude(&filled);
            match rest {
                Some(s) => {
                    proof {
                        prov = prov.push(i as int);
                    }
                    out.push((s, entry_val));
                },
                None => {},
            }
            i = i + 1;
            proof {
                let cur = olds.subrange(0, i as int);
                assert(cur.drop_last() =~= olds.subrange(0, i - 1));
                assert forall|l: usize|
                    !(fstart <= l <= fend) implies slice_lookup(out@, l) == slice_lookup(cur, l) by {
                    assert(cur.last() == olds[i - 1]);
                    if out@.len() > pre.len() {
                        lemma_slice_lookup_push(pre, out@.last(), l);
                    }
                }
            }
        }
        proof {
            assert(olds.subrange(0, olds.len() as int) =~= olds);
        }
        let ghost outpre = out@;
        out.push((filled, value));
        self.spans = out;
        proof {
            assert forall|l: usize|
                final(self).spec_at(l) == if fstart <= l <= fend {
                    Some(value)
                } else {
                    old(self).spec_at(l)
                } by {
                lemma_slice_lookup_push(outpre, (filled, value), l);
            }
            assert forall|k1: int, k2: int, m: usize|
                0 <= k1 < k2 < self.spans@.len() implies !(self.spans@[k1].0@.contains(m)
                && self.spans@[k2].0@.contains(m)) by {
                if k2 < self.spans@.len() - 1 {
                    if self.spans@[k1].0@.contains(m) && self.spans@[k2].0@.contains(m) {
                        assert(olds[prov[k1]].0@.contains(m) && olds[prov[k2]].0@.contains(m));
                    }
                }
            }
        }
    }

    /// Returns the stored sub-spans, with their values, that intersect the
    /// given span: for some strictly increasing selection of stored
    /// entries, one piece per selected entry, each piece exactly that
    /// entry's intersection with the query.  The pieces are pairwise
    /// disjoint, sound against the per-lane lookup, and cover every
    /// recorded lane of the query.
    pub fn get(&self, span: &Span) -> (r: Vec<(Span, T)>)
        requires
            self.wf(),
            span.wf(),
        ensures
            r@.len() <= self.spans@.len(),
            forall|k: int|
                0 <= k < r@.len() ==> (#[trigger] r@[k]).0.wf() && r@[k].0@.len() > 0,
            forall|k: int, l: usize|
                0 <= k < r@.len() && #[trigger] r@[k].0@.contains(l) ==> (span@.contains(l)
                    && self.spec_at(l) == Some(r@[k].1)),
            forall|l: usize|
                span@.contains(l) && self.spec_at(l) is Some ==> exists|k: int|
                    0 <= k < r@.len() && #[trigger] r@[k].0@.contains(l),
            forall|k1: int, k2: int, l: usize|
                0 <= k1 < k2 < r@.len() ==> !(r@[k1].0@.contains(l) && r@[k2].0@.contains(l)),
            exists|prov: Seq<int>|
                #![auto]
                {
                    &&& prov.len() == r@.len()
                    &&& (forall|k1: int, k2: int| 0 <= k1 < k2 < prov.len() ==> prov[k1] < prov[k2])
                    &&& (forall|k: int|
                        0 <= k < prov.len() ==> 0 <= prov[k] < self.spans@.len() && r@[k].1
                            == self.spans@[prov[k]].1 && (forall|l: usize|
                            r@[k].0@.contains(l) <==> (self.spans@[prov[k]].0@.contains(l)
                                && span@.contains(l))))
                },
    {
        let mut out: Vec<(Span, T)> = Vec::new();
        let ghost mut prov: Seq<int> = Seq::empty();
        let mut i: usize = 0;
        while i < self.spans.len()
            invariant
                self.wf(),
                span.wf(),
                i <= self.spans@.len(),
                out@.len() <= i,
                prov.len() == out@.len(),
                forall|k: int| 0 <= k < prov.len() ==> 0 <= #[trigger] prov[k] < i,
                forall|k1: int, k2: int| 0 <= k1 < k2 < prov.len() ==> prov[k1] < prov[k2],
                forall|k: int|
                    0 <= k < prov.len() ==> out@[k].1 == self.spans@[#[trigger] prov[k]].1 && (
                    forall|l: usize|
                        out@[k].0@.contains(l) <==> (self.spans@[prov[k]].0@.contains(l)
                            && span@.contains(l))),
                forall|k: int|
                    0 <= k < out@.len() ==> (#[trigger] out@[k]).0.wf() && out@[k].0@.len() > 0,
                forall|k: int, l: usize|
                    0 <= k < out@.len() && #[trigger] out@[k].0@.contains(l) ==> (span@.contains(
                        l,
                    ) && self.spec_at(l) == Some(out@[k].1)),
                forall|l: usize, j: int|
                    0 <= j < i && span@.contains(l) && #[trigger] self.spans@[j].0@.contains(l)
                        ==> exists|k: int| 0 <= k < out@.len() && #[trigger] out@[k].0@.contains(l),
            decreases self.spans@.len() - i,
        {
            let entry_span = self.spans[i].0.clone();
            let entry_val = self.spans[i].1;
            proof {
                assert(self.spans@[i as int].0.wf());
            }
            let ghost pre = out@;
            let joined = entry_span.inner_join(span);
            match joined {
                Some(s) => {
                    proof {
                        assert forall|l: usize| s@.contains(l) implies (span@.contains(l)
                            && self.spec_at(l) == Some(entry_val)) by {
                            lemma_slice_lookup_at(self.spans@, i as int, l);
                        }
                        prov = prov.push(i as int);
                    }
                    out.push((s, entry_val));
                },
                None => {},
            }
            i = i + 1;
            proof {
                assert forall|l: usize, j: int|
                    0 <= j < i && span@.contains(l) && #[trigger] self.spans@[j].0@.contains(l)
                        implies exists|k: int|
                    0 <= k < out@.len() && #[trigger] out@[k].0@.contains(l) by {
                    if j == i - 1 {
                        assert(out@.len() > pre.len());
                        assert(out@[out@.len() - 1].0@.contains(l));
                    } else {
                        let k = choose|k: int|
                            0 <= k < pre.len() && #[trigger] pre[k].0@.contains(l);
                        assert(out@[k].0@.contains(l));
                    }
                }
            }
        }
        proof {
            assert forall|l: usize| span@.contains(l) && self.spec_at(l) is Some implies exists|
                k: int,
            | 0 <= k < out@.len() && #[trigger] out@[k].0@.contains(l) by {
                lemma_slice_lookup_some(self.spans@, l);
            }
            assert forall|k1: int, k2: int, l: usize|
                0 <= k1 < k2 < out@.len() implies !(out@[k1].0@.contains(l)
                && out@[k2].0@.contains(l)) by {
                if out@[k1].0@.contains(l) && out@[k2].0@.contains(l) {
                    assert(self.spans@[prov[k1]].0@.contains(l));
                    assert(self.spans@[prov[k2]].0@.contains(l));
                }
            }
        }
        out
    }
}

} // verus!
