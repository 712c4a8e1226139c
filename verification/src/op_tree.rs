//! Operation-tree lowering: a contraction tree becomes a tree of primitive
//! operations in which every matrix multiplication's two operands share the
//! same filled span, identity padding is explicit, and each node knows
//! whether it serialises as the right operand of a multiplication.

use vstd::prelude::*;
use crate::gates::Gate;
use crate::network::MAX_LANES;
use crate::network::TensorContraction;
use crate::network::TensorKind;
use crate::span::Span;

verus! {

/// A primitive operation with its serialisation orientation.
///
/// The `transposed_op` flag says that the node participates as the right
/// operand of a matrix multiplication and therefore must serialise in
/// column-major form; the root of a lowered contraction is never
/// transposed, and the right child of every multiplication flips the flag
/// for its whole sub-tree.
pub struct Operation {
    pub inner: OperationKind,
    /// Whether the operation is the right operand of a matrix
    /// multiplication and must serialise transposed.
    pub transposed_op: bool,
}

/// The two primitive shapes of a lowered node.
pub enum OperationKind {
    /// Pads an operand with identities on the left and on the right so
    /// that its span becomes the target span.
    TensorExpansion { target_span: Span, operand: Operand },
    /// Multiplies two operands whose filled spans agree.
    MatrixMultiplication { left: Operand, right: Operand },
}

/// A leaf gate or a nested operation.
pub enum Operand {
    /// The result of a nested operation.
    Operation(Box<Operation>),
    /// A bare quantum gate.
    Gate(Box<Gate>),
}

impl Operand {
    /// Whether the operand's result touches the given lane.
    pub open spec fn on_lane(self, l: usize) -> bool
        decreases self,
    {
        match self {
            Operand::Operation(op) => op.inner.on_lane(l),
            Operand::Gate(g) => g.on_lane(l),
        }
    }

    /// Whether the operand carries the given transposition flag: a nested
    /// operation must record it, a bare gate has no orientation of its own.
    pub open spec fn flag_is(self, t: bool) -> bool {
        match self {
            Operand::Operation(op) => op.transposed_op == t,
            Operand::Gate(g) => true,
        }
    }

    /// Holds when the operand is well formed and carries the given
    /// transposition flag.
    pub open spec fn wf(self, t: bool) -> bool
        decreases self,
    {
        &&& self.flag_is(t)
        &&& match self {
            Operand::Operation(op) => op.wf(),
            Operand::Gate(g) => g.wf() && (forall|l: usize| g.on_lane(l) ==> l < MAX_LANES),
        }
        &&& (exists|l: usize| self.on_lane(l))
        &&& (forall|l: usize| self.on_lane(l) ==> l < MAX_LANES)
    }

    /// Returns the span of the operand.
    pub fn span(&self) -> (r: Span)
        requires
            exists|t: bool| self.wf(t),
        ensures
            r.wf(),
            r@.len() > 0,
            forall|l: usize| r@.contains(l) <==> self.on_lane(l),
        decreases self,
    {
        match self {
            Operand::Operation(op) => op.span(),
            Operand::Gate(g) => g.span(),
        }
    }

    /// Lowers a tensor of the network to an operand with the given
    /// transposition flag: a gate leaf stays a gate, a contraction is
    /// lowered to a nested operation.
    pub fn from_tensor_kind(kind: TensorKind, transposed_op: bool) -> (r: Self)
        requires
            kind.wf(),
        ensures
            r.wf(transposed_op),
            forall|l: usize| r.on_lane(l) <==> kind.on_lane(l),
            kind_operand_of(r, kind, transposed_op),
        decreases kind, 0int,
    {
        match kind {
            TensorKind::Contraction(contr) => {
                let ghost c = *contr;
                let op = Operation::from_contraction(*contr, transposed_op);
                let r = Operand::Operation(Box::new(op));
                proof {
                    assert(kind.wf());
                    assert(c.wf());
                    assert(c.span@.len() > 0);
                    assert(c.span@.contains(c.span@[0])) by {
                        assert(exists|i: int|
                            0 <= i < c.span@.len() && #[trigger] c.span@[i] == c.span@[0]) by {
                            assert(0 <= 0 < c.span@.len() && c.span@[0int] == c.span@[0]);
                        }
                    }
                    assert(op.inner.on_lane(c.span@[0]));
                    assert(r.on_lane(c.span@[0]));
                    assert forall|l: usize| r.on_lane(l) implies l < MAX_LANES by {
                        assert(op.inner.on_lane(l));
                        assert(c.span@.contains(l));
                    }
                    assert forall|l: usize| r.on_lane(l) <==> kind.on_lane(l) by {
                        assert(r.on_lane(l) <==> op.inner.on_lane(l));
                        assert(kind.on_lane(l) <==> c.span@.contains(l));
                    }
                }
                r
            },
            TensorKind::Gate(gate) => {
                let ghost g = *gate;
                let ghost gkind = kind;
                let r = Operand::Gate(gate);
                proof {
                    assert(r == Operand::Gate(Box::new(g)));
                    assert(kind_operand_of(r, gkind, transposed_op));
                    assert(exists|l: usize| g.on_lane(l)) by {
                        match g {
                            Gate::Identity(x) => assert(g.on_lane(x.lane)),
                            Gate::PauliX(x) => assert(g.on_lane(x.lane)),
                            Gate::PauliY(x) => assert(g.on_lane(x.lane)),
                            Gate::PauliZ(x) => assert(g.on_lane(x.lane)),
                            Gate::Hadamard(x) => assert(g.on_lane(x.lane)),
                            Gate::Phase(x) => assert(g.on_lane(x.lane)),
                            Gate::SX(x) => assert(g.on_lane(x.lane)),
                            Gate::RX(x) => assert(g.on_lane(x.lane)),
                            Gate::RY(x) => assert(g.on_lane(x.lane)),
                            Gate::RZ(x) => assert(g.on_lane(x.lane)),
                            Gate::CX(x) => assert(g.on_lane(x.control)),
                            Gate::CY(x) => assert(g.on_lane(x.control)),
                            Gate::CZ(x) => assert(g.on_lane(x.control)),
                            Gate::CP(x) => assert(g.on_lane(x.control)),
                            Gate::CRX(x) => assert(g.on_lane(x.control)),
                            Gate::CRY(x) => assert(g.on_lane(x.control)),
                            Gate::CRZ(x) => assert(g.on_lane(x.control)),
                            Gate::CH(x) => assert(g.on_lane(x.control)),
                            Gate::Swap(x) => assert(g.on_lane(x.lanes.0)),
                            Gate::Toffoli(x) => assert(g.on_lane(x.target)),
                            Gate::Fredkin(x) => assert(g.on_lane(x.control)),
                            Gate::CU(x) => assert(g.on_lane(x.control)),
                            Gate::U1(x) => assert(g.on_lane(x.lane)),
                            Gate::U2(x) => assert(g.on_lane(x.lane)),
                            Gate::U3(x) => assert(g.on_lane(x.lane)),
                            Gate::U(x) => assert(g.on_lane(x.lane)),
                        }
                    }
                    let w = choose|l: usize| g.on_lane(l);
                    assert(r.on_lane(w));
                    assert forall|l: usize| r.on_lane(l) implies l < MAX_LANES by {
                        assert(g.on_lane(l));
                    }
                }
                r
            },
        }
    }
}

impl OperationKind {
    /// Whether the node's result touches the given lane.
    pub open spec fn on_lane(self, l: usize) -> bool
        decreases self,
    {
        match self {
            OperationKind::TensorExpansion { target_span, operand } => target_span@.contains(l),
            OperationKind::MatrixMultiplication { left, right } => left.on_lane(l) || right.on_lane(
                l,
            ),
        }
    }

    /// Returns the span of the node: the target span of an expansion, the
    /// union of the operand spans of a multiplication.
    pub fn span(&self) -> (r: Span)
        requires
            self.shape_ok(),
        ensures
            r.wf(),
            r@.len() > 0,
            forall|l: usize| r@.contains(l) <==> self.on_lane(l),
        decreases self,
    {
        match self {
            OperationKind::TensorExpansion { target_span, operand } => target_span.clone(),
            OperationKind::MatrixMultiplication { left, right } => {
                let ls = left.span();
                let rs = right.span();
                let u = ls.full_join(&rs);
                proof {
                    assert forall|l: usize| u@.contains(l) <==> self.on_lane(l) by {
                        assert(u@.contains(l) <==> (ls@.contains(l) || rs@.contains(l)));
                        assert(ls@.contains(l) <==> left.on_lane(l));
                        assert(rs@.contains(l) <==> right.on_lane(l));
                    }
                }
                u
            },
        }
    }

    /// The structural facts the span computation needs: canonical spans and
    /// well formed operands, without fixing a transposition flag.
    pub open spec fn shape_ok(self) -> bool
        decreases self,
    {
        match self {
            OperationKind::TensorExpansion { target_span, operand } => target_span.wf()
                && target_span@.len() > 0 && (exists|t: bool| operand.wf(t)),
            OperationKind::MatrixMultiplication { left, right } => (exists|t: bool| left.wf(t))
                && (exists|t: bool| right.wf(t)),
        }
    }
}

impl Operation {
    /// Holds when the whole tree is well formed: spans are canonical and
    /// bounded, every multiplication's operands share the same filled span,
    /// the left operand of a multiplication and the operand of an expansion
    /// inherit the node's flag while the right operand of a multiplication
    /// flips it, and an expansion's target span encloses its operand.
    pub open spec fn wf(self) -> bool
        decreases self,
    {
        match self.inner {
            OperationKind::TensorExpansion { target_span, operand } => {
                &&& target_span.wf()
                &&& target_span@.len() > 0
                &&& (forall|l: usize| target_span@.contains(l) ==> l < MAX_LANES)
                &&& operand.wf(self.transposed_op)
                &&& (forall|l: usize|
                    operand.on_lane(l) ==> target_span.spec_start() <= l <= target_span.spec_end())
            },
            OperationKind::MatrixMultiplication { left, right } => {
                &&& left.wf(self.transposed_op)
                &&& right.wf(!self.transposed_op)
                &&& spans_fill_equal(left, right)
            },
        }
    }

    /// Returns the span of the operation.
    pub fn span(&self) -> (r: Span)
        requires
            self.wf(),
        ensures
            r.wf(),
            r@.len() > 0,
            forall|l: usize| r@.contains(l) <==> self.inner.on_lane(l),
        decreases self,
    {
        proof {
            assert(self.inner.shape_ok()) by {
                match self.inner {
                    OperationKind::TensorExpansion { target_span, operand } => {
                        assert(operand.wf(self.transposed_op));
                    },
                    OperationKind::MatrixMultiplication { left, right } => {
                        assert(left.wf(self.transposed_op));
                        assert(right.wf(!self.transposed_op));
                    },
                }
            }
        }
        self.inner.span()
    }

    /// Lowers a contraction: each child whose filled span already matches
    /// the combined span passes straight through as a multiplication
    /// operand, any other child is wrapped in a tensor expansion onto the
    /// combined span; the right operand's sub-tree is marked transposed.
    pub fn from_contraction(contr: TensorContraction, transposed_op: bool) -> (r: Self)
        requires
            contr.wf(),
        ensures
            r.wf(),
            r.transposed_op == transposed_op,
            forall|l: usize| r.inner.on_lane(l) <==> contr.span@.contains(l),
            lowering_of(r, contr, transposed_op),
        decreases contr, 2int,
    {
        let TensorContraction { rank, span, lhs, rhs } = contr;
        let ghost cspan = span;
        proof {
            assert(contr.lhs == lhs && contr.rhs == rhs && contr.span == cspan);
            crate::span::lemma_ascending_bounds(cspan@);
            assert(cspan@.contains(cspan@[0]));
            assert(cspan@.contains(cspan@.last()));
            assert(cspan.spec_end() < MAX_LANES);
            assert forall|l: usize| lhs.on_lane(l) implies cspan@.contains(l) by {}
            assert forall|l: usize| rhs.on_lane(l) implies cspan@.contains(l) by {}
        }
        let left = lower_child(lhs, &span, transposed_op);
        let right = lower_child(rhs, &span, !transposed_op);
        let r = Operation {
            inner: OperationKind::MatrixMultiplication { left, right },
            transposed_op,
        };
        proof {
            let s0 = cspan.spec_start();
            let e0 = cspan.spec_end();
            assert(spans_fill_equal(left, right)) by {
                assert(operand_bounds(left, s0, e0) && operand_bounds(right, s0, e0));
            }
            assert forall|l: usize| r.inner.on_lane(l) <==> cspan@.contains(l) by {
                if cspan@.contains(l) {
                    assert(contr.span@.contains(l));
                    assert(contr.lhs.on_lane(l) || contr.rhs.on_lane(l));
                    if lhs.on_lane(l) {
                        assert(left.on_lane(l));
                    } else {
                        assert(rhs.on_lane(l));
                        assert(right.on_lane(l));
                    }
                    assert(r.inner.on_lane(l));
                }
                if r.inner.on_lane(l) {
                    if left.on_lane(l) {
                        assert(cspan@.contains(l));
                    } else {
                        assert(right.on_lane(l));
                        assert(cspan@.contains(l));
                    }
                }
            }
            assert(lowered_child(left, contr.lhs, contr.span, transposed_op));
            assert(lowered_child(right, contr.rhs, contr.span, !transposed_op));
            assert(lowering_of(r, contr, transposed_op));
        }
        r
    }
}

/// Lowers one child of a contraction onto the combined span: a child whose
/// filled span already matches the combined span's filled form passes
/// through, any other child is wrapped in a tensor expansion whose target
/// is the combined span.
fn lower_child(child: TensorKind, span: &Span, transposed_op: bool) -> (r: Operand)
    requires
        child.wf(),
        span.wf(),
        span@.len() > 0,
        span.spec_end() < MAX_LANES,
        forall|l: usize| child.on_lane(l) ==> span@.contains(l),
        forall|l: usize| span@.contains(l) ==> l < MAX_LANES,
    ensures
        r.wf(transposed_op),
        operand_bounds(r, span.spec_start(), span.spec_end()),
        forall|l: usize| r.on_lane(l) ==> span@.contains(l),
        forall|l: usize| child.on_lane(l) ==> r.on_lane(l),
        lowered_child(r, child, *span, transposed_op),
    decreases child, 1int,
{
    let ghost gchild = child;
    let child_span = child.span();
    proof {
        crate::span::lemma_ascending_bounds(span@);
        crate::span::lemma_ascending_bounds(child_span@);
        assert(child_span@.contains(child_span@[0]));
        assert(child_span@.contains(child_span@.last()));
        assert(child.on_lane(child_span@[0]));
        assert(child.on_lane(child_span@.last()));
        assert(span@.contains(child_span@[0]));
        assert(span@.contains(child_span@.last()));
        assert(child_span.spec_end() < MAX_LANES);
    }
    let fs = span.filled();
    let cs = child_span.filled();
    let fe = fs.eq(&cs);
    if !fe {
        let operand = Operand::from_tensor_kind(child, transposed_op);
        let r = Operand::Operation(
            Box::new(
                Operation {
                    inner: OperationKind::TensorExpansion { target_span: span.clone(), operand },
                    transposed_op,
                },
            ),
        );
        proof {
            assert(span@.contains(span.spec_start()));
            assert(span@.contains(span.spec_end()));
            assert(r.on_lane(span.spec_start()));
            assert forall|l: usize| operand.on_lane(l) implies span.spec_start() <= l
                <= span.spec_end() by {
                assert(gchild.on_lane(l));
                assert(span@.contains(l));
            }
            assert(r.wf(transposed_op));
            // no bound pair of the child matches the combined span, else
            // the two filled spans would have been equal
            assert(!(exists|lo: usize, hi: usize|
                kind_bounds(gchild, lo, hi) && lo == span.spec_start() && hi
                    == span.spec_end())) by {
                if exists|lo: usize, hi: usize|
                    kind_bounds(gchild, lo, hi) && lo == span.spec_start() && hi
                        == span.spec_end() {
                    let (lo, hi) = choose|lo: usize, hi: usize|
                        kind_bounds(gchild, lo, hi) && lo == span.spec_start() && hi
                            == span.spec_end();
                    assert(child_span@[0] == lo && child_span@.last() == hi) by {
                        assert(gchild.on_lane(child_span@[0]));
                        assert(gchild.on_lane(child_span@.last()));
                        assert(lo <= child_span@[0] && child_span@.last() <= hi);
                        assert(child_span@.contains(lo));
                        assert(child_span@.contains(hi));
                    }
                    assert(fs@ =~= cs@);
                    assert(false);
                }
            }
            assert(lowered_child(r, gchild, *span, transposed_op));
        }
        r
    } else {
        let r = Operand::from_tensor_kind(child, transposed_op);
        proof {
            assert(fs@ == cs@);
            assert(fs@[0] == cs@[0] && fs@.last() == cs@.last());
            assert(child_span.spec_start() == span.spec_start());
            assert(child_span.spec_end() == span.spec_end());
            assert(r.on_lane(span.spec_start())) by {
                assert(child.on_lane(child_span@[0]));
            }
            assert(r.on_lane(span.spec_end())) by {
                assert(child.on_lane(child_span@.last()));
            }
            assert forall|l: usize| r.on_lane(l) implies span.spec_start() <= l
                <= span.spec_end() by {
                assert(gchild.on_lane(l));
                assert(child_span@.contains(l));
            }
            // the child's own bounds match the combined span, so it passes
            // through
            assert(kind_bounds(gchild, span.spec_start(), span.spec_end())) by {
                assert(gchild.on_lane(child_span@[0]));
                assert(gchild.on_lane(child_span@.last()));
                assert forall|m: usize| gchild.on_lane(m) implies span.spec_start() <= m
                    <= span.spec_end() by {
                    assert(child_span@.contains(m));
                }
            }
            assert(lowered_child(r, gchild, *span, transposed_op));
        }
        r
    }
}

/// Holds when `lo` and `hi` are the least and the greatest lane the tensor
/// touches.
pub open spec fn kind_bounds(k: TensorKind, lo: usize, hi: usize) -> bool {
    &&& k.on_lane(lo)
    &&& k.on_lane(hi)
    &&& (forall|m: usize| k.on_lane(m) ==> lo <= m <= hi)
}

/// Holds when an operand realises a tensor of the network: a gate leaf
/// stays a gate, a contraction becomes a nested operation that is its
/// lowering under the given transposition flag.
pub open spec fn kind_operand_of(o: Operand, k: TensorKind, t: bool) -> bool
    decreases k, 0int,
{
    match k {
        TensorKind::Gate(g) => (o matches Operand::Gate(g2) && *g2 == *g),
        TensorKind::Contraction(c) => (o matches Operand::Operation(sub) && lowering_of(
            *sub,
            *c,
            t,
        )),
    }
}

/// Holds when an operand realises a child of a contraction onto the
/// combined span: a child whose filled span equals the combined filled span
/// passes straight through, any other child is wrapped in a tensor
/// expansion whose target is the combined span.
pub open spec fn lowered_child(o: Operand, child: TensorKind, span: Span, t: bool) -> bool
    decreases child, 1int,
{
    if exists|lo: usize, hi: usize|
        kind_bounds(child, lo, hi) && lo == span.spec_start() && hi == span.spec_end() {
        kind_operand_of(o, child, t)
    } else {
        (o matches Operand::Operation(w) && w.transposed_op == t && (w.inner matches
        OperationKind::TensorExpansion { target_span, operand } && target_span@ == span@
            && kind_operand_of(operand, child, t)))
    }
}

/// Holds when an operation is the lowering of a contraction under the given
/// transposition flag: a matrix multiplication whose operands realise the
/// two children onto the combined span, the right one with a flipped flag.
pub open spec fn lowering_of(op: Operation, contr: TensorContraction, t: bool) -> bool
    decreases contr, 2int,
{
    &&& op.transposed_op == t
    &&& (op.inner matches OperationKind::MatrixMultiplication { left, right } && lowered_child(
        left,
        contr.lhs,
        contr.span,
        t,
    ) && lowered_child(right, contr.rhs, contr.span, !t))
}

/// Holds when `s` and `e` are the least and the greatest lane the operand
/// touches.
pub open spec fn operand_bounds(o: Operand, s: usize, e: usize) -> bool {
    &&& o.on_lane(s)
    &&& o.on_lane(e)
    &&& (forall|m: usize| o.on_lane(m) ==> s <= m <= e)
}

/// Two operands have equal filled spans: they share their least and their
/// greatest lane.
pub open spec fn spans_fill_equal(a: Operand, b: Operand) -> bool {
    exists|s: usize, e: usize| operand_bounds(a, s, e) && operand_bounds(b, s, e)
}

} // verus!
