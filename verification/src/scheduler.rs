//! The instruction scheduler: an operation tree is linearised by post-order
//! traversal into a map of primitive kernel instructions with explicit
//! dataflow addresses, and a ready-queue plan surfaces the instructions
//! whose inputs are available.
//!
//! The plan's three maps are hashbrown hash maps behind trusted wrappers;
//! the scheduling, readiness and completion logic on top is verified.

use vstd::prelude::*;
use crate::gates::Gate;

use crate::op_tree::Operand;
use crate::op_tree::Operation;
use crate::op_tree::OperationKind;

verus! {

broadcast use vstd::seq_lib::lemma_seq_contains_after_push;

/// The serialisation layout of a matrix on the wire.
#[derive(Clone, Copy, PartialEq, Eq, Structural, Debug)]
pub enum SerializeFormat {
    /// Column by column.
    ColumnMajor,
    /// Row by row.
    RowMajor,
}

/// An instruction operand: an inline block or the address of another
/// instruction whose result it consumes.
#[derive(Clone, Copy, PartialEq, Eq)]
pub enum ExecutionOperand<B> {
    /// An inline block.
    Block(B),
    /// The id of the instruction that produces the operand.
    Address(usize),
}

/// An inline block of a scheduled instruction: a bare gate, or an identity
/// matrix over the given number of qubit lanes.  The numeric entries are
/// the executor's business; the scheduler only names them.
#[derive(Clone, Copy, PartialEq, Eq)]
pub enum PlanBlock {
    /// The block of a gate.
    Gate(Gate),
    /// An identity block over the given number of qubit lanes.
    Identity(usize),
}

/// A primitive kernel with its two operands.
#[derive(Clone, Copy, PartialEq, Eq)]
pub enum Kernel {
    /// Tensor product.
    TE { left: ExecutionOperand<PlanBlock>, right: ExecutionOperand<PlanBlock> },
    /// Matrix multiplication.
    MM { left: ExecutionOperand<PlanBlock>, right: ExecutionOperand<PlanBlock> },
}

/// A scheduled primitive instruction.
#[derive(Clone)]
pub struct OperationInstruction {
    /// The id of the instruction.
    pub id: usize,
    /// The ids of the instructions this one waits for.
    pub dependencies: Vec<usize>,
    /// The kernel to run with its operands.
    pub kernel: Kernel,
    /// The serialisation layout of the left operand.
    pub left_format: SerializeFormat,
}

/// Holds when an address operand is listed as a dependency.
pub open spec fn operand_dep_ok(o: ExecutionOperand<PlanBlock>, deps: Seq<usize>) -> bool {
    match o {
        ExecutionOperand::Address(a) => deps.contains(a),
        ExecutionOperand::Block(_) => true,
    }
}

impl OperationInstruction {
    /// Holds when every dependency precedes the instruction and every
    /// address operand appears among the dependencies.
    pub open spec fn wf(self) -> bool {
        &&& (forall|k: int|
            0 <= k < self.dependencies@.len() ==> #[trigger] self.dependencies@[k] < self.id)
        &&& self.dependencies@.no_duplicates()
        &&& match self.kernel {
            Kernel::TE { left, right } => operand_dep_ok(left, self.dependencies@)
                && operand_dep_ok(right, self.dependencies@),
            Kernel::MM { left, right } => operand_dep_ok(left, self.dependencies@)
                && operand_dep_ok(right, self.dependencies@),
        }
    }
}

/// The number of instructions the lowering of an operation tree emits: two
/// tensor products per expansion, one multiplication per multiplication,
/// plus the instructions of nested operations.
pub open spec fn lowered_count(op: Operation) -> nat
    decreases op,
{
    match op.inner {
        OperationKind::TensorExpansion { target_span, operand } => 2 + operand_lowered(operand),
        OperationKind::MatrixMultiplication { left, right } => 1 + operand_lowered(left)
            + operand_lowered(right),
    }
}

/// The number of instructions a lowering operand contributes.
pub open spec fn operand_lowered(o: Operand) -> nat
    decreases o,
{
    match o {
        Operand::Operation(sub) => lowered_count(*sub),
        Operand::Gate(_) => 0,
    }
}

/// Holds when an instruction operand realises a lowering operand: a gate
/// stays an inline gate block, a nested operation becomes the address of an
/// earlier instruction that is in turn that operation's lowering.
pub open spec fn operand_mirrors(
    s: Seq<OperationInstruction>,
    x: ExecutionOperand<PlanBlock>,
    o: Operand,
    bound: int,
) -> bool
    decreases o,
{
    match o {
        Operand::Gate(g) => x == ExecutionOperand::<PlanBlock>::Block(PlanBlock::Gate(*g)),
        Operand::Operation(sub) => (x matches ExecutionOperand::Address(a) && a < bound
            && lowers_to(s, a as int, *sub)),
    }
}

/// Holds when the instructions at and below the root index are the
/// post-order lowering of the operation tree.
///
/// An expansion is two tensor products: the first pads the operand on the
/// left with an identity of width `start(operand) - start(target)` lanes,
/// the second pads the first's result on the right with an identity of
/// width `end(target) - end(operand)` lanes and is serialised column major.
/// A multiplication is one instruction over the two realised operands.  The
/// left layout of a root instruction follows the node's transposition flag.
pub open spec fn lowers_to(s: Seq<OperationInstruction>, root: int, op: Operation) -> bool
    decreases op,
{
    &&& 0 <= root < s.len()
    &&& match op.inner {
        OperationKind::TensorExpansion { target_span, operand } => {
            &&& root >= 1
            &&& (exists|lo: usize, hi: usize|
                #![auto]
                {
                    &&& crate::op_tree::operand_bounds(operand, lo, hi)
                    &&& s[root].kernel == Kernel::TE {
                        left: ExecutionOperand::Address((root - 1) as usize),
                        right: ExecutionOperand::Block(
                            PlanBlock::Identity((target_span.spec_end() - hi) as usize),
                        ),
                    }
                    &&& (s[root - 1].kernel matches Kernel::TE { left: l1, right: r1 } && l1
                        == ExecutionOperand::<PlanBlock>::Block(
                        PlanBlock::Identity((lo - target_span.spec_start()) as usize),
                    ) && operand_mirrors(s, r1, operand, root - 1))
                })
            &&& s[root].left_format == SerializeFormat::ColumnMajor
            &&& s[root - 1].left_format == (if op.transposed_op {
                SerializeFormat::ColumnMajor
            } else {
                SerializeFormat::RowMajor
            })
        },
        OperationKind::MatrixMultiplication { left, right } => {
            &&& (s[root].kernel matches Kernel::MM { left: l, right: r } && operand_mirrors(
                s,
                l,
                left,
                root,
            ) && operand_mirrors(s, r, right, root))
            &&& s[root].left_format == (if op.transposed_op {
                SerializeFormat::ColumnMajor
            } else {
                SerializeFormat::RowMajor
            })
        },
    }
}

/// The lowering mirror only reads entries up to the root, so it survives
/// appending.
proof fn lemma_lowers_prefix(
    s: Seq<OperationInstruction>,
    s2: Seq<OperationInstruction>,
    root: int,
    op: Operation,
)
    requires
        lowers_to(s, root, op),
        s.len() <= s2.len(),
        forall|k: int| 0 <= k < s.len() ==> s2[k] == s[k],
    ensures
        lowers_to(s2, root, op),
    decreases op,
{
    match op.inner {
        OperationKind::TensorExpansion { target_span, operand } => {
            let (lo, hi) = choose|lo: usize, hi: usize|
                #![auto]
                {
                    &&& crate::op_tree::operand_bounds(operand, lo, hi)
                    &&& s[root].kernel == Kernel::TE {
                        left: ExecutionOperand::Address((root - 1) as usize),
                        right: ExecutionOperand::Block(
                            PlanBlock::Identity((target_span.spec_end() - hi) as usize),
                        ),
                    }
                    &&& (s[root - 1].kernel matches Kernel::TE { left: l1, right: r1 } && l1
                        == ExecutionOperand::<PlanBlock>::Block(
                        PlanBlock::Identity((lo - target_span.spec_start()) as usize),
                    ) && operand_mirrors(s, r1, operand, root - 1))
                };
            lemma_operand_mirrors_prefix(s, s2, s[root - 1].kernel->TE_right, operand, root - 1);
        },
        OperationKind::MatrixMultiplication { left, right } => {
            lemma_operand_mirrors_prefix(s, s2, s[root].kernel->MM_left, left, root);
            lemma_operand_mirrors_prefix(s, s2, s[root].kernel->MM_right, right, root);
        },
    }
}

/// The operand mirror only reads entries below the bound, so it survives
/// appending.
proof fn lemma_operand_mirrors_prefix(
    s: Seq<OperationInstruction>,
    s2: Seq<OperationInstruction>,
    x: ExecutionOperand<PlanBlock>,
    o: Operand,
    bound: int,
)
    requires
        operand_mirrors(s, x, o, bound),
        s.len() <= s2.len(),
        forall|k: int| 0 <= k < s.len() ==> s2[k] == s[k],
    ensures
        operand_mirrors(s2, x, o, bound),
    decreases o,
{
    match o {
        Operand::Gate(_) => {},
        Operand::Operation(sub) => {
            let a = x->Address_0;
            lemma_lowers_prefix(s, s2, a as int, *sub);
        },
    }
}

/// Linearises an operation tree onto the end of an instruction list by
/// post-order traversal, allocating the next sequential ids, and returns
/// the id of the operation's root instruction.
///
/// A tensor expansion becomes two tensor-product instructions: the left
/// identity padding first, then the right identity padding on its result.
fn populate(instrs: &mut Vec<OperationInstruction>, operation: Operation) -> (id: usize)
    requires
        operation.wf(),
    ensures
        final(instrs)@.len() == old(instrs)@.len() + lowered_count(operation),
        id == final(instrs)@.len() - 1,
        forall|k: int| 0 <= k < old(instrs)@.len() ==> final(instrs)@[k] == old(instrs)@[k],
        forall|k: int|
            old(instrs)@.len() <= k < final(instrs)@.len() ==> (#[trigger] final(instrs)@[k]).id
                == k && final(instrs)@[k].wf(),
        lowers_to(final(instrs)@, id as int, operation),
    decreases operation,
{
    match operation.inner {
        OperationKind::TensorExpansion { target_span, operand } => {
            proof {
                assert(operand.wf(operation.transposed_op));
            }
            let ghost gop = operand;
            let op_span = operand.span();
            proof {
                crate::span::lemma_ascending_bounds(op_span@);
                crate::span::lemma_ascending_bounds(target_span@);
                assert(op_span@.contains(op_span@[0]));
                assert(op_span@.contains(op_span@.last()));
                assert(operand.on_lane(op_span@[0]));
                assert(operand.on_lane(op_span@.last()));
                assert(crate::op_tree::operand_bounds(gop, op_span@[0], op_span@.last())) by {
                    assert forall|m: usize| gop.on_lane(m) implies op_span@[0] <= m
                        <= op_span@.last() by {
                        assert(op_span@.contains(m));
                    }
                }
            }
            let ghost lo = op_span@[0];
            let ghost hi = op_span@.last();
            let mut dependencies: Vec<usize> = Vec::new();
            let op = match operand {
                Operand::Operation(inner_op) => {
                    let ghost ginner = *inner_op;
                    let dep = populate(instrs, *inner_op);
                    proof {
                        assert(lowers_to(instrs@, dep as int, ginner));
                    }
                    dependencies.push(dep);
                    ExecutionOperand::Address(dep)
                },
                Operand::Gate(gate) => ExecutionOperand::Block(PlanBlock::Gate(*gate)),
            };
            let ghost mid = instrs@;
            proof {
                assert(operand_mirrors(mid, op, gop, mid.len() as int)) by {
                    match gop {
                        Operand::Operation(sub) => {
                            let a = op->Address_0;
                            assert(lowers_to(mid, a as int, *sub));
                        },
                        Operand::Gate(_) => {},
                    }
                }
            }
            let id_dim = op_span.start() - target_span.start();
            let left = ExecutionOperand::Block(PlanBlock::Identity(id_dim));
            let first_id = instrs.len();
            let ghost deps_view = dependencies@;
            let first_te = OperationInstruction {
                id: first_id,
                dependencies,
                kernel: Kernel::TE { left, right: op },
                left_format: if operation.transposed_op {
                    SerializeFormat::ColumnMajor
                } else {
                    SerializeFormat::RowMajor
                },
            };
            proof {
                assert(first_te.wf()) by {
                    match op {
                        ExecutionOperand::Address(a) => {
                            assert(deps_view.contains(a)) by {
                                assert(deps_view[0] == a);
                            }
                        },
                        ExecutionOperand::Block(_) => {},
                    }
                }
            }
            instrs.push(first_te);

            let left = ExecutionOperand::Address(first_id);
            let id_dim = target_span.end() - op_span.end();
            let right = ExecutionOperand::Block(PlanBlock::Identity(id_dim));
            let id = instrs.len();
            let second_deps = vec![first_id];
            proof {
                assert(second_deps@ =~= seq![first_id]);
                assert(second_deps@.contains(first_id)) by {
                    assert(second_deps@[0] == first_id);
                }
            }
            let second_te = OperationInstruction {
                id,
                dependencies: second_deps,
                kernel: Kernel::TE { left, right },
                left_format: SerializeFormat::ColumnMajor,
            };
            proof {
                assert(second_te.wf());
            }
            instrs.push(second_te);
            proof {
                assert(instrs@[id - 1] == first_te);
                assert(instrs@[id as int] == second_te);
                assert(operand_mirrors(instrs@, op, gop, id - 1)) by {
                    match gop {
                        Operand::Operation(sub) => {
                            let a = op->Address_0;
                            lemma_lowers_prefix(mid, instrs@, a as int, *sub);
                        },
                        Operand::Gate(_) => {},
                    }
                }
                assert(lowers_to(instrs@, id as int, operation)) by {
                    assert(first_te.kernel matches Kernel::TE { left: l1, right: r1 } && l1
                        == ExecutionOperand::<PlanBlock>::Block(
                        PlanBlock::Identity((lo - target_span.spec_start()) as usize),
                    ) && operand_mirrors(instrs@, r1, gop, id - 1));
                    assert(second_te.kernel == Kernel::TE {
                        left: ExecutionOperand::<PlanBlock>::Address((id - 1) as usize),
                        right: ExecutionOperand::Block(
                            PlanBlock::Identity((target_span.spec_end() - hi) as usize),
                        ),
                    });
                    assert(crate::op_tree::operand_bounds(gop, lo, hi));
                }
            }
            id
        },
        OperationKind::MatrixMultiplication { left, right } => {
            let ghost gleft = left;
            let ghost gright = right;
            let mut dependencies: Vec<usize> = Vec::new();
            let left = match left {
                Operand::Operation(op) => {
                    let ghost ginner = *op;
                    let dep = populate(instrs, *op);
                    proof {
                        assert(lowers_to(instrs@, dep as int, ginner));
                    }
                    dependencies.push(dep);
                    ExecutionOperand::Address(dep)
                },
                Operand::Gate(gate) => ExecutionOperand::Block(PlanBlock::Gate(*gate)),
            };
            let ghost lmid = instrs@;
            proof {
                assert(operand_mirrors(lmid, left, gleft, lmid.len() as int)) by {
                    match gleft {
                        Operand::Operation(sub) => {
                            let a = left->Address_0;
                            assert(lowers_to(lmid, a as int, *sub));
                        },
                        Operand::Gate(_) => {},
                    }
                }
            }
            let right = match right {
                Operand::Operation(op) => {
                    let ghost ginner = *op;
                    let dep = populate(instrs, *op);
                    proof {
                        assert(lowers_to(instrs@, dep as int, ginner));
                    }
                    dependencies.push(dep);
                    ExecutionOperand::Address(dep)
                },
                Operand::Gate(gate) => ExecutionOperand::Block(PlanBlock::Gate(*gate)),
            };
            let ghost rmid = instrs@;
            proof {
                assert(operand_mirrors(rmid, left, gleft, rmid.len() as int)) by {
                    match gleft {
                        Operand::Operation(sub) => {
                            let a = left->Address_0;
                            lemma_lowers_prefix(lmid, rmid, a as int, *sub);
                        },
                        Operand::Gate(_) => {},
                    }
                }
                assert(operand_mirrors(rmid, right, gright, rmid.len() as int)) by {
                    match gright {
                        Operand::Operation(sub) => {
                            let a = right->Address_0;
                            assert(lowers_to(rmid, a as int, *sub));
                        },
                        Operand::Gate(_) => {},
                    }
                }
            }
            let id = instrs.len();
            let ghost deps_view = dependencies@;
            let mm = OperationInstruction {
                id,
                dependencies,
                kernel: Kernel::MM { left, right },
                left_format: if operation.transposed_op {
                    SerializeFormat::ColumnMajor
                } else {
                    SerializeFormat::RowMajor
                },
            };
            proof {
                assert(mm.wf()) by {
                    assert(deps_view.no_duplicates());
                    match left {
                        ExecutionOperand::Address(a) => {
                            assert(deps_view.contains(a)) by {
                                assert(deps_view[0] == a);
                            }
                        },
                        ExecutionOperand::Block(_) => {},
                    }
                    match right {
                        ExecutionOperand::Address(a) => {
                            assert(deps_view.contains(a)) by {
                                assert(deps_view[deps_view.len() - 1] == a);
                            }
                        },
                        ExecutionOperand::Block(_) => {},
                    }
                }
            }
            instrs.push(mm);
            proof {
                assert(instrs@[id as int] == mm);
                assert(operand_mirrors(instrs@, left, gleft, id as int)) by {
                    match gleft {
                        Operand::Operation(sub) => {
                            let a = left->Address_0;
                            lemma_lowers_prefix(rmid, instrs@, a as int, *sub);
                        },
                        Operand::Gate(_) => {},
                    }
                }
                assert(operand_mirrors(instrs@, right, gright, id as int)) by {
                    match gright {
                        Operand::Operation(sub) => {
                            let a = right->Address_0;
                            lemma_lowers_prefix(rmid, instrs@, a as int, *sub);
                        },
                        Operand::Gate(_) => {},
                    }
                }
                assert(lowers_to(instrs@, id as int, operation));
            }
            id
        },
    }
}

/// The instruction store of a plan, backed by hashbrown's hash map.  The
/// hash map's declaration carries an allocator type parameter that cannot
/// be declared here, so the collection lives in an opaque struct of its
/// own.
#[verifier::external_body]
pub struct InstrMap {
    inner: hashbrown::HashMap<usize, OperationInstruction>,
}

/// The instructions an instruction store holds, by id.
pub uninterp spec fn instr_map_of(m: InstrMap) -> Map<usize, OperationInstruction>;

/// Two instructions carry the same schedule content; their dependency
/// lists are equal element for element.
pub open spec fn instr_equiv(a: OperationInstruction, b: OperationInstruction) -> bool {
    &&& a.id == b.id
    &&& a.dependencies@ == b.dependencies@
    &&& a.kernel == b.kernel
    &&& a.left_format == b.left_format
}

/// Relies on hashbrown's HashMap::new: the new map is empty.
#[verifier::external_body]
fn instr_map_new() -> (m: InstrMap)
    ensures
        instr_map_of(m).dom() == Set::<usize>::empty(),
{
    InstrMap { inner: hashbrown::HashMap::new() }
}

/// Relies on hashbrown's HashMap::insert: it stores the value under the
/// key, replacing any previous value.
#[verifier::external_body]
fn instr_map_insert(m: &mut InstrMap, k: usize, v: OperationInstruction)
    ensures
        instr_map_of(*final(m)) == instr_map_of(*old(m)).insert(k, v),
{
    let _ = m.inner.insert(k, v);
}

/// Relies on hashbrown's HashMap::remove: it takes the key's value out.
#[verifier::external_body]
fn instr_map_remove(m: &mut InstrMap, k: usize) -> (r: Option<OperationInstruction>)
    ensures
        instr_map_of(*final(m)) == instr_map_of(*old(m)).remove(k),
        r is Some <==> instr_map_of(*old(m)).dom().contains(k),
{
    m.inner.remove(&k)
}

/// Relies on hashbrown's HashMap::get: the returned instruction is a field
/// for field copy of the stored one.
#[verifier::external_body]
fn instr_map_get(m: &InstrMap, k: usize) -> (r: Option<OperationInstruction>)
    ensures
        match r {
            Some(v) => instr_map_of(*m).dom().contains(k) && instr_equiv(v, instr_map_of(*m)[k]),
            None => !instr_map_of(*m).dom().contains(k),
        },
{
    m.inner.get(&k).cloned()
}

/// Relies on hashbrown's HashMap::len: the number of stored keys.
#[verifier::external_body]
fn instr_map_len(m: &InstrMap) -> (n: usize)
    ensures
        n == instr_map_of(*m).dom().len(),
{
    m.inner.len()
}

/// A map from instruction ids to lists of instruction ids, backed by
/// hashbrown's hash map, held opaquely for the same reason as the
/// instruction store.
#[verifier::external_body]
pub struct DepMap {
    inner: hashbrown::HashMap<usize, Vec<usize>>,
}

/// The id lists a dependency map holds, by id.
pub uninterp spec fn dep_map_of(m: DepMap) -> Map<usize, Vec<usize>>;

/// Relies on hashbrown's HashMap::new: the new map is empty.
#[verifier::external_body]
pub(crate) fn dep_map_new() -> (m: DepMap)
    ensures
        dep_map_of(m).dom() == Set::<usize>::empty(),
{
    DepMap { inner: hashbrown::HashMap::new() }
}

/// Relies on hashbrown's HashMap::insert: it stores the list under the
/// key, replacing any previous list.
#[verifier::external_body]
pub(crate) fn dep_map_insert(m: &mut DepMap, k: usize, v: Vec<usize>)
    ensures
        dep_map_of(*final(m)) == dep_map_of(*old(m)).insert(k, v),
{
    let _ = m.inner.insert(k, v);
}

/// Relies on hashbrown's HashMap::remove: it takes the key's list out.
#[verifier::external_body]
pub(crate) fn dep_map_remove(m: &mut DepMap, k: usize) -> (r: Option<Vec<usize>>)
    ensures
        dep_map_of(*final(m)) == dep_map_of(*old(m)).remove(k),
        match r {
            Some(v) => dep_map_of(*old(m)).dom().contains(k) && v == dep_map_of(*old(m))[k],
            None => !dep_map_of(*old(m)).dom().contains(k),
        },
{
    m.inner.remove(&k)
}

/// Relies on hashbrown's HashMap::get: the returned list is an element for
/// element copy of the stored one.
#[verifier::external_body]
pub(crate) fn dep_map_get(m: &DepMap, k: usize) -> (r: Option<Vec<usize>>)
    ensures
        match r {
            Some(v) => dep_map_of(*m).dom().contains(k) && v@ == dep_map_of(*m)[k]@,
            None => !dep_map_of(*m).dom().contains(k),
        },
{
    m.inner.get(&k).cloned()
}

/// Relies on hashbrown's HashMap::keys: every stored key appears exactly
/// once, in no promised order.
#[verifier::external_body]
pub(crate) fn dep_map_keys(m: &DepMap) -> (r: Vec<usize>)
    ensures
        forall|k: int| 0 <= k < r@.len() ==> dep_map_of(*m).dom().contains(#[trigger] r@[k]),
        forall|d: usize|
            dep_map_of(*m).dom().contains(d) ==> exists|k: int|
                0 <= k < r@.len() && #[trigger] r@[k] == d,
        r@.no_duplicates(),
{
    m.inner.keys().copied().collect()
}

/// The lowering mirror, read through a plan's instruction map.
pub open spec fn plan_lowers_at(
    m: Map<usize, OperationInstruction>,
    root: usize,
    op: Operation,
) -> bool
    decreases op,
{
    &&& m.dom().contains(root)
    &&& match op.inner {
        OperationKind::TensorExpansion { target_span, operand } => {
            &&& root >= 1
            &&& m.dom().contains((root - 1) as usize)
            &&& (exists|lo: usize, hi: usize|
                #![auto]
                {
                    &&& crate::op_tree::operand_bounds(operand, lo, hi)
                    &&& m[root].kernel == Kernel::TE {
                        left: ExecutionOperand::Address((root - 1) as usize),
                        right: ExecutionOperand::Block(
                            PlanBlock::Identity((target_span.spec_end() - hi) as usize),
                        ),
                    }
                    &&& (m[(root - 1) as usize].kernel matches Kernel::TE { left: l1, right: r1 }
                        && l1 == ExecutionOperand::<PlanBlock>::Block(
                        PlanBlock::Identity((lo - target_span.spec_start()) as usize),
                    ) && plan_operand_mirrors(m, r1, operand, (root - 1) as usize))
                })
            &&& m[root].left_format == SerializeFormat::ColumnMajor
            &&& m[(root - 1) as usize].left_format == (if op.transposed_op {
                SerializeFormat::ColumnMajor
            } else {
                SerializeFormat::RowMajor
            })
        },
        OperationKind::MatrixMultiplication { left, right } => {
            &&& (m[root].kernel matches Kernel::MM { left: l, right: r } && plan_operand_mirrors(
                m,
                l,
                left,
                root,
            ) && plan_operand_mirrors(m, r, right, root))
            &&& m[root].left_format == (if op.transposed_op {
                SerializeFormat::ColumnMajor
            } else {
                SerializeFormat::RowMajor
            })
        },
    }
}

/// The operand mirror, read through a plan's instruction map.
pub open spec fn plan_operand_mirrors(
    m: Map<usize, OperationInstruction>,
    x: ExecutionOperand<PlanBlock>,
    o: Operand,
    bound: usize,
) -> bool
    decreases o,
{
    match o {
        Operand::Gate(g) => x == ExecutionOperand::<PlanBlock>::Block(PlanBlock::Gate(*g)),
        Operand::Operation(sub) => (x matches ExecutionOperand::Address(a) && a < bound
            && plan_lowers_at(m, a, *sub)),
    }
}

/// Holds when the map stores every listed instruction under its id.
pub open spec fn map_matches(m: Map<usize, OperationInstruction>, s: Seq<OperationInstruction>) -> bool {
    forall|k: usize|
        #![trigger m.dom().contains(k)]
        0 <= k < s.len() ==> m.dom().contains(k) && m[k] == s[k as int]
}

/// The lowering mirror transfers from the built list to a map that stores
/// every listed instruction under its id.
proof fn lemma_lowers_to_map(
    s: Seq<OperationInstruction>,
    m: Map<usize, OperationInstruction>,
    root: int,
    op: Operation,
)
    requires
        lowers_to(s, root, op),
        s.len() <= usize::MAX,
        map_matches(m, s),
    ensures
        plan_lowers_at(m, root as usize, op),
    decreases op,
{
    let rt = root as usize;
    assert(m.dom().contains(rt) && m[rt] == s[root]);
    match op.inner {
        OperationKind::TensorExpansion { target_span, operand } => {
            assert(lowers_to(s, root, op));
            assert(root >= 1);
            assert(rt >= 1 && rt - 1 < s.len());
            assert(m.dom().contains((rt - 1) as usize));
            assert(m[(rt - 1) as usize] == s[root - 1]);
            let (lo, hi) = choose|lo: usize, hi: usize|
                #![auto]
                {
                    &&& crate::op_tree::operand_bounds(operand, lo, hi)
                    &&& s[root].kernel == Kernel::TE {
                        left: ExecutionOperand::Address((root - 1) as usize),
                        right: ExecutionOperand::Block(
                            PlanBlock::Identity((target_span.spec_end() - hi) as usize),
                        ),
                    }
                    &&& (s[root - 1].kernel matches Kernel::TE { left: l1, right: r1 } && l1
                        == ExecutionOperand::<PlanBlock>::Block(
                        PlanBlock::Identity((lo - target_span.spec_start()) as usize),
                    ) && operand_mirrors(s, r1, operand, root - 1))
                };
            let r1 = s[root - 1].kernel->TE_right;
            lemma_operand_mirrors_to_map(s, m, r1, operand, root - 1);
            assert(plan_lowers_at(m, rt, op)) by {
                assert(m[rt].kernel == Kernel::TE {
                    left: ExecutionOperand::Address((rt - 1) as usize),
                    right: ExecutionOperand::Block(
                        PlanBlock::Identity((target_span.spec_end() - hi) as usize),
                    ),
                });
                assert(plan_operand_mirrors(m, r1, operand, (rt - 1) as usize));
            }
        },
        OperationKind::MatrixMultiplication { left, right } => {
            lemma_operand_mirrors_to_map(s, m, s[root].kernel->MM_left, left, root);
            lemma_operand_mirrors_to_map(s, m, s[root].kernel->MM_right, right, root);
        },
    }
}

/// The operand mirror transfers from the built list to the map.
proof fn lemma_operand_mirrors_to_map(
    s: Seq<OperationInstruction>,
    m: Map<usize, OperationInstruction>,
    x: ExecutionOperand<PlanBlock>,
    o: Operand,
    bound: int,
)
    requires
        operand_mirrors(s, x, o, bound),
        0 <= bound <= s.len(),
        s.len() <= usize::MAX,
        map_matches(m, s),
    ensures
        plan_operand_mirrors(m, x, o, bound as usize),
    decreases o,
{
    match o {
        Operand::Gate(_) => {},
        Operand::Operation(sub) => {
            let a = x->Address_0;
            lemma_lowers_to_map(s, m, a as int, *sub);
        },
    }
}

/// A plan of instructions: the instructions themselves, the unmet
/// dependencies of each, and the dependants each one unblocks.
///
/// An instruction is *ready* exactly when its waiting list is empty;
/// marking an instruction done deletes it and removes its id from the
/// waiting list of every dependant.
pub struct OperationPlan {
    pub instructions: InstrMap,
    pub waiting_dep: DepMap,
    pub dependants: DepMap,
}

impl OperationPlan {
    /// The instructions of the plan, by id.
    pub open spec fn instrs(&self) -> Map<usize, OperationInstruction> {
        instr_map_of(self.instructions)
    }

    /// The unmet dependencies of each instruction.
    pub open spec fn waiting(&self) -> Map<usize, Vec<usize>> {
        dep_map_of(self.waiting_dep)
    }

    /// The dependants of each instruction.
    pub open spec fn dependants_of(&self) -> Map<usize, Vec<usize>> {
        dep_map_of(self.dependants)
    }

    /// An instruction is ready when it is in the plan and waits for
    /// nothing.
    pub open spec fn is_ready(&self, id: usize) -> bool {
        self.instrs().dom().contains(id) && self.waiting()[id]@.len() == 0
    }

    /// Holds when the three maps share one domain, every unmet dependency
    /// is a live earlier instruction, and the dependant lists cover the
    /// waiting lists, so that completion reaches every waiter.
    pub open spec fn wf(&self) -> bool {
        &&& self.instrs().dom().finite()
        &&& self.waiting().dom() == self.instrs().dom()
        &&& self.dependants_of().dom() == self.instrs().dom()
        &&& (forall|d: usize| #[trigger]
            self.instrs().dom().contains(d) ==> self.instrs()[d].id == d)
        &&& (forall|d: usize, k: int|
            self.waiting().dom().contains(d) && 0 <= k < self.waiting()[d]@.len() ==> {
                let x = #[trigger] self.waiting()[d]@[k];
                &&& self.instrs().dom().contains(x)
                &&& x < d
                &&& self.dependants_of()[x]@.contains(d)
            })
    }

    /// Builds the plan of an operation tree: the tree is linearised by
    /// post-order traversal, every instruction starts waiting for exactly
    /// its dependencies, and the dependant lists invert the waiting lists.
    pub fn from_operation(value: Operation) -> (r: OperationPlan)
        requires
            value.wf(),
        ensures
            r.wf(),
            r.instrs().dom().len() == lowered_count(value),
            forall|id: usize| #[trigger]
                r.instrs().dom().contains(id) <==> id < lowered_count(value),
            forall|id: usize| #[trigger]
                r.instrs().dom().contains(id) ==> r.instrs()[id].wf() && r.instrs()[id].id == id
                    && r.waiting()[id]@ == r.instrs()[id].dependencies@,
            // the dependant lists are exactly the inverse of the
            // dependency relation
            forall|x: usize, d: usize|
                #![trigger r.dependants_of()[x]@.contains(d)]
                r.instrs().dom().contains(x) ==> (r.dependants_of()[x]@.contains(d) <==> (
                r.instrs().dom().contains(d) && r.instrs()[d].dependencies@.contains(x))),
            plan_lowers_at(r.instrs(), (lowered_count(value) - 1) as usize, value),
    {
        let mut instrs: Vec<OperationInstruction> = Vec::new();
        let root = populate(&mut instrs, value);
        let n = instrs.len();
        let ghost iv = instrs@;
        proof {
            assert(n == lowered_count(value));
            assert(root == n - 1);
            assert(lowers_to(iv, root as int, value));
        }

        let mut waiting_dep = dep_map_new();
        let mut dependants = dep_map_new();
        let mut k: usize = 0;
        while k < n
            invariant
                n == iv.len(),
                instrs@ == iv,
                k <= n,
                forall|p: int| 0 <= p < n ==> (#[trigger] iv[p]).id == p && iv[p].wf(),
                dep_map_of(waiting_dep).dom() =~= Set::new(|x: usize| x < k),
                dep_map_of(dependants).dom() =~= Set::new(|x: usize| x < k),
                forall|d: usize| #[trigger]
                    dep_map_of(waiting_dep).dom().contains(d) ==> dep_map_of(waiting_dep)[d]@
                        == iv[d as int].dependencies@,
                forall|d: usize| #[trigger]
                    dep_map_of(dependants).dom().contains(d) ==> dep_map_of(dependants)[d]@
                        =~= Seq::<usize>::empty(),
            decreases n - k,
        {
            let deps = instrs[k].dependencies.clone();
            dep_map_insert(&mut waiting_dep, k, deps);
            dep_map_insert(&mut dependants, k, Vec::new());
            k = k + 1;
        }

        proof {
            assert(dep_map_of(waiting_dep).dom() =~= Set::new(|x: usize| x < n));
            assert(dep_map_of(dependants).dom() =~= Set::new(|x: usize| x < n));
            assert forall|x: usize, d: usize|
                #![trigger dep_map_of(dependants)[x]@.contains(d)]
                x < n && dep_map_of(dependants)[x]@.contains(d) implies d < n
                && iv[d as int].dependencies@.contains(x) by {
                assert(dep_map_of(dependants).dom().contains(x));
                assert(dep_map_of(dependants)[x]@ =~= Seq::<usize>::empty());
            }
        }

        // invert the waiting lists into the dependant lists
        let mut k2: usize = 0;
        while k2 < n
            invariant
                n == iv.len(),
                instrs@ == iv,
                k2 <= n,
                forall|p: int| 0 <= p < n ==> (#[trigger] iv[p]).id == p && iv[p].wf(),
                dep_map_of(waiting_dep).dom() =~= Set::new(|x: usize| x < n),
                dep_map_of(dependants).dom() =~= Set::new(|x: usize| x < n),
                forall|d: usize| #[trigger]
                    dep_map_of(waiting_dep).dom().contains(d) ==> dep_map_of(waiting_dep)[d]@
                        == iv[d as int].dependencies@,
                forall|d: usize, j: int|
                    0 <= d < k2 && 0 <= j < iv[d as int].dependencies@.len()
                        ==> dep_map_of(dependants)[#[trigger] iv[d as int].dependencies@[j]]@
                        .contains(d),
                forall|x: usize, d: usize|
                    #![trigger dep_map_of(dependants)[x]@.contains(d)]
                    x < n && dep_map_of(dependants)[x]@.contains(d) ==> d < n
                        && iv[d as int].dependencies@.contains(x),
            decreases n - k2,
        {
            let deps = instrs[k2].dependencies.clone();
            let mut j: usize = 0;
            while j < deps.len()
                invariant
                    n == iv.len(),
                    instrs@ == iv,
                    k2 < n,
                    j <= deps@.len(),
                    deps@ == iv[k2 as int].dependencies@,
                    forall|p: int| 0 <= p < n ==> (#[trigger] iv[p]).id == p && iv[p].wf(),
                    dep_map_of(waiting_dep).dom() =~= Set::new(|x: usize| x < n),
                    dep_map_of(dependants).dom() =~= Set::new(|x: usize| x < n),
                    forall|d: usize| #[trigger]
                        dep_map_of(waiting_dep).dom().contains(d) ==> dep_map_of(waiting_dep)[d]@
                            == iv[d as int].dependencies@,
                    forall|d: usize, j2: int|
                        0 <= d < k2 && 0 <= j2 < iv[d as int].dependencies@.len()
                            ==> dep_map_of(dependants)[#[trigger] iv[d as int].dependencies@[j2]]@
                            .contains(d),
                    forall|j2: int|
                        0 <= j2 < j ==> dep_map_of(dependants)[#[trigger] deps@[j2]]@.contains(k2),
                    forall|x: usize, d: usize|
                        #![trigger dep_map_of(dependants)[x]@.contains(d)]
                        x < n && dep_map_of(dependants)[x]@.contains(d) ==> d < n
                            && iv[d as int].dependencies@.contains(x),
                decreases deps@.len() - j,
            {
                let dep = deps[j];
                proof {
                    assert(iv[k2 as int].wf());
                    assert(iv[k2 as int].dependencies@[j as int] < k2);
                }
                let lst = dep_map_remove(&mut dependants, dep);
                match lst {
                    Some(mut v) => {
                        v.push(k2);
                        dep_map_insert(&mut dependants, dep, v);
                    },
                    None => {
                        proof {
                            assert(false);
                        }
                    },
                }
                j = j + 1;
            }
            k2 = k2 + 1;
        }

        // move the instructions into the store, highest id first
        let mut instructions = instr_map_new();
        let ghost total = n;
        proof {
            assert(instrs@ =~= iv.subrange(0, instrs@.len() as int));
            assert(instr_map_of(instructions).dom() =~= Set::new(
                |x: usize| instrs@.len() <= x < total,
            ));
        }
        while instrs.len() > 0
            invariant
                instrs@ == iv.subrange(0, instrs@.len() as int),
                instrs@.len() <= total,
                total == iv.len(),
                instr_map_of(instructions).dom() =~= Set::new(
                    |x: usize| instrs@.len() <= x < total,
                ),
                instr_map_of(instructions).dom().finite(),
                forall|p: int| 0 <= p < iv.len() ==> (#[trigger] iv[p]).id == p && iv[p].wf(),
                forall|d: usize| #[trigger]
                    instr_map_of(instructions).dom().contains(d) ==> instr_map_of(instructions)[d]
                        == iv[d as int],
            decreases instrs@.len(),
        {
            let ghost pre = instrs@;
            let instr = match instrs.pop() {
                Some(x) => x,
                None => vstd::pervasive::unreached(),
            };
            proof {
                assert(pre == iv.subrange(0, pre.len() as int));
                assert(pre[pre.len() - 1] == iv.subrange(0, pre.len() as int)[pre.len() - 1]);
                assert(pre[pre.len() - 1] == iv[pre.len() - 1]);
                assert(instr == pre[pre.len() - 1]);
                assert(instr.id == pre.len() - 1);
                assert(instrs@ =~= iv.subrange(0, instrs@.len() as int));
            }
            instr_map_insert(&mut instructions, instr.id, instr);
        }

        let r = OperationPlan { instructions, waiting_dep, dependants };
        proof {
            assert(r.instrs().dom() =~= Set::new(|x: usize| x < total));
            assert(r.waiting().dom() =~= r.instrs().dom());
            assert(r.dependants_of().dom() =~= r.instrs().dom());
            lemma_usize_range_len(n);
            assert(r.instrs().dom().len() == lowered_count(value));
            assert(map_matches(r.instrs(), iv)) by {
                assert forall|k: usize|
                    #![trigger r.instrs().dom().contains(k)]
                    0 <= k < iv.len() implies r.instrs().dom().contains(k) && r.instrs()[k]
                    == iv[k as int] by {
                    assert(r.instrs().dom().contains(k));
                }
            }
            lemma_lowers_to_map(iv, r.instrs(), root as int, value);
            assert forall|x: usize, d: usize|
                #![trigger r.dependants_of()[x]@.contains(d)]
                r.instrs().dom().contains(x) implies (r.dependants_of()[x]@.contains(d) <==> (
            r.instrs().dom().contains(d) && r.instrs()[d].dependencies@.contains(x))) by {
                assert(x < total);
                if r.instrs().dom().contains(d) && r.instrs()[d].dependencies@.contains(x) {
                    assert(d < total);
                    assert(r.instrs()[d] == iv[d as int]);
                    assert(iv[d as int].dependencies@.contains(x));
                    let j = choose|j: int|
                        0 <= j < iv[d as int].dependencies@.len() && iv[d as int].dependencies@[j]
                            == x;
                    assert(dep_map_of(r.dependants)[iv[d as int].dependencies@[j]]@.contains(d));
                    assert(r.dependants_of()[x]@.contains(d));
                }
                if r.dependants_of()[x]@.contains(d) {
                    assert(d < total && iv[d as int].dependencies@.contains(x));
                    assert(r.instrs().dom().contains(d));
                    assert(r.instrs()[d] == iv[d as int]);
                    assert(r.instrs()[d].dependencies@.contains(x));
                }
            }
            assert forall|d: usize, k3: int|
                r.waiting().dom().contains(d) && 0 <= k3 < r.waiting()[d]@.len() implies {
                let x = #[trigger] r.waiting()[d]@[k3];
                &&& r.instrs().dom().contains(x)
                &&& x < d
                &&& r.dependants_of()[x]@.contains(d)
            } by {
                assert(r.waiting()[d]@ == iv[d as int].dependencies@);
                assert(iv[d as int].wf());
                assert(iv[d as int].dependencies@[k3] < d);
            }
        }
        r
    }

    /// Returns the ready instructions: every instruction of the plan whose
    /// waiting list is empty, each exactly once.  The plan is not changed.
    pub fn fetch_ready(&mut self) -> (r: Vec<OperationInstruction>)
        requires
            old(self).wf(),
        ensures
            *final(self) == *old(self),
            forall|k: int|
                0 <= k < r@.len() ==> old(self).is_ready((#[trigger] r@[k]).id) && instr_equiv(
                    r@[k],
                    old(self).instrs()[r@[k].id],
                ),
            forall|id: usize| #[trigger]
                old(self).is_ready(id) ==> exists|k: int| 0 <= k < r@.len() && (#[trigger] r@[k]).id
                    == id,
            forall|k1: int, k2: int| 0 <= k1 < k2 < r@.len() ==> r@[k1].id != r@[k2].id,
    {
        let keys = dep_map_keys(&self.waiting_dep);
        let mut out: Vec<OperationInstruction> = Vec::new();
        let mut i: usize = 0;
        while i < keys.len()
            invariant
                self.wf(),
                *self == *old(self),
                i <= keys@.len(),
                keys@.no_duplicates(),
                forall|k: int|
                    0 <= k < keys@.len() ==> self.waiting().dom().contains(#[trigger] keys@[k]),
                forall|d: usize|
                    self.waiting().dom().contains(d) ==> exists|k: int|
                        0 <= k < keys@.len() && #[trigger] keys@[k] == d,
                forall|k: int|
                    0 <= k < out@.len() ==> self.is_ready((#[trigger] out@[k]).id) && instr_equiv(
                        out@[k],
                        self.instrs()[out@[k].id],
                    ),
                forall|k: int|
                    0 <= k < out@.len() ==> exists|k2: int|
                        0 <= k2 < i && (#[trigger] out@[k]).id == keys@[k2],
                forall|k2: int|
                    0 <= k2 < i && self.is_ready(#[trigger] keys@[k2]) ==> exists|k: int|
                        0 <= k < out@.len() && (#[trigger] out@[k]).id == keys@[k2],
                forall|k1: int, k2: int| 0 <= k1 < k2 < out@.len() ==> out@[k1].id != out@[k2].id,
            decreases keys@.len() - i,
        {
            let ghost i0 = i;
            let ghost pre_out = out@;
            let id = keys[i];
            let w = dep_map_get(&self.waiting_dep, id);
            match w {
                Some(v) => {
                    if v.len() == 0 {
                        match instr_map_get(&self.instructions, id) {
                            Some(instr) => {
                                proof {
                                    assert(self.instrs().dom().contains(id));
                                    assert(self.instrs()[id].id == id);
                                    assert(instr.id == id);
                                    assert(self.waiting()[id]@.len() == 0);
                                    assert(self.is_ready(id));
                                    assert forall|k1: int|
                                        0 <= k1 < out@.len() implies (#[trigger] out@[k1]).id
                                        != id by {
                                        let k2 = choose|k2: int|
                                            0 <= k2 < i && (#[trigger] out@[k1]).id == keys@[k2];
                                    }
                                }
                                out.push(instr);
                            },
                            None => {
                                proof {
                                    assert(false);
                                }
                            },
                        }
                    }
                },
                None => {
                    proof {
                        assert(false);
                    }
                },
            }
            i = i + 1;
            proof {
                assert forall|k: int| 0 <= k < out@.len() implies exists|k2: int|
                    0 <= k2 < i && (#[trigger] out@[k]).id == keys@[k2] by {
                    if k < pre_out.len() {
                        assert(out@[k] == pre_out[k]);
                        let k2 = choose|k2: int|
                            0 <= k2 < i0 && (#[trigger] pre_out[k]).id == keys@[k2];
                        assert(out@[k].id == keys@[k2]);
                    } else {
                        assert(out@[k].id == keys@[i0 as int]);
                    }
                }
                assert forall|k2: int|
                    0 <= k2 < i && self.is_ready(#[trigger] keys@[k2]) implies exists|k: int|
                    0 <= k < out@.len() && (#[trigger] out@[k]).id == keys@[k2] by {
                    if k2 < i0 {
                        let k = choose|k: int|
                            0 <= k < pre_out.len() && (#[trigger] pre_out[k]).id == keys@[k2];
                        assert(out@[k].id == keys@[k2]);
                    } else {
                        assert(out@[out@.len() - 1].id == keys@[i0 as int]);
                    }
                }
            }
        }
        proof {
            assert forall|id: usize| #[trigger] self.is_ready(id) implies exists|k: int|
                0 <= k < out@.len() && (#[trigger] out@[k]).id == id by {
                let k2 = choose|k2: int| 0 <= k2 < keys@.len() && #[trigger] keys@[k2] == id;
            }
        }
        out
    }

    /// Marks a batch of ready instructions done: each is removed from the
    /// plan and struck from the waiting list of every instruction that
    /// depends on it.  Marking an instruction with unmet dependencies done
    /// is a programmer error and is rejected up front.
    pub fn set_done(&mut self, ids: Vec<usize>)
        requires
            old(self).wf(),
            forall|k: int| 0 <= k < ids@.len() ==> old(self).is_ready(#[trigger] ids@[k]),
            ids@.no_duplicates(),
        ensures
            final(self).wf(),
            final(self).instrs().dom() == old(self).instrs().dom().difference(ids@.to_set()),
            forall|d: usize| #[trigger]
                final(self).instrs().dom().contains(d) ==> final(self).instrs()[d] == old(
                    self,
                ).instrs()[d],
            forall|d: usize, x: usize|
                #![trigger final(self).waiting()[d]@.contains(x)]
                final(self).instrs().dom().contains(d) ==> (final(self).waiting()[d]@.contains(x)
                    <==> (old(self).waiting()[d]@.contains(x) && !ids@.contains(x))),
    {
        let mut i: usize = 0;
        while i < ids.len()
            invariant
                self.wf(),
                i <= ids@.len(),
                ids@.no_duplicates(),
                self.instrs().dom() =~= old(self).instrs().dom().difference(
                    ids@.subrange(0, i as int).to_set(),
                ),
                forall|d: usize| #[trigger]
                    self.instrs().dom().contains(d) ==> self.instrs()[d] == old(self).instrs()[d],
                forall|d: usize, x: usize|
                    #![trigger self.waiting()[d]@.contains(x)]
                    self.instrs().dom().contains(d) ==> (self.waiting()[d]@.contains(x) <==> (old(
                        self,
                    ).waiting()[d]@.contains(x) && !ids@.subrange(0, i as int).contains(x))),
                forall|d: usize| #[trigger]
                    self.instrs().dom().contains(d) ==> self.dependants_of()[d]@ == old(
                        self,
                    ).dependants_of()[d]@,
                forall|k: int| i <= k < ids@.len() ==> self.is_ready(#[trigger] ids@[k]),
            decreases ids@.len() - i,
        {
            let id = ids[i];
            let ghost pre = *self;
            instr_map_remove(&mut self.instructions, id);
            dep_map_remove(&mut self.waiting_dep, id);
            let dl = dep_map_remove(&mut self.dependants, id);
            let deps_list = match dl {
                Some(v) => v,
                None => {
                    proof {
                        assert(false);
                    }
                    Vec::new()
                },
            };
            let ghost mid = *self;
            let mut j: usize = 0;
            while j < deps_list.len()
                invariant
                    pre.wf(),
                    i < ids@.len(),
                    id == ids@[i as int],
                    j <= deps_list@.len(),
                    deps_list@ == pre.dependants_of()[ids@[i as int]]@,
                    self.instructions == mid.instructions,
                    self.dependants == mid.dependants,
                    self.instrs().dom() =~= pre.instrs().dom().remove(ids@[i as int]),
                    self.waiting().dom() =~= pre.waiting().dom().remove(ids@[i as int]),
                    forall|d: usize, x: usize|
                        #![trigger self.waiting()[d]@.contains(x)]
                        self.waiting().dom().contains(d) ==> (self.waiting()[d]@.contains(x) <==> (
                        pre.waiting()[d]@.contains(x) && !(x == ids@[i as int] && exists|j2: int|
                            0 <= j2 < j && #[trigger] deps_list@[j2] == d))),
                decreases deps_list@.len() - j,
            {
                let d = deps_list[j];
                let ghost pre_w = dep_map_of(self.waiting_dep);
                let wl = dep_map_remove(&mut self.waiting_dep, d);
                match wl {
                    Some(v) => {
                        let mut kept: Vec<usize> = Vec::new();
                        let mut q: usize = 0;
                        while q < v.len()
                            invariant
                                q <= v@.len(),
                                forall|x: usize|
                                    kept@.contains(x) <==> (v@.subrange(0, q as int).contains(x)
                                        && x != id),
                            decreases v@.len() - q,
                        {
                            let ghost prek = kept@;
                            if v[q] != id {
                                kept.push(v[q]);
                            }
                            proof {
                                assert(v@.subrange(0, q + 1 as int) =~= v@.subrange(
                                    0,
                                    q as int,
                                ).push(v@[q as int]));
                            }
                            q = q + 1;
                        }
                        proof {
                            assert(v@.subrange(0, v@.len() as int) =~= v@);
                            assert(v@ == pre_w[d]@);
                        }
                        dep_map_insert(&mut self.waiting_dep, d, kept);
                        proof {
                            assert(self.waiting().dom() =~= pre_w.dom());
                        }
                    },
                    None => {},
                }
                j = j + 1;
            }
            proof {
                let ghost sub1 = ids@.subrange(0, i + 1 as int);
                assert(sub1 =~= ids@.subrange(0, i as int).push(id));
                assert(self.instrs().dom() =~= old(self).instrs().dom().difference(
                    sub1.to_set(),
                )) by {
                    assert forall|y: usize| #![all_triggers]
                        self.instrs().dom().contains(y) <==> (old(
                        self,
                    ).instrs().dom().contains(y) && !sub1.to_set().contains(y)) by {
                        assert(self.instrs().dom() =~= pre.instrs().dom().remove(id));
                        assert(sub1.contains(y) <==> (ids@.subrange(0, i as int).contains(y) || y
                            == id));
                    }
                }
                assert forall|d: usize, x: usize|
                    #![trigger self.waiting()[d]@.contains(x)]
                    self.instrs().dom().contains(d) implies (self.waiting()[d]@.contains(x) <==> (
                old(self).waiting()[d]@.contains(x) && !sub1.contains(x))) by {
                    assert(self.waiting().dom().contains(d));
                    assert(pre.instrs().dom().contains(d));
                    if x == id {
                        if pre.waiting()[d]@.contains(x) {
                            let k0 = choose|k0: int|
                                0 <= k0 < pre.waiting()[d]@.len() && pre.waiting()[d]@[k0] == x;
                            assert(pre.waiting()[d]@[k0] == x);
                            assert(pre.dependants_of()[x]@.contains(d));
                            assert(exists|j2: int|
                                0 <= j2 < deps_list@.len() && #[trigger] deps_list@[j2] == d);
                        }
                        assert(!self.waiting()[d]@.contains(x));
                        assert(sub1.contains(x)) by {
                            assert(sub1[sub1.len() - 1] == id);
                        }
                    } else {
                        assert(sub1.contains(x) <==> ids@.subrange(0, i as int).contains(x));
                    }
                }
                assert(self.wf()) by {
                    assert forall|d: usize, k: int|
                        self.waiting().dom().contains(d) && 0 <= k < self.waiting()[d]@.len() implies {
                        let x = #[trigger] self.waiting()[d]@[k];
                        &&& self.instrs().dom().contains(x)
                        &&& x < d
                        &&& self.dependants_of()[x]@.contains(d)
                    } by {
                        let x = self.waiting()[d]@[k];
                        assert(self.waiting()[d]@.contains(x));
                        assert(pre.waiting()[d]@.contains(x) && x != id);
                        let k0 = choose|k0: int|
                            0 <= k0 < pre.waiting()[d]@.len() && pre.waiting()[d]@[k0] == x;
                        assert(pre.waiting()[d]@[k0] == x);
                        assert(pre.instrs().dom().contains(x) && x < d
                            && pre.dependants_of()[x]@.contains(d));
                        assert(self.dependants_of()[x]@ == pre.dependants_of()[x]@);
                    }
                }
                assert forall|k: int| i + 1 <= k < ids@.len() implies self.is_ready(
                    #[trigger] ids@[k],
                ) by {
                    let y = ids@[k];
                    assert(pre.is_ready(y));
                    assert(y != id);
                    assert(self.instrs().dom().contains(y));
                    if self.waiting()[y]@.len() > 0 {
                        let x0 = self.waiting()[y]@[0];
                        assert(self.waiting()[y]@.contains(x0));
                        assert(pre.waiting()[y]@.contains(x0));
                        assert(false);
                    }
                }
            }
            i = i + 1;
        }
        proof {
            assert(ids@.subrange(0, ids@.len() as int) =~= ids@);
        }
    }

    /// Returns whether the plan holds no instructions.
    pub fn is_empty(&self) -> (r: bool)
        ensures
            r == (instr_map_of(self.instructions).dom().len() == 0),
    {
        instr_map_len(&self.instructions) == 0
    }
}

/// The set of ids below a bound has exactly that many members.
pub proof fn lemma_usize_range_len(n: usize)
    ensures
        Set::new(|x: usize| x < n).finite(),
        Set::new(|x: usize| x < n).len() == n,
    decreases n,
{
    broadcast use vstd::set::axiom_set_insert_len;

    if n == 0 {
        assert(Set::new(|x: usize| x < n) =~= Set::<usize>::empty());
    } else {
        lemma_usize_range_len((n - 1) as usize);
        assert(Set::new(|x: usize| x < n) =~= Set::new(|x: usize| x < (n - 1) as usize).insert(
            (n - 1) as usize,
        ));
    }
}

/// A non-empty well formed plan always has a ready instruction, so a
/// driver loop that repeatedly fetches the ready batch and marks it done
/// can always make progress.
pub proof fn lemma_ready_exists(plan: &OperationPlan)
    requires
        plan.wf(),
        plan.instrs().dom().len() > 0,
    ensures
        exists|id: usize| #[trigger] plan.is_ready(id),
{
    if plan.instrs().dom() =~= Set::<usize>::empty() {
        assert(false);
    }
    let x0 = plan.instrs().dom().choose();
    assert(plan.instrs().dom().contains(x0));
    lemma_ready_below(plan, x0);
}

/// Below any live instruction there is a ready one.
proof fn lemma_ready_below(plan: &OperationPlan, x: usize)
    requires
        plan.wf(),
        plan.instrs().dom().contains(x),
    ensures
        exists|id: usize| #[trigger] plan.is_ready(id),
    decreases x,
{
    if plan.waiting()[x]@.len() == 0 {
        assert(plan.is_ready(x));
    } else {
        let y = plan.waiting()[x]@[0];
        assert(plan.instrs().dom().contains(y) && y < x);
        lemma_ready_below(plan, y);
    }
}

} // verus!
