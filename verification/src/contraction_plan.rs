//! The contraction scheduler: a contraction tree is linearised by
//! post-order traversal, every fusion becomes one instruction whose
//! operands are gates or the addresses of deeper fusions, and a ready-queue
//! plan drains the instructions from the leaves upward.  Ids are allocated
//! sequentially at each visit, so every dependency carries a smaller id
//! than the instruction that waits for it.

use vstd::prelude::*;
use crate::gates::Gate;
use crate::network::TensorContraction;
use crate::network::TensorKind;
use crate::scheduler::dep_map_get;
use crate::scheduler::dep_map_insert;
use crate::scheduler::dep_map_keys;
use crate::scheduler::dep_map_new;
use crate::scheduler::dep_map_of;
use crate::scheduler::dep_map_remove;
use crate::scheduler::lemma_usize_range_len;
use crate::scheduler::DepMap;
use crate::scheduler::ExecutionOperand;

verus! {

broadcast use vstd::seq_lib::lemma_seq_contains_after_push;

/// One fusion step: multiply the two operand blocks, padded to a shared
/// span of the given rank, and store the result under the instruction id.
#[derive(Clone)]
pub struct ContractionInstruction {
    /// The id of the instruction.
    pub id: usize,
    /// The ids of the instructions this one waits for.
    pub dependencies: Vec<usize>,
    /// The rank of the resulting block.
    pub rank: u8,
    /// The left operand of the fusion.
    pub first: ExecutionOperand<Gate>,
    /// The right operand of the fusion.
    pub second: ExecutionOperand<Gate>,
}

/// The address operands of a fusion, in operand order: these are exactly
/// the ids the fusion waits for.
pub open spec fn addr_list(first: ExecutionOperand<Gate>, second: ExecutionOperand<Gate>) -> Seq<
    usize,
> {
    (match first {
        ExecutionOperand::Address(a) => seq![a],
        ExecutionOperand::Block(_) => Seq::empty(),
    }) + (match second {
        ExecutionOperand::Address(a) => seq![a],
        ExecutionOperand::Block(_) => Seq::empty(),
    })
}

impl ContractionInstruction {
    /// Holds when the dependencies are exactly the address operands, in
    /// order, and every one carries a smaller id.
    pub open spec fn wf(self) -> bool {
        &&& (forall|k: int|
            0 <= k < self.dependencies@.len() ==> #[trigger] self.dependencies@[k] < self.id)
        &&& self.dependencies@.no_duplicates()
        &&& self.dependencies@ == addr_list(self.first, self.second)
    }
}

/// The number of fusions in a tensor.
pub open spec fn fusion_count(k: TensorKind) -> nat
    decreases k,
{
    match k {
        TensorKind::Contraction(c) => 1 + fusion_count(c.lhs) + fusion_count(c.rhs),
        TensorKind::Gate(_) => 0,
    }
}

/// The number of fusions in a contraction tree.
pub open spec fn fusions(contr: TensorContraction) -> nat {
    1 + fusion_count(contr.lhs) + fusion_count(contr.rhs)
}

/// Holds when the instruction at the root index is the fusion of the given
/// contraction: it carries the contraction's rank, a gate child appears as
/// an inline gate operand, a contraction child appears as the address of an
/// earlier instruction that is in turn that child's fusion, and the
/// dependency list is exactly the address operands.
pub open spec fn fusion_tree_at(
    s: Seq<ContractionInstruction>,
    root: int,
    contr: TensorContraction,
) -> bool
    decreases contr,
{
    &&& 0 <= root < s.len()
    &&& s[root].rank == contr.rank
    &&& s[root].dependencies@ == addr_list(s[root].first, s[root].second)
    &&& match contr.lhs {
        TensorKind::Gate(g) => s[root].first == ExecutionOperand::<Gate>::Block(*g),
        TensorKind::Contraction(c) => (s[root].first matches ExecutionOperand::Address(a) && a
            < root && fusion_tree_at(s, a as int, *c)),
    }
    &&& match contr.rhs {
        TensorKind::Gate(g) => s[root].second == ExecutionOperand::<Gate>::Block(*g),
        TensorKind::Contraction(c) => (s[root].second matches ExecutionOperand::Address(a) && a
            < root && fusion_tree_at(s, a as int, *c)),
    }
}

/// The fusion mirror only reads entries up to the root, so it survives
/// appending.
proof fn lemma_fusion_tree_prefix(
    s: Seq<ContractionInstruction>,
    s2: Seq<ContractionInstruction>,
    root: int,
    contr: TensorContraction,
)
    requires
        fusion_tree_at(s, root, contr),
        s.len() <= s2.len(),
        forall|k: int| 0 <= k < s.len() ==> s2[k] == s[k],
    ensures
        fusion_tree_at(s2, root, contr),
    decreases contr,
{
    match contr.lhs {
        TensorKind::Gate(_) => {},
        TensorKind::Contraction(c) => {
            let a = s[root].first->Address_0;
            lemma_fusion_tree_prefix(s, s2, a as int, *c);
        },
    }
    match contr.rhs {
        TensorKind::Gate(_) => {},
        TensorKind::Contraction(c) => {
            let a = s[root].second->Address_0;
            lemma_fusion_tree_prefix(s, s2, a as int, *c);
        },
    }
}

/// Linearises a contraction tree onto the end of an instruction list by
/// post-order traversal: the sub-fusions take the next sequential ids,
/// left subtree first, and the root fusion takes the id after them.
fn gather(out: &mut Vec<ContractionInstruction>, contr: TensorContraction) -> (root: usize)
    requires
        contr.wf(),
    ensures
        final(out)@.len() == old(out)@.len() + fusions(contr),
        root == final(out)@.len() - 1,
        forall|k: int| 0 <= k < old(out)@.len() ==> final(out)@[k] == old(out)@[k],
        forall|k: int|
            old(out)@.len() <= k < final(out)@.len() ==> (#[trigger] final(out)@[k]).id == k
                && final(out)@[k].wf(),
        fusion_tree_at(final(out)@, root as int, contr),
    decreases contr,
{
    let TensorContraction { rank, span, lhs, rhs } = contr;
    let ghost clhs = lhs;
    let ghost crhs = rhs;
    let mut dependencies: Vec<usize> = Vec::new();
    let first = match lhs {
        TensorKind::Contraction(c) => {
            let a = gather(out, *c);
            dependencies.push(a);
            ExecutionOperand::Address(a)
        },
        TensorKind::Gate(g) => ExecutionOperand::Block(*g),
    };
    let ghost mid = out@;
    let second = match rhs {
        TensorKind::Contraction(c) => {
            let a = gather(out, *c);
            dependencies.push(a);
            ExecutionOperand::Address(a)
        },
        TensorKind::Gate(g) => ExecutionOperand::Block(*g),
    };
    let id = out.len();
    let ghost deps_view = dependencies@;
    let instr = ContractionInstruction { id, dependencies, rank, first, second };
    proof {
        assert(deps_view =~= addr_list(first, second));
        assert(instr.wf());
    }
    let ghost pre_push = out@;
    out.push(instr);
    proof {
        match clhs {
            TensorKind::Contraction(c) => {
                let a = first->Address_0;
                lemma_fusion_tree_prefix(mid, out@, a as int, *c);
            },
            TensorKind::Gate(_) => {},
        }
        match crhs {
            TensorKind::Contraction(c) => {
                let a = second->Address_0;
                lemma_fusion_tree_prefix(pre_push, out@, a as int, *c);
            },
            TensorKind::Gate(_) => {},
        }
        assert(out@[id as int] == instr);
        assert(fusion_tree_at(out@, id as int, contr));
    }
    id
}

/// The instruction store of a contraction plan, backed by hashbrown's hash
/// map; the allocator type parameter of the hash map cannot be declared
/// here, so the collection lives in an opaque struct of its own.
#[verifier::external_body]
pub struct CInstrMap {
    inner: hashbrown::HashMap<usize, ContractionInstruction>,
}

/// The instructions a contraction instruction store holds, by id.
pub uninterp spec fn cinstr_map_of(m: CInstrMap) -> Map<usize, ContractionInstruction>;

/// Two instructions carry the same fusion content; their dependency lists
/// are equal element for element.
pub open spec fn cinstr_equiv(a: ContractionInstruction, b: ContractionInstruction) -> bool {
    &&& a.id == b.id
    &&& a.dependencies@ == b.dependencies@
    &&& a.rank == b.rank
    &&& a.first == b.first
    &&& a.second == b.second
}

/// Relies on hashbrown's HashMap::new: the new map is empty.
#[verifier::external_body]
fn cinstr_map_new() -> (m: CInstrMap)
    ensures
        cinstr_map_of(m).dom() == Set::<usize>::empty(),
{
    CInstrMap { inner: hashbrown::HashMap::new() }
}

/// Relies on hashbrown's HashMap::insert: it stores the value under the
/// key, replacing any previous value.
#[verifier::external_body]
fn cinstr_map_insert(m: &mut CInstrMap, k: usize, v: ContractionInstruction)
    ensures
        cinstr_map_of(*final(m)) == cinstr_map_of(*old(m)).insert(k, v),
{
    let _ = m.inner.insert(k, v);
}

/// Relies on hashbrown's HashMap::remove: it takes the key's value out.
#[verifier::external_body]
fn cinstr_map_remove(m: &mut CInstrMap, k: usize) -> (r: Option<ContractionInstruction>)
    ensures
        cinstr_map_of(*final(m)) == cinstr_map_of(*old(m)).remove(k),
        r is Some <==> cinstr_map_of(*old(m)).dom().contains(k),
{
    m.inner.remove(&k)
}

/// Relies on hashbrown's HashMap::get: the returned instruction is a field
/// for field copy of the stored one.
#[verifier::external_body]
fn cinstr_map_get(m: &CInstrMap, k: usize) -> (r: Option<ContractionInstruction>)
    ensures
        match r {
            Some(v) => cinstr_map_of(*m).dom().contains(k) && cinstr_equiv(v, cinstr_map_of(*m)[k]),
            None => !cinstr_map_of(*m).dom().contains(k),
        },
{
    m.inner.get(&k).cloned()
}

/// Relies on hashbrown's HashMap::len: the number of stored keys.
#[verifier::external_body]
fn cinstr_map_len(m: &CInstrMap) -> (n: usize)
    ensures
        n == cinstr_map_of(*m).dom().len(),
{
    m.inner.len()
}

/// The fusion mirror, read through the plan's instruction map.
pub open spec fn plan_fusions_at(
    m: Map<usize, ContractionInstruction>,
    root: usize,
    contr: TensorContraction,
) -> bool
    decreases contr,
{
    &&& m.dom().contains(root)
    &&& m[root].rank == contr.rank
    &&& m[root].dependencies@ == addr_list(m[root].first, m[root].second)
    &&& match contr.lhs {
        TensorKind::Gate(g) => m[root].first == ExecutionOperand::<Gate>::Block(*g),
        TensorKind::Contraction(c) => (m[root].first matches ExecutionOperand::Address(a) && a
            < root && plan_fusions_at(m, a, *c)),
    }
    &&& match contr.rhs {
        TensorKind::Gate(g) => m[root].second == ExecutionOperand::<Gate>::Block(*g),
        TensorKind::Contraction(c) => (m[root].second matches ExecutionOperand::Address(a) && a
            < root && plan_fusions_at(m, a, *c)),
    }
}

/// The fusion mirror transfers from the built list to a map that stores
/// every listed instruction under its id.
proof fn lemma_fusion_tree_to_map(
    s: Seq<ContractionInstruction>,
    m: Map<usize, ContractionInstruction>,
    root: int,
    contr: TensorContraction,
)
    requires
        fusion_tree_at(s, root, contr),
        s.len() <= usize::MAX,
        forall|k: int| 0 <= k < s.len() ==> (#[trigger] s[k]).id == k,
        forall|k: usize|
            #![trigger m.dom().contains(k)]
            0 <= k < s.len() ==> m.dom().contains(k) && m[k] == s[k as int],
    ensures
        plan_fusions_at(m, root as usize, contr),
    decreases contr,
{
    let rt = root as usize;
    assert(m.dom().contains(rt) && m[rt] == s[root]);
    assert forall|k: usize| #![trigger m.dom().contains(k)] 0 <= k < s.len() implies m.dom()
        .contains(k) && m[k] == s[k as int] by {
        assert(m.dom().contains(k));
    }
    match contr.lhs {
        TensorKind::Gate(_) => {},
        TensorKind::Contraction(c) => {
            let a = s[root].first->Address_0;
            assert(fusion_tree_at(s, a as int, *c));
            lemma_fusion_tree_to_map(s, m, a as int, *c);
            assert(plan_fusions_at(m, a, *c));
        },
    }
    match contr.rhs {
        TensorKind::Gate(_) => {},
        TensorKind::Contraction(c) => {
            let a = s[root].second->Address_0;
            assert(fusion_tree_at(s, a as int, *c));
            lemma_fusion_tree_to_map(s, m, a as int, *c);
            assert(plan_fusions_at(m, a, *c));
        },
    }
}

/// A plan of fusion instructions with ready-queue semantics: instructions,
/// the unmet dependencies of each, and the dependants each one unblocks.
///
/// An instruction is *ready* exactly when its waiting list is empty;
/// marking an instruction done deletes it and removes its id from the
/// waiting list of every dependant.
pub struct ContractionPlan {
    pub instructions: CInstrMap,
    pub waiting_dep: DepMap,
    pub dependants: DepMap,
}

impl ContractionPlan {
    /// The instructions of the plan, by id.
    pub open spec fn instrs(&self) -> Map<usize, ContractionInstruction> {
        cinstr_map_of(self.instructions)
    }

    /// The unmet dependencies of each instruction.
    pub open spec fn waiting(&self) -> Map<usize, Vec<usize>> {
        dep_map_of(self.waiting_dep)
    }

    /// The dependants of each instruction.
    pub open spec fn dependants_of(&self) -> Map<usize, Vec<usize>> {
        dep_map_of(self.dependants)
    }

    /// An instruction is ready when it is in the plan and waits for
    /// nothing.
    pub open spec fn is_ready(&self, id: usize) -> bool {
        self.instrs().dom().contains(id) && self.waiting()[id]@.len() == 0
    }

    /// Holds when the three maps share one domain, every unmet dependency
    /// is a live earlier instruction, and the dependant lists cover the
    /// waiting lists, so that completion reaches every waiter.
    pub open spec fn wf(&self) -> bool {
        &&& self.instrs().dom().finite()
        &&& self.waiting().dom() == self.instrs().dom()
        &&& self.dependants_of().dom() == self.instrs().dom()
        &&& (forall|d: usize| #[trigger]
            self.instrs().dom().contains(d) ==> self.instrs()[d].id == d)
        &&& (forall|d: usize, k: int|
            self.waiting().dom().contains(d) && 0 <= k < self.waiting()[d]@.len() ==> {
                let x = #[trigger] self.waiting()[d]@[k];
                &&& self.instrs().dom().contains(x)
                &&& x < d
                &&& self.dependants_of()[x]@.contains(d)
            })
    }

    /// Builds the plan of a contraction tree: one instruction per fusion,
    /// numbered by post-order traversal so that the root fusion carries the
    /// highest id and dependencies point at lower ids; every instruction
    /// starts waiting for exactly its dependencies, and the dependant lists
    /// invert the waiting lists.
    pub fn from_contraction(contraction: TensorContraction) -> (r: ContractionPlan)
        requires
            contraction.wf(),
        ensures
            r.wf(),
            r.instrs().dom().len() == fusions(contraction),
            forall|id: usize| #[trigger]
                r.instrs().dom().contains(id) <==> id < fusions(contraction),
            forall|id: usize| #[trigger]
                r.instrs().dom().contains(id) ==> r.instrs()[id].wf() && r.instrs()[id].id == id
                    && r.waiting()[id]@ == r.instrs()[id].dependencies@,
            // the dependant lists are exactly the inverse of the
            // dependency relation
            forall|x: usize, d: usize|
                #![trigger r.dependants_of()[x]@.contains(d)]
                r.instrs().dom().contains(x) ==> (r.dependants_of()[x]@.contains(d) <==> (
                r.instrs().dom().contains(d) && r.instrs()[d].dependencies@.contains(x))),
            plan_fusions_at(r.instrs(), (fusions(contraction) - 1) as usize, contraction),
    {
        let mut instrs: Vec<ContractionInstruction> = Vec::new();
        let root = gather(&mut instrs, contraction);
        let n = instrs.len();
        let ghost iv = instrs@;

        let mut waiting_dep = dep_map_new();
        let mut dependants = dep_map_new();
        let mut k: usize = 0;
        while k < n
            invariant
                n == iv.len(),
                instrs@ == iv,
                k <= n,
                forall|p: int| 0 <= p < n ==> (#[trigger] iv[p]).id == p && iv[p].wf(),
                dep_map_of(waiting_dep).dom() =~= Set::new(|x: usize| x < k),
                dep_map_of(dependants).dom() =~= Set::new(|x: usize| x < k),
                forall|d: usize| #[trigger]
                    dep_map_of(waiting_dep).dom().contains(d) ==> dep_map_of(waiting_dep)[d]@
                        == iv[d as int].dependencies@,
                forall|d: usize| #[trigger]
                    dep_map_of(dependants).dom().contains(d) ==> dep_map_of(dependants)[d]@
                        =~= Seq::<usize>::empty(),
            decreases n - k,
        {
            let deps = instrs[k].dependencies.clone();
            dep_map_insert(&mut waiting_dep, k, deps);
            dep_map_insert(&mut dependants, k, Vec::new());
            k = k + 1;
        }

        proof {
            assert(dep_map_of(waiting_dep).dom() =~= Set::new(|x: usize| x < n));
            assert(dep_map_of(dependants).dom() =~= Set::new(|x: usize| x < n));
            assert forall|x: usize, d: usize|
                #![trigger dep_map_of(dependants)[x]@.contains(d)]
                x < n && dep_map_of(dependants)[x]@.contains(d) implies d < n
                && iv[d as int].dependencies@.contains(x) by {
                assert(dep_map_of(dependants).dom().contains(x));
                assert(dep_map_of(dependants)[x]@ =~= Seq::<usize>::empty());
            }
        }

        // invert the waiting lists into the dependant lists
        let mut k2: usize = 0;
        while k2 < n
            invariant
                n == iv.len(),
                instrs@ == iv,
                k2 <= n,
                forall|p: int| 0 <= p < n ==> (#[trigger] iv[p]).id == p && iv[p].wf(),
                dep_map_of(waiting_dep).dom() =~= Set::new(|x: usize| x < n),
                dep_map_of(dependants).dom() =~= Set::new(|x: usize| x < n),
                forall|d: usize| #[trigger]
                    dep_map_of(waiting_dep).dom().contains(d) ==> dep_map_of(waiting_dep)[d]@
                        == iv[d as int].dependencies@,
                forall|d: usize, j: int|
                    0 <= d < k2 && 0 <= j < iv[d as int].dependencies@.len()
                        ==> dep_map_of(dependants)[#[trigger] iv[d as int].dependencies@[j]]@
                        .contains(d),
                forall|x: usize, d: usize|
                    #![trigger dep_map_of(dependants)[x]@.contains(d)]
                    x < n && dep_map_of(dependants)[x]@.contains(d) ==> d < n
                        && iv[d as int].dependencies@.contains(x),
            decreases n - k2,
        {
            let deps = instrs[k2].dependencies.clone();
            let mut j: usize = 0;
            while j < deps.len()
                invariant
                    n == iv.len(),
                    instrs@ == iv,
                    k2 < n,
                    j <= deps@.len(),
                    deps@ == iv[k2 as int].dependencies@,
                    forall|p: int| 0 <= p < n ==> (#[trigger] iv[p]).id == p && iv[p].wf(),
                    dep_map_of(waiting_dep).dom() =~= Set::new(|x: usize| x < n),
                    dep_map_of(dependants).dom() =~= Set::new(|x: usize| x < n),
                    forall|d: usize| #[trigger]
                        dep_map_of(waiting_dep).dom().contains(d) ==> dep_map_of(waiting_dep)[d]@
                            == iv[d as int].dependencies@,
                    forall|d: usize, j2: int|
                        0 <= d < k2 && 0 <= j2 < iv[d as int].dependencies@.len()
                            ==> dep_map_of(dependants)[#[trigger] iv[d as int].dependencies@[j2]]@
                            .contains(d),
                    forall|j2: int|
                        0 <= j2 < j ==> dep_map_of(dependants)[#[trigger] deps@[j2]]@.contains(k2),
                    forall|x: usize, d: usize|
                        #![trigger dep_map_of(dependants)[x]@.contains(d)]
                        x < n && dep_map_of(dependants)[x]@.contains(d) ==> d < n
                            && iv[d as int].dependencies@.contains(x),
                decreases deps@.len() - j,
            {
                let dep = deps[j];
                proof {
                    assert(iv[k2 as int].wf());
                    assert(iv[k2 as int].dependencies@[j as int] < k2);
                }
                let lst = dep_map_remove(&mut dependants, dep);
                match lst {
                    Some(mut v) => {
                        v.push(k2);
                        dep_map_insert(&mut dependants, dep, v);
                    },
                    None => {
                        proof {
                            assert(false);
                        }
                    },
                }
                j = j + 1;
            }
            k2 = k2 + 1;
        }

        // move the instructions into the store, highest id first
        let mut instructions = cinstr_map_new();
        let ghost total = n;
        proof {
            assert(instrs@ =~= iv.subrange(0, instrs@.len() as int));
            assert(cinstr_map_of(instructions).dom() =~= Set::new(
                |x: usize| instrs@.len() <= x < total,
            ));
        }
        while instrs.len() > 0
            invariant
                instrs@ == iv.subrange(0, instrs@.len() as int),
                instrs@.len() <= total,
                total == iv.len(),
                cinstr_map_of(instructions).dom() =~= Set::new(
                    |x: usize| instrs@.len() <= x < total,
                ),
                cinstr_map_of(instructions).dom().finite(),
                forall|p: int| 0 <= p < iv.len() ==> (#[trigger] iv[p]).id == p && iv[p].wf(),
                forall|d: usize| #[trigger]
                    cinstr_map_of(instructions).dom().contains(d) ==> cinstr_map_of(instructions)[d]
                        == iv[d as int],
            decreases instrs@.len(),
        {
            let ghost pre = instrs@;
            let instr = match instrs.pop() {
                Some(x) => x,
                None => vstd::pervasive::unreached(),
            };
            proof {
                assert(pre == iv.subrange(0, pre.len() as int));
                assert(pre[pre.len() - 1] == iv.subrange(0, pre.len() as int)[pre.len() - 1]);
                assert(pre[pre.len() - 1] == iv[pre.len() - 1]);
                assert(instr == pre[pre.len() - 1]);
                assert(instr.id == pre.len() - 1);
                assert(instrs@ =~= iv.subrange(0, instrs@.len() as int));
            }
            cinstr_map_insert(&mut instructions, instr.id, instr);
        }

        let r = ContractionPlan { instructions, waiting_dep, dependants };
        proof {
            assert(r.instrs().dom() =~= Set::new(|x: usize| x < total));
            assert(r.waiting().dom() =~= r.instrs().dom());
            assert(r.dependants_of().dom() =~= r.instrs().dom());
            lemma_usize_range_len(n);
            assert(r.instrs().dom().len() == fusions(contraction));
            assert forall|d: usize, k3: int|
                r.waiting().dom().contains(d) && 0 <= k3 < r.waiting()[d]@.len() implies {
                let x = #[trigger] r.waiting()[d]@[k3];
                &&& r.instrs().dom().contains(x)
                &&& x < d
                &&& r.dependants_of()[x]@.contains(d)
            } by {
                assert(r.waiting()[d]@ == iv[d as int].dependencies@);
                assert(iv[d as int].wf());
                assert(iv[d as int].dependencies@[k3] < d);
            }
            assert(root == total - 1);
            assert forall|x: usize, d: usize|
                #![trigger r.dependants_of()[x]@.contains(d)]
                r.instrs().dom().contains(x) implies (r.dependants_of()[x]@.contains(d) <==> (
            r.instrs().dom().contains(d) && r.instrs()[d].dependencies@.contains(x))) by {
                assert(x < total);
                if r.instrs().dom().contains(d) && r.instrs()[d].dependencies@.contains(x) {
                    assert(d < total);
                    assert(r.instrs()[d] == iv[d as int]);
                    assert(iv[d as int].dependencies@.contains(x));
                    let j = choose|j: int|
                        0 <= j < iv[d as int].dependencies@.len() && iv[d as int].dependencies@[j]
                            == x;
                    assert(dep_map_of(r.dependants)[iv[d as int].dependencies@[j]]@.contains(d));
                    assert(r.dependants_of()[x]@.contains(d));
                }
                if r.dependants_of()[x]@.contains(d) {
                    assert(d < total && iv[d as int].dependencies@.contains(x));
                    assert(r.instrs().dom().contains(d));
                    assert(r.instrs()[d] == iv[d as int]);
                    assert(r.instrs()[d].dependencies@.contains(x));
                }
            }
            lemma_fusion_tree_to_map(iv, r.instrs(), root as int, contraction);
        }
        r
    }
}

impl ContractionPlan {
    /// Returns the ready instructions: every instruction of the plan whose
    /// waiting list is empty, each exactly once.  The plan is not changed.
    pub fn fetch_ready(&mut self) -> (r: Vec<ContractionInstruction>)
        requires
            old(self).wf(),
        ensures
            *final(self) == *old(self),
            forall|k: int|
                0 <= k < r@.len() ==> old(self).is_ready((#[trigger] r@[k]).id) && cinstr_equiv(
                    r@[k],
                    old(self).instrs()[r@[k].id],
                ),
            forall|id: usize| #[trigger]
                old(self).is_ready(id) ==> exists|k: int| 0 <= k < r@.len() && (#[trigger] r@[k]).id
                    == id,
            forall|k1: int, k2: int| 0 <= k1 < k2 < r@.len() ==> r@[k1].id != r@[k2].id,
    {
        let keys = dep_map_keys(&self.waiting_dep);
        let mut out: Vec<ContractionInstruction> = Vec::new();
        let mut i: usize = 0;
        while i < keys.len()
            invariant
                self.wf(),
                *self == *old(self),
                i <= keys@.len(),
                keys@.no_duplicates(),
                forall|k: int|
                    0 <= k < keys@.len() ==> self.waiting().dom().contains(#[trigger] keys@[k]),
                forall|d: usize|
                    self.waiting().dom().contains(d) ==> exists|k: int|
                        0 <= k < keys@.len() && #[trigger] keys@[k] == d,
                forall|k: int|
                    0 <= k < out@.len() ==> self.is_ready((#[trigger] out@[k]).id) && cinstr_equiv(
                        out@[k],
                        self.instrs()[out@[k].id],
                    ),
                forall|k: int|
                    0 <= k < out@.len() ==> exists|k2: int|
                        0 <= k2 < i && (#[trigger] out@[k]).id == keys@[k2],
                forall|k2: int|
                    0 <= k2 < i && self.is_ready(#[trigger] keys@[k2]) ==> exists|k: int|
                        0 <= k < out@.len() && (#[trigger] out@[k]).id == keys@[k2],
                forall|k1: int, k2: int| 0 <= k1 < k2 < out@.len() ==> out@[k1].id != out@[k2].id,
            decreases keys@.len() - i,
        {
            let ghost i0 = i;
            let ghost pre_out = out@;
            let id = keys[i];
            let w = dep_map_get(&self.waiting_dep, id);
            match w {
                Some(v) => {
                    if v.len() == 0 {
                        match cinstr_map_get(&self.instructions, id) {
                            Some(instr) => {
                                proof {
                                    assert(self.instrs().dom().contains(id));
                                    assert(self.instrs()[id].id == id);
                                    assert(instr.id == id);
                                    assert(self.waiting()[id]@.len() == 0);
                                    assert(self.is_ready(id));
                                    assert forall|k1: int|
                                        0 <= k1 < out@.len() implies (#[trigger] out@[k1]).id
                                        != id by {
                                        let k2 = choose|k2: int|
                                            0 <= k2 < i && (#[trigger] out@[k1]).id == keys@[k2];
                                    }
                                }
                                out.push(instr);
                            },
                            None => {
                                proof {
                                    assert(false);
                                }
                            },
                        }
                    }
                },
                None => {
                    proof {
                        assert(false);
                    }
                },
            }
            i = i + 1;
            proof {
                assert forall|k: int| 0 <= k < out@.len() implies exists|k2: int|
                    0 <= k2 < i && (#[trigger] out@[k]).id == keys@[k2] by {
                    if k < pre_out.len() {
                        assert(out@[k] == pre_out[k]);
                        let k2 = choose|k2: int|
                            0 <= k2 < i0 && (#[trigger] pre_out[k]).id == keys@[k2];
                        assert(out@[k].id == keys@[k2]);
                    } else {
                        assert(out@[k].id == keys@[i0 as int]);
                    }
                }
                assert forall|k2: int|
                    0 <= k2 < i && self.is_ready(#[trigger] keys@[k2]) implies exists|k: int|
                    0 <= k < out@.len() && (#[trigger] out@[k]).id == keys@[k2] by {
                    if k2 < i0 {
                        let k = choose|k: int|
                            0 <= k < pre_out.len() && (#[trigger] pre_out[k]).id == keys@[k2];
                        assert(out@[k].id == keys@[k2]);
                    } else {
                        assert(out@[out@.len() - 1].id == keys@[i0 as int]);
                    }
                }
            }
        }
        proof {
            assert forall|id: usize| #[trigger] self.is_ready(id) implies exists|k: int|
                0 <= k < out@.len() && (#[trigger] out@[k]).id == id by {
                let k2 = choose|k2: int| 0 <= k2 < keys@.len() && #[trigger] keys@[k2] == id;
            }
        }
        out
    }

    /// Marks a batch of ready instructions done: each is removed from the
    /// plan and struck from the waiting list of every instruction that
    /// depends on it.  Marking an instruction with unmet dependencies done
    /// is a programmer error and is rejected up front.
    pub fn set_done(&mut self, ids: Vec<usize>)
        requires
            old(self).wf(),
            forall|k: int| 0 <= k < ids@.len() ==> old(self).is_ready(#[trigger] ids@[k]),
            ids@.no_duplicates(),
        ensures
            final(self).wf(),
            final(self).instrs().dom() == old(self).instrs().dom().difference(ids@.to_set()),
            forall|d: usize| #[trigger]
                final(self).instrs().dom().contains(d) ==> final(self).instrs()[d] == old(
                    self,
                ).instrs()[d],
            forall|d: usize, x: usize|
                #![trigger final(self).waiting()[d]@.contains(x)]
                final(self).instrs().dom().contains(d) ==> (final(self).waiting()[d]@.contains(x)
                    <==> (old(self).waiting()[d]@.contains(x) && !ids@.contains(x))),
    {
        let mut i: usize = 0;
        while i < ids.len()
            invariant
                self.wf(),
                i <= ids@.len(),
                ids@.no_duplicates(),
                self.instrs().dom() =~= old(self).instrs().dom().difference(
                    ids@.subrange(0, i as int).to_set(),
                ),
                forall|d: usize| #[trigger]
                    self.instrs().dom().contains(d) ==> self.instrs()[d] == old(self).instrs()[d],
                forall|d: usize, x: usize|
                    #![trigger self.waiting()[d]@.contains(x)]
                    self.instrs().dom().contains(d) ==> (self.waiting()[d]@.contains(x) <==> (old(
                        self,
                    ).waiting()[d]@.contains(x) && !ids@.subrange(0, i as int).contains(x))),
                forall|d: usize| #[trigger]
                    self.instrs().dom().contains(d) ==> self.dependants_of()[d]@ == old(
                        self,
                    ).dependants_of()[d]@,
                forall|k: int| i <= k < ids@.len() ==> self.is_ready(#[trigger] ids@[k]),
            decreases ids@.len() - i,
        {
            let id = ids[i];
            let ghost pre = *self;
            cinstr_map_remove(&mut self.instructions, id);
            dep_map_remove(&mut self.waiting_dep, id);
            let dl = dep_map_remove(&mut self.dependants, id);
            let deps_list = match dl {
                Some(v) => v,
                None => {
                    proof {
                        assert(false);
                    }
                    Vec::new()
                },
            };
            let ghost mid = *self;
            let mut j: usize = 0;
            while j < deps_list.len()
                invariant
                    pre.wf(),
                    i < ids@.len(),
                    id == ids@[i as int],
                    j <= deps_list@.len(),
                    deps_list@ == pre.dependants_of()[ids@[i as int]]@,
                    self.instructions == mid.instructions,
                    self.dependants == mid.dependants,
                    self.instrs().dom() =~= pre.instrs().dom().remove(ids@[i as int]),
                    self.waiting().dom() =~= pre.waiting().dom().remove(ids@[i as int]),
                    forall|d: usize, x: usize|
                        #![trigger self.waiting()[d]@.contains(x)]
                        self.waiting().dom().contains(d) ==> (self.waiting()[d]@.contains(x) <==> (
                        pre.waiting()[d]@.contains(x) && !(x == ids@[i as int] && exists|j2: int|
                            0 <= j2 < j && #[trigger] deps_list@[j2] == d))),
                decreases deps_list@.len() - j,
            {
                let d = deps_list[j];
                let ghost pre_w = dep_map_of(self.waiting_dep);
                let wl = dep_map_remove(&mut self.waiting_dep, d);
                match wl {
                    Some(v) => {
                        let mut kept: Vec<usize> = Vec::new();
                        let mut q: usize = 0;
                        while q < v.len()
                            invariant
                                q <= v@.len(),
                                forall|x: usize|
                                    kept@.contains(x) <==> (v@.subrange(0, q as int).contains(x)
                                        && x != id),
                            decreases v@.len() - q,
                        {
                            if v[q] != id {
                                kept.push(v[q]);
                            }
                            proof {
                                assert(v@.subrange(0, q + 1 as int) =~= v@.subrange(
                                    0,
                                    q as int,
                                ).push(v@[q as int]));
                            }
                            q = q + 1;
                        }
                        proof {
                            assert(v@.subrange(0, v@.len() as int) =~= v@);
                            assert(v@ == pre_w[d]@);
                        }
                        dep_map_insert(&mut self.waiting_dep, d, kept);
                        proof {
                            assert(self.waiting().dom() =~= pre_w.dom());
                        }
                    },
                    None => {},
                }
                j = j + 1;
            }
            proof {
                let ghost sub1 = ids@.subrange(0, i + 1 as int);
                assert(sub1 =~= ids@.subrange(0, i as int).push(id));
                assert(self.instrs().dom() =~= old(self).instrs().dom().difference(
                    sub1.to_set(),
                )) by {
                    assert forall|y: usize| #![all_triggers]
                        self.instrs().dom().contains(y) <==> (old(
                        self,
                    ).instrs().dom().contains(y) && !sub1.to_set().contains(y)) by {
                        assert(self.instrs().dom() =~= pre.instrs().dom().remove(id));
                        assert(sub1.contains(y) <==> (ids@.subrange(0, i as int).contains(y) || y
                            == id));
                    }
                }
                assert forall|d: usize, x: usize|
                    #![trigger self.waiting()[d]@.contains(x)]
                    self.instrs().dom().contains(d) implies (self.waiting()[d]@.contains(x) <==> (
                old(self).waiting()[d]@.contains(x) && !sub1.contains(x))) by {
                    assert(self.waiting().dom().contains(d));
                    assert(pre.instrs().dom().contains(d));
                    if x == id {
                        if pre.waiting()[d]@.contains(x) {
                            let k0 = choose|k0: int|
                                0 <= k0 < pre.waiting()[d]@.len() && pre.waiting()[d]@[k0] == x;
                            assert(pre.waiting()[d]@[k0] == x);
                            assert(pre.dependants_of()[x]@.contains(d));
                            assert(exists|j2: int|
                                0 <= j2 < deps_list@.len() && #[trigger] deps_list@[j2] == d);
                        }
                        assert(!self.waiting()[d]@.contains(x));
                        assert(sub1.contains(x)) by {
                            assert(sub1[sub1.len() - 1] == id);
                        }
                    } else {
                        assert(sub1.contains(x) <==> ids@.subrange(0, i as int).contains(x));
                    }
                }
                assert(self.wf()) by {
                    assert forall|d: usize, k: int|
                        self.waiting().dom().contains(d) && 0 <= k < self.waiting()[d]@.len() implies {
                        let x = #[trigger] self.waiting()[d]@[k];
                        &&& self.instrs().dom().contains(x)
                        &&& x < d
                        &&& self.dependants_of()[x]@.contains(d)
                    } by {
                        let x = self.waiting()[d]@[k];
                        assert(self.waiting()[d]@.contains(x));
                        assert(pre.waiting()[d]@.contains(x) && x != id);
                        let k0 = choose|k0: int|
                            0 <= k0 < pre.waiting()[d]@.len() && pre.waiting()[d]@[k0] == x;
                        assert(pre.waiting()[d]@[k0] == x);
                        assert(pre.instrs().dom().contains(x) && x < d
                            && pre.dependants_of()[x]@.contains(d));
                        assert(self.dependants_of()[x]@ == pre.dependants_of()[x]@);
                    }
                }
                assert forall|k: int| i + 1 <= k < ids@.len() implies self.is_ready(
                    #[trigger] ids@[k],
                ) by {
                    let y = ids@[k];
                    assert(pre.is_ready(y));
                    assert(y != id);
                    assert(self.instrs().dom().contains(y));
                    if self.waiting()[y]@.len() > 0 {
                        let x0 = self.waiting()[y]@[0];
                        assert(self.waiting()[y]@.contains(x0));
                        assert(pre.waiting()[y]@.contains(x0));
                        assert(false);
                    }
                }
            }
            i = i + 1;
        }
        proof {
            assert(ids@.subrange(0, ids@.len() as int) =~= ids@);
        }
    }

    /// Returns whether the plan holds no instructions.
    pub fn is_empty(&self) -> (r: bool)
        ensures
            r == (cinstr_map_of(self.instructions).dom().len() == 0),
    {
        cinstr_map_len(&self.instructions) == 0
    }
}

/// A non-empty well formed plan always has a ready instruction, so a
/// driver loop that repeatedly fetches the ready batch and marks it done
/// can always make progress.
pub proof fn lemma_ready_exists(plan: &ContractionPlan)
    requires
        plan.wf(),
        plan.instrs().dom().len() > 0,
    ensures
        exists|id: usize| #[trigger] plan.is_ready(id),
{
    if plan.instrs().dom() =~= Set::<usize>::empty() {
        assert(false);
    }
    let x0 = plan.instrs().dom().choose();
    assert(plan.instrs().dom().contains(x0));
    lemma_ready_below(plan, x0);
}

/// Below any live instruction there is a ready one.
proof fn lemma_ready_below(plan: &ContractionPlan, x: usize)
    requires
        plan.wf(),
        plan.instrs().dom().contains(x),
    ensures
        exists|id: usize| #[trigger] plan.is_ready(id),
    decreases x,
{
    if plan.waiting()[x]@.len() == 0 {
        assert(plan.is_ready(x));
    } else {
        let y = plan.waiting()[x]@[0];
        assert(plan.instrs().dom().contains(y) && y < x);
        lemma_ready_below(plan, y);
    }
}

} // verus!
