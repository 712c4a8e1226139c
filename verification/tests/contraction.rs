//! The tensor network and its contractor: node spans and ranks, the
//! fusion rounds, and the plan drain discipline.

use qcs_core::circuit::QuantumCircuit;
use qcs_core::gates::{Hadamard, CX, Gate};
use qcs_core::network::{TensorContraction, TensorKind, TensorNetwork};
use qcs_core::contraction_plan::ContractionPlan;
use qcs_core::op_tree::Operation;
use qcs_core::scheduler::{ExecutionOperand, OperationPlan};

#[test]
fn contraction_node_has_union_span_and_filled_rank() {
    let a = TensorKind::Gate(Box::new(Gate::Hadamard(Hadamard::new(0))));
    let b = TensorKind::Gate(Box::new(Gate::CX(CX::new(1, 3))));
    let contr = TensorContraction::new(a, b);
    // the sparse union is {0, 1, 3}; the filled width is four lanes
    assert_eq!(contr.span.span_len(), 3);
    assert_eq!(contr.span.start(), 0);
    assert_eq!(contr.span.end(), 3);
    assert_eq!(contr.rank, 4);
}

#[test]
fn contract_round_fuses_and_shrinks() {
    let mut circ = QuantumCircuit::new(2);
    circ.g_h(0);
    circ.g_h(0);
    circ.g_h(1);
    let mut net = TensorNetwork::from_circuit(circ);
    // the two gates on lane zero share an edge that is contractible
    let fused = net.contract_round();
    assert_eq!(fused, 1);
    let second = net.contract_round();
    assert_eq!(second, 0);
    let kinds = net.contract();
    assert_eq!(kinds.len(), 2);
}

#[test]
fn untouched_network_is_returned_as_is() {
    let mut circ = QuantumCircuit::new(2);
    circ.g_h(0);
    circ.g_h(1);
    let net = TensorNetwork::from_circuit(circ);
    let kinds = net.contract();
    // no shared lanes, no edges, nothing to fuse
    assert_eq!(kinds.len(), 2);
    for k in kinds {
        assert!(matches!(k, TensorKind::Gate(_)));
    }
}

/// Draining a plan takes exactly one fetch of each instruction, and a
/// dependent instruction is never surfaced before its input is done.
#[test]
fn plan_drains_with_one_pair_per_instruction() {
    let mut circ = QuantumCircuit::new(2);
    circ.g_h(0);
    circ.g_cx(0, 1);
    circ.g_h(1);
    let net = TensorNetwork::from_circuit(circ);
    let kinds = net.contract();
    let mut found = false;
    for kind in kinds {
        if let TensorKind::Contraction(contr) = kind {
            found = true;
            let op = Operation::from_contraction(*contr, false);
            let mut plan = OperationPlan::from_operation(op);
            let mut done: Vec<usize> = Vec::new();
            let mut fetched_total = 0usize;
            while !plan.is_empty() {
                let batch = plan.fetch_ready();
                assert!(!batch.is_empty());
                let mut ids = Vec::new();
                for instr in &batch {
                    assert!(!done.contains(&instr.id), "an instruction surfaced twice");
                    for dep in &instr.dependencies {
                        assert!(done.contains(dep), "fetched before its dependency was done");
                    }
                    ids.push(instr.id);
                }
                fetched_total += ids.len();
                done.extend(ids.iter().copied());
                plan.set_done(ids);
            }
            // ids are allocated sequentially, so the drain count is the
            // instruction count
            assert_eq!(fetched_total, done.len());
            assert!(fetched_total >= 3);
        }
    }
    assert!(found, "the circuit must produce at least one contraction");
}

/// The contraction plan numbers fusions by post-order traversal: every
/// dependency carries a smaller id, and the drain runs from the leaves up
/// to the root, which is marked done last.
#[test]
fn contraction_plan_drains_leaves_first() {
    let mut circ = QuantumCircuit::new(2);
    circ.g_h(0);
    circ.g_cx(0, 1);
    circ.g_h(1);
    let net = TensorNetwork::from_circuit(circ);
    let kinds = net.contract();
    let mut found = false;
    for kind in kinds {
        if let TensorKind::Contraction(contr) = kind {
            found = true;
            let mut plan = ContractionPlan::from_contraction(*contr);
            let mut done: Vec<usize> = Vec::new();
            while !plan.is_empty() {
                let batch = plan.fetch_ready();
                assert!(!batch.is_empty());
                let mut ids = Vec::new();
                for instr in &batch {
                    assert!(!done.contains(&instr.id));
                    for dep in &instr.dependencies {
                        assert!(*dep < instr.id, "dependencies precede their fusion");
                        assert!(done.contains(dep));
                        assert!(matches!(
                            (&instr.first, &instr.second),
                            (ExecutionOperand::Address(_), _)
                                | (_, ExecutionOperand::Address(_))
                        ));
                    }
                    ids.push(instr.id);
                }
                done.extend(ids.iter().copied());
                plan.set_done(ids);
            }
            // the root fusion carries the highest id and is marked done last
            assert_eq!(*done.last().unwrap(), done.len() - 1);
            assert!(done.len() >= 2);
        }
    }
    assert!(found);
}

/// Pins the tie-break among equal-rank contractible edges: candidates are
/// taken in ascending edge order, so of two chained fusions on one lane the
/// earlier pair fuses first and the final tree leans left.
#[test]
fn equal_rank_tie_break_is_stable() {
    let mut circ = QuantumCircuit::new(1);
    circ.g_h(0);
    circ.g_h(0);
    circ.g_h(0);
    let net = TensorNetwork::from_circuit(circ);
    let kinds = net.contract();
    assert_eq!(kinds.len(), 1);
    match &kinds[0] {
        TensorKind::Contraction(root) => {
            assert!(matches!(root.lhs, TensorKind::Contraction(_)));
            assert!(matches!(root.rhs, TensorKind::Gate(_)));
        }
        TensorKind::Gate(_) => panic!("the chain must fuse"),
    }
}
