//! End-to-end checks: a circuit evaluated by direct identity-padded
//! composition must match the same circuit contracted, lowered, scheduled
//! and executed instruction by instruction.

use nalgebra::{Complex, DMatrix, DVector};
use std::collections::HashMap;
use std::f64::consts::PI;

use qcs_core::circuit::QuantumCircuit;
use qcs_core::contraction_plan::ContractionPlan;
use qcs_core::gates::Gate;
use qcs_core::network::{TensorKind, TensorNetwork};
use qcs_core::op_tree::Operation;
use qcs_core::scheduler::{ExecutionOperand, Kernel, OperationPlan, PlanBlock};

type CMat = DMatrix<Complex<f64>>;

fn c(re: f64, im: f64) -> Complex<f64> {
    Complex::new(re, im)
}

fn polar(theta: f64) -> Complex<f64> {
    c(theta.cos(), theta.sin())
}

fn cnorm(z: Complex<f64>) -> f64 {
    (z.re * z.re + z.im * z.im).sqrt()
}

fn ident(dim: usize) -> CMat {
    DMatrix::identity(dim, dim)
}

fn ket(b: u8) -> DVector<Complex<f64>> {
    if b == 0 {
        DVector::from_row_slice(&[c(1.0, 0.0), c(0.0, 0.0)])
    } else {
        DVector::from_row_slice(&[c(0.0, 0.0), c(1.0, 0.0)])
    }
}

fn ketbra(a: u8, b: u8) -> CMat {
    ket(a) * ket(b).transpose()
}

fn mat2(entries: [Complex<f64>; 4]) -> CMat {
    DMatrix::from_row_slice(2, 2, &entries)
}

fn u_matrix(theta: f64, phi: f64, lambda: f64) -> CMat {
    let ct = (theta / 2.0).cos();
    let st = (theta / 2.0).sin();
    mat2([
        c(ct, 0.0),
        -polar(lambda) * st,
        polar(phi) * st,
        polar(phi + lambda) * ct,
    ])
}

/// The dense matrix of a one-lane gate's action on its own lane.
fn base_matrix(gate: &Gate) -> CMat {
    let h = 1.0 / 2.0_f64.sqrt();
    match gate {
        Gate::Identity(_) => ident(2),
        Gate::PauliX(_) => mat2([c(0.0, 0.0), c(1.0, 0.0), c(1.0, 0.0), c(0.0, 0.0)]),
        Gate::PauliY(_) => mat2([c(0.0, 0.0), c(0.0, -1.0), c(0.0, 1.0), c(0.0, 0.0)]),
        Gate::PauliZ(_) => mat2([c(1.0, 0.0), c(0.0, 0.0), c(0.0, 0.0), c(-1.0, 0.0)]),
        Gate::Hadamard(_) => mat2([c(h, 0.0), c(h, 0.0), c(h, 0.0), c(-h, 0.0)]),
        Gate::Phase(g) => {
            let phi = f64::from_bits(g.phase);
            mat2([c(1.0, 0.0), c(0.0, 0.0), c(0.0, 0.0), polar(phi)])
        }
        Gate::SX(_) => mat2([c(0.5, 0.5), c(0.5, -0.5), c(0.5, -0.5), c(0.5, 0.5)]),
        Gate::RX(g) => {
            let t = f64::from_bits(g.theta) / 2.0;
            mat2([c(t.cos(), 0.0), c(0.0, -t.sin()), c(0.0, -t.sin()), c(t.cos(), 0.0)])
        }
        Gate::RY(g) => {
            let t = f64::from_bits(g.theta) / 2.0;
            mat2([c(t.cos(), 0.0), c(-t.sin(), 0.0), c(t.sin(), 0.0), c(t.cos(), 0.0)])
        }
        Gate::RZ(g) => {
            let t = f64::from_bits(g.theta) / 2.0;
            mat2([
                polar(-t),
                c(0.0, 0.0),
                c(0.0, 0.0),
                polar(t),
            ])
        }
        Gate::U1(g) => {
            let l = f64::from_bits(g.lambda);
            mat2([c(1.0, 0.0), c(0.0, 0.0), c(0.0, 0.0), polar(l)])
        }
        Gate::U2(g) => u_matrix(PI / 2.0, f64::from_bits(g.phi), f64::from_bits(g.lambda)),
        Gate::U3(g) => u_matrix(
            f64::from_bits(g.theta),
            f64::from_bits(g.phi),
            f64::from_bits(g.lambda),
        ),
        Gate::U(g) => u_matrix(
            f64::from_bits(g.theta),
            f64::from_bits(g.phi),
            f64::from_bits(g.lambda),
        ),
        _ => panic!("not a one-lane gate"),
    }
}

/// A controlled one-qubit operation over the filled interval of the two
/// lanes, with the control possibly above or below the target.
fn controlled(control: usize, target: usize, base: CMat, scale: Complex<f64>) -> CMat {
    let start = control.min(target);
    let end = control.max(target);
    let mut a0 = ident(1);
    let mut a1 = ident(1);
    for i in start..=end {
        if i == control {
            a0 = a0.kronecker(&ketbra(0, 0));
            a1 = a1.kronecker(&ketbra(1, 1));
        } else if i == target {
            a0 = a0.kronecker(&ident(2));
            a1 = a1.kronecker(&base);
        } else {
            a0 = a0.kronecker(&ident(2));
            a1 = a1.kronecker(&ident(2));
        }
    }
    a0 + a1 * scale
}

/// The dense matrix of any gate over the filled interval of its span.
fn gate_matrix(gate: &Gate) -> CMat {
    match gate {
        Gate::CX(g) => controlled(
            g.control,
            g.target,
            base_matrix(&Gate::PauliX(qcs_core::gates::PauliX::new(0))),
            c(1.0, 0.0),
        ),
        Gate::CY(g) => controlled(
            g.control,
            g.target,
            base_matrix(&Gate::PauliY(qcs_core::gates::PauliY::new(0))),
            c(1.0, 0.0),
        ),
        Gate::CZ(g) => controlled(
            g.control,
            g.target,
            base_matrix(&Gate::PauliZ(qcs_core::gates::PauliZ::new(0))),
            c(1.0, 0.0),
        ),
        Gate::CH(g) => controlled(
            g.control,
            g.target,
            base_matrix(&Gate::Hadamard(qcs_core::gates::Hadamard::new(0))),
            c(1.0, 0.0),
        ),
        Gate::CP(g) => controlled(
            g.control,
            g.target,
            base_matrix(&Gate::Phase(qcs_core::gates::Phase::new(g.phase, 0))),
            c(1.0, 0.0),
        ),
        Gate::CRX(g) => controlled(
            g.control,
            g.target,
            base_matrix(&Gate::RX(qcs_core::gates::RX::new(g.theta, 0))),
            c(1.0, 0.0),
        ),
        Gate::CRY(g) => controlled(
            g.control,
            g.target,
            base_matrix(&Gate::RY(qcs_core::gates::RY::new(g.theta, 0))),
            c(1.0, 0.0),
        ),
        Gate::CRZ(g) => controlled(
            g.control,
            g.target,
            base_matrix(&Gate::RZ(qcs_core::gates::RZ::new(g.theta, 0))),
            c(1.0, 0.0),
        ),
        Gate::CU(g) => controlled(
            g.control,
            g.target,
            u_matrix(
                f64::from_bits(g.theta),
                f64::from_bits(g.phi),
                f64::from_bits(g.lambda),
            ),
            polar(f64::from_bits(g.gamma)),
        ),
        Gate::Swap(g) => {
            let (a, b) = g.lanes;
            let start = a.min(b);
            let end = a.max(b);
            let mid = end - start - 1;
            let mut acc = DMatrix::zeros(0, 0);
            for (x, y) in [(0u8, 0u8), (0, 1), (1, 0), (1, 1)] {
                let term = ketbra(x, y)
                    .kronecker(&ident(1 << mid))
                    .kronecker(&ketbra(y, x));
                acc = if acc.nrows() == 0 { term } else { acc + term };
            }
            acc
        }
        Gate::Toffoli(g) => {
            let lanes = [g.control.0, g.control.1, g.target];
            let start = *lanes.iter().min().unwrap();
            let end = *lanes.iter().max().unwrap();
            let x = base_matrix(&Gate::PauliX(qcs_core::gates::PauliX::new(0)));
            let mut acc = DMatrix::zeros(0, 0);
            for (c1, c2) in [(0u8, 0u8), (0, 1), (1, 0), (1, 1)] {
                let mut term = ident(1);
                for i in start..=end {
                    if i == g.control.0 {
                        term = term.kronecker(&ketbra(c1, c1));
                    } else if i == g.control.1 {
                        term = term.kronecker(&ketbra(c2, c2));
                    } else if i == g.target {
                        if c1 == 1 && c2 == 1 {
                            term = term.kronecker(&x);
                        } else {
                            term = term.kronecker(&ident(2));
                        }
                    } else {
                        term = term.kronecker(&ident(2));
                    }
                }
                acc = if acc.nrows() == 0 { term } else { acc + term };
            }
            acc
        }
        Gate::Fredkin(g) => {
            let lanes = [g.control, g.target.0, g.target.1];
            let start = *lanes.iter().min().unwrap();
            let end = *lanes.iter().max().unwrap();
            // control clear: leave the targets alone
            let mut acc = ident(1);
            for i in start..=end {
                if i == g.control {
                    acc = acc.kronecker(&ketbra(0, 0));
                } else {
                    acc = acc.kronecker(&ident(2));
                }
            }
            // control set: exchange the targets
            for (x, y) in [(0u8, 0u8), (0, 1), (1, 0), (1, 1)] {
                let mut term = ident(1);
                for i in start..=end {
                    if i == g.control {
                        term = term.kronecker(&ketbra(1, 1));
                    } else if i == g.target.0 {
                        term = term.kronecker(&ketbra(x, y));
                    } else if i == g.target.1 {
                        term = term.kronecker(&ketbra(y, x));
                    } else {
                        term = term.kronecker(&ident(2));
                    }
                }
                acc = acc + term;
            }
            acc
        }
        other => base_matrix(other),
    }
}

fn span_bounds(gate: &Gate) -> (usize, usize) {
    let s = gate.span();
    (s.start(), s.end())
}

/// Direct reference evaluation: left-to-right identity-padded composition.
fn eval_circuit(circ: &QuantumCircuit) -> CMat {
    let n = circ.n_qubits;
    let mut acc = ident(1 << n);
    for gate in &circ.gates {
        let (start, end) = span_bounds(gate);
        let mut lifted = ident(1 << start);
        lifted = lifted.kronecker(&gate_matrix(gate));
        lifted = lifted.kronecker(&ident(1 << (n - 1 - end)));
        // gates act in insertion order, so a later gate multiplies on the
        // left of the accumulated operator
        acc = lifted * acc;
    }
    acc
}

fn load_block(store: &HashMap<usize, CMat>, op: &ExecutionOperand<PlanBlock>) -> CMat {
    match op {
        ExecutionOperand::Block(PlanBlock::Gate(g)) => gate_matrix(g),
        ExecutionOperand::Block(PlanBlock::Identity(w)) => ident(1 << *w),
        ExecutionOperand::Address(a) => store.get(a).expect("missing block").clone(),
    }
}

/// Drives a plan to completion, checking the ready-queue discipline on the
/// way: every instruction is fetched exactly once, and only after all of
/// its dependencies were marked done.
fn run_plan(mut plan: OperationPlan, store: &mut HashMap<usize, CMat>) -> (usize, usize) {
    let mut done: Vec<usize> = Vec::new();
    let mut fetched = 0usize;
    let mut rounds = 0usize;
    while !plan.is_empty() {
        let batch = plan.fetch_ready();
        assert!(!batch.is_empty(), "a non-empty plan must surface ready work");
        rounds += 1;
        let mut ids = Vec::new();
        for instr in &batch {
            for dep in &instr.dependencies {
                assert!(done.contains(dep), "dependency not done before fetch");
            }
            let result = match &instr.kernel {
                Kernel::TE { left, right } => {
                    load_block(store, left).kronecker(&load_block(store, right))
                }
                // the left operand is the earlier factor of the program, so
                // the right operand multiplies on the left
                Kernel::MM { left, right } => load_block(store, right) * load_block(store, left),
            };
            store.insert(instr.id, result);
            ids.push(instr.id);
        }
        fetched += ids.len();
        done.extend(ids.iter().copied());
        plan.set_done(ids);
    }
    (fetched, rounds)
}

/// Contracts, lowers, schedules and executes a circuit, then recombines the
/// independent blocks into the full matrix.
fn contract_eval(circ: &QuantumCircuit) -> CMat {
    let n = circ.n_qubits;
    let net = TensorNetwork::from_circuit(circ.clone());
    let kinds = net.contract();
    let mut parts: Vec<(usize, usize, CMat)> = Vec::new();
    for kind in kinds {
        match kind {
            TensorKind::Gate(g) => {
                let (start, end) = span_bounds(&g);
                parts.push((start, end, gate_matrix(&g)));
            }
            TensorKind::Contraction(contr) => {
                let start = contr.span.start();
                let end = contr.span.end();
                let op = Operation::from_contraction(*contr, false);
                let plan = OperationPlan::from_operation(op);
                let mut store = HashMap::new();
                let (fetched, _) = run_plan(plan, &mut store);
                let root = fetched - 1;
                parts.push((start, end, store.remove(&root).expect("missing root block")));
            }
        }
    }
    parts.sort_by_key(|p| p.0);
    let mut acc = ident(1);
    let mut next_lane = 0usize;
    for (start, end, block) in parts {
        assert!(start >= next_lane, "overlapping result blocks");
        acc = acc.kronecker(&ident(1 << (start - next_lane)));
        acc = acc.kronecker(&block);
        next_lane = end + 1;
    }
    acc = acc.kronecker(&ident(1 << (n - next_lane)));
    acc
}

/// Builds one left-deep contraction chain over the whole circuit, in
/// program order, and evaluates it through lowering, scheduling and the
/// instruction executor.
fn chain_eval(circ: &QuantumCircuit) -> CMat {
    let n = circ.n_qubits;
    let mut chain: Option<TensorKind> = None;
    for gate in &circ.gates {
        let leaf = TensorKind::Gate(Box::new(*gate));
        chain = Some(match chain {
            None => leaf,
            Some(prev) => TensorKind::Contraction(Box::new(
                qcs_core::network::TensorContraction::new(prev, leaf),
            )),
        });
    }
    let (start, end, block) = match chain.expect("empty circuit") {
        TensorKind::Gate(g) => {
            let (s, e) = span_bounds(&g);
            (s, e, gate_matrix(&g))
        }
        TensorKind::Contraction(contr) => {
            let start = contr.span.start();
            let end = contr.span.end();
            let op = Operation::from_contraction(*contr, false);
            let plan = OperationPlan::from_operation(op);
            let mut store = HashMap::new();
            let (fetched, _) = run_plan(plan, &mut store);
            let root = fetched - 1;
            (start, end, store.remove(&root).expect("missing root block"))
        }
    };
    let mut acc = ident(1 << start);
    acc = acc.kronecker(&block);
    acc.kronecker(&ident(1 << (n - 1 - end)))
}

/// Drives a contraction plan: every fusion pads its two operand blocks to
/// their merged lane interval and multiplies them, the later factor on the
/// left.
fn run_contraction_plan(mut plan: ContractionPlan) -> (usize, usize, CMat) {
    let mut store: HashMap<usize, (usize, usize, CMat)> = HashMap::new();
    let load = |store: &HashMap<usize, (usize, usize, CMat)>,
                op: &ExecutionOperand<qcs_core::gates::Gate>| {
        match op {
            ExecutionOperand::Block(g) => {
                let s = g.span();
                (s.start(), s.end(), gate_matrix(g))
            }
            ExecutionOperand::Address(a) => store.get(a).expect("missing block").clone(),
        }
    };
    let adapt = |start: usize, end: usize, block: CMat, lo: usize, hi: usize| {
        let mut m = ident(1 << (start - lo));
        m = m.kronecker(&block);
        m.kronecker(&ident(1 << (hi - end)))
    };
    let mut done: Vec<usize> = Vec::new();
    while !plan.is_empty() {
        let batch = plan.fetch_ready();
        assert!(!batch.is_empty());
        let mut ids = Vec::new();
        for instr in &batch {
            let i = instr;
            for dep in &i.dependencies {
                assert!(done.contains(dep), "fusion ran before its input");
            }
            let (s1, e1, b1) = load(&store, &i.first);
            let (s2, e2, b2) = load(&store, &i.second);
            let lo = s1.min(s2);
            let hi = e1.max(e2);
            let a1 = adapt(s1, e1, b1, lo, hi);
            let a2 = adapt(s2, e2, b2, lo, hi);
            store.insert(i.id, (lo, hi, a2 * a1));
            ids.push(i.id);
        }
        done.extend(ids.iter().copied());
        plan.set_done(ids);
    }
    // the root fusion takes the last id of the post-order numbering
    store.remove(&(done.len() - 1)).expect("missing root block")
}

fn distr(state: &DVector<Complex<f64>>) -> Vec<f64> {
    state.iter().map(|x| x.norm_sqr()).collect()
}

fn zero_state(n: usize) -> DVector<Complex<f64>> {
    let mut v = DVector::from_element(1 << n, c(0.0, 0.0));
    v[0] = c(1.0, 0.0);
    v
}

fn assert_close(a: &CMat, b: &CMat, tol: f64) {
    assert_eq!(a.nrows(), b.nrows());
    assert_eq!(a.ncols(), b.ncols());
    let diff = (a - b).norm();
    assert!(diff < tol, "matrices differ by {diff}");
}

/// The end-to-end correctness law on a mixed circuit: the contracted,
/// scheduled and executed pipeline matches direct composition.
#[test]
fn pipeline_matches_direct_eval() {
    let mut circ = QuantumCircuit::new(3);
    circ.g_x(0);
    circ.g_h(0);
    circ.g_h(1);
    circ.g_x(2);
    circ.g_cx(0, 1);
    circ.g_z(0);
    circ.g_swap(1, 2);
    circ.g_h(1);
    circ.g_z(2);

    let base = eval_circuit(&circ);
    let contracted = contract_eval(&circ);
    let s1 = &base * zero_state(3);
    let s2 = &contracted * zero_state(3);
    let d1 = distr(&s1);
    let d2 = distr(&s2);
    for k in 0..8 {
        assert!((d1[k] - d2[k]).abs() < 1e-6);
    }
}

/// Uniform Hadamard on five qubits: every basis state ends at probability
/// 1/32.
#[test]
fn uniform_hadamard_5q() {
    let mut circ = QuantumCircuit::new(5);
    circ.g_h(0);
    circ.g_h(1);
    circ.g_h(2);
    circ.g_h(3);
    circ.g_h(4);

    let t_eval = eval_circuit(&circ);
    let qstate = &t_eval * zero_state(5);
    assert_eq!(qstate.len(), 32);
    for i in 0..32 {
        assert!(cnorm(qstate[i] - c(1.0 / 32.0_f64.sqrt(), 0.0)) < 1e-10);
    }

    let contracted = contract_eval(&circ);
    let qstate2 = &contracted * zero_state(5);
    for i in 0..32 {
        assert!(cnorm(qstate2[i] - c(1.0 / 32.0_f64.sqrt(), 0.0)) < 1e-10);
    }
}

/// Conjugating an adjacent CNOT by Hadamards inverts control and target.
#[test]
fn inverted_cnot() {
    let mut circ = QuantumCircuit::new(2);
    circ.g_h(0);
    circ.g_h(1);
    circ.g_cx(0, 1);
    circ.g_h(0);
    circ.g_h(1);

    let t_eval = eval_circuit(&circ);
    let cx_inverted = gate_matrix(&Gate::CX(qcs_core::gates::CX::new(1, 0)));
    assert_close(&t_eval, &cx_inverted, 1e-10);

    let contracted = contract_eval(&circ);
    assert_close(&contracted, &cx_inverted, 1e-10);
}

/// The same inversion on a non-adjacent CNOT, with an untouched middle
/// lane.
#[test]
fn not_ajacent_cnot() {
    let mut circ = QuantumCircuit::new(3);
    circ.g_h(0);
    circ.g_h(2);
    circ.g_cx(0, 2);
    circ.g_h(0);
    circ.g_h(2);

    let t_eval = eval_circuit(&circ);
    let cx_inverted = gate_matrix(&Gate::CX(qcs_core::gates::CX::new(2, 0)));
    assert_close(&t_eval, &cx_inverted, 1e-10);

    let contracted = contract_eval(&circ);
    assert_close(&contracted, &cx_inverted, 1e-10);
}

/// Four swaps in a row are the identity.
#[test]
fn swap() {
    let mut circ = QuantumCircuit::new(2);
    circ.g_swap(0, 1);
    circ.g_swap(1, 0);
    circ.g_swap(0, 1);
    circ.g_swap(0, 1);

    let t_eval = eval_circuit(&circ);
    assert_close(&t_eval, &ident(4), 1e-10);

    let contracted = contract_eval(&circ);
    assert_close(&contracted, &ident(4), 1e-10);
}

fn basis_state(n: usize, bits: &[u8]) -> DVector<Complex<f64>> {
    let mut ix = 0usize;
    for &b in bits {
        ix = (ix << 1) | (b as usize);
    }
    let mut v = DVector::from_element(1 << n, c(0.0, 0.0));
    v[ix] = c(1.0, 0.0);
    v
}

/// The classical full adder: for every classical input the output
/// distribution concentrates on the classical sum.
#[test]
fn full_adder() {
    let mut circuit = QuantumCircuit::new(4);
    circuit.g_cxx(0, 1, 3);
    circuit.g_cx(0, 1);
    circuit.g_cxx(1, 2, 3);
    circuit.g_cx(1, 2);
    circuit.g_cx(0, 1);

    let t_eval = eval_circuit(&circuit);
    let contracted = chain_eval(&circuit);

    for a in 0..2usize {
        for b in 0..2usize {
            for cin in 0..2usize {
                let input = basis_state(4, &[a as u8, b as u8, cin as u8, 0]);
                let s = a ^ b ^ cin;
                let cout = (a & b) | (b & cin) | (cin & a);
                let state: usize = a * 8 + b * 4 + s * 2 + cout;
                for (label, m) in [("direct", &t_eval), ("contracted", &contracted)] {
                    let out = m * input.clone();
                    let d = distr(&out);
                    for i in 0..16 {
                        let expect = if i == state { 1.0 } else { 0.0 };
                        assert!(
                            (d[i] - expect).abs() < 1e-10,
                            "{label}: state {i} has probability {}",
                            d[i]
                        );
                    }
                }
            }
        }
    }
}

fn qft_circuit(n: usize) -> QuantumCircuit {
    let mut circ = QuantumCircuit::new(n);
    for i in 0..n {
        circ.g_h(i);
        for j in (i + 1)..n {
            let angle = PI / ((1u64 << (j - i)) as f64);
            circ.g_cp(angle.to_bits(), j, i);
        }
    }
    let mut lo = 0;
    let mut hi = n - 1;
    while lo < hi {
        circ.g_swap(lo, hi);
        lo += 1;
        hi -= 1;
    }
    circ
}

/// The quantum Fourier transform on up to four lanes: the transform of the
/// all-zero state is uniform, and the transform is unitary.
#[test]
fn quantum_fourier_transform() {
    for n in 2..=4usize {
        let circ = qft_circuit(n);
        let m = eval_circuit(&circ);
        let out = &m * zero_state(n);
        let amp = 1.0 / ((1u64 << n) as f64).sqrt();
        for i in 0..(1 << n) {
            assert!(cnorm(out[i] - c(amp, 0.0)) < 1e-9);
        }
        // applying the transform and then its adjoint restores any state
        let round = m.adjoint() * &m;
        assert_close(&round, &ident(1 << n), 1e-9);

        let contracted = chain_eval(&circ);
        assert_close(&contracted, &m, 1e-9);
    }
}

/// The kernel laws on concrete blocks: a tensor product against the
/// identity widens a block, multiplying by the identity changes nothing,
/// and matrix multiplication matches composed application.
#[test]
fn kernel_laws() {
    let h = gate_matrix(&Gate::Hadamard(qcs_core::gates::Hadamard::new(0)));
    let x = gate_matrix(&Gate::PauliX(qcs_core::gates::PauliX::new(0)));

    let te = h.kronecker(&ident(2));
    assert_eq!(te.nrows(), 4);
    for i in 0..2 {
        for j in 0..2 {
            assert!(cnorm(te[(i * 2, j * 2)] - h[(i, j)]) < 1e-12);
        }
    }

    let mm = h.clone() * ident(2);
    assert_close(&mm, &h, 1e-12);

    let v = DVector::from_row_slice(&[c(0.3, 0.1), c(-0.7, 0.2)]);
    let lhs = (h.clone() * x.clone()) * v.clone();
    let rhs = h.clone() * (x.clone() * v.clone());
    assert!((lhs - rhs).norm() < 1e-12);
}

/// The contraction-plan path matches direct evaluation on a mixed circuit.
#[test]
fn contraction_plan_matches_direct_eval() {
    let mut circ = QuantumCircuit::new(3);
    circ.g_x(0);
    circ.g_h(0);
    circ.g_h(1);
    circ.g_x(2);
    circ.g_cx(0, 1);
    circ.g_z(0);
    circ.g_swap(1, 2);
    circ.g_h(1);
    circ.g_z(2);

    let base = eval_circuit(&circ);
    let net = TensorNetwork::from_circuit(circ.clone());
    let kinds = net.contract();
    let mut parts: Vec<(usize, usize, CMat)> = Vec::new();
    for kind in kinds {
        match kind {
            TensorKind::Gate(g) => {
                let (start, end) = span_bounds(&g);
                parts.push((start, end, gate_matrix(&g)));
            }
            TensorKind::Contraction(contr) => {
                let plan = ContractionPlan::from_contraction(*contr);
                parts.push(run_contraction_plan(plan));
            }
        }
    }
    parts.sort_by_key(|p| p.0);
    let mut acc = ident(1);
    let mut next_lane = 0usize;
    for (start, end, block) in parts {
        assert!(start >= next_lane);
        acc = acc.kronecker(&ident(1 << (start - next_lane)));
        acc = acc.kronecker(&block);
        next_lane = end + 1;
    }
    acc = acc.kronecker(&ident(1 << (3 - next_lane)));

    let d1 = distr(&(&base * zero_state(3)));
    let d2 = distr(&(&acc * zero_state(3)));
    for k in 0..8 {
        assert!((d1[k] - d2[k]).abs() < 1e-6);
    }
}
