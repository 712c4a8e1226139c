//! The circuit model: a lane count and an ordered list of gates, applied
//! from index zero forward.

use vstd::prelude::*;
use crate::gates::Angle;
use crate::gates::CH;
use crate::gates::CP;
use crate::gates::CRX;
use crate::gates::CRY;
use crate::gates::CRZ;
use crate::gates::CU;
use crate::gates::CX;
use crate::gates::CY;
use crate::gates::CZ;
use crate::gates::Fredkin;
use crate::gates::Gate;
use crate::gates::Hadamard;
use crate::gates::Identity;
use crate::gates::PauliX;
use crate::gates::PauliY;
use crate::gates::PauliZ;
use crate::gates::Phase;
use crate::gates::RX;
use crate::gates::RY;
use crate::gates::RZ;
use crate::gates::SX;
use crate::gates::Swap;
use crate::gates::Toffoli;
use crate::gates::U;
use crate::gates::U1;
use crate::gates::U2;
use crate::gates::U3;

verus! {

/// A quantum circuit: a number of qubit lanes and an ordered list of gates.
/// Gates are applied in insertion order from index zero forward.
///
/// Invariant: every gate has pairwise distinct lanes, all below the lane
/// count.  A gate whose lane indices exceed the declared qubit count is
/// rejected when it is added.
#[derive(Clone)]
pub struct QuantumCircuit {
    pub n_qubits: usize,
    pub gates: Vec<Gate>,
}

impl QuantumCircuit {
    /// Holds when every gate of the circuit is well formed and acts only
    /// on lanes below the lane count.
    pub open spec fn wf(&self) -> bool {
        forall|k: int|
            0 <= k < self.gates@.len() ==> (#[trigger] self.gates@[k]).wf() && self.gates@[
                k
            ].in_range(self.n_qubits)
    }

    /// Creates a new quantum circuit over the given number of qubit lanes,
    /// with no gates.
    pub fn new(n_qubits: usize) -> (r: Self)
        ensures
            r.wf(),
            r.n_qubits == n_qubits,
            r.gates@.len() == 0,
    {
        QuantumCircuit { n_qubits, gates: Vec::new() }
    }

    /// Adds a gate to the circuit.
    pub fn push_gate(&mut self, gate: Gate)
        requires
            old(self).wf(),
            gate.wf(),
            gate.in_range(old(self).n_qubits),
        ensures
            final(self).wf(),
            final(self).n_qubits == old(self).n_qubits,
            final(self).gates@ == old(self).gates@.push(gate),
    {
        self.gates.push(gate);
    }

    /// Adds the Identity gate to the circuit.
    pub fn g_id(&mut self, qix: usize)
        requires
            old(self).wf(),
            qix < old(self).n_qubits,
        ensures
            final(self).wf(),
            final(self).n_qubits == old(self).n_qubits,
            final(self).gates@ == old(self).gates@.push(Gate::Identity(Identity { lane: qix })),
    {
        self.push_gate(Gate::Identity(Identity::new(qix)));
    }

    /// Adds the Pauli X gate to the circuit.
    pub fn g_x(&mut self, qix: usize)
        requires
            old(self).wf(),
            qix < old(self).n_qubits,
        ensures
            final(self).wf(),
            final(self).n_qubits == old(self).n_qubits,
            final(self).gates@ == old(self).gates@.push(Gate::PauliX(PauliX { lane: qix })),
    {
        self.push_gate(Gate::PauliX(PauliX::new(qix)));
    }

    /// Adds the Pauli Y gate to the circuit.
    pub fn g_y(&mut self, qix: usize)
        requires
            old(self).wf(),
            qix < old(self).n_qubits,
        ensures
            final(self).wf(),
            final(self).n_qubits == old(self).n_qubits,
            final(self).gates@ == old(self).gates@.push(Gate::PauliY(PauliY { lane: qix })),
    {
        self.push_gate(Gate::PauliY(PauliY::new(qix)));
    }

    /// Adds the Pauli Z gate to the circuit.
    pub fn g_z(&mut self, qix: usize)
        requires
            old(self).wf(),
            qix < old(self).n_qubits,
        ensures
            final(self).wf(),
            final(self).n_qubits == old(self).n_qubits,
            final(self).gates@ == old(self).gates@.push(Gate::PauliZ(PauliZ { lane: qix })),
    {
        self.push_gate(Gate::PauliZ(PauliZ::new(qix)));
    }

    /// Adds the Hadamard gate to the circuit.
    pub fn g_h(&mut self, qix: usize)
        requires
            old(self).wf(),
            qix < old(self).n_qubits,
        ensures
            final(self).wf(),
            final(self).n_qubits == old(self).n_qubits,
            final(self).gates@ == old(self).gates@.push(Gate::Hadamard(Hadamard { lane: qix })),
    {
        self.push_gate(Gate::Hadamard(Hadamard::new(qix)));
    }

    /// Adds the phase gate to the circuit.
    pub fn g_p(&mut self, phase: Angle, qix: usize)
        requires
            old(self).wf(),
            qix < old(self).n_qubits,
        ensures
            final(self).wf(),
            final(self).n_qubits == old(self).n_qubits,
            final(self).gates@ == old(self).gates@.push(Gate::Phase(Phase { phase, lane: qix })),
    {
        self.push_gate(Gate::Phase(Phase::new(phase, qix)));
    }

    /// Adds the S gate to the circuit.
    pub fn g_s(&mut self, qix: usize)
        requires
            old(self).wf(),
            qix < old(self).n_qubits,
        ensures
            final(self).wf(),
            final(self).n_qubits == old(self).n_qubits,
            final(self).gates@ == old(self).gates@.push(
                Gate::Phase(Phase { phase: crate::gates::FRAC_PI_2_BITS, lane: qix }),
            ),
    {
        self.push_gate(Gate::Phase(Phase::s(qix)));
    }

    /// Adds the T gate to the circuit.
    pub fn g_t(&mut self, qix: usize)
        requires
            old(self).wf(),
            qix < old(self).n_qubits,
        ensures
            final(self).wf(),
            final(self).n_qubits == old(self).n_qubits,
            final(self).gates@ == old(self).gates@.push(
                Gate::Phase(Phase { phase: crate::gates::FRAC_PI_4_BITS, lane: qix }),
            ),
    {
        self.push_gate(Gate::Phase(Phase::t(qix)));
    }

    /// Adds the inverse of the S gate to the circuit.
    pub fn g_s_dg(&mut self, qix: usize)
        requires
            old(self).wf(),
            qix < old(self).n_qubits,
        ensures
            final(self).wf(),
            final(self).n_qubits == old(self).n_qubits,
            final(self).gates@ == old(self).gates@.push(
                Gate::Phase(Phase { phase: crate::gates::NEG_FRAC_PI_2_BITS, lane: qix }),
            ),
    {
        self.push_gate(Gate::Phase(Phase::s_inv(qix)));
    }

    /// Adds the inverse of the T gate to the circuit.
    pub fn g_t_dg(&mut self, qix: usize)
        requires
            old(self).wf(),
            qix < old(self).n_qubits,
        ensures
            final(self).wf(),
            final(self).n_qubits == old(self).n_qubits,
            final(self).gates@ == old(self).gates@.push(
                Gate::Phase(Phase { phase: crate::gates::NEG_FRAC_PI_4_BITS, lane: qix }),
            ),
    {
        self.push_gate(Gate::Phase(Phase::t_inv(qix)));
    }

    /// Adds the square root of NOT gate to the circuit.
    pub fn g_sx(&mut self, qix: usize)
        requires
            old(self).wf(),
            qix < old(self).n_qubits,
        ensures
            final(self).wf(),
            final(self).n_qubits == old(self).n_qubits,
            final(self).gates@ == old(self).gates@.push(Gate::SX(SX { lane: qix })),
    {
        self.push_gate(Gate::SX(SX::new(qix)));
    }

    /// Adds the RX gate to the circuit.
    pub fn g_rx(&mut self, angle: Angle, qix: usize)
        requires
            old(self).wf(),
            qix < old(self).n_qubits,
        ensures
            final(self).wf(),
            final(self).n_qubits == old(self).n_qubits,
            final(self).gates@ == old(self).gates@.push(Gate::RX(RX { theta: angle, lane: qix })),
    {
        self.push_gate(Gate::RX(RX::new(angle, qix)));
    }

    /// Adds the RY gate to the circuit.
    pub fn g_ry(&mut self, angle: Angle, qix: usize)
        requires
            old(self).wf(),
            qix < old(self).n_qubits,
        ensures
            final(self).wf(),
            final(self).n_qubits == old(self).n_qubits,
            final(self).gates@ == old(self).gates@.push(Gate::RY(RY { theta: angle, lane: qix })),
    {
        self.push_gate(Gate::RY(RY::new(angle, qix)));
    }

    /// Adds the RZ gate to the circuit.
    pub fn g_rz(&mut self, angle: Angle, qix: usize)
        requires
            old(self).wf(),
            qix < old(self).n_qubits,
        ensures
            final(self).wf(),
            final(self).n_qubits == old(self).n_qubits,
            final(self).gates@ == old(self).gates@.push(Gate::RZ(RZ { theta: angle, lane: qix })),
    {
        self.push_gate(Gate::RZ(RZ::new(angle, qix)));
    }

    /// Adds the CX gate to the circuit.
    pub fn g_cx(&mut self, qix_control: usize, qix_target: usize)
        requires
            old(self).wf(),
            qix_control < old(self).n_qubits,
            qix_target < old(self).n_qubits,
            qix_control != qix_target,
        ensures
            final(self).wf(),
            final(self).n_qubits == old(self).n_qubits,
            final(self).gates@ == old(self).gates@.push(
                Gate::CX(CX { control: qix_control, target: qix_target }),
            ),
    {
        self.push_gate(Gate::CX(CX::new(qix_control, qix_target)));
    }

    /// Adds the CY gate to the circuit.
    pub fn g_cy(&mut self, qix_control: usize, qix_target: usize)
        requires
            old(self).wf(),
            qix_control < old(self).n_qubits,
            qix_target < old(self).n_qubits,
            qix_control != qix_target,
        ensures
            final(self).wf(),
            final(self).n_qubits == old(self).n_qubits,
            final(self).gates@ == old(self).gates@.push(
                Gate::CY(CY { control: qix_control, target: qix_target }),
            ),
    {
        self.push_gate(Gate::CY(CY::new(qix_control, qix_target)));
    }

    /// Adds the CZ gate to the circuit.
    pub fn g_cz(&mut self, qix_control: usize, qix_target: usize)
        requires
            old(self).wf(),
            qix_control < old(self).n_qubits,
            qix_target < old(self).n_qubits,
            qix_control != qix_target,
        ensures
            final(self).wf(),
            final(self).n_qubits == old(self).n_qubits,
            final(self).gates@ == old(self).gates@.push(
                Gate::CZ(CZ { control: qix_control, target: qix_target }),
            ),
    {
        self.push_gate(Gate::CZ(CZ::new(qix_control, qix_target)));
    }

    /// Adds the CP gate to the circuit.
    pub fn g_cp(&mut self, phase: Angle, qix_control: usize, qix_target: usize)
        requires
            old(self).wf(),
            qix_control < old(self).n_qubits,
            qix_target < old(self).n_qubits,
            qix_control != qix_target,
        ensures
            final(self).wf(),
            final(self).n_qubits == old(self).n_qubits,
            final(self).gates@ == old(self).gates@.push(
                Gate::CP(CP { phase, control: qix_control, target: qix_target }),
            ),
    {
        self.push_gate(Gate::CP(CP::new(phase, qix_control, qix_target)));
    }

    /// Adds the CRX gate to the circuit.
    pub fn g_crx(&mut self, angle: Angle, qix_control: usize, qix_target: usize)
        requires
            old(self).wf(),
            qix_control < old(self).n_qubits,
            qix_target < old(self).n_qubits,
            qix_control != qix_target,
        ensures
            final(self).wf(),
            final(self).n_qubits == old(self).n_qubits,
            final(self).gates@ == old(self).gates@.push(
                Gate::CRX(CRX { theta: angle, control: qix_control, target: qix_target }),
            ),
    {
        self.push_gate(Gate::CRX(CRX::new(angle, qix_control, qix_target)));
    }

    /// Adds the CRY gate to the circuit.
    pub fn g_cry(&mut self, angle: Angle, qix_control: usize, qix_target: usize)
        requires
            old(self).wf(),
            qix_control < old(self).n_qubits,
            qix_target < old(self).n_qubits,
            qix_control != qix_target,
        ensures
            final(self).wf(),
            final(self).n_qubits == old(self).n_qubits,
            final(self).gates@ == old(self).gates@.push(
                Gate::CRY(CRY { theta: angle, control: qix_control, target: qix_target }),
            ),
    {
        self.push_gate(Gate::CRY(CRY::new(angle, qix_control, qix_target)));
    }

    /// Adds the CRZ gate to the circuit.
    pub fn g_crz(&mut self, angle: Angle, qix_control: usize, qix_target: usize)
        requires
            old(self).wf(),
            qix_control < old(self).n_qubits,
            qix_target < old(self).n_qubits,
            qix_control != qix_target,
        ensures
            final(self).wf(),
            final(self).n_qubits == old(self).n_qubits,
            final(self).gates@ == old(self).gates@.push(
                Gate::CRZ(CRZ { theta: angle, control: qix_control, target: qix_target }),
            ),
    {
        self.push_gate(Gate::CRZ(CRZ::new(angle, qix_control, qix_target)));
    }

    /// Adds the CH gate to the circuit.
    pub fn g_ch(&mut self, qix_control: usize, qix_target: usize)
        requires
            old(self).wf(),
            qix_control < old(self).n_qubits,
            qix_target < old(self).n_qubits,
            qix_control != qix_target,
        ensures
            final(self).wf(),
            final(self).n_qubits == old(self).n_qubits,
            final(self).gates@ == old(self).gates@.push(
                Gate::CH(CH { control: qix_control, target: qix_target }),
            ),
    {
        self.push_gate(Gate::CH(CH::new(qix_control, qix_target)));
    }

    /// Adds the swap gate to the circuit.
    pub fn g_swap(&mut self, qix1: usize, qix2: usize)
        requires
            old(self).wf(),
            qix1 < old(self).n_qubits,
            qix2 < old(self).n_qubits,
            qix1 != qix2,
        ensures
            final(self).wf(),
            final(self).n_qubits == old(self).n_qubits,
            final(self).gates@ == old(self).gates@.push(Gate::Swap(Swap { lanes: (qix1, qix2) })),
    {
        self.push_gate(Gate::Swap(Swap::new(qix1, qix2)));
    }

    /// Adds the Toffoli gate to the circuit.
    pub fn g_cxx(&mut self, qix_control1: usize, qix_control2: usize, qix_target: usize)
        requires
            old(self).wf(),
            qix_control1 < old(self).n_qubits,
            qix_control2 < old(self).n_qubits,
            qix_target < old(self).n_qubits,
            qix_control1 != qix_control2,
            qix_control1 != qix_target,
            qix_control2 != qix_target,
        ensures
            final(self).wf(),
            final(self).n_qubits == old(self).n_qubits,
            final(self).gates@ == old(self).gates@.push(
                Gate::Toffoli(
                    Toffoli { control: (qix_control1, qix_control2), target: qix_target },
                ),
            ),
    {
        self.push_gate(Gate::Toffoli(Toffoli::new((qix_control1, qix_control2), qix_target)));
    }

    /// Adds the Fredkin gate to the circuit.
    pub fn g_cswap(&mut self, qix_control: usize, qix_target1: usize, qix_target2: usize)
        requires
            old(self).wf(),
            qix_control < old(self).n_qubits,
            qix_target1 < old(self).n_qubits,
            qix_target2 < old(self).n_qubits,
            qix_target1 != qix_target2,
            qix_control != qix_target1,
            qix_control != qix_target2,
        ensures
            final(self).wf(),
            final(self).n_qubits == old(self).n_qubits,
            final(self).gates@ == old(self).gates@.push(
                Gate::Fredkin(
                    Fredkin { control: qix_control, target: (qix_target1, qix_target2) },
                ),
            ),
    {
        self.push_gate(Gate::Fredkin(Fredkin::new(qix_control, (qix_target1, qix_target2))));
    }

    /// Adds the CU gate to the circuit.
    pub fn g_cu(
        &mut self,
        theta: Angle,
        phi: Angle,
        lambda: Angle,
        gamma: Angle,
        qix_control: usize,
        qix_target: usize,
    )
        requires
            old(self).wf(),
            qix_control < old(self).n_qubits,
            qix_target < old(self).n_qubits,
            qix_control != qix_target,
        ensures
            final(self).wf(),
            final(self).n_qubits == old(self).n_qubits,
            final(self).gates@ == old(self).gates@.push(
                Gate::CU(
                    CU { theta, phi, lambda, gamma, control: qix_control, target: qix_target },
                ),
            ),
    {
        self.push_gate(Gate::CU(CU::new(theta, phi, lambda, gamma, qix_control, qix_target)));
    }

    /// Adds the U gate to the circuit.
    pub fn g_u(&mut self, theta: Angle, phi: Angle, lambda: Angle, qix: usize)
        requires
            old(self).wf(),
            qix < old(self).n_qubits,
        ensures
            final(self).wf(),
            final(self).n_qubits == old(self).n_qubits,
            final(self).gates@ == old(self).gates@.push(
                Gate::U(U { theta, phi, lambda, lane: qix }),
            ),
    {
        self.push_gate(Gate::U(U::new(theta, phi, lambda, qix)));
    }

    /// Adds the U1 gate to the circuit.
    pub fn g_u1(&mut self, lambda: Angle, qix: usize)
        requires
            old(self).wf(),
            qix < old(self).n_qubits,
        ensures
            final(self).wf(),
            final(self).n_qubits == old(self).n_qubits,
            final(self).gates@ == old(self).gates@.push(Gate::U1(U1 { lambda, lane: qix })),
    {
        self.push_gate(Gate::U1(U1::new(lambda, qix)));
    }

    /// Adds the U2 gate to the circuit.
    pub fn g_u2(&mut self, phi: Angle, lambda: Angle, qix: usize)
        requires
            old(self).wf(),
            qix < old(self).n_qubits,
        ensures
            final(self).wf(),
            final(self).n_qubits == old(self).n_qubits,
            final(self).gates@ == old(self).gates@.push(Gate::U2(U2 { phi, lambda, lane: qix })),
    {
        self.push_gate(Gate::U2(U2::new(phi, lambda, qix)));
    }

    /// Adds the U3 gate to the circuit.
    pub fn g_u3(&mut self, theta: Angle, phi: Angle, lambda: Angle, qix: usize)
        requires
            old(self).wf(),
            qix < old(self).n_qubits,
        ensures
            final(self).wf(),
            final(self).n_qubits == old(self).n_qubits,
            final(self).gates@ == old(self).gates@.push(
                Gate::U3(U3 { theta, phi, lambda, lane: qix }),
            ),
    {
        self.push_gate(Gate::U3(U3::new(theta, phi, lambda, qix)));
    }
}

} // verus!
