//! The catalog adapter for gates: every concrete variant with its lanes and
//! parameters, its rank, and its span.
//!
//! The dense matrix of a gate is the business of the numeric backends; the
//! compiler middle-end reads only the lanes a gate touches.  Angle
//! parameters ride along untouched as the bit patterns of their 64-bit
//! floating-point values.

use vstd::prelude::*;
use crate::span::Span;
use crate::span::strictly_ascending;

verus! {

/// An angle parameter, carried as the bit pattern of its 64-bit
/// floating-point value.  The middle-end never interprets an angle; the
/// numeric backends turn the bits back into a floating-point value.
pub type Angle = u64;

/// The bit pattern of pi/2.
pub const FRAC_PI_2_BITS: Angle = 0x3FF921FB54442D18;

/// The bit pattern of pi/4.
pub const FRAC_PI_4_BITS: Angle = 0x3FE921FB54442D18;

/// The bit pattern of -pi/2.
pub const NEG_FRAC_PI_2_BITS: Angle = 0xBFF921FB54442D18;

/// The bit pattern of -pi/4.
pub const NEG_FRAC_PI_4_BITS: Angle = 0xBFE921FB54442D18;

/// The identity gate, which leaves its qubit alone.
#[derive(Clone, Copy, PartialEq, Eq)]
pub struct Identity {
    pub lane: usize,
}

impl Identity {
    /// Creates a new Identity gate acting on the given lane.
    pub fn new(lane: usize) -> (r: Self)
        ensures
            r.lane == lane,
    {
        Self { lane }
    }
}

/// The Pauli X gate, which flips its qubit.
#[derive(Clone, Copy, PartialEq, Eq)]
pub struct PauliX {
    pub lane: usize,
}

impl PauliX {
    /// Creates a new Pauli X gate acting on the given lane.
    pub fn new(lane: usize) -> (r: Self)
        ensures
            r.lane == lane,
    {
        Self { lane }
    }
}

/// The Pauli Y gate, which flips its qubit and adds a phase.
#[derive(Clone, Copy, PartialEq, Eq)]
pub struct PauliY {
    pub lane: usize,
}

impl PauliY {
    /// Creates a new Pauli Y gate acting on the given lane.
    pub fn new(lane: usize) -> (r: Self)
        ensures
            r.lane == lane,
    {
        Self { lane }
    }
}

/// The Pauli Z gate, which adds a phase to its qubit.
#[derive(Clone, Copy, PartialEq, Eq)]
pub struct PauliZ {
    pub lane: usize,
}

impl PauliZ {
    /// Creates a new Pauli Z gate acting on the given lane.
    pub fn new(lane: usize) -> (r: Self)
        ensures
            r.lane == lane,
    {
        Self { lane }
    }
}

/// The Hadamard gate, which puts its qubit in a superposition.
#[derive(Clone, Copy, PartialEq, Eq)]
pub struct Hadamard {
    pub lane: usize,
}

impl Hadamard {
    /// Creates a new Hadamard gate acting on the given lane.
    pub fn new(lane: usize) -> (r: Self)
        ensures
            r.lane == lane,
    {
        Self { lane }
    }
}

/// The phase gate, which rotates its qubit around the Z axis by a fixed
/// angle.
#[derive(Clone, Copy, PartialEq, Eq)]
pub struct Phase {
    pub phase: Angle,
    pub lane: usize,
}

impl Phase {
    /// Creates a new phase gate with the given angle on the given lane.
    pub fn new(phase: Angle, lane: usize) -> (r: Self)
        ensures
            r.phase == phase,
            r.lane == lane,
    {
        Self { phase, lane }
    }

    /// The S gate: a phase gate of angle pi/2.
    pub fn s(lane: usize) -> (r: Self)
        ensures
            r.phase == FRAC_PI_2_BITS,
            r.lane == lane,
    {
        Self::new(FRAC_PI_2_BITS, lane)
    }

    /// The T gate: a phase gate of angle pi/4.
    pub fn t(lane: usize) -> (r: Self)
        ensures
            r.phase == FRAC_PI_4_BITS,
            r.lane == lane,
    {
        Self::new(FRAC_PI_4_BITS, lane)
    }

    /// The inverse of the S gate: a phase gate of angle -pi/2.
    pub fn s_inv(lane: usize) -> (r: Self)
        ensures
            r.phase == NEG_FRAC_PI_2_BITS,
            r.lane == lane,
    {
        Self::new(NEG_FRAC_PI_2_BITS, lane)
    }

    /// The inverse of the T gate: a phase gate of angle -pi/4.
    pub fn t_inv(lane: usize) -> (r: Self)
        ensures
            r.phase == NEG_FRAC_PI_4_BITS,
            r.lane == lane,
    {
        Self::new(NEG_FRAC_PI_4_BITS, lane)
    }
}

/// The square root of NOT gate.
#[derive(Clone, Copy, PartialEq, Eq)]
pub struct SX {
    pub lane: usize,
}

impl SX {
    /// Creates a new SX gate acting on the given lane.
    pub fn new(lane: usize) -> (r: Self)
        ensures
            r.lane == lane,
    {
        Self { lane }
    }
}

/// A rotation of one qubit around the X axis.
#[derive(Clone, Copy, PartialEq, Eq)]
pub struct RX {
    pub theta: Angle,
    pub lane: usize,
}

impl RX {
    /// Creates a new RX gate with the given angle on the given lane.
    pub fn new(theta: Angle, lane: usize) -> (r: Self)
        ensures
            r.theta == theta,
            r.lane == lane,
    {
        Self { theta, lane }
    }
}

/// A rotation of one qubit around the Y axis.
#[derive(Clone, Copy, PartialEq, Eq)]
pub struct RY {
    pub theta: Angle,
    pub lane: usize,
}

impl RY {
    /// Creates a new RY gate with the given angle on the given lane.
    pub fn new(theta: Angle, lane: usize) -> (r: Self)
        ensures
            r.theta == theta,
            r.lane == lane,
    {
        Self { theta, lane }
    }
}

/// A rotation of one qubit around the Z axis.
#[derive(Clone, Copy, PartialEq, Eq)]
pub struct RZ {
    pub theta: Angle,
    pub lane: usize,
}

impl RZ {
    /// Creates a new RZ gate with the given angle on the given lane.
    pub fn new(theta: Angle, lane: usize) -> (r: Self)
        ensures
            r.theta == theta,
            r.lane == lane,
    {
        Self { theta, lane }
    }
}

/// The controlled X gate: flips the target qubit when the control qubit is
/// set.
#[derive(Clone, Copy, PartialEq, Eq)]
pub struct CX {
    pub control: usize,
    pub target: usize,
}

impl CX {
    /// Creates a new CX gate with the given control and target lanes.
    pub fn new(control: usize, target: usize) -> (r: Self)
        requires
            control != target,
        ensures
            r.control == control,
            r.target == target,
    {
        Self { control, target }
    }
}

/// The controlled Y gate.
#[derive(Clone, Copy, PartialEq, Eq)]
pub struct CY {
    pub control: usize,
    pub target: usize,
}

impl CY {
    /// Creates a new CY gate with the given control and target lanes.
    pub fn new(control: usize, target: usize) -> (r: Self)
        requires
            control != target,
        ensures
            r.control == control,
            r.target == target,
    {
        Self { control, target }
    }
}

/// The controlled Z gate.
#[derive(Clone, Copy, PartialEq, Eq)]
pub struct CZ {
    pub control: usize,
    pub target: usize,
}

impl CZ {
    /// Creates a new CZ gate with the given control and target lanes.
    pub fn new(control: usize, target: usize) -> (r: Self)
        requires
            control != target,
        ensures
            r.control == control,
            r.target == target,
    {
        Self { control, target }
    }
}

/// The controlled phase gate.
#[derive(Clone, Copy, PartialEq, Eq)]
pub struct CP {
    pub phase: Angle,
    pub control: usize,
    pub target: usize,
}

impl CP {
    /// Creates a new CP gate with the given angle, control and target.
    pub fn new(phase: Angle, control: usize, target: usize) -> (r: Self)
        requires
            control != target,
        ensures
            r.phase == phase,
            r.control == control,
            r.target == target,
    {
        Self { phase, control, target }
    }
}

/// A controlled rotation around the X axis.
#[derive(Clone, Copy, PartialEq, Eq)]
pub struct CRX {
    pub theta: Angle,
    pub control: usize,
    pub target: usize,
}

impl CRX {
    /// Creates a new CRX gate with the given angle, control and target.
    pub fn new(theta: Angle, control: usize, target: usize) -> (r: Self)
        requires
            control != target,
        ensures
            r.theta == theta,
            r.control == control,
            r.target == target,
    {
        Self { theta, control, target }
    }
}

/// A controlled rotation around the Y axis.
#[derive(Clone, Copy, PartialEq, Eq)]
pub struct CRY {
    pub theta: Angle,
    pub control: usize,
    pub target: usize,
}

impl CRY {
    /// Creates a new CRY gate with the given angle, control and target.
    pub fn new(theta: Angle, control: usize, target: usize) -> (r: Self)
        requires
            control != target,
        ensures
            r.theta == theta,
            r.control == control,
            r.target == target,
    {
        Self { theta, control, target }
    }
}

/// A controlled rotation around the Z axis.
#[derive(Clone, Copy, PartialEq, Eq)]
pub struct CRZ {
    pub theta: Angle,
    pub control: usize,
    pub target: usize,
}

impl CRZ {
    /// Creates a new CRZ gate with the given angle, control and target.
    pub fn new(theta: Angle, control: usize, target: usize) -> (r: Self)
        requires
            control != target,
        ensures
            r.theta == theta,
            r.control == control,
            r.target == target,
    {
        Self { theta, control, target }
    }
}

/// The controlled Hadamard gate.
#[derive(Clone, Copy, PartialEq, Eq)]
pub struct CH {
    pub control: usize,
    pub target: usize,
}

impl CH {
    /// Creates a new CH gate with the given control and target lanes.
    pub fn new(control: usize, target: usize) -> (r: Self)
        requires
            control != target,
        ensures
            r.control == control,
            r.target == target,
    {
        Self { control, target }
    }
}

/// The swap gate, which exchanges the states of two qubits.
#[derive(Clone, Copy, PartialEq, Eq)]
pub struct Swap {
    pub lanes: (usize, usize),
}

impl Swap {
    /// Creates a new swap gate acting on the two given lanes.
    pub fn new(lane1: usize, lane2: usize) -> (r: Self)
        requires
            lane1 != lane2,
        ensures
            r.lanes == (lane1, lane2),
    {
        Self { lanes: (lane1, lane2) }
    }
}

/// The Toffoli gate: flips the target qubit when both control qubits are
/// set.
#[derive(Clone, Copy, PartialEq, Eq)]
pub struct Toffoli {
    pub control: (usize, usize),
    pub target: usize,
}

impl Toffoli {
    /// Creates a new Toffoli gate with the given control pair and target.
    pub fn new(control: (usize, usize), target: usize) -> (r: Self)
        requires
            control.0 != control.1,
            control.0 != target,
            control.1 != target,
        ensures
            r.control == control,
            r.target == target,
    {
        Self { control, target }
    }
}

/// The Fredkin gate: a controlled swap of two target qubits.
#[derive(Clone, Copy, PartialEq, Eq)]
pub struct Fredkin {
    pub control: usize,
    pub target: (usize, usize),
}

impl Fredkin {
    /// Creates a new Fredkin gate with the given control and target pair.
    pub fn new(control: usize, target: (usize, usize)) -> (r: Self)
        requires
            target.0 != target.1,
            control != target.0,
            control != target.1,
        ensures
            r.control == control,
            r.target == target,
    {
        Self { control, target }
    }
}

/// The four-parameter controlled U gate with a relative phase.
#[derive(Clone, Copy, PartialEq, Eq)]
pub struct CU {
    pub theta: Angle,
    pub phi: Angle,
    pub lambda: Angle,
    pub gamma: Angle,
    pub control: usize,
    pub target: usize,
}

impl CU {
    /// Creates a new CU gate with the given angles, control and target.
    pub fn new(
        theta: Angle,
        phi: Angle,
        lambda: Angle,
        gamma: Angle,
        control: usize,
        target: usize,
    ) -> (r: Self)
        requires
            control != target,
        ensures
            r.theta == theta,
            r.phi == phi,
            r.lambda == lambda,
            r.gamma == gamma,
            r.control == control,
            r.target == target,
    {
        Self { theta, phi, lambda, gamma, control, target }
    }
}

/// The one-parameter diagonal gate of the IBM experience set.
#[derive(Clone, Copy, PartialEq, Eq)]
pub struct U1 {
    pub lambda: Angle,
    pub lane: usize,
}

impl U1 {
    /// Creates a new U1 gate with the given angle on the given lane.
    pub fn new(lambda: Angle, lane: usize) -> (r: Self)
        ensures
            r.lambda == lambda,
            r.lane == lane,
    {
        Self { lambda, lane }
    }
}

/// The two-parameter gate of the IBM experience set.
#[derive(Clone, Copy, PartialEq, Eq)]
pub struct U2 {
    pub phi: Angle,
    pub lambda: Angle,
    pub lane: usize,
}

impl U2 {
    /// Creates a new U2 gate with the given angles on the given lane.
    pub fn new(phi: Angle, lambda: Angle, lane: usize) -> (r: Self)
        ensures
            r.phi == phi,
            r.lambda == lambda,
            r.lane == lane,
    {
        Self { phi, lambda, lane }
    }
}

/// The three-parameter gate of the IBM experience set.
#[derive(Clone, Copy, PartialEq, Eq)]
pub struct U3 {
    pub theta: Angle,
    pub phi: Angle,
    pub lambda: Angle,
    pub lane: usize,
}

impl U3 {
    /// Creates a new U3 gate with the given angles on the given lane.
    pub fn new(theta: Angle, phi: Angle, lambda: Angle, lane: usize) -> (r: Self)
        ensures
            r.theta == theta,
            r.phi == phi,
            r.lambda == lambda,
            r.lane == lane,
    {
        Self { theta, phi, lambda, lane }
    }
}

/// The universal single-qubit gate.
#[derive(Clone, Copy, PartialEq, Eq)]
pub struct U {
    pub theta: Angle,
    pub phi: Angle,
    pub lambda: Angle,
    pub lane: usize,
}

impl U {
    /// Creates a new U gate with the given angles on the given lane.
    pub fn new(theta: Angle, phi: Angle, lambda: Angle, lane: usize) -> (r: Self)
        ensures
            r.theta == theta,
            r.phi == phi,
            r.lambda == lambda,
            r.lane == lane,
    {
        Self { theta, phi, lambda, lane }
    }
}

/// Every quantum gate the system knows.
#[derive(Clone, Copy, PartialEq, Eq)]
pub enum Gate {
    /// The identity gate.
    Identity(Identity),
    /// The Pauli X gate.
    PauliX(PauliX),
    /// The Pauli Y gate.
    PauliY(PauliY),
    /// The Pauli Z gate.
    PauliZ(PauliZ),
    /// The Hadamard gate.
    Hadamard(Hadamard),
    /// The phase gate.
    Phase(Phase),
    /// The square root of NOT gate.
    SX(SX),
    /// A rotation around the X axis.
    RX(RX),
    /// A rotation around the Y axis.
    RY(RY),
    /// A rotation around the Z axis.
    RZ(RZ),
    /// The controlled X gate.
    CX(CX),
    /// The controlled Y gate.
    CY(CY),
    /// The controlled Z gate.
    CZ(CZ),
    /// The controlled phase gate.
    CP(CP),
    /// A controlled rotation around the X axis.
    CRX(CRX),
    /// A controlled rotation around the Y axis.
    CRY(CRY),
    /// A controlled rotation around the Z axis.
    CRZ(CRZ),
    /// The controlled Hadamard gate.
    CH(CH),
    /// The swap gate.
    Swap(Swap),
    /// The Toffoli gate.
    Toffoli(Toffoli),
    /// The Fredkin gate.
    Fredkin(Fredkin),
    /// The four-parameter controlled U gate.
    CU(CU),
    /// The one-parameter IBM experience gate.
    U1(U1),
    /// The two-parameter IBM experience gate.
    U2(U2),
    /// The three-parameter IBM experience gate.
    U3(U3),
    /// The universal single-qubit gate.
    U(U),
}

impl Gate {
    /// Whether this gate touches the given lane.
    pub open spec fn on_lane(self, l: usize) -> bool {
        match self {
            Gate::Identity(g) => l == g.lane,
            Gate::PauliX(g) => l == g.lane,
            Gate::PauliY(g) => l == g.lane,
            Gate::PauliZ(g) => l == g.lane,
            Gate::Hadamard(g) => l == g.lane,
            Gate::Phase(g) => l == g.lane,
            Gate::SX(g) => l == g.lane,
            Gate::RX(g) => l == g.lane,
            Gate::RY(g) => l == g.lane,
            Gate::RZ(g) => l == g.lane,
            Gate::CX(g) => l == g.control || l == g.target,
            Gate::CY(g) => l == g.control || l == g.target,
            Gate::CZ(g) => l == g.control || l == g.target,
            Gate::CP(g) => l == g.control || l == g.target,
            Gate::CRX(g) => l == g.control || l == g.target,
            Gate::CRY(g) => l == g.control || l == g.target,
            Gate::CRZ(g) => l == g.control || l == g.target,
            Gate::CH(g) => l == g.control || l == g.target,
            Gate::Swap(g) => l == g.lanes.0 || l == g.lanes.1,
            Gate::Toffoli(g) => l == g.control.0 || l == g.control.1 || l == g.target,
            Gate::Fredkin(g) => l == g.control || l == g.target.0 || l == g.target.1,
            Gate::CU(g) => l == g.control || l == g.target,
            Gate::U1(g) => l == g.lane,
            Gate::U2(g) => l == g.lane,
            Gate::U3(g) => l == g.lane,
            Gate::U(g) => l == g.lane,
        }
    }

    /// The rank: the number of lanes this gate acts on.
    pub open spec fn spec_rank(self) -> u8 {
        match self {
            Gate::Identity(_) => 1,
            Gate::PauliX(_) => 1,
            Gate::PauliY(_) => 1,
            Gate::PauliZ(_) => 1,
            Gate::Hadamard(_) => 1,
            Gate::Phase(_) => 1,
            Gate::SX(_) => 1,
            Gate::RX(_) => 1,
            Gate::RY(_) => 1,
            Gate::RZ(_) => 1,
            Gate::CX(_) => 2,
            Gate::CY(_) => 2,
            Gate::CZ(_) => 2,
            Gate::CP(_) => 2,
            Gate::CRX(_) => 2,
            Gate::CRY(_) => 2,
            Gate::CRZ(_) => 2,
            Gate::CH(_) => 2,
            Gate::Swap(_) => 2,
            Gate::Toffoli(_) => 3,
            Gate::Fredkin(_) => 3,
            Gate::CU(_) => 2,
            Gate::U1(_) => 1,
            Gate::U2(_) => 1,
            Gate::U3(_) => 1,
            Gate::U(_) => 1,
        }
    }

    /// Holds when this gate's lanes are pairwise distinct.
    pub open spec fn wf(self) -> bool {
        match self {
            Gate::CX(g) => g.control != g.target,
            Gate::CY(g) => g.control != g.target,
            Gate::CZ(g) => g.control != g.target,
            Gate::CP(g) => g.control != g.target,
            Gate::CRX(g) => g.control != g.target,
            Gate::CRY(g) => g.control != g.target,
            Gate::CRZ(g) => g.control != g.target,
            Gate::CH(g) => g.control != g.target,
            Gate::CU(g) => g.control != g.target,
            Gate::Swap(g) => g.lanes.0 != g.lanes.1,
            Gate::Toffoli(g) => g.control.0 != g.control.1 && g.control.0 != g.target
                && g.control.1 != g.target,
            Gate::Fredkin(g) => g.target.0 != g.target.1 && g.control != g.target.0 && g.control
                != g.target.1,
            _ => true,
        }
    }

    /// Holds when every lane of this gate lies below the given lane count.
    pub open spec fn in_range(self, n: usize) -> bool {
        forall|l: usize| self.on_lane(l) ==> l < n
    }

    /// Returns the rank of this gate.
    pub fn rank(&self) -> (r: u8)
        ensures
            r == self.spec_rank(),
    {
        match self {
            Gate::Identity(_) => 1,
            Gate::PauliX(_) => 1,
            Gate::PauliY(_) => 1,
            Gate::PauliZ(_) => 1,
            Gate::Hadamard(_) => 1,
            Gate::Phase(_) => 1,
            Gate::SX(_) => 1,
            Gate::RX(_) => 1,
            Gate::RY(_) => 1,
            Gate::RZ(_) => 1,
            Gate::CX(_) => 2,
            Gate::CY(_) => 2,
            Gate::CZ(_) => 2,
            Gate::CP(_) => 2,
            Gate::CRX(_) => 2,
            Gate::CRY(_) => 2,
            Gate::CRZ(_) => 2,
            Gate::CH(_) => 2,
            Gate::Swap(_) => 2,
            Gate::Toffoli(_) => 3,
            Gate::Fredkin(_) => 3,
            Gate::CU(_) => 2,
            Gate::U1(_) => 1,
            Gate::U2(_) => 1,
            Gate::U3(_) => 1,
            Gate::U(_) => 1,
        }
    }

    /// Returns true when this gate acts on a single lane.
    pub fn is_rank_one(&self) -> (r: bool)
        ensures
            r == (self.spec_rank() == 1),
    {
        self.rank() == 1
    }

    /// Returns the sparse span of this gate: the sorted set of lanes it
    /// acts on.
    pub fn span(&self) -> (r: Span)
        requires
            self.wf(),
        ensures
            r.wf(),
            forall|l: usize| r@.contains(l) <==> self.on_lane(l),
            r@.len() == self.spec_rank(),
            r@.len() > 0,
    {
        match self {
            Gate::Identity(g) => Span::single(g.lane),
            Gate::PauliX(g) => Span::single(g.lane),
            Gate::PauliY(g) => Span::single(g.lane),
            Gate::PauliZ(g) => Span::single(g.lane),
            Gate::Hadamard(g) => Span::single(g.lane),
            Gate::Phase(g) => Span::single(g.lane),
            Gate::SX(g) => Span::single(g.lane),
            Gate::RX(g) => Span::single(g.lane),
            Gate::RY(g) => Span::single(g.lane),
            Gate::RZ(g) => Span::single(g.lane),
            Gate::CX(g) => span_of_two(g.control, g.target),
            Gate::CY(g) => span_of_two(g.control, g.target),
            Gate::CZ(g) => span_of_two(g.control, g.target),
            Gate::CP(g) => span_of_two(g.control, g.target),
            Gate::CRX(g) => span_of_two(g.control, g.target),
            Gate::CRY(g) => span_of_two(g.control, g.target),
            Gate::CRZ(g) => span_of_two(g.control, g.target),
            Gate::CH(g) => span_of_two(g.control, g.target),
            Gate::Swap(g) => span_of_two(g.lanes.0, g.lanes.1),
            Gate::Toffoli(g) => span_of_three(g.control.0, g.control.1, g.target),
            Gate::Fredkin(g) => span_of_three(g.control, g.target.0, g.target.1),
            Gate::CU(g) => span_of_two(g.control, g.target),
            Gate::U1(g) => Span::single(g.lane),
            Gate::U2(g) => Span::single(g.lane),
            Gate::U3(g) => Span::single(g.lane),
            Gate::U(g) => Span::single(g.lane),
        }
    }
}

/// The span of a gate on two distinct lanes.
fn span_of_two(a: usize, b: usize) -> (r: Span)
    requires
        a != b,
    ensures
        r.wf(),
        forall|l: usize| r@.contains(l) <==> (l == a || l == b),
        r@.len() == 2,
{
    let lanes = if a < b { vec![a, b] } else { vec![b, a] };
    let r = Span { lanes };
    proof {
        assert(strictly_ascending(r@));
        assert(r@.contains(a) && r@.contains(b)) by {
            assert(r@[0] == if a < b { a } else { b });
            assert(r@[1] == if a < b { b } else { a });
        }
    }
    r
}

/// The span of a gate on three distinct lanes.
fn span_of_three(a: usize, b: usize, c: usize) -> (r: Span)
    requires
        a != b,
        a != c,
        b != c,
    ensures
        r.wf(),
        forall|l: usize| r@.contains(l) <==> (l == a || l == b || l == c),
        r@.len() == 3,
{
    let (lo, mid) = if a < b { (a, b) } else { (b, a) };
    let (lo, mid, hi) = if c < lo {
        (c, lo, mid)
    } else if c < mid {
        (lo, c, mid)
    } else {
        (lo, mid, c)
    };
    let r = Span { lanes: vec![lo, mid, hi] };
    proof {
        assert(strictly_ascending(r@));
        assert(r@[0] == lo && r@[1] == mid && r@[2] == hi);
        assert(r@.contains(lo) && r@.contains(mid) && r@.contains(hi));
    }
    r
}

} // verus!
