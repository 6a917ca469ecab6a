use vstd::prelude::*;

verus! {

/// Number of angle units in one full turn (2π radians).
pub open spec fn full_turn() -> int {
    0x1_0000_0000_0000_0000
}

/// Angles closer than this many units to zero, or to a full turn, are
/// treated as the identity rotation. It is 1e-10 radians, rounded to units.
pub const ANGLE_TOLERANCE: u64 = 293_589_050;

/// A rotation angle, held as a point on the circle: `units` counts
/// 2^-64 of a full turn, so every angle lies in `[0, 2π)` and addition
/// wraps around exactly at 2π.
#[derive(Clone, Copy, Debug, PartialEq, Eq, Structural)]
pub struct Angle {
    pub units: u64,
}

impl Angle {
    /// The sum of two angles, reduced modulo one full turn.
    pub open spec fn sum_spec(self, other: Angle) -> Angle {
        Angle { units: ((self.units + other.units) % full_turn()) as u64 }
    }

    /// Whether the angle lies within the tolerance of `0` or of `2π`.
    pub open spec fn is_identity_spec(self) -> bool {
        self.units < ANGLE_TOLERANCE || full_turn() - self.units < ANGLE_TOLERANCE
    }

    pub fn sum(self, other: Angle) -> (r: Angle)
        ensures
            r == self.sum_spec(other),
    {
        Angle { units: self.units.wrapping_add(other.units) }
    }

    pub fn is_identity(self) -> (r: bool)
        ensures
            r == self.is_identity_spec(),
    {
        self.units < ANGLE_TOLERANCE || self.units > u64::MAX - (ANGLE_TOLERANCE - 1)
    }
}

/// A gate of a circuit. Qubits are named by index; the two-qubit gates name
/// two distinct qubits.
#[derive(Clone, Copy, Debug, PartialEq, Eq, Structural)]
pub enum Gate {
    H(usize),
    X(usize),
    Y(usize),
    Z(usize),
    S(usize),
    T(usize),
    Rx(usize, Angle),
    Ry(usize, Angle),
    Rz(usize, Angle),
    /// Control first, target second.
    CNOT(usize, usize),
    SWAP(usize, usize),
}

impl Gate {
    /// Whether this gate names only qubits below `n`, and two distinct qubits
    /// where it names two.
    pub open spec fn valid_for(self, n: nat) -> bool {
        match self {
            Gate::CNOT(a, b) | Gate::SWAP(a, b) => a < n && b < n && a != b,
            Gate::H(q) | Gate::X(q) | Gate::Y(q) | Gate::Z(q) | Gate::S(q) | Gate::T(q)
            | Gate::Rx(q, _) | Gate::Ry(q, _) | Gate::Rz(q, _) => q < n,
        }
    }

    /// Whether this gate acts on qubit `q`.
    pub open spec fn touches(self, q: usize) -> bool {
        match self {
            Gate::CNOT(a, b) | Gate::SWAP(a, b) => a == q || b == q,
            Gate::H(p) | Gate::X(p) | Gate::Y(p) | Gate::Z(p) | Gate::S(p) | Gate::T(p)
            | Gate::Rx(p, _) | Gate::Ry(p, _) | Gate::Rz(p, _) => p == q,
        }
    }
}

} // verus!
