use vstd::prelude::*;

use crate::gate::Gate;

verus! {

/// Why a gate was refused by [`Circuit::add_gate`].
#[derive(Clone, Copy, Debug, PartialEq, Eq, Structural)]
pub enum CircuitError {
    /// A gate names a qubit index at or above the circuit's qubit count.
    OutOfRangeQubit,
    /// A two-qubit gate names the same qubit twice.
    DegenerateTwoQubitGate,
}

/// The error, if any, that appending `g` to a circuit of `n` qubits raises.
/// An index out of range is reported before a repeated qubit.
pub open spec fn gate_error(g: Gate, n: nat) -> Option<CircuitError> {
    match g {
        Gate::CNOT(a, b) | Gate::SWAP(a, b) => {
            if a >= n || b >= n {
                Some(CircuitError::OutOfRangeQubit)
            } else if a == b {
                Some(CircuitError::DegenerateTwoQubitGate)
            } else {
                None
            }
        },
        Gate::H(q) | Gate::X(q) | Gate::Y(q) | Gate::Z(q) | Gate::S(q) | Gate::T(q)
        | Gate::Rx(q, _) | Gate::Ry(q, _) | Gate::Rz(q, _) => {
            if q >= n {
                Some(CircuitError::OutOfRangeQubit)
            } else {
                None
            }
        },
    }
}

/// An ordered sequence of gates over a fixed number of qubits.
#[derive(Debug)]
pub struct Circuit {
    pub num_qubits: usize,
    pub gates: Vec<Gate>,
}

impl Circuit {
    /// Every gate is valid for the circuit's width.
    pub open spec fn wf(&self) -> bool {
        forall|i: int| 0 <= i < self.gates@.len() ==> (#[trigger] self.gates@[i]).valid_for(
            self.num_qubits as nat,
        )
    }

    pub fn new(num_qubits: usize) -> (r: Circuit)
        ensures
            r.num_qubits == num_qubits,
            r.gates@ == Seq::<Gate>::empty(),
            r.wf(),
    {
        Circuit { num_qubits, gates: Vec::new() }
    }

    /// Appends `gate` if it is valid for the circuit's width; otherwise
    /// reports why and leaves the circuit as it was.
    pub fn add_gate(&mut self, gate: Gate) -> (r: Result<(), CircuitError>)
        ensures
            final(self).num_qubits == old(self).num_qubits,
            r == (match gate_error(gate, old(self).num_qubits as nat) {
                Some(e) => Err(e),
                None => Ok(()),
            }),
            r is Ok ==> final(self).gates@ == old(self).gates@.push(gate),
            r is Err ==> final(self).gates@ == old(self).gates@,
            old(self).wf() ==> final(self).wf(),
    {
        let n = self.num_qubits;
        match gate {
            Gate::CNOT(a, b) | Gate::SWAP(a, b) => {
                if a >= n || b >= n {
                    return Err(CircuitError::OutOfRangeQubit);
                }
                if a == b {
                    return Err(CircuitError::DegenerateTwoQubitGate);
                }
            },
            Gate::H(q) | Gate::X(q) | Gate::Y(q) | Gate::Z(q) | Gate::S(q) | Gate::T(q)
            | Gate::Rx(q, _) | Gate::Ry(q, _) | Gate::Rz(q, _) => {
                if q >= n {
                    return Err(CircuitError::OutOfRangeQubit);
                }
            },
        }
        self.gates.push(gate);
        proof {
            assert forall|i: int| 0 <= i < self.gates@.len() implies (
            #[trigger] self.gates@[i]).valid_for(n as nat) || !old(self).wf() by {
                if i < old(self).gates@.len() {
                    assert(self.gates@[i] == old(self).gates@[i]);
                }
            }
        }
        Ok(())
    }

    /// Whether every gate is valid for the circuit's width.
    pub fn is_valid(&self) -> (r: bool)
        ensures
            r == self.wf(),
    {
        let n = self.num_qubits;
        let mut i: usize = 0;
        while i < self.gates.len()
            invariant
                i <= self.gates@.len(),
                n == self.num_qubits,
                forall|j: int| 0 <= j < i ==> (#[trigger] self.gates@[j]).valid_for(n as nat),
            decreases self.gates@.len() - i,
        {
            let ok = match self.gates[i] {
                Gate::CNOT(a, b) | Gate::SWAP(a, b) => a < n && b < n && a != b,
                Gate::H(q) | Gate::X(q) | Gate::Y(q) | Gate::Z(q) | Gate::S(q) | Gate::T(q)
                | Gate::Rx(q, _) | Gate::Ry(q, _) | Gate::Rz(q, _) => q < n,
            };
            if !ok {
                return false;
            }
            i = i + 1;
        }
        true
    }
}

} // verus!
