use vstd::prelude::*;

use crate::circuit::Circuit;
use crate::gate::{Angle, Gate};

verus! {

/// The working state of the optimizer after some prefix of the input.
///
/// `slots` has one entry per input gate read so far, in input order: the
/// gate that stands for it in the output, or `None` where it was cancelled or
/// merged into an earlier gate. `last[q]` is the slot of the most recent gate
/// on qubit `q` that a later gate may still combine with.
pub struct PassState {
    pub slots: Seq<Option<Gate>>,
    pub last: Seq<Option<usize>>,
}

/// The state before any gate of a circuit of `n` qubits is read.
pub open spec fn initial_state(n: nat) -> PassState {
    PassState { slots: Seq::empty(), last: Seq::new(n, |q: int| None) }
}

/// What is recorded for qubit `q`, if anything.
pub open spec fn held_gate(st: PassState, q: usize) -> Option<Gate> {
    match st.last[q as int] {
        Some(j) => st.slots[j as int],
        None => None,
    }
}

/// Emits `g` into a new slot and records it for `q`.
pub open spec fn emit_spec(st: PassState, g: Gate, q: usize) -> PassState {
    PassState {
        slots: st.slots.push(Some(g)),
        last: st.last.update(q as int, Some(st.slots.len() as usize)),
    }
}

/// Emits the two-qubit gate `g` into a new slot and records it for `a` and `b`.
pub open spec fn emit_pair_spec(st: PassState, g: Gate, a: usize, b: usize) -> PassState {
    PassState {
        slots: st.slots.push(Some(g)),
        last: st.last.update(a as int, Some(st.slots.len() as usize)).update(
            b as int,
            Some(st.slots.len() as usize),
        ),
    }
}

/// Combines the incoming gate with what is recorded for `q`: that gate
/// becomes `with` (removed where `with` is `None`), and the incoming gate
/// leaves an empty slot.
pub open spec fn merge_spec(st: PassState, q: usize, with: Option<Gate>) -> PassState {
    let j = st.last[q as int].unwrap();
    PassState {
        slots: st.slots.update(j as int, with).push(None),
        last: st.last.update(
            q as int,
            match with {
                Some(_) => Some(j),
                None => None,
            },
        ),
    }
}

/// Cancels the incoming SWAP on `a` and `b` against the SWAP recorded for `a`.
pub open spec fn cancel_pair_spec(st: PassState, a: usize, b: usize) -> PassState {
    let j = st.last[a as int].unwrap();
    PassState {
        slots: st.slots.update(j as int, None).push(None),
        last: st.last.update(a as int, None).update(b as int, None),
    }
}

/// The angle of `g` where it is a rotation of the same axis as `kind`.
pub open spec fn same_axis_angle(g: Gate, kind: Gate) -> Option<Angle> {
    match (g, kind) {
        (Gate::Rx(_, a), Gate::Rx(_, _)) => Some(a),
        (Gate::Ry(_, a), Gate::Ry(_, _)) => Some(a),
        (Gate::Rz(_, a), Gate::Rz(_, _)) => Some(a),
        _ => None,
    }
}

/// The rotation of the same axis as `kind`, on qubit `q`, by `angle`.
pub open spec fn rotation_like(kind: Gate, q: usize, angle: Angle) -> Gate {
    match kind {
        Gate::Rx(_, _) => Gate::Rx(q, angle),
        Gate::Ry(_, _) => Gate::Ry(q, angle),
        _ => Gate::Rz(q, angle),
    }
}

/// Whether `g` is the same self-inverse single-qubit kind (X, Y, Z or H) as
/// `kind`.
pub open spec fn same_pauli_kind(g: Gate, kind: Gate) -> bool {
    match (g, kind) {
        (Gate::X(_), Gate::X(_)) => true,
        (Gate::Y(_), Gate::Y(_)) => true,
        (Gate::Z(_), Gate::Z(_)) => true,
        (Gate::H(_), Gate::H(_)) => true,
        _ => false,
    }
}

/// What a step does with the incoming gate.
pub enum Action {
    /// Emit the incoming gate into a new slot and record it.
    Emit,
    /// Replace what is recorded for the incoming gate's first qubit by the
    /// given gate, or remove it; the incoming gate is not emitted.
    Merge(Option<Gate>),
    /// Remove the SWAP recorded for the incoming SWAP's first qubit and clear
    /// the records of both its qubits.
    CancelPair,
}

/// The qubit whose record decides what happens to `g`: its only qubit, a
/// CNOT's control, or a SWAP's first qubit.
pub open spec fn primary(g: Gate) -> usize {
    match g {
        Gate::CNOT(a, _) | Gate::SWAP(a, _) => a,
        Gate::H(q) | Gate::X(q) | Gate::Y(q) | Gate::Z(q) | Gate::S(q) | Gate::T(q)
        | Gate::Rx(q, _) | Gate::Ry(q, _) | Gate::Rz(q, _) => q,
    }
}

/// The rewrite rules of the pass: what to do with `g` when `held` is
/// recorded for its primary qubit.
pub open spec fn decide(held: Option<Gate>, g: Gate) -> Action {
    match g {
        Gate::X(_) | Gate::Y(_) | Gate::Z(_) | Gate::H(_) => {
            match held {
                Some(p) if same_pauli_kind(p, g) => Action::Merge(None),
                _ => Action::Emit,
            }
        },
        Gate::S(q) => {
            match held {
                Some(Gate::S(_)) => Action::Merge(Some(Gate::Z(q))),
                _ => Action::Emit,
            }
        },
        Gate::T(q) => {
            match held {
                Some(Gate::T(_)) => Action::Merge(Some(Gate::S(q))),
                _ => Action::Emit,
            }
        },
        Gate::Rx(q, theta) | Gate::Ry(q, theta) | Gate::Rz(q, theta) => {
            match held {
                Some(p) if same_axis_angle(p, g) is Some => {
                    let psi = same_axis_angle(p, g).unwrap().sum_spec(theta);
                    if psi.is_identity_spec() {
                        Action::Merge(None)
                    } else {
                        Action::Merge(Some(rotation_like(g, q, psi)))
                    }
                },
                _ => Action::Emit,
            }
        },
        Gate::CNOT(c, t) => {
            if held == Some(Gate::CNOT(c, t)) {
                Action::Merge(None)
            } else {
                Action::Emit
            }
        },
        Gate::SWAP(a, b) => {
            if held == Some(Gate::SWAP(a, b)) || held == Some(Gate::SWAP(b, a)) {
                Action::CancelPair
            } else {
                Action::Emit
            }
        },
    }
}

/// Carries out `act` for the incoming gate `g`.
pub open spec fn apply(st: PassState, g: Gate, act: Action) -> PassState {
    match act {
        Action::Emit => match g {
            Gate::SWAP(a, b) => emit_pair_spec(st, g, a, b),
            _ => emit_spec(st, g, primary(g)),
        },
        Action::Merge(with) => merge_spec(st, primary(g), with),
        Action::CancelPair => match g {
            Gate::SWAP(a, b) => cancel_pair_spec(st, a, b),
            _ => merge_spec(st, primary(g), None),
        },
    }
}

/// Reads one gate.
pub open spec fn pass_step(st: PassState, g: Gate) -> PassState {
    apply(st, g, decide(held_gate(st, primary(g)), g))
}

/// The state after reading all of `gates`, in order.
pub open spec fn pass_run(n: nat, gates: Seq<Gate>) -> PassState
    decreases gates.len(),
{
    if gates.len() == 0 {
        initial_state(n)
    } else {
        pass_step(pass_run(n, gates.drop_last()), gates.last())
    }
}

/// The gates of the slots that are filled, in slot order.
pub open spec fn compact(slots: Seq<Option<Gate>>) -> Seq<Gate>
    decreases slots.len(),
{
    if slots.len() == 0 {
        Seq::empty()
    } else {
        let rest = compact(slots.drop_last());
        match slots.last() {
            Some(g) => rest.push(g),
            None => rest,
        }
    }
}

/// The sequence of gates that the pass makes of `gates` on `n` qubits.
pub open spec fn optimize(n: nat, gates: Seq<Gate>) -> Seq<Gate> {
    compact(pass_run(n, gates).slots)
}

/// The state fits a circuit of `n` qubits: one record per qubit, each naming
/// a slot that exists, and every filled slot a gate valid for `n`.
pub open spec fn state_wf(st: PassState, n: nat) -> bool {
    &&& st.last.len() == n
    &&& forall|q: int| 0 <= q < n && (#[trigger] st.last[q]) is Some ==> st.last[q].unwrap() < st.slots.len()
    &&& forall|j: int| 0 <= j < st.slots.len() && (#[trigger] st.slots[j]) is Some ==> st.slots[j].unwrap().valid_for(n)
}

pub(crate) proof fn lemma_step_wf(st: PassState, g: Gate, n: nat)
    requires
        state_wf(st, n),
        g.valid_for(n),
    ensures
        state_wf(pass_step(st, g), n),
        pass_step(st, g).slots.len() == st.slots.len() + 1,
{
    let r = pass_step(st, g);
    assert forall|j: int| 0 <= j < r.slots.len() && (#[trigger] r.slots[j]) is Some implies r.slots[j].unwrap().valid_for(n) by {
        if j < st.slots.len() && r.slots[j] != st.slots[j] {
        }
    }
}

/// The optimizer's working state: one slot per gate read, and for each qubit
/// the slot that a later gate may combine with.
struct Pass {
    slots: Vec<Option<Gate>>,
    last: Vec<Option<usize>>,
}

impl View for Pass {
    type V = PassState;

    closed spec fn view(&self) -> PassState {
        PassState { slots: self.slots@, last: self.last@ }
    }
}

impl Pass {
    fn new(n: usize) -> (r: Pass)
        ensures
            r@ == initial_state(n as nat),
    {
        let mut last: Vec<Option<usize>> = Vec::new();
        let mut i: usize = 0;
        while i < n
            invariant
                i <= n,
                last@ == Seq::new(i as nat, |q: int| None::<usize>),
            decreases n - i,
        {
            last.push(None);
            i = i + 1;
        }
        assert(last@ =~= Seq::new(n as nat, |q: int| None::<usize>));
        Pass { slots: Vec::new(), last }
    }

    fn held(&self, q: usize) -> (r: Option<Gate>)
        requires
            state_wf(self@, self.last@.len()),
            q < self.last@.len(),
        ensures
            r == held_gate(self@, q),
    {
        match self.last[q] {
            Some(j) => self.slots[j],
            None => None,
        }
    }

    fn emit(&mut self, g: Gate, q: usize)
        requires
            q < old(self).last@.len(),
            old(self).slots@.len() < usize::MAX,
        ensures
            final(self)@ == emit_spec(old(self)@, g, q),
    {
        let j = self.slots.len();
        self.slots.push(Some(g));
        self.last.set(q, Some(j));
    }

    fn emit_pair(&mut self, g: Gate, a: usize, b: usize)
        requires
            a < old(self).last@.len(),
            b < old(self).last@.len(),
            old(self).slots@.len() < usize::MAX,
        ensures
            final(self)@ == emit_pair_spec(old(self)@, g, a, b),
    {
        let j = self.slots.len();
        self.slots.push(Some(g));
        self.last.set(a, Some(j));
        self.last.set(b, Some(j));
    }

    fn merge(&mut self, q: usize, with: Option<Gate>)
        requires
            state_wf(old(self)@, old(self).last@.len()),
            q < old(self).last@.len(),
            old(self).last@[q as int] is Some,
        ensures
            final(self)@ == merge_spec(old(self)@, q, with),
    {
        let j = self.last[q].unwrap();
        self.slots.set(j, with);
        self.slots.push(None);
        let rec = match with {
            Some(_) => Some(j),
            None => None,
        };
        self.last.set(q, rec);
    }

    fn cancel_pair(&mut self, a: usize, b: usize)
        requires
            state_wf(old(self)@, old(self).last@.len()),
            a < old(self).last@.len(),
            b < old(self).last@.len(),
            old(self).last@[a as int] is Some,
        ensures
            final(self)@ == cancel_pair_spec(old(self)@, a, b),
    {
        let j = self.last[a].unwrap();
        self.slots.set(j, None);
        self.slots.push(None);
        self.last.set(a, None);
        self.last.set(b, None);
    }

    fn step(&mut self, g: Gate)
        requires
            state_wf(old(self)@, old(self).last@.len()),
            g.valid_for(old(self).last@.len()),
            old(self).slots@.len() < usize::MAX,
        ensures
            final(self)@ == pass_step(old(self)@, g),
    {
        match g {
            Gate::X(q) | Gate::Y(q) | Gate::Z(q) | Gate::H(q) => {
                let same = match (self.held(q), g) {
                    (Some(Gate::X(_)), Gate::X(_)) => true,
                    (Some(Gate::Y(_)), Gate::Y(_)) => true,
                    (Some(Gate::Z(_)), Gate::Z(_)) => true,
                    (Some(Gate::H(_)), Gate::H(_)) => true,
                    _ => false,
                };
                if same {
                    self.merge(q, None);
                } else {
                    self.emit(g, q);
                }
            },
            Gate::S(q) => {
                if let Some(Gate::S(_)) = self.held(q) {
                    self.merge(q, Some(Gate::Z(q)));
                } else {
                    self.emit(g, q);
                }
            },
            Gate::T(q) => {
                if let Some(Gate::T(_)) = self.held(q) {
                    self.merge(q, Some(Gate::S(q)));
                } else {
                    self.emit(g, q);
                }
            },
            Gate::Rx(q, theta) | Gate::Ry(q, theta) | Gate::Rz(q, theta) => {
                let prev = match (self.held(q), g) {
                    (Some(Gate::Rx(_, a)), Gate::Rx(_, _)) => Some(a),
                    (Some(Gate::Ry(_, a)), Gate::Ry(_, _)) => Some(a),
                    (Some(Gate::Rz(_, a)), Gate::Rz(_, _)) => Some(a),
                    _ => None,
                };
                match prev {
                    Some(phi) => {
                        let psi = phi.sum(theta);
                        if psi.is_identity() {
                            self.merge(q, None);
                        } else {
                            let fused = match g {
                                Gate::Rx(_, _) => Gate::Rx(q, psi),
                                Gate::Ry(_, _) => Gate::Ry(q, psi),
                                _ => Gate::Rz(q, psi),
                            };
                            self.merge(q, Some(fused));
                        }
                    },
                    None => {
                        self.emit(g, q);
                    },
                }
            },
            Gate::CNOT(c, t) => {
                if self.held(c) == Some(Gate::CNOT(c, t)) {
                    self.merge(c, None);
                } else {
                    self.emit(g, c);
                }
            },
            Gate::SWAP(a, b) => {
                let h = self.held(a);
                if h == Some(Gate::SWAP(a, b)) || h == Some(Gate::SWAP(b, a)) {
                    self.cancel_pair(a, b);
                } else {
                    self.emit_pair(g, a, b);
                }
            },
        }
    }

    /// The filled slots, in order.
    fn into_gates(self) -> (r: Vec<Gate>)
        ensures
            r@ == compact(self@.slots),
    {
        let mut out: Vec<Gate> = Vec::new();
        let mut i: usize = 0;
        while i < self.slots.len()
            invariant
                i <= self.slots@.len(),
                out@ == compact(self.slots@.take(i as int)),
            decreases self.slots@.len() - i,
        {
            assert(self.slots@.take(i + 1).drop_last() =~= self.slots@.take(i as int));
            if let Some(g) = self.slots[i] {
                out.push(g);
            }
            i = i + 1;
        }
        assert(self.slots@.take(i as int) =~= self.slots@);
        out
    }
}

/// Runs the peephole pass over `circuit` and returns the optimized circuit,
/// of the same width. The input is left as it is.
///
/// Each gate is compared with what is recorded for its primary qubit. A
/// cancelling pair removes that recorded gate wherever it stands in the
/// output, and a fused gate takes its place, so gates on other qubits are
/// never disturbed. A CNOT is recorded for its control only.
pub fn compile(circuit: &Circuit) -> (r: Circuit)
    requires
        circuit.wf(),
    ensures
        r.num_qubits == circuit.num_qubits,
        r.gates@ == optimize(circuit.num_qubits as nat, circuit.gates@),
        r.wf(),
{
    let n = circuit.num_qubits;
    let mut pass = Pass::new(n);
    let mut i: usize = 0;
    while i < circuit.gates.len()
        invariant
            circuit.wf(),
            n == circuit.num_qubits,
            i <= circuit.gates@.len(),
            pass@ == pass_run(n as nat, circuit.gates@.take(i as int)),
            pass.slots@.len() == i,
            state_wf(pass@, n as nat),
        decreases circuit.gates@.len() - i,
    {
        let g = circuit.gates[i];
        assert(circuit.gates@.take(i + 1).drop_last() =~= circuit.gates@.take(i as int));
        assert(g.valid_for(n as nat));
        proof {
            lemma_step_wf(pass@, g, n as nat);
        }
        pass.step(g);
        i = i + 1;
    }
    assert(circuit.gates@.take(i as int) =~= circuit.gates@);
    let ghost slots = pass@.slots;
    let gates = pass.into_gates();
    proof {
        lemma_compact_valid(slots, n as nat);
    }
    Circuit { num_qubits: n, gates }
}

/// Every gate kept from slots that hold only gates valid for `n` is valid too.
proof fn lemma_compact_valid(slots: Seq<Option<Gate>>, n: nat)
    requires
        forall|j: int| 0 <= j < slots.len() && (#[trigger] slots[j]) is Some ==> slots[j].unwrap().valid_for(n),
    ensures
        forall|i: int| 0 <= i < compact(slots).len() ==> (#[trigger] compact(slots)[i]).valid_for(n),
    decreases slots.len(),
{
    if slots.len() > 0 {
        let init = slots.drop_last();
        assert forall|j: int| 0 <= j < init.len() && (#[trigger] init[j]) is Some implies init[j].unwrap().valid_for(n) by {
            assert(init[j] == slots[j]);
        }
        lemma_compact_valid(init, n);
        assert(slots.last() == slots[slots.len() - 1]);
        let c = compact(slots);
        assert forall|i: int| 0 <= i < c.len() implies (#[trigger] c[i]).valid_for(n) by {
            if i < compact(init).len() {
                assert(c[i] == compact(init)[i]);
            }
        }
    }
}

} // verus!
