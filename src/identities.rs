use vstd::prelude::*;

use crate::compiler::{compact, initial_state, optimize, pass_run, pass_step, rotation_like};
use crate::gate::{Angle, Gate};

verus! {

/// Two-gate inputs: the pass reads the first gate, then the second.
proof fn lemma_run_two(n: nat, a: Gate, b: Gate)
    ensures
        pass_run(n, seq![a, b]) == pass_step(pass_step(initial_state(n), a), b),
{
    assert(seq![a, b].drop_last() =~= seq![a]);
    assert(seq![a].drop_last() =~= Seq::<Gate>::empty());
    assert(pass_run(n, Seq::<Gate>::empty()) == initial_state(n));
    assert(pass_run(n, seq![a]) == pass_step(initial_state(n), a));
}

proof fn lemma_compact_two(x: Option<Gate>, y: Option<Gate>)
    ensures
        compact(seq![x, y]) == match (x, y) {
            (Some(g), Some(h)) => seq![g, h],
            (Some(g), None) => seq![g],
            (None, Some(h)) => seq![h],
            (None, None) => Seq::<Gate>::empty(),
        },
{
    assert(seq![x, y].drop_last() =~= seq![x]);
    assert(seq![x].drop_last() =~= Seq::<Option<Gate>>::empty());
    assert(seq![x, y].last() == y);
    assert(seq![x].last() == x);
    assert(compact(Seq::<Option<Gate>>::empty()) == Seq::<Gate>::empty());
    let c1 = compact(seq![x]);
    assert(c1 == match x {
        Some(g) => Seq::<Gate>::empty().push(g),
        None => Seq::<Gate>::empty(),
    });
    assert(compact(seq![x, y]) == match y {
        Some(h) => c1.push(h),
        None => c1,
    });
    match (x, y) {
        (Some(g), Some(h)) => assert(seq![g].push(h) =~= seq![g, h]),
        (Some(g), None) => assert(Seq::<Gate>::empty().push(g) =~= seq![g]),
        (None, Some(h)) => assert(Seq::<Gate>::empty().push(h) =~= seq![h]),
        (None, None) => {},
    }
}

/// X, Y, Z and H are their own inverses: two of the same kind in a row on
/// one qubit leave nothing.
pub proof fn lemma_self_inverse_pair_cancels(n: nat, g: Gate)
    requires
        g.valid_for(n),
        g is X || g is Y || g is Z || g is H,
    ensures
        optimize(n, seq![g, g]) == Seq::<Gate>::empty(),
{
    lemma_run_two(n, g, g);
    let st = pass_run(n, seq![g, g]);
    assert(st.slots =~= seq![None::<Gate>, None::<Gate>]);
    lemma_compact_two(None, None);
}

/// Two S gates in a row on a qubit become one Z gate.
pub proof fn lemma_s_pair_becomes_z(n: nat, q: usize)
    requires
        q < n,
    ensures
        optimize(n, seq![Gate::S(q), Gate::S(q)]) == seq![Gate::Z(q)],
{
    lemma_run_two(n, Gate::S(q), Gate::S(q));
    let st = pass_run(n, seq![Gate::S(q), Gate::S(q)]);
    assert(st.slots =~= seq![Some(Gate::Z(q)), None]);
    lemma_compact_two(Some(Gate::Z(q)), None);
}

/// Two T gates in a row on a qubit become one S gate.
pub proof fn lemma_t_pair_becomes_s(n: nat, q: usize)
    requires
        q < n,
    ensures
        optimize(n, seq![Gate::T(q), Gate::T(q)]) == seq![Gate::S(q)],
{
    lemma_run_two(n, Gate::T(q), Gate::T(q));
    let st = pass_run(n, seq![Gate::T(q), Gate::T(q)]);
    assert(st.slots =~= seq![Some(Gate::S(q)), None]);
    lemma_compact_two(Some(Gate::S(q)), None);
}

/// Two identical CNOT gates in a row cancel.
pub proof fn lemma_cnot_pair_cancels(n: nat, c: usize, t: usize)
    requires
        Gate::CNOT(c, t).valid_for(n),
    ensures
        optimize(n, seq![Gate::CNOT(c, t), Gate::CNOT(c, t)]) == Seq::<Gate>::empty(),
{
    lemma_run_two(n, Gate::CNOT(c, t), Gate::CNOT(c, t));
    let st = pass_run(n, seq![Gate::CNOT(c, t), Gate::CNOT(c, t)]);
    assert(st.slots =~= seq![None::<Gate>, None::<Gate>]);
    lemma_compact_two(None, None);
}

/// Two SWAP gates on the same pair of qubits cancel, whichever order each
/// names the pair in.
pub proof fn lemma_swap_pair_cancels(n: nat, a: usize, b: usize)
    requires
        Gate::SWAP(a, b).valid_for(n),
    ensures
        optimize(n, seq![Gate::SWAP(a, b), Gate::SWAP(a, b)]) == Seq::<Gate>::empty(),
        optimize(n, seq![Gate::SWAP(a, b), Gate::SWAP(b, a)]) == Seq::<Gate>::empty(),
{
    lemma_run_two(n, Gate::SWAP(a, b), Gate::SWAP(a, b));
    lemma_run_two(n, Gate::SWAP(a, b), Gate::SWAP(b, a));
    let st1 = pass_run(n, seq![Gate::SWAP(a, b), Gate::SWAP(a, b)]);
    let st2 = pass_run(n, seq![Gate::SWAP(a, b), Gate::SWAP(b, a)]);
    assert(st1.slots =~= seq![None::<Gate>, None::<Gate>]);
    assert(st2.slots =~= seq![None::<Gate>, None::<Gate>]);
    lemma_compact_two(None, None);
}

/// Two rotations about one axis in a row on a qubit fuse into one rotation
/// by the sum of their angles modulo a full turn, or vanish where that sum
/// is within the tolerance of zero or of a full turn.
pub proof fn lemma_rotation_pair_fuses(n: nat, kind: Gate, q: usize, theta: Angle, phi: Angle)
    requires
        q < n,
        kind is Rx || kind is Ry || kind is Rz,
    ensures
        optimize(n, seq![rotation_like(kind, q, theta), rotation_like(kind, q, phi)])
            == if theta.sum_spec(phi).is_identity_spec() {
            Seq::<Gate>::empty()
        } else {
            seq![rotation_like(kind, q, theta.sum_spec(phi))]
        },
{
    let a = rotation_like(kind, q, theta);
    let b = rotation_like(kind, q, phi);
    let psi = theta.sum_spec(phi);
    lemma_run_two(n, a, b);
    let st = pass_run(n, seq![a, b]);
    if psi.is_identity_spec() {
        assert(st.slots =~= seq![None::<Gate>, None::<Gate>]);
        lemma_compact_two(None, None);
    } else {
        assert(st.slots =~= seq![Some(rotation_like(kind, q, psi)), None]);
        lemma_compact_two(Some(rotation_like(kind, q, psi)), None);
    }
}

} // verus!
