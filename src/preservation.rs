use vstd::prelude::*;

use crate::compiler::{
    cancel_pair_spec, compact, emit_pair_spec, emit_spec, held_gate, lemma_step_wf, merge_spec,
    optimize, pass_run, pass_step, rotation_like, same_axis_angle, state_wf, PassState,
};
use crate::gate::Gate;

verus! {

/// Whether the pass may leave `out` standing for the input gate `inp`: the
/// gate itself, or what the fusion rules make of it on the same qubit
/// (S to Z; T to S, and on to Z; a rotation to another angle about the
/// same axis).
pub open spec fn rewrites_to(inp: Gate, out: Gate) -> bool {
    out == inp || match (inp, out) {
        (Gate::S(q), Gate::Z(p)) => p == q,
        (Gate::T(q), Gate::S(p)) => p == q,
        (Gate::T(q), Gate::Z(p)) => p == q,
        (Gate::Rx(q, _), Gate::Rx(p, _)) => p == q,
        (Gate::Ry(q, _), Gate::Ry(p, _)) => p == q,
        (Gate::Rz(q, _), Gate::Rz(p, _)) => p == q,
        _ => false,
    }
}

/// Each slot of `st` holds nothing or a rewrite of the input gate read into
/// it, and each qubit's record names a slot whose gate, if any, acts on it.
pub open spec fn traces(st: PassState, gates: Seq<Gate>) -> bool {
    &&& st.slots.len() == gates.len()
    &&& forall|j: int| 0 <= j < st.slots.len() && (#[trigger] st.slots[j]) is Some ==> rewrites_to(gates[j], st.slots[j].unwrap())
    &&& records_touch(st)
    &&& records_origin(st, gates)
}

/// Each qubit's record names a slot whose input gate acts on that qubit.
pub open spec fn records_origin(st: PassState, gates: Seq<Gate>) -> bool {
    forall|q: usize| q < st.last.len() && (#[trigger] st.last[q as int]) is Some ==> {
        let j = st.last[q as int].unwrap() as int;
        0 <= j < gates.len() && gates[j].touches(q)
    }
}

proof fn lemma_step_origin(st: PassState, g: Gate, gates: Seq<Gate>, n: nat)
    requires
        state_wf(st, n),
        records_origin(st, gates),
        st.slots.len() == gates.len(),
        g.valid_for(n),
        st.slots.len() < usize::MAX,
    ensures
        records_origin(pass_step(st, g), gates.push(g)),
{
    let r = pass_step(st, g);
    let gs = gates.push(g);
    assert forall|q: usize| q < r.last.len() && (#[trigger] r.last[q as int]) is Some implies {
        let j = r.last[q as int].unwrap() as int;
        0 <= j < gs.len() && gs[j].touches(q)
    } by {
        if r.last[q as int] == st.last[q as int] {
            let j = st.last[q as int].unwrap() as int;
            assert(gs[j] == gates[j]);
        } else {
            assert(r.last[q as int] == Some(st.slots.len() as usize));
            assert(gs[gates.len() as int] == g);
        }
    }
}

pub(crate) proof fn lemma_run_traces(n: nat, gates: Seq<Gate>)
    requires
        forall|i: int| 0 <= i < gates.len() ==> (#[trigger] gates[i]).valid_for(n),
        gates.len() <= usize::MAX,
    ensures
        state_wf(pass_run(n, gates), n),
        traces(pass_run(n, gates), gates),
    decreases gates.len(),
{
    if gates.len() > 0 {
        let init = gates.drop_last();
        let g = gates.last();
        assert forall|i: int| 0 <= i < init.len() implies (#[trigger] init[i]).valid_for(n) by {
            assert(init[i] == gates[i]);
        }
        lemma_run_traces(n, init);
        let st = pass_run(n, init);
        assert(g == gates[gates.len() - 1]);
        lemma_step_wf(st, g, n);
        let r = pass_step(st, g);
        assert(r == pass_run(n, gates));
        assert forall|j: int| 0 <= j < r.slots.len() && (#[trigger] r.slots[j]) is Some implies rewrites_to(gates[j], r.slots[j].unwrap()) by {
            if j < init.len() {
                assert(gates[j] == init[j]);
            }
        }
        lemma_step_records(st, g, n);
        lemma_step_origin(st, g, init, n);
        assert(init.push(g) =~= gates);
    }
}

/// Each qubit's record names a slot whose gate, if any, acts on that qubit.
pub open spec fn records_touch(st: PassState) -> bool {
    forall|q: usize| q < st.last.len() && (#[trigger] st.last[q as int]) is Some ==> {
        let j = st.last[q as int].unwrap() as int;
        st.slots[j] is Some ==> st.slots[j].unwrap().touches(q)
    }
}

/// A gate that acts on `p` alone.
pub open spec fn acts_only_on(g: Gate, p: usize) -> bool {
    forall|q: usize| #[trigger] g.touches(q) ==> q == p
}

proof fn lemma_emit_records(st: PassState, g: Gate, a: usize, b: usize, n: nat)
    requires
        state_wf(st, n),
        records_touch(st),
        a < n,
        b < n,
        g.touches(a),
        g.touches(b),
        st.slots.len() < usize::MAX,
    ensures
        records_touch(emit_spec(st, g, a)),
        records_touch(emit_pair_spec(st, g, a, b)),
{
    let r1 = emit_spec(st, g, a);
    let r2 = emit_pair_spec(st, g, a, b);
    assert forall|q: usize| q < r1.last.len() && (#[trigger] r1.last[q as int]) is Some implies {
        let j = r1.last[q as int].unwrap() as int;
        r1.slots[j] is Some ==> r1.slots[j].unwrap().touches(q)
    } by {
        if q != a {
            assert(r1.last[q as int] == st.last[q as int]);
            let k = st.last[q as int].unwrap() as int;
            assert(k < st.slots.len());
            assert(r1.slots[k] == st.slots[k]);
        } else {
            assert(r1.slots[st.slots.len() as int] == Some(g));
        }
    }
    assert forall|q: usize| q < r2.last.len() && (#[trigger] r2.last[q as int]) is Some implies {
        let j = r2.last[q as int].unwrap() as int;
        r2.slots[j] is Some ==> r2.slots[j].unwrap().touches(q)
    } by {
        if q != a && q != b {
            assert(r2.last[q as int] == st.last[q as int]);
            let k = st.last[q as int].unwrap() as int;
            assert(k < st.slots.len());
            assert(r2.slots[k] == st.slots[k]);
        } else {
            assert(r2.slots[st.slots.len() as int] == Some(g));
        }
    }
}

proof fn lemma_merge_records(st: PassState, p: usize, with: Option<Gate>, n: nat)
    requires
        state_wf(st, n),
        records_touch(st),
        p < n,
        st.last[p as int] is Some,
        held_gate(st, p) is Some,
        acts_only_on(held_gate(st, p).unwrap(), p),
        with is Some ==> with.unwrap().touches(p),
    ensures
        records_touch(merge_spec(st, p, with)),
{
    let r = merge_spec(st, p, with);
    let jp = st.last[p as int].unwrap() as int;
    assert forall|q: usize| q < r.last.len() && (#[trigger] r.last[q as int]) is Some implies {
        let j = r.last[q as int].unwrap() as int;
        r.slots[j] is Some ==> r.slots[j].unwrap().touches(q)
    } by {
        if q != p {
            assert(st.last[q as int] is Some);
            let k = st.last[q as int].unwrap() as int;
            if k == jp {
                assert(held_gate(st, p).unwrap().touches(q));
            }
        }
    }
}

proof fn lemma_cancel_pair_records(st: PassState, a: usize, b: usize, n: nat)
    requires
        state_wf(st, n),
        records_touch(st),
        a < n,
        b < n,
        st.last[a as int] is Some,
    ensures
        records_touch(cancel_pair_spec(st, a, b)),
{
    let r = cancel_pair_spec(st, a, b);
    assert forall|q: usize| q < r.last.len() && (#[trigger] r.last[q as int]) is Some implies {
        let j = r.last[q as int].unwrap() as int;
        r.slots[j] is Some ==> r.slots[j].unwrap().touches(q)
    } by {
        assert(st.last[q as int] is Some);
    }
}

/// After a step, each qubit's record still names a slot whose gate, if any,
/// acts on that qubit.
proof fn lemma_step_records(st: PassState, g: Gate, n: nat)
    requires
        state_wf(st, n),
        g.valid_for(n),
        records_touch(st),
        st.slots.len() < usize::MAX,
    ensures
        records_touch(pass_step(st, g)),
{
    let r = pass_step(st, g);
    match g {
        Gate::X(p) | Gate::Y(p) | Gate::Z(p) | Gate::H(p) | Gate::S(p) | Gate::T(p) => {
            lemma_emit_records(st, g, p, p, n);
            lemma_single_qubit_merges(st, p, n);
        },
        Gate::Rx(p, theta) | Gate::Ry(p, theta) | Gate::Rz(p, theta) => {
            lemma_emit_records(st, g, p, p, n);
            lemma_single_qubit_merges(st, p, n);
            let h = held_gate(st, p);
            if h is Some && same_axis_angle(h.unwrap(), g) is Some {
                let psi = same_axis_angle(h.unwrap(), g).unwrap().sum_spec(theta);
                let k = st.last[p as int].unwrap() as int;
                assert(st.slots[k] == h);
                assert(acts_only_on(h.unwrap(), p));
                lemma_merge_records(st, p, Some(rotation_like(g, p, psi)), n);
            }
        },
        Gate::CNOT(c, t) => {
            lemma_emit_records(st, g, c, c, n);
            let h = held_gate(st, c);
            if h == Some(Gate::CNOT(c, t)) {
                let k = st.last[c as int].unwrap() as int;
                assert(st.slots[k] == h);
                lemma_merge_records_cleared(st, c, n);
            }
        },
        Gate::SWAP(a, b) => {
            lemma_emit_records(st, g, a, b, n);
            let h = held_gate(st, a);
            if h is Some {
                let k = st.last[a as int].unwrap() as int;
                assert(st.slots[k] == h);
                lemma_cancel_pair_records(st, a, b, n);
            }
        },
    }
}

/// Where what is held for `p` is a single-qubit gate, merging into it keeps
/// the records pointing at gates on their own qubits.
proof fn lemma_single_qubit_merges(st: PassState, p: usize, n: nat)
    requires
        state_wf(st, n),
        records_touch(st),
        p < n,
    ensures
        held_gate(st, p) is Some && (held_gate(st, p).unwrap() is S || held_gate(st, p).unwrap() is T)
            ==> records_touch(merge_spec(st, p, Some(Gate::Z(p)))) && records_touch(
            merge_spec(st, p, Some(Gate::S(p))),
        ),
        st.last[p as int] is Some ==> records_touch(merge_spec(st, p, None)),
{
    if st.last[p as int] is Some {
        lemma_merge_records_cleared(st, p, n);
        let h = held_gate(st, p);
        let k = st.last[p as int].unwrap() as int;
        assert(st.slots[k] == h);
        if h is Some && (h.unwrap() is S || h.unwrap() is T) {
            assert(acts_only_on(h.unwrap(), p));
            lemma_merge_records(st, p, Some(Gate::Z(p)), n);
            lemma_merge_records(st, p, Some(Gate::S(p)), n);
        }
    }
}

proof fn lemma_merge_records_cleared(st: PassState, p: usize, n: nat)
    requires
        state_wf(st, n),
        records_touch(st),
        p < n,
        st.last[p as int] is Some,
    ensures
        records_touch(merge_spec(st, p, None)),
{
    let r = merge_spec(st, p, None);
    assert forall|q: usize| q < r.last.len() && (#[trigger] r.last[q as int]) is Some implies {
        let j = r.last[q as int].unwrap() as int;
        r.slots[j] is Some ==> r.slots[j].unwrap().touches(q)
    } by {
        assert(st.last[q as int] is Some);
    }
}

/// The positions of the filled slots, in increasing order.
pub open spec fn filled_positions(slots: Seq<Option<Gate>>) -> Seq<int>
    decreases slots.len(),
{
    if slots.len() == 0 {
        Seq::empty()
    } else {
        let rest = filled_positions(slots.drop_last());
        match slots.last() {
            Some(_) => rest.push(slots.len() - 1),
            None => rest,
        }
    }
}

proof fn lemma_filled_positions(slots: Seq<Option<Gate>>)
    ensures
        filled_positions(slots).len() == compact(slots).len(),
        forall|k: int| 0 <= k < compact(slots).len() ==> {
            let p = #[trigger] filled_positions(slots)[k];
            0 <= p < slots.len() && slots[p] == Some(compact(slots)[k])
        },
        forall|k1: int, k2: int|
            0 <= k1 < k2 < compact(slots).len() ==> filled_positions(slots)[k1] < filled_positions(
                slots,
            )[k2],
    decreases slots.len(),
{
    if slots.len() > 0 {
        let init = slots.drop_last();
        lemma_filled_positions(init);
        assert(slots.last() == slots[slots.len() - 1]);
        let p = filled_positions(slots);
        let c = compact(slots);
        assert forall|k: int| 0 <= k < c.len() implies {
            let pk = #[trigger] p[k];
            0 <= pk < slots.len() && slots[pk] == Some(c[k])
        } by {
            if k < compact(init).len() {
                assert(p[k] == filled_positions(init)[k]);
                assert(c[k] == compact(init)[k]);
                assert(slots[p[k]] == init[p[k]]);
            }
        }
        assert forall|k1: int, k2: int| 0 <= k1 < k2 < c.len() implies p[k1] < p[k2] by {
            if k2 < compact(init).len() {
                assert(p[k1] == filled_positions(init)[k1]);
                assert(p[k2] == filled_positions(init)[k2]);
            } else {
                assert(p[k1] == filled_positions(init)[k1]);
            }
        }
    }
}

/// `origin` maps each gate of `out` to the position of an input gate in
/// `gates` that it stands for, strictly increasing.
pub open spec fn traces_back(origin: Seq<int>, gates: Seq<Gate>, out: Seq<Gate>) -> bool {
    &&& origin.len() == out.len()
    &&& forall|k: int|
        0 <= k < origin.len() ==> 0 <= #[trigger] origin[k] < gates.len() && rewrites_to(
            gates[origin[k]],
            out[k],
        )
    &&& forall|k1: int, k2: int| 0 <= k1 < k2 < origin.len() ==> origin[k1] < origin[k2]
}

/// The pass keeps order: each output gate stands for one input gate, of
/// which it is that very gate or a fusion on the same qubit, and output
/// gates stand for input gates in strictly increasing input positions.
pub proof fn lemma_order_preserved(n: nat, gates: Seq<Gate>)
    requires
        forall|i: int| 0 <= i < gates.len() ==> (#[trigger] gates[i]).valid_for(n),
        gates.len() <= usize::MAX,
    ensures
        exists|origin: Seq<int>| #[trigger] traces_back(origin, gates, optimize(n, gates)),
{
    lemma_run_traces(n, gates);
    let slots = pass_run(n, gates).slots;
    lemma_filled_positions(slots);
    let origin = filled_positions(slots);
    let out = optimize(n, gates);
    assert forall|k: int| 0 <= k < origin.len() implies 0 <= #[trigger] origin[k] < gates.len()
        && rewrites_to(gates[origin[k]], out[k]) by {
        assert(slots[origin[k]] == Some(out[k]));
    }
    assert(traces_back(origin, gates, out));
}

/// No gate of `gates` combines with an earlier one: each step of the pass
/// emits what it reads, unchanged.
pub open spec fn settled(n: nat, gates: Seq<Gate>) -> bool {
    forall|i: int|
        0 <= i < gates.len() ==> (#[trigger] pass_step(pass_run(n, gates.take(i)), gates[i])).slots
            == pass_run(n, gates.take(i)).slots.push(Some(gates[i]))
}

proof fn lemma_settled_slots(n: nat, gates: Seq<Gate>)
    requires
        settled(n, gates),
    ensures
        pass_run(n, gates).slots == gates.map_values(|g: Gate| Some(g)),
    decreases gates.len(),
{
    if gates.len() == 0 {
        assert(gates.map_values(|g: Gate| Some(g)) =~= Seq::<Option<Gate>>::empty());
    } else {
        let init = gates.drop_last();
        let last = (gates.len() - 1) as int;
        assert forall|i: int| 0 <= i < init.len() implies (#[trigger] pass_step(
            pass_run(n, init.take(i)),
            init[i],
        )).slots == pass_run(n, init.take(i)).slots.push(Some(init[i])) by {
            assert(init.take(i) =~= gates.take(i));
            assert(init[i] == gates[i]);
            assert(pass_step(pass_run(n, gates.take(i)), gates[i]).slots == pass_run(
                n,
                gates.take(i),
            ).slots.push(Some(gates[i])));
        }
        lemma_settled_slots(n, init);
        assert(gates.take(last) =~= init);
        assert(pass_step(pass_run(n, gates.take(last)), gates[last]).slots == pass_run(
            n,
            gates.take(last),
        ).slots.push(Some(gates[last])));
        assert(pass_run(n, gates).slots =~= gates.map_values(|g: Gate| Some(g)));
    }
}

proof fn lemma_compact_all_filled(gates: Seq<Gate>)
    ensures
        compact(gates.map_values(|g: Gate| Some(g))) == gates,
    decreases gates.len(),
{
    let s = gates.map_values(|g: Gate| Some(g));
    if gates.len() == 0 {
        assert(s.len() == 0);
    } else {
        let init = gates.drop_last();
        lemma_compact_all_filled(init);
        assert(s.drop_last() =~= init.map_values(|g: Gate| Some(g)));
        assert(s.last() == Some(gates.last()));
        assert(init.push(gates.last()) =~= gates);
    }
}

/// A pass over an input in which no gate combines with an earlier one
/// returns the input as it is; so a second pass returns the same again.
pub proof fn lemma_idempotent_on_settled(n: nat, gates: Seq<Gate>)
    requires
        settled(n, gates),
    ensures
        optimize(n, gates) == gates,
        optimize(n, optimize(n, gates)) == optimize(n, gates),
{
    lemma_settled_slots(n, gates);
    lemma_compact_all_filled(gates);
}

} // verus!
