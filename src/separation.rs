use vstd::prelude::*;

use crate::compiler::{
    apply, compact, decide, held_gate, initial_state, optimize, pass_run, pass_step, primary,
    state_wf, Action, PassState,
};
use crate::gate::Gate;
use crate::preservation::{lemma_run_traces, records_origin, rewrites_to, traces};

verus! {

/// Whether `g` acts only on qubits of `side`.
pub open spec fn within(g: Gate, side: Set<usize>) -> bool {
    forall|q: usize| #[trigger] g.touches(q) ==> side.contains(q)
}

/// Whether `g` acts on no qubit of `side`.
pub open spec fn apart(g: Gate, side: Set<usize>) -> bool {
    forall|q: usize| #[trigger] g.touches(q) ==> !side.contains(q)
}

/// The gates of `gates` that act only on qubits of `side`, in order.
pub open spec fn restrict(gates: Seq<Gate>, side: Set<usize>) -> Seq<Gate>
    decreases gates.len(),
{
    if gates.len() == 0 {
        Seq::empty()
    } else {
        let rest = restrict(gates.drop_last(), side);
        if within(gates.last(), side) {
            rest.push(gates.last())
        } else {
            rest
        }
    }
}

/// The slots whose input gate acts only on qubits of `side`, in order.
pub open spec fn project(slots: Seq<Option<Gate>>, gates: Seq<Gate>, side: Set<usize>) -> Seq<
    Option<Gate>,
>
    decreases gates.len(),
{
    if gates.len() == 0 || slots.len() == 0 {
        Seq::empty()
    } else {
        let rest = project(slots.drop_last(), gates.drop_last(), side);
        if within(gates.last(), side) {
            rest.push(slots.last())
        } else {
            rest
        }
    }
}

/// How many gates before position `i` act only on qubits of `side`.
pub open spec fn rank(gates: Seq<Gate>, i: int, side: Set<usize>) -> int {
    restrict(gates.take(i), side).len() as int
}

proof fn lemma_project_len(slots: Seq<Option<Gate>>, gates: Seq<Gate>, side: Set<usize>)
    requires
        slots.len() == gates.len(),
    ensures
        project(slots, gates, side).len() == restrict(gates, side).len(),
    decreases gates.len(),
{
    if gates.len() > 0 {
        lemma_project_len(slots.drop_last(), gates.drop_last(), side);
    }
}

proof fn lemma_restrict_len(gates: Seq<Gate>, side: Set<usize>)
    ensures
        restrict(gates, side).len() <= gates.len(),
    decreases gates.len(),
{
    if gates.len() > 0 {
        lemma_restrict_len(gates.drop_last(), side);
    }
}

proof fn lemma_project_index(slots: Seq<Option<Gate>>, gates: Seq<Gate>, side: Set<usize>, i: int)
    requires
        slots.len() == gates.len(),
        0 <= i < gates.len(),
        within(gates[i], side),
    ensures
        0 <= rank(gates, i, side) < project(slots, gates, side).len(),
        project(slots, gates, side)[rank(gates, i, side)] == slots[i],
    decreases gates.len(),
{
    let init = gates.drop_last();
    lemma_project_len(slots.drop_last(), init, side);
    if i == gates.len() - 1 {
        assert(gates.take(i) =~= init);
        assert(gates.last() == gates[i]);
        assert(slots.last() == slots[i]);
    } else {
        lemma_project_index(slots.drop_last(), init, side, i);
        assert(init.take(i) =~= gates.take(i));
        assert(init[i] == gates[i]);
        assert(slots.drop_last()[i] == slots[i]);
    }
}

proof fn lemma_project_update(
    slots: Seq<Option<Gate>>,
    gates: Seq<Gate>,
    side: Set<usize>,
    i: int,
    w: Option<Gate>,
)
    requires
        slots.len() == gates.len(),
        0 <= i < gates.len(),
    ensures
        project(slots.update(i, w), gates, side) == if within(gates[i], side) {
            project(slots, gates, side).update(rank(gates, i, side), w)
        } else {
            project(slots, gates, side)
        },
    decreases gates.len(),
{
    let init = gates.drop_last();
    let up = slots.update(i, w);
    lemma_project_len(slots.drop_last(), init, side);
    if i == gates.len() - 1 {
        assert(up.drop_last() =~= slots.drop_last());
        assert(gates.take(i) =~= init);
        assert(gates.last() == gates[i]);
        assert(up.last() == w);
        let rest = project(slots.drop_last(), init, side);
        if within(gates[i], side) {
            assert(rest.push(w) =~= rest.push(slots.last()).update(rest.len() as int, w));
        }
    } else {
        assert(up.drop_last() =~= slots.drop_last().update(i, w));
        lemma_project_update(slots.drop_last(), init, side, i, w);
        assert(init.take(i) =~= gates.take(i));
        assert(init[i] == gates[i]);
        assert(up.last() == slots.last());
        if within(gates[i], side) {
            lemma_project_index(slots.drop_last(), init, side, i);
            let rest = project(slots.drop_last(), init, side);
            let k = rank(gates, i, side);
            assert(rest.update(k, w).push(slots.last()) =~= rest.push(slots.last()).update(k, w));
        }
    }
}

proof fn lemma_project_push(
    slots: Seq<Option<Gate>>,
    gates: Seq<Gate>,
    side: Set<usize>,
    x: Option<Gate>,
    g: Gate,
)
    requires
        slots.len() == gates.len(),
    ensures
        project(slots.push(x), gates.push(g), side) == if within(g, side) {
            project(slots, gates, side).push(x)
        } else {
            project(slots, gates, side)
        },
{
    assert(slots.push(x).drop_last() =~= slots);
    assert(gates.push(g).drop_last() =~= gates);
}

proof fn lemma_rewrites_keep_side(inp: Gate, out: Gate, side: Set<usize>)
    requires
        rewrites_to(inp, out),
    ensures
        within(out, side) == within(inp, side),
{
    assert forall|q: usize| out.touches(q) == inp.touches(q) by {}
}

proof fn lemma_project_compact(slots: Seq<Option<Gate>>, gates: Seq<Gate>, side: Set<usize>)
    requires
        slots.len() == gates.len(),
        forall|i: int|
            0 <= i < slots.len() && (#[trigger] slots[i]) is Some ==> within(slots[i].unwrap(), side)
                == within(gates[i], side),
    ensures
        compact(project(slots, gates, side)) == restrict(compact(slots), side),
    decreases gates.len(),
{
    if gates.len() > 0 {
        let init = slots.drop_last();
        assert forall|i: int|
            0 <= i < init.len() && (#[trigger] init[i]) is Some implies within(init[i].unwrap(), side)
                == within(gates.drop_last()[i], side) by {
            assert(init[i] == slots[i]);
        }
        lemma_project_compact(init, gates.drop_last(), side);
        let rest = project(init, gates.drop_last(), side);
        let cs = compact(init);
        assert(slots.last() == slots[slots.len() - 1]);
        assert(gates.last() == gates[gates.len() - 1]);
        assert(rest.push(slots.last()).drop_last() =~= rest);
        match slots.last() {
            Some(h) => {
                assert(cs.push(h).drop_last() =~= cs);
            },
            None => {},
        }
    }
}

/// Every gate of `gates` acts either only on qubits of `side` or on none of
/// them.
pub open spec fn separated(gates: Seq<Gate>, side: Set<usize>) -> bool {
    forall|i: int| 0 <= i < gates.len() ==> within(#[trigger] gates[i], side) || apart(gates[i], side)
}

/// The record of `q` after the full input `gates` names the slot that
/// corresponds to the record of `q` after the input restricted to `side`.
pub open spec fn records_match(
    s: PassState,
    f: PassState,
    gates: Seq<Gate>,
    side: Set<usize>,
    q: usize,
) -> bool {
    match s.last[q as int] {
        None => f.last[q as int] is None,
        Some(i) => f.last[q as int] == Some(rank(gates, i as int, side) as usize),
    }
}

/// The state after the full input and the state after the input restricted
/// to `side` correspond.
pub open spec fn corresponds(
    s: PassState,
    f: PassState,
    gates: Seq<Gate>,
    side: Set<usize>,
    n: nat,
) -> bool {
    &&& f.slots == project(s.slots, gates, side)
    &&& f.last.len() == n
    &&& forall|q: usize| side.contains(q) && q < n ==> #[trigger] records_match(s, f, gates, side, q)
}

proof fn lemma_rank_push(gates: Seq<Gate>, g: Gate, side: Set<usize>, i: int)
    requires
        0 <= i <= gates.len(),
    ensures
        rank(gates.push(g), i, side) == rank(gates, i, side),
{
    assert(gates.push(g).take(i) =~= gates.take(i));
}

proof fn lemma_rank_end(gates: Seq<Gate>, side: Set<usize>)
    ensures
        rank(gates, gates.len() as int, side) == restrict(gates, side).len(),
{
    assert(gates.take(gates.len() as int) =~= gates);
}

proof fn lemma_held_match(s: PassState, f: PassState, gates: Seq<Gate>, side: Set<usize>, n: nat, p: usize)
    requires
        state_wf(s, n),
        traces(s, gates),
        separated(gates, side),
        corresponds(s, f, gates, side, n),
        side.contains(p),
        p < n,
        gates.len() <= usize::MAX,
    ensures
        held_gate(s, p) == held_gate(f, p),
{
    lemma_restrict_len(gates, side);
    lemma_project_len(s.slots, gates, side);
    assert(records_match(s, f, gates, side, p));
    if s.last[p as int] is Some {
        let i = s.last[p as int].unwrap() as int;
        assert(gates[i].touches(p));
        assert(within(gates[i], side));
        lemma_project_index(s.slots, gates, side, i);
    }
}

proof fn lemma_step_inside(
    s: PassState,
    f: PassState,
    gates: Seq<Gate>,
    side: Set<usize>,
    n: nat,
    g: Gate,
    act: Action,
)
    requires
        state_wf(s, n),
        traces(s, gates),
        separated(gates, side),
        corresponds(s, f, gates, side, n),
        g.valid_for(n),
        within(g, side),
        gates.len() < usize::MAX,
        !(act is Emit) ==> s.last[primary(g) as int] is Some,
        act is CancelPair ==> g is SWAP,
    ensures
        corresponds(apply(s, g, act), apply(f, g, act), gates.push(g), side, n),
{
    let gs = gates.push(g);
    let s2 = apply(s, g, act);
    let f2 = apply(f, g, act);
    let p = primary(g);
    assert(g.touches(p));
    lemma_project_len(s.slots, gates, side);
    lemma_restrict_len(gates, side);
    lemma_rank_end(gates, side);
    match act {
        Action::Emit => {
            assert(s2.slots == s.slots.push(Some(g)));
            assert(f2.slots == f.slots.push(Some(g)));
            lemma_project_push(s.slots, gates, side, Some(g), g);
        },
        Action::Merge(w) => {
            assert(records_match(s, f, gates, side, p));
            let j = s.last[p as int].unwrap() as int;
            assert(gates[j].touches(p));
            assert(within(gates[j], side));
            lemma_project_index(s.slots, gates, side, j);
            let k = rank(gates, j, side);
            assert(f.last[p as int] == Some(k as usize));
            assert(s2.slots == s.slots.update(j, w).push(None));
            assert(f2.slots == f.slots.update(k, w).push(None));
            lemma_project_update(s.slots, gates, side, j, w);
            lemma_project_push(s.slots.update(j, w), gates, side, None, g);
            lemma_rank_push(gates, g, side, j);
        },
        Action::CancelPair => {
            assert(records_match(s, f, gates, side, p));
            let j = s.last[p as int].unwrap() as int;
            assert(gates[j].touches(p));
            assert(within(gates[j], side));
            lemma_project_index(s.slots, gates, side, j);
            let k = rank(gates, j, side);
            assert(f.last[p as int] == Some(k as usize));
            assert(s2.slots == s.slots.update(j, None).push(None));
            assert(f2.slots == f.slots.update(k, None).push(None));
            lemma_project_update(s.slots, gates, side, j, None);
            lemma_project_push(s.slots.update(j, None), gates, side, None, g);
        },
    }
    assert forall|q: usize| side.contains(q) && q < n implies #[trigger] records_match(
        s2,
        f2,
        gs,
        side,
        q,
    ) by {
        assert(records_match(s, f, gates, side, q));
        if s.last[q as int] is Some {
            lemma_rank_push(gates, g, side, s.last[q as int].unwrap() as int);
        }
        lemma_rank_push(gates, g, side, gates.len() as int);
    }
    assert(f2.last.len() == n);
    assert(f2.slots == project(s2.slots, gs, side));
    assert(corresponds(s2, f2, gs, side, n));
}

proof fn lemma_step_outside(
    s: PassState,
    f: PassState,
    gates: Seq<Gate>,
    side: Set<usize>,
    n: nat,
    g: Gate,
    act: Action,
)
    requires
        state_wf(s, n),
        traces(s, gates),
        separated(gates, side),
        corresponds(s, f, gates, side, n),
        g.valid_for(n),
        apart(g, side),
        gates.len() < usize::MAX,
        !(act is Emit) ==> s.last[primary(g) as int] is Some,
    ensures
        corresponds(apply(s, g, act), f, gates.push(g), side, n),
{
    let gs = gates.push(g);
    let s2 = apply(s, g, act);
    let p = primary(g);
    assert(g.touches(p));
    assert(!side.contains(p));
    assert(!within(g, side));
    match act {
        Action::Emit => {
            assert(s2.slots == s.slots.push(Some(g)));
            lemma_project_push(s.slots, gates, side, Some(g), g);
        },
        Action::Merge(w) => {
            let j = s.last[p as int].unwrap() as int;
            assert(gates[j].touches(p));
            assert(!within(gates[j], side));
            assert(s2.slots == s.slots.update(j, w).push(None));
            lemma_project_update(s.slots, gates, side, j, w);
            lemma_project_push(s.slots.update(j, w), gates, side, None, g);
        },
        Action::CancelPair => {
            let j = s.last[p as int].unwrap() as int;
            assert(gates[j].touches(p));
            assert(!within(gates[j], side));
            assert(s2.slots == s.slots.update(j, None).push(None));
            lemma_project_update(s.slots, gates, side, j, None);
            lemma_project_push(s.slots.update(j, None), gates, side, None, g);
        },
    }
    assert forall|q: usize| side.contains(q) && q < n implies #[trigger] records_match(
        s2,
        f,
        gs,
        side,
        q,
    ) by {
        assert(records_match(s, f, gates, side, q));
        assert(!g.touches(q));
        if s.last[q as int] is Some {
            lemma_rank_push(gates, g, side, s.last[q as int].unwrap() as int);
        }
    }
    assert(f.slots == project(s2.slots, gs, side));
}

proof fn lemma_simulation(n: nat, gates: Seq<Gate>, side: Set<usize>)
    requires
        forall|i: int| 0 <= i < gates.len() ==> (#[trigger] gates[i]).valid_for(n),
        gates.len() <= usize::MAX,
        separated(gates, side),
    ensures
        corresponds(pass_run(n, gates), pass_run(n, restrict(gates, side)), gates, side, n),
    decreases gates.len(),
{
    if gates.len() == 0 {
        assert(restrict(gates, side) == Seq::<Gate>::empty());
        let s = pass_run(n, gates);
        assert(s == initial_state(n));
        assert forall|q: usize| side.contains(q) && q < n implies #[trigger] records_match(
            s,
            s,
            gates,
            side,
            q,
        ) by {}
    } else {
        let init = gates.drop_last();
        let g = gates.last();
        assert(g == gates[gates.len() - 1]);
        assert forall|i: int| 0 <= i < init.len() implies (#[trigger] init[i]).valid_for(n) by {
            assert(init[i] == gates[i]);
        }
        assert forall|i: int| 0 <= i < init.len() implies within(#[trigger] init[i], side) || apart(
            init[i],
            side,
        ) by {
            assert(init[i] == gates[i]);
        }
        lemma_simulation(n, init, side);
        lemma_run_traces(n, init);
        let s = pass_run(n, init);
        let f = pass_run(n, restrict(init, side));
        assert(init.push(g) =~= gates);
        let p = primary(g);
        assert(p < n);
        let act = decide(held_gate(s, p), g);
        assert(pass_run(n, gates) == apply(s, g, act));
        if !(act is Emit) {
            assert(held_gate(s, p) is Some);
        }
        if within(g, side) {
            assert(g.touches(p));
            lemma_held_match(s, f, init, side, n, p);
            let r = restrict(gates, side);
            assert(r.drop_last() == restrict(init, side));
            assert(r.last() == g);
            assert(pass_run(n, r) == apply(f, g, act));
            lemma_step_inside(s, f, init, side, n, g, act);
        } else {
            assert(restrict(gates, side) == restrict(init, side));
            lemma_step_outside(s, f, init, side, n, g, act);
        }
    }
}

/// Gates on disjoint sets of qubits do not interact: where every gate acts
/// either only on qubits of `side` or on none of them, the optimized gates
/// on `side` are exactly what optimizing the gates on `side` alone gives.
pub proof fn lemma_disjoint_qubits_optimize_independently(n: nat, gates: Seq<Gate>, side: Set<usize>)
    requires
        forall|i: int| 0 <= i < gates.len() ==> (#[trigger] gates[i]).valid_for(n),
        gates.len() <= usize::MAX,
        separated(gates, side),
    ensures
        restrict(optimize(n, gates), side) == optimize(n, restrict(gates, side)),
{
    lemma_simulation(n, gates, side);
    lemma_run_traces(n, gates);
    let slots = pass_run(n, gates).slots;
    assert forall|i: int|
        0 <= i < slots.len() && (#[trigger] slots[i]) is Some implies within(slots[i].unwrap(), side)
            == within(gates[i], side) by {
        lemma_rewrites_keep_side(gates[i], slots[i].unwrap(), side);
    }
    lemma_project_compact(slots, gates, side);
}

/// Reordering gates across disjoint sets of qubits does not change the
/// outcome on either set: two inputs whose gates on `side` are the same, in
/// the same order, give the same optimized gates on `side`.
pub proof fn lemma_interleaving_does_not_matter(
    n: nat,
    gates1: Seq<Gate>,
    gates2: Seq<Gate>,
    side: Set<usize>,
)
    requires
        forall|i: int| 0 <= i < gates1.len() ==> (#[trigger] gates1[i]).valid_for(n),
        forall|i: int| 0 <= i < gates2.len() ==> (#[trigger] gates2[i]).valid_for(n),
        gates1.len() <= usize::MAX,
        gates2.len() <= usize::MAX,
        separated(gates1, side),
        separated(gates2, side),
        restrict(gates1, side) == restrict(gates2, side),
    ensures
        restrict(optimize(n, gates1), side) == restrict(optimize(n, gates2), side),
{
    lemma_disjoint_qubits_optimize_independently(n, gates1, side);
    lemma_disjoint_qubits_optimize_independently(n, gates2, side);
}

} // verus!
