use vstd::prelude::*;

use crate::circuit::{
    arities_ok,
    initial_values,
    read_wire,
    run_gate,
    run_gates,
    single_assignment,
    wire_values,
    CircuitModel,
    GateInput,
    GateModel,
};
use crate::logic::{gate_output, neg, LogicSystem, TernaryGate};
use crate::minimize::{
    elimination,
    find_not_from,
    kept_gates,
    lemma_find_not_from,
    minimized_gates,
    rewrite_gate,
    rewrite_input,
    kept_read,
    read_by_kept,
    scan,
    Elimination,
    PairScan,
};
use crate::trit::Trit;

verus! {

/// No gate that stays after minimization reads the output wire of a
/// removed gate unless that wire has a replacement.
spec fn no_dangling_reads(gates: Seq<GateModel>) -> bool {
    let e = elimination(gates);
    forall|i: int, j: int|
        0 <= i < gates.len() && !e.removed.contains(gates[i].output_id) && 0 <= j
            < gates[i].inputs.len() ==> match #[trigger] gates[i].inputs[j] {
            GateInput::Gate(id) => e.removed.contains(id) ==> e.replaced.contains_key(id),
            GateInput::Primary(_) => true,
        }
}

/// Gates `i0` and `i1` form a NOT→NOT pair from primary input `p`.
spec fn is_pair(c: CircuitModel, i0: int, i1: int, p: usize) -> bool {
    &&& 0 <= i0 < i1 < c.gates.len()
    &&& c.gates[i1].gate == TernaryGate::Not
    &&& c.gates[i1].inputs.len() == 1
    &&& c.gates[i1].inputs[0] == GateInput::Gate(c.gates[i0].output_id)
    &&& c.gates[i0].gate == TernaryGate::Not
    &&& c.gates[i0].inputs.len() == 1
    &&& c.gates[i0].inputs[0] == GateInput::Primary(p)
    &&& p < c.primary_inputs
}

/// Whether some gate drives wire `id`.
spec fn driven(gates: Seq<GateModel>, id: usize) -> bool {
    exists|i: int| 0 <= i < gates.len() && (#[trigger] gates[i]).output_id == id
}

/// Whether some NOT gate drives wire `id`.
spec fn driven_by_not(gates: Seq<GateModel>, id: usize) -> bool {
    exists|i: int|
        0 <= i < gates.len() && (#[trigger] gates[i]).output_id == id && gates[i].gate == TernaryGate::Not
}

/// `r` replaces `b` as the primary input of a NOT→NOT pair whose outer
/// gate drives `b`.
spec fn pair_replaces(c: CircuitModel, b: usize, r: GateInput) -> bool {
    exists|i0: int, i1: int, p: usize|
        #[trigger] is_pair(c, i0, i1, p) && c.gates[i1].output_id == b && r == GateInput::Primary(p)
}

/// What the scan has found after any number of gates: inner wires are
/// outputs of NOT gates, and every replaced wire is the outer output of a
/// NOT→NOT pair, replaced by the pair's primary input.
spec fn scan_sound(c: CircuitModel, st: PairScan) -> bool {
    &&& forall|id: usize| #[trigger] st.inner.contains(id) ==> driven_by_not(c.gates, id)
    &&& forall|b: usize|
        #[trigger] st.replaced.contains_key(b) ==> driven_by_not(c.gates, b) && pair_replaces(
            c,
            b,
            st.replaced[b],
        )
}

/// What the elimination decides: removed wires are outputs of NOT gates,
/// and every replaced wire is removed and is the outer output of a NOT→NOT
/// pair, replaced by the pair's primary input.
spec fn elimination_sound(c: CircuitModel, e: Elimination) -> bool {
    &&& forall|id: usize| #[trigger] e.removed.contains(id) ==> driven_by_not(c.gates, id)
    &&& forall|b: usize|
        #[trigger] e.replaced.contains_key(b) ==> e.removed.contains(b) && pair_replaces(
            c,
            b,
            e.replaced[b],
        )
}

proof fn lemma_scan_sound(c: CircuitModel, m: nat)
    requires
        single_assignment(c),
        m <= c.gates.len(),
    ensures
        scan_sound(c, scan(c.gates, m)),
    decreases m,
{
    let g = c.gates;
    if m > 0 {
        lemma_scan_sound(c, (m - 1) as nat);
        let prev = scan(g, (m - 1) as nat);
        let cur = scan(g, m);
        let i1 = m - 1;
        let g1 = g[i1];
        if g1.gate == TernaryGate::Not && !prev.inner.contains(g1.output_id)
            && !prev.replaced.contains_key(g1.output_id)
            && crate::minimize::double_negation_of(g, g1) is Some {
            let a = g1.inputs[0]->Gate_0;
            lemma_find_not_from(g, a, 0);
            let k = find_not_from(g, a, 0)->Some_0;
            let p = g[k].inputs[0]->Primary_0;
            assert(c.gates[i1].inputs[0] == g1.inputs[0]);
            assert(crate::circuit::reads_earlier(c, i1, c.gates[i1].inputs[0]));
            let k2 = choose|k2: int| 0 <= k2 < i1 && (#[trigger] c.gates[k2]).output_id == a;
            if k2 != k {
                if k2 < k {
                    assert(c.gates[k2].output_id != c.gates[k].output_id);
                } else {
                    assert(c.gates[k].output_id != c.gates[k2].output_id);
                }
            }
            assert(c.gates[k].inputs[0] == g[k].inputs[0]);
            assert(crate::circuit::reads_earlier(c, k, c.gates[k].inputs[0]));
            assert(g[k].gate.accepts_arity(g[k].inputs.len() as int));
            assert(g[i1].gate.accepts_arity(g[i1].inputs.len() as int));
            assert(is_pair(c, k, i1, p));
            assert forall|id: usize| #[trigger] cur.inner.contains(id) implies driven_by_not(g, id) by {
                if id == g[k].output_id {
                    assert(g[k].output_id == id);
                } else {
                    assert(prev.inner.contains(id));
                }
            }
            assert forall|b: usize| #[trigger] cur.replaced.contains_key(b) implies driven_by_not(g, b)
                && pair_replaces(c, b, cur.replaced[b]) by {
                if b == g1.output_id {
                    assert(g[i1].output_id == b);
                    assert(is_pair(c, k, i1, p) && c.gates[i1].output_id == b && cur.replaced[b]
                        == GateInput::Primary(p));
                } else {
                    assert(prev.replaced.contains_key(b));
                    assert(cur.replaced[b] == prev.replaced[b]);
                }
            }
        } else {
            assert(cur == prev);
        }
    }
}

proof fn lemma_elimination_sound(c: CircuitModel)
    requires
        single_assignment(c),
    ensures
        elimination_sound(c, elimination(c.gates)),
{
    let g = c.gates;
    lemma_scan_sound(c, g.len());
    let sc = scan(g, g.len());
    let e = elimination(g);
    assert forall|id: usize| #[trigger] e.removed.contains(id) implies driven_by_not(g, id) by {
        if sc.replaced.contains_key(id) {
        } else {
            assert(sc.inner.contains(id));
        }
    }
}

/// The elimination never leaves a kept gate reading a removed wire that has
/// no replacement: an inner NOT is removed only when no such gate reads it.
proof fn lemma_no_dangling_reads(gates: Seq<GateModel>)
    ensures
        no_dangling_reads(gates),
{
    let e = elimination(gates);
    let sc = scan(gates, gates.len());
    assert forall|i: int, j: int|
        0 <= i < gates.len() && !e.removed.contains(gates[i].output_id) && 0 <= j
            < gates[i].inputs.len() implies match #[trigger] gates[i].inputs[j] {
        GateInput::Gate(id) => e.removed.contains(id) ==> e.replaced.contains_key(id),
        GateInput::Primary(_) => true,
    } by {
        if let GateInput::Gate(id) = gates[i].inputs[j] {
            if e.removed.contains(id) && !e.replaced.contains_key(id) {
                assert(kept_read(gates, sc.replaced, i, j, id));
                assert(read_by_kept(gates, sc.replaced, id));
            }
        }
    }
}

/// The table after the first `k` gates.
spec fn vals(system: LogicSystem, c: CircuitModel, inputs: Seq<Trit>, k: int) -> Map<usize, Trit> {
    run_gates(system, c.gates.take(k), initial_values(inputs))
}

proof fn lemma_run_push(system: LogicSystem, s: Seq<GateModel>, g: GateModel, v: Map<usize, Trit>)
    ensures
        run_gates(system, s.push(g), v) == run_gate(system, run_gates(system, s, v), g),
{
    assert(s.push(g).drop_last() =~= s);
}

proof fn lemma_vals_step(system: LogicSystem, c: CircuitModel, inputs: Seq<Trit>, k: int)
    requires
        0 <= k < c.gates.len(),
    ensures
        vals(system, c, inputs, k + 1) == run_gate(system, vals(system, c, inputs, k), c.gates[k]),
{
    assert(c.gates.take(k + 1) =~= c.gates.take(k).push(c.gates[k]));
    lemma_run_push(system, c.gates.take(k), c.gates[k], initial_values(inputs));
}

/// The table after `k` gates of a single-assignment circuit holds the
/// primary inputs unchanged and the outputs of the first `k` gates, each
/// as it was when its gate ran.
proof fn lemma_vals_facts(system: LogicSystem, c: CircuitModel, inputs: Seq<Trit>, k: int)
    requires
        single_assignment(c),
        inputs.len() == c.primary_inputs,
        0 <= k <= c.gates.len(),
    ensures
        forall|id: usize|
            #[trigger] vals(system, c, inputs, k).contains_key(id) <==> (id < c.primary_inputs
                || driven(c.gates.take(k), id)),
        forall|id: usize|
            id < c.primary_inputs ==> #[trigger] vals(system, c, inputs, k)[id] == inputs[id as int],
        forall|i: int|
            0 <= i < k ==> vals(system, c, inputs, k)[(#[trigger] c.gates[i]).output_id] == vals(
                system,
                c,
                inputs,
                i + 1,
            )[c.gates[i].output_id],
    decreases k,
{
    let g = c.gates;
    if k == 0 {
        assert(g.take(0) =~= Seq::<GateModel>::empty());
        assert forall|id: usize| #[trigger] vals(system, c, inputs, k).contains_key(id) <==> (id
            < c.primary_inputs || driven(g.take(k), id)) by {
            if driven(g.take(k), id) {
                let i = choose|i: int| 0 <= i < g.take(k).len() && (#[trigger] g.take(k)[i]).output_id == id;
            }
        }
    } else {
        lemma_vals_facts(system, c, inputs, k - 1);
        lemma_vals_step(system, c, inputs, k - 1);
        let prev = vals(system, c, inputs, k - 1);
        let cur = vals(system, c, inputs, k);
        let out = g[k - 1].output_id;
        assert(out >= c.primary_inputs);
        // the new output wire was not yet in the table
        assert(!prev.contains_key(out)) by {
            if driven(g.take(k - 1), out) {
                let i = choose|i: int| 0 <= i < g.take(k - 1).len() && (#[trigger] g.take(k - 1)[i]).output_id == out;
                assert(g.take(k - 1)[i] == g[i]);
                assert(g[i].output_id != g[k - 1].output_id);
            }
        }
        assert forall|id: usize| #[trigger] cur.contains_key(id) <==> (id < c.primary_inputs
            || driven(g.take(k), id)) by {
            if id == out {
                assert(g.take(k)[k - 1] == g[k - 1]);
            } else {
                if driven(g.take(k), id) {
                    let i = choose|i: int| 0 <= i < g.take(k).len() && (#[trigger] g.take(k)[i]).output_id == id;
                    assert(g.take(k - 1)[i] == g.take(k)[i]);
                }
                if driven(g.take(k - 1), id) {
                    let i = choose|i: int| 0 <= i < g.take(k - 1).len() && (#[trigger] g.take(k - 1)[i]).output_id == id;
                    assert(g.take(k - 1)[i] == g.take(k)[i]);
                }
            }
        }
        assert forall|i: int| 0 <= i < k implies cur[(#[trigger] g[i]).output_id] == vals(
            system,
            c,
            inputs,
            i + 1,
        )[g[i].output_id] by {
            if i < k - 1 {
                assert(g[i].output_id != g[k - 1].output_id);
            }
        }
    }
}

/// The outer output of a NOT→NOT pair carries the pair's primary input
/// from the moment the outer gate has run.
proof fn lemma_pair_value(
    system: LogicSystem,
    c: CircuitModel,
    inputs: Seq<Trit>,
    i0: int,
    i1: int,
    p: usize,
    k: int,
)
    requires
        single_assignment(c),
        inputs.len() == c.primary_inputs,
        is_pair(c, i0, i1, p),
        i1 < k <= c.gates.len(),
    ensures
        vals(system, c, inputs, k)[c.gates[i1].output_id] == inputs[p as int],
{
    let g = c.gates;
    let a = g[i0].output_id;
    lemma_vals_facts(system, c, inputs, i0);
    lemma_vals_step(system, c, inputs, i0);
    lemma_vals_facts(system, c, inputs, i1);
    lemma_vals_step(system, c, inputs, i1);
    lemma_vals_facts(system, c, inputs, k);
    let v0 = vals(system, c, inputs, i0);
    assert(v0.contains_key(p));
    assert(wire_values(v0, g[i0].inputs) =~= seq![inputs[p as int]]);
    let v1 = vals(system, c, inputs, i1);
    assert(g.take(i1)[i0] == g[i0]);
    assert(v1.contains_key(a));
    assert(v1[a] == vals(system, c, inputs, i0 + 1)[a]);
    assert(v1[a] == neg(inputs[p as int]));
    assert(wire_values(v1, g[i1].inputs) =~= seq![neg(inputs[p as int])]);
}

/// The table of the minimized circuit after the kept gates among the first
/// `k` is the original table after `k` gates without the removed wires.
#[verifier::rlimit(40)]
proof fn lemma_kept_agrees(system: LogicSystem, c: CircuitModel, inputs: Seq<Trit>, k: int)
    requires
        single_assignment(c),
        inputs.len() == c.primary_inputs,
        no_dangling_reads(c.gates),
        0 <= k <= c.gates.len(),
    ensures
        ({
            let e = elimination(c.gates);
            let w = run_gates(system, kept_gates(c.gates, e, k as nat), initial_values(inputs));
            let v = vals(system, c, inputs, k);
            &&& forall|id: usize| #[trigger] w.contains_key(id) <==> v.contains_key(id) && !e.removed.contains(id)
            &&& forall|id: usize| #[trigger] w.contains_key(id) ==> w[id] == v[id]
        }),
    decreases k,
{
    let g = c.gates;
    let e = elimination(g);
    let init = initial_values(inputs);
    lemma_elimination_sound(c);
    if k == 0 {
        assert(g.take(0) =~= Seq::<GateModel>::empty());
        assert forall|id: usize| e.removed.contains(id) implies id >= c.primary_inputs by {
            let i = choose|i: int| 0 <= i < g.len() && (#[trigger] g[i]).output_id == id;
        }
    } else {
        lemma_kept_agrees(system, c, inputs, k - 1);
        lemma_vals_facts(system, c, inputs, k - 1);
        lemma_vals_step(system, c, inputs, k - 1);
        let gk = g[k - 1];
        let prev_kept = kept_gates(g, e, (k - 1) as nat);
        let wp = run_gates(system, prev_kept, init);
        let vp = vals(system, c, inputs, k - 1);
        let w = run_gates(system, kept_gates(g, e, k as nat), init);
        let v = vals(system, c, inputs, k);
        assert(!vp.contains_key(gk.output_id)) by {
            if driven(g.take(k - 1), gk.output_id) {
                let i = choose|i: int| 0 <= i < g.take(k - 1).len() && (#[trigger] g.take(k - 1)[i]).output_id == gk.output_id;
                assert(g.take(k - 1)[i] == g[i]);
                assert(g[i].output_id != g[k - 1].output_id);
            }
        }
        if !e.removed.contains(gk.output_id) {
            let rw = rewrite_gate(e.replaced, gk);
            lemma_run_push(system, prev_kept, rw, init);
            assert(wire_values(wp, rw.inputs) =~= wire_values(vp, gk.inputs)) by {
                assert forall|j: int| 0 <= j < gk.inputs.len() implies read_wire(
                    wp,
                    rewrite_input(e.replaced, gk.inputs[j]).wire(),
                ) == read_wire(vp, gk.inputs[j].wire()) by {
                    let inp = gk.inputs[j];
                    assert(c.gates[k - 1].inputs[j] == inp);
                    assert(crate::circuit::reads_earlier(c, k - 1, c.gates[k - 1].inputs[j]));
                    match inp {
                        GateInput::Primary(q) => {
                            if e.removed.contains(q) {
                                let i = choose|i: int| 0 <= i < g.len() && (#[trigger] g[i]).output_id == q;
                            }
                            assert(vp.contains_key(q));
                        },
                        GateInput::Gate(id) => {
                            let i = choose|i: int| 0 <= i < k - 1 && (#[trigger] c.gates[i]).output_id == id;
                            assert(g.take(k - 1)[i] == g[i]);
                            assert(vp.contains_key(id));
                            if e.replaced.contains_key(id) {
                                assert(pair_replaces(c, id, e.replaced[id]));
                                let (i0, i1, p) = choose|i0: int, i1: int, p: usize|
                                    #[trigger] is_pair(c, i0, i1, p) && c.gates[i1].output_id == id
                                        && e.replaced[id] == GateInput::Primary(p);
                                if i1 != i {
                                    if i1 < i {
                                        assert(g[i1].output_id != g[i].output_id);
                                    } else {
                                        assert(g[i].output_id != g[i1].output_id);
                                    }
                                }
                                lemma_pair_value(system, c, inputs, i0, i1, p, k - 1);
                                if e.removed.contains(p) {
                                    let i2 = choose|i2: int| 0 <= i2 < g.len() && (#[trigger] g[i2]).output_id == p;
                                }
                                assert(vp.contains_key(p));
                            } else {
                                assert(no_dangling_reads(g));
                                assert(match g[k - 1].inputs[j] {
                                    GateInput::Gate(id) => e.removed.contains(id) ==> e.replaced.contains_key(id),
                                    GateInput::Primary(_) => true,
                                });
                            }
                        },
                    }
                }
            }
        }
    }
}

/// Minimization keeps what the circuit computes. For a circuit in
/// single-assignment form every gate still accepts its input count, and
/// evaluating the minimized circuit gives the same values as evaluating
/// the original one, on every wire but the outputs of the removed gates.
pub proof fn lemma_minimize_preserves_evaluation(
    system: LogicSystem,
    c: CircuitModel,
    inputs: Seq<Trit>,
)
    requires
        single_assignment(c),
        inputs.len() == c.primary_inputs,
    ensures
        arities_ok(minimized_gates(c.gates)),
        run_gates(system, minimized_gates(c.gates), initial_values(inputs)) == run_gates(
            system,
            c.gates,
            initial_values(inputs),
        ).remove_keys(elimination(c.gates).removed),
{
    let g = c.gates;
    let e = elimination(g);
    let n = g.len() as int;
    lemma_no_dangling_reads(g);
    lemma_kept_agrees(system, c, inputs, n);
    assert(g.take(n) =~= g);
    lemma_kept_arities(g, e, g.len());
    let w = run_gates(system, kept_gates(g, e, n as nat), initial_values(inputs));
    let v = vals(system, c, inputs, n);
    assert(v == run_gates(system, g, initial_values(inputs)));
    assert(w == run_gates(system, minimized_gates(g), initial_values(inputs)));
    assert forall|id: usize| #[trigger] w.contains_key(id) <==> v.remove_keys(e.removed).contains_key(id) by {
        assert(w.contains_key(id) <==> v.contains_key(id) && !e.removed.contains(id));
        assert(v.remove_keys(e.removed).contains_key(id) <==> v.contains_key(id) && !e.removed.contains(id));
    }
    assert(w =~= v.remove_keys(e.removed));
}

/// In a single-assignment circuit minimization removes only NOT gates:
/// every gate of another kind keeps its output wire.
pub proof fn lemma_minimize_removes_only_not_gates(c: CircuitModel)
    requires
        single_assignment(c),
    ensures
        forall|i: int|
            0 <= i < c.gates.len() && (#[trigger] c.gates[i]).gate != TernaryGate::Not
                ==> !elimination(c.gates).removed.contains(c.gates[i].output_id),
{
    let g = c.gates;
    lemma_elimination_sound(c);
    assert forall|i: int|
        0 <= i < g.len() && (#[trigger] g[i]).gate != TernaryGate::Not implies !elimination(
        g,
    ).removed.contains(g[i].output_id) by {
        if elimination(g).removed.contains(g[i].output_id) {
            let k = choose|k: int|
                0 <= k < g.len() && (#[trigger] g[k]).output_id == g[i].output_id && g[k].gate
                    == TernaryGate::Not;
            if k < i {
                assert(g[k].output_id != g[i].output_id);
            } else if i < k {
                assert(g[i].output_id != g[k].output_id);
            }
        }
    }
}

/// Minimization never adds gates.
pub proof fn lemma_minimize_never_adds_gates(gates: Seq<GateModel>)
    ensures
        minimized_gates(gates).len() <= gates.len(),
{
    lemma_kept_len(gates, elimination(gates), gates.len());
}


/// Gate `i` is the outer NOT of a NOT→NOT pair whose inner NOT is gate `k`:
/// `i` is a NOT whose first input is the output of `k`, a NOT whose first
/// input is a primary input.
pub open spec fn outer_of_pair(gates: Seq<GateModel>, i: int, k: int) -> bool {
    &&& 0 <= i < gates.len()
    &&& 0 <= k < gates.len()
    &&& gates[i].gate == TernaryGate::Not
    &&& gates[i].inputs.len() > 0
    &&& gates[i].inputs[0] == GateInput::Gate(gates[k].output_id)
    &&& gates[k].gate == TernaryGate::Not
    &&& gates[k].inputs.len() > 0
    &&& gates[k].inputs[0] is Primary
}

/// Gate `i` is the outer NOT of some NOT→NOT pair.
pub open spec fn is_outer(gates: Seq<GateModel>, i: int) -> bool {
    exists|k: int| #[trigger] outer_of_pair(gates, i, k)
}

/// Gate `k` is the inner NOT of some NOT→NOT pair.
pub open spec fn is_inner(gates: Seq<GateModel>, k: int) -> bool {
    exists|i: int| #[trigger] outer_of_pair(gates, i, k)
}

/// Every gate that reads the output of gate `k` is the outer NOT of a pair.
pub open spec fn read_only_by_outer(gates: Seq<GateModel>, k: int) -> bool {
    forall|h: int, j: int|
        0 <= h < gates.len() && 0 <= j < gates[h].inputs.len() && #[trigger] gates[h].inputs[j]
            == GateInput::Gate(gates[k].output_id) ==> is_outer(gates, h)
}

/// The scan after `m` gates, described without the scan: the replaced
/// wires are the outputs of the outer NOTs among the first `m` gates, each
/// replaced by the first input of its inner NOT, and the inner wires are
/// the outputs of the inner NOTs of those pairs.
spec fn scan_described(c: CircuitModel, m: int, st: PairScan) -> bool {
    let g = c.gates;
    &&& forall|id: usize|
        #[trigger] st.replaced.contains_key(id) <==> exists|i: int|
            0 <= i < m && is_outer(g, i) && (#[trigger] g[i]).output_id == id
    &&& forall|i: int, k: int|
        0 <= i < m && #[trigger] outer_of_pair(g, i, k) ==> st.replaced[g[i].output_id]
            == g[k].inputs[0]
    &&& forall|id: usize|
        #[trigger] st.inner.contains(id) <==> exists|i: int, k: int|
            0 <= i < m && #[trigger] outer_of_pair(g, i, k) && g[k].output_id == id
}

/// In a circuit with distinct output wires a pair's outer gate has only one
/// inner gate.
proof fn lemma_pair_partner_unique(c: CircuitModel, i: int, k1: int, k2: int)
    requires
        single_assignment(c),
        outer_of_pair(c.gates, i, k1),
        outer_of_pair(c.gates, i, k2),
    ensures
        k1 == k2,
{
    if k1 < k2 {
        assert(c.gates[k1].output_id != c.gates[k2].output_id);
    } else if k2 < k1 {
        assert(c.gates[k2].output_id != c.gates[k1].output_id);
    }
}

proof fn lemma_distinct_outputs(c: CircuitModel, i: int, j: int)
    requires
        single_assignment(c),
        0 <= i < c.gates.len(),
        0 <= j < c.gates.len(),
        c.gates[i].output_id == c.gates[j].output_id,
    ensures
        i == j,
{
    if i < j {
        assert(c.gates[i].output_id != c.gates[j].output_id);
    } else if j < i {
        assert(c.gates[j].output_id != c.gates[i].output_id);
    }
}

proof fn lemma_scan_described(c: CircuitModel, m: int)
    requires
        single_assignment(c),
        0 <= m <= c.gates.len(),
    ensures
        scan_described(c, m, scan(c.gates, m as nat)),
    decreases m,
{
    let g = c.gates;
    if m > 0 {
        lemma_scan_described(c, m - 1);
        let t = m - 1;
        let prev = scan(g, t as nat);
        let cur = scan(g, m as nat);
        let g1 = g[t];
        if is_outer(g, t) {
            let k = choose|k: int| #[trigger] outer_of_pair(g, t, k);
            let a = g[k].output_id;
            let p = g[k].inputs[0]->Primary_0;
            // the output of `t` is not yet an inner wire
            if prev.inner.contains(g1.output_id) {
                let (i2, k2) = choose|i2: int, k2: int|
                    0 <= i2 < t && #[trigger] outer_of_pair(g, i2, k2) && g[k2].output_id == g1.output_id;
                lemma_distinct_outputs(c, k2, t);
            }
            // nor a replaced wire
            if prev.replaced.contains_key(g1.output_id) {
                let i2 = choose|i2: int| 0 <= i2 < t && is_outer(g, i2) && (#[trigger] g[i2]).output_id == g1.output_id;
                lemma_distinct_outputs(c, i2, t);
            }
            lemma_find_not_from(g, a, 0);
            assert(crate::minimize::is_not_driving(g[k], a));
            let k3 = find_not_from(g, a, 0)->Some_0;
            lemma_distinct_outputs(c, k3, k);
            assert(cur.inner == prev.inner.insert(a));
            assert(cur.replaced == prev.replaced.insert(g1.output_id, GateInput::Primary(p)));
            assert forall|id: usize| #[trigger] cur.replaced.contains_key(id) <==> exists|i: int|
                0 <= i < m && is_outer(g, i) && (#[trigger] g[i]).output_id == id by {
                if id == g1.output_id {
                    assert(0 <= t < m && is_outer(g, t) && g[t].output_id == id);
                } else if exists|i: int| 0 <= i < m && is_outer(g, i) && (#[trigger] g[i]).output_id == id {
                    let i = choose|i: int| 0 <= i < m && is_outer(g, i) && (#[trigger] g[i]).output_id == id;
                    assert(i != t);
                }
            }
            assert forall|i: int, k4: int|
                0 <= i < m && #[trigger] outer_of_pair(g, i, k4) implies cur.replaced[g[i].output_id]
                == g[k4].inputs[0] by {
                if i == t {
                    lemma_pair_partner_unique(c, t, k, k4);
                } else {
                    assert(g[i].output_id != g1.output_id) by {
                        if g[i].output_id == g1.output_id {
                            lemma_distinct_outputs(c, i, t);
                        }
                    }
                }
            }
            assert forall|id: usize| #[trigger] cur.inner.contains(id) <==> exists|i: int, k4: int|
                0 <= i < m && #[trigger] outer_of_pair(g, i, k4) && g[k4].output_id == id by {
                if id == a {
                    assert(0 <= t < m && outer_of_pair(g, t, k) && g[k].output_id == id);
                } else if exists|i: int, k4: int|
                    0 <= i < m && #[trigger] outer_of_pair(g, i, k4) && g[k4].output_id == id {
                    let (i, k4) = choose|i: int, k4: int|
                        0 <= i < m && #[trigger] outer_of_pair(g, i, k4) && g[k4].output_id == id;
                    if i == t {
                        lemma_pair_partner_unique(c, t, k, k4);
                    }
                }
            }
        } else {
            if g1.gate == TernaryGate::Not && !prev.inner.contains(g1.output_id)
                && !prev.replaced.contains_key(g1.output_id)
                && crate::minimize::double_negation_of(g, g1) is Some {
                let a = g1.inputs[0]->Gate_0;
                lemma_find_not_from(g, a, 0);
                let k = find_not_from(g, a, 0)->Some_0;
                assert(outer_of_pair(g, t, k));
            }
            assert(cur == prev);
            assert forall|id: usize| #[trigger] cur.replaced.contains_key(id) <==> exists|i: int|
                0 <= i < m && is_outer(g, i) && (#[trigger] g[i]).output_id == id by {
                if exists|i: int| 0 <= i < m && is_outer(g, i) && (#[trigger] g[i]).output_id == id {
                    let i = choose|i: int| 0 <= i < m && is_outer(g, i) && (#[trigger] g[i]).output_id == id;
                    assert(i != t);
                }
            }
            assert forall|id: usize| #[trigger] cur.inner.contains(id) <==> exists|i: int, k4: int|
                0 <= i < m && #[trigger] outer_of_pair(g, i, k4) && g[k4].output_id == id by {
                if exists|i: int, k4: int|
                    0 <= i < m && #[trigger] outer_of_pair(g, i, k4) && g[k4].output_id == id {
                    let (i, k4) = choose|i: int, k4: int|
                        0 <= i < m && #[trigger] outer_of_pair(g, i, k4) && g[k4].output_id == id;
                    assert(i != t);
                }
            }
        }
    }
}

/// What minimization keeps and rewrites, for a single-assignment circuit:
/// the outer NOT of every NOT→NOT pair from a primary input is removed and
/// its readers read that primary input instead; the inner NOT of a pair is
/// removed exactly when every gate reading its output is itself the outer
/// NOT of a pair; every other gate stays.
pub proof fn lemma_elimination_described(c: CircuitModel)
    requires
        single_assignment(c),
    ensures
        forall|i: int|
            0 <= i < c.gates.len() ==> (elimination(c.gates).replaced.contains_key(
                (#[trigger] c.gates[i]).output_id,
            ) <==> is_outer(c.gates, i)),
        forall|i: int, k: int|
            #[trigger] outer_of_pair(c.gates, i, k) ==> elimination(c.gates).replaced[c.gates[i].output_id]
                == c.gates[k].inputs[0],
        forall|i: int|
            0 <= i < c.gates.len() ==> (elimination(c.gates).removed.contains(
                (#[trigger] c.gates[i]).output_id,
            ) <==> is_outer(c.gates, i) || (is_inner(c.gates, i) && read_only_by_outer(c.gates, i))),
        forall|id: usize|
            #[trigger] elimination(c.gates).removed.contains(id) ==> exists|i: int|
                0 <= i < c.gates.len() && (#[trigger] c.gates[i]).output_id == id,
{
    let g = c.gates;
    let n = g.len() as int;
    let e = elimination(g);
    let sc = scan(g, g.len());
    lemma_scan_described(c, n);
    lemma_elimination_sound(c);
    assert forall|i: int| 0 <= i < n implies (e.replaced.contains_key((#[trigger] g[i]).output_id)
        <==> is_outer(g, i)) by {
        if e.replaced.contains_key(g[i].output_id) {
            let i2 = choose|i2: int| 0 <= i2 < n && is_outer(g, i2) && (#[trigger] g[i2]).output_id == g[i].output_id;
            lemma_distinct_outputs(c, i, i2);
        }
    }
    assert forall|i: int|
        0 <= i < n implies (e.removed.contains((#[trigger] g[i]).output_id) <==> is_outer(g, i) || (
        is_inner(g, i) && read_only_by_outer(g, i))) by {
        let out = g[i].output_id;
        assert(sc.replaced.contains_key(out) <==> is_outer(g, i));
        assert(sc.inner.contains(out) <==> is_inner(g, i)) by {
            if sc.inner.contains(out) {
                let (i2, k2) = choose|i2: int, k2: int| 0 <= i2 < n && #[trigger] outer_of_pair(g, i2, k2) && g[k2].output_id == out;
                lemma_distinct_outputs(c, i, k2);
            }
            if is_inner(g, i) {
                let i2 = choose|i2: int| #[trigger] outer_of_pair(g, i2, i);
                assert(0 <= i2 < n && outer_of_pair(g, i2, i) && g[i].output_id == out);
            }
        }
        assert(read_by_kept(g, sc.replaced, out) <==> !read_only_by_outer(g, i)) by {
            if read_by_kept(g, sc.replaced, out) {
                let (a, b) = choose|a: int, b: int| #[trigger] kept_read(g, sc.replaced, a, b, out);
                if is_outer(g, a) {
                    assert(sc.replaced.contains_key(g[a].output_id));
                }
            }
            if !read_only_by_outer(g, i) {
                let (h, j) = choose|h: int, j: int|
                    !(0 <= h < n && 0 <= j < g[h].inputs.len() && #[trigger] g[h].inputs[j]
                        == GateInput::Gate(out) ==> is_outer(g, h));
                assert(kept_read(g, sc.replaced, h, j, out));
            }
        }
    }
}

proof fn lemma_kept_len(gates: Seq<GateModel>, e: Elimination, n: nat)
    requires
        n <= gates.len(),
    ensures
        kept_gates(gates, e, n).len() <= n,
    decreases n,
{
    if n > 0 {
        lemma_kept_len(gates, e, (n - 1) as nat);
    }
}

proof fn lemma_kept_arities(gates: Seq<GateModel>, e: Elimination, n: nat)
    requires
        arities_ok(gates),
        n <= gates.len(),
    ensures
        arities_ok(kept_gates(gates, e, n)),
    decreases n,
{
    if n > 0 {
        lemma_kept_arities(gates, e, (n - 1) as nat);
        let prev = kept_gates(gates, e, (n - 1) as nat);
        let cur = kept_gates(gates, e, n);
        assert(gates[n - 1].gate.accepts_arity(gates[n - 1].inputs.len() as int));
        assert forall|m: int| 0 <= m < cur.len() implies (#[trigger] cur[m]).gate.accepts_arity(
            cur[m].inputs.len() as int,
        ) by {
            if m < prev.len() {
                assert(cur[m] == prev[m]);
            }
        }
    }
}

} // verus!
