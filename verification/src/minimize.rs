use vstd::prelude::*;
use std::collections::{HashMap, HashSet};

use crate::circuit::{
    arities_ok,
    initial_values,
    run_gates,
    single_assignment,
    GateInput,
    GateInstance,
    GateModel,
    TernaryCircuit,
};
use crate::logic::{LogicSystem, TernaryGate};
use crate::minimize_laws::lemma_minimize_preserves_evaluation;
use crate::trit::Trit;

verus! {

broadcast use vstd::std_specs::hash::group_hash_axioms;

/// What double-negation elimination decides about a circuit: the output
/// wires whose gates are removed, and for each outer NOT of a NOT→NOT pair
/// the primary input that takes the place of its output.
pub struct Elimination {
    pub removed: Set<usize>,
    pub replaced: Map<usize, GateInput>,
}

/// What the scan over the gates has found so far: the output wires of the
/// inner NOTs of the pairs, and for the output wire of each outer NOT the
/// pair's primary input.
pub struct PairScan {
    pub inner: Set<usize>,
    pub replaced: Map<usize, GateInput>,
}

/// Is `g` a NOT gate whose output is wire `id`?
pub open spec fn is_not_driving(g: GateModel, id: usize) -> bool {
    g.gate == TernaryGate::Not && g.output_id == id
}

/// The position of the first NOT gate at or after `start` whose output is
/// wire `id`.
pub open spec fn find_not_from(gates: Seq<GateModel>, id: usize, start: int) -> Option<int>
    decreases gates.len() - start,
{
    if start < 0 || start >= gates.len() {
        None
    } else if is_not_driving(gates[start], id) {
        Some(start)
    } else {
        find_not_from(gates, id, start + 1)
    }
}

/// The position `find_not_from` returns is a NOT gate driving `id`, and no
/// gate between `start` and it is one.
pub(crate) proof fn lemma_find_not_from(gates: Seq<GateModel>, id: usize, start: int)
    requires
        0 <= start,
    ensures
        find_not_from(gates, id, start) matches Some(k) ==> {
            &&& start <= k < gates.len()
            &&& is_not_driving(gates[k], id)
            &&& forall|j: int| start <= j < k ==> !is_not_driving(#[trigger] gates[j], id)
        },
        find_not_from(gates, id, start) is None ==> forall|j: int|
            start <= j < gates.len() ==> !is_not_driving(#[trigger] gates[j], id),
    decreases gates.len() - start,
{
    if start < gates.len() && !is_not_driving(gates[start], id) {
        lemma_find_not_from(gates, id, start + 1);
    }
}

/// For a NOT gate `g1` whose first input is a gate's output: if the first
/// NOT gate driving that wire has a primary input `p` as its first input,
/// the inner gate's output wire and `p`.
pub open spec fn double_negation_of(gates: Seq<GateModel>, g1: GateModel) -> Option<(usize, usize)> {
    if g1.inputs.len() > 0 && g1.inputs[0] is Gate {
        match find_not_from(gates, g1.inputs[0]->Gate_0, 0) {
            Some(k) => if gates[k].inputs.len() > 0 && gates[k].inputs[0] is Primary {
                Some((gates[k].output_id, gates[k].inputs[0]->Primary_0))
            } else {
                None
            },
            None => None,
        }
    } else {
        None
    }
}

/// One step of the scan over the gates: a NOT gate whose output is not yet
/// claimed by a pair, and that closes a NOT→NOT pair from a primary input,
/// becomes the outer gate of that pair.
pub open spec fn scan_step(gates: Seq<GateModel>, st: PairScan, g1: GateModel) -> PairScan {
    if g1.gate == TernaryGate::Not && !st.inner.contains(g1.output_id) && !st.replaced.contains_key(
        g1.output_id,
    ) {
        match double_negation_of(gates, g1) {
            Some((inner, p)) => PairScan {
                inner: st.inner.insert(inner),
                replaced: st.replaced.insert(g1.output_id, GateInput::Primary(p)),
            },
            None => st,
        }
    } else {
        st
    }
}

/// The scan after the first `n` gates.
pub open spec fn scan(gates: Seq<GateModel>, n: nat) -> PairScan
    decreases n,
{
    if n == 0 || n > gates.len() {
        PairScan { inner: Set::empty(), replaced: Map::empty() }
    } else {
        scan_step(gates, scan(gates, (n - 1) as nat), gates[n - 1])
    }
}

/// Whether gate `a`, not the outer NOT of a pair, reads wire `x` at input
/// `b`.
pub open spec fn kept_read(gates: Seq<GateModel>, replaced: Map<usize, GateInput>, a: int, b: int, x: usize) -> bool {
    &&& 0 <= a < gates.len()
    &&& 0 <= b < gates[a].inputs.len()
    &&& !replaced.contains_key(gates[a].output_id)
    &&& gates[a].inputs[b] == GateInput::Gate(x)
}

/// Whether some gate that is not the outer NOT of a pair reads wire `x`.
pub open spec fn read_by_kept(gates: Seq<GateModel>, replaced: Map<usize, GateInput>, x: usize) -> bool {
    exists|a: int, b: int| #[trigger] kept_read(gates, replaced, a, b, x)
}

/// The elimination over all gates: the outer NOT of every pair is removed
/// and its readers take the pair's primary input; the inner NOT is removed
/// only when no gate other than an outer NOT reads its output.
pub open spec fn elimination(gates: Seq<GateModel>) -> Elimination {
    let sc = scan(gates, gates.len());
    Elimination {
        removed: Set::new(
            |x: usize|
                sc.replaced.contains_key(x) || (sc.inner.contains(x) && !read_by_kept(gates, sc.replaced, x)),
        ),
        replaced: sc.replaced,
    }
}

/// A gate input after elimination: a gate output that was replaced reads
/// its primary input instead.
pub open spec fn rewrite_input(replaced: Map<usize, GateInput>, inp: GateInput) -> GateInput {
    match inp {
        GateInput::Gate(id) => if replaced.contains_key(id) {
            replaced[id]
        } else {
            inp
        },
        GateInput::Primary(_) => inp,
    }
}

/// A kept gate with its inputs rewritten.
pub open spec fn rewrite_gate(replaced: Map<usize, GateInput>, g: GateModel) -> GateModel {
    GateModel {
        gate: g.gate,
        inputs: g.inputs.map_values(|inp: GateInput| rewrite_input(replaced, inp)),
        output_id: g.output_id,
    }
}

/// The first `n` gates without the removed ones, inputs rewritten, in
/// their original order.
pub open spec fn kept_gates(gates: Seq<GateModel>, e: Elimination, n: nat) -> Seq<GateModel>
    decreases n,
{
    if n == 0 || n > gates.len() {
        Seq::empty()
    } else {
        let prev = kept_gates(gates, e, (n - 1) as nat);
        let g = gates[n - 1];
        if e.removed.contains(g.output_id) {
            prev
        } else {
            prev.push(rewrite_gate(e.replaced, g))
        }
    }
}

/// The gates of the minimized circuit.
pub open spec fn minimized_gates(gates: Seq<GateModel>) -> Seq<GateModel> {
    kept_gates(gates, elimination(gates), gates.len())
}

fn find_not_gate(gates: &Vec<GateInstance>, id: usize) -> (r: Option<usize>)
    ensures
        match r {
            Some(k) => find_not_from(gates@.map_values(|g: GateInstance| g@), id, 0) == Some(k as int),
            None => find_not_from(gates@.map_values(|g: GateInstance| g@), id, 0) is None,
        },
{
    let ghost models = gates@.map_values(|g: GateInstance| g@);
    let mut k: usize = 0;
    while k < gates.len()
        invariant
            k <= gates@.len(),
            models == gates@.map_values(|g: GateInstance| g@),
            find_not_from(models, id, 0) == find_not_from(models, id, k as int),
        decreases gates@.len() - k,
    {
        assert(models[k as int] == gates@[k as int]@);
        if gates[k].gate == TernaryGate::Not && gates[k].output_id == id {
            return Some(k);
        }
        k += 1;
    }
    None
}

/// Circuit minimization: remove redundant NOT gates (double negation).
///
/// The outer NOT of a NOT→NOT pair from a primary input goes and its
/// readers read the primary input; the inner NOT goes too unless a gate
/// that stays still reads it.
pub fn minimize_circuit(circuit: &TernaryCircuit) -> (minimized: TernaryCircuit)
    ensures
        minimized@.primary_inputs == circuit@.primary_inputs,
        minimized@.gates == minimized_gates(circuit@.gates),
        single_assignment(circuit@) ==> arities_ok(minimized@.gates),
        single_assignment(circuit@) ==> forall|system: LogicSystem, inputs: Seq<Trit>|
            inputs.len() == circuit@.primary_inputs ==> #[trigger] run_gates(
                system,
                minimized@.gates,
                initial_values(inputs),
            ) == run_gates(system, circuit@.gates, initial_values(inputs)).remove_keys(
                elimination(circuit@.gates).removed,
            ),
{
    let ghost models = circuit@.gates;
    let gates = &circuit.gates;
    let mut inner: HashSet<usize> = HashSet::new();
    let mut replaced: HashMap<usize, GateInput> = HashMap::new();
    let mut i: usize = 0;
    while i < gates.len()
        invariant
            i <= gates@.len(),
            models == gates@.map_values(|g: GateInstance| g@),
            inner@ == scan(models, i as nat).inner,
            replaced@ == scan(models, i as nat).replaced,
        decreases gates@.len() - i,
    {
        let g1 = &gates[i];
        assert(models[i as int] == g1@);
        if g1.gate == TernaryGate::Not && !inner.contains(&g1.output_id) && !replaced.contains_key(
            &g1.output_id,
        ) {
            if g1.inputs.len() > 0 {
                if let GateInput::Gate(g1_in) = g1.inputs[0] {
                    if let Some(k) = find_not_gate(gates, g1_in) {
                        proof {
                            lemma_find_not_from(models, g1_in, 0);
                        }
                        let g0 = &gates[k];
                        assert(models[k as int] == g0@);
                        if g0.inputs.len() > 0 {
                            if let GateInput::Primary(p) = g0.inputs[0] {
                                replaced.insert(g1.output_id, GateInput::Primary(p));
                                inner.insert(g0.output_id);
                            }
                        }
                    }
                }
            }
        }
        i += 1;
    }
    let ghost sc = scan(models, models.len());
    // Wires still read by a gate that is not the outer NOT of a pair.
    let mut read: HashSet<usize> = HashSet::new();
    let mut h: usize = 0;
    while h < gates.len()
        invariant
            h <= gates@.len(),
            models == gates@.map_values(|g: GateInstance| g@),
            replaced@ == sc.replaced,
            forall|x: usize|
                read@.contains(x) <==> exists|a: int, b: int|
                    0 <= a < h && #[trigger] kept_read(models, sc.replaced, a, b, x),
        decreases gates@.len() - h,
    {
        let g = &gates[h];
        assert(models[h as int] == g@);
        if !replaced.contains_key(&g.output_id) {
            let mut j: usize = 0;
            while j < g.inputs.len()
                invariant
                    h < gates@.len(),
                    j <= g.inputs@.len(),
                    models == gates@.map_values(|g: GateInstance| g@),
                    models[h as int] == g@,
                    replaced@ == sc.replaced,
                    !sc.replaced.contains_key(g.output_id),
                    forall|x: usize|
                        read@.contains(x) <==> exists|a: int, b: int|
                            (0 <= a < h || (a == h && b < j)) && #[trigger] kept_read(
                                models,
                                sc.replaced,
                                a,
                                b,
                                x,
                            ),
                decreases g.inputs@.len() - j,
            {
                if let GateInput::Gate(x) = g.inputs[j] {
                    read.insert(x);
                    assert(kept_read(models, sc.replaced, h as int, j as int, x));
                }
                j += 1;
            }
        }
        h += 1;
    }
    let ghost e = elimination(models);
    let mut minimized = TernaryCircuit::new(circuit.primary_inputs);
    let mut i: usize = 0;
    assert(minimized@.gates =~= kept_gates(models, e, 0));
    while i < gates.len()
        invariant
            i <= gates@.len(),
            models == gates@.map_values(|g: GateInstance| g@),
            e == elimination(models),
            sc == scan(models, models.len()),
            inner@ == sc.inner,
            replaced@ == e.replaced,
            forall|x: usize| read@.contains(x) <==> read_by_kept(models, sc.replaced, x),
            minimized.primary_inputs == circuit.primary_inputs,
            minimized@.gates == kept_gates(models, e, i as nat),
        decreases gates@.len() - i,
    {
        let gate = &gates[i];
        assert(models[i as int] == gate@);
        let gone = replaced.contains_key(&gate.output_id) || (inner.contains(&gate.output_id)
            && !read.contains(&gate.output_id));
        assert(gone == e.removed.contains(gate.output_id));
        if !gone {
            let mut new_inputs: Vec<GateInput> = Vec::new();
            let mut j: usize = 0;
            while j < gate.inputs.len()
                invariant
                    j <= gate.inputs@.len(),
                    replaced@ == e.replaced,
                    new_inputs@ =~= gate.inputs@.take(j as int).map_values(
                        |inp: GateInput| rewrite_input(e.replaced, inp),
                    ),
                decreases gate.inputs@.len() - j,
            {
                let inp = gate.inputs[j];
                let r = match inp {
                    GateInput::Gate(id) => match replaced.get(&id) {
                        Some(rep) => *rep,
                        None => inp,
                    },
                    GateInput::Primary(_) => inp,
                };
                new_inputs.push(r);
                j += 1;
            }
            assert(gate.inputs@.take(j as int) =~= gate.inputs@);
            let ghost before = minimized.gates@;
            minimized.add_gate(gate.gate, new_inputs, gate.output_id);
            assert(minimized.gates@.map_values(|g: GateInstance| g@) =~= before.map_values(
                |g: GateInstance| g@,
            ).push(rewrite_gate(e.replaced, gate@)));
        }
        i += 1;
    }
    proof {
        if single_assignment(circuit@) {
            let unknowns = Seq::new(circuit@.primary_inputs as nat, |k: int| Trit::Unknown);
            lemma_minimize_preserves_evaluation(LogicSystem::Kleene, circuit@, unknowns);
            assert forall|system: LogicSystem, inputs: Seq<Trit>|
                inputs.len() == circuit@.primary_inputs implies #[trigger] run_gates(
                system,
                minimized@.gates,
                initial_values(inputs),
            ) == run_gates(system, circuit@.gates, initial_values(inputs)).remove_keys(
                elimination(circuit@.gates).removed,
            ) by {
                lemma_minimize_preserves_evaluation(system, circuit@, inputs);
            }
        }
    }
    minimized
}

} // verus!
