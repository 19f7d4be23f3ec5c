use vstd::prelude::*;
use std::collections::HashMap;

use crate::logic::{gate_output, lemma_kleene_gate_monotone, refines, LogicSystem, TernaryGate};
use crate::trit::Trit;

verus! {

broadcast use vstd::std_specs::hash::group_hash_axioms;

/// A gate instance in a circuit.
#[derive(Debug, Clone)]
pub struct GateInstance {
    pub gate: TernaryGate,
    pub inputs: Vec<GateInput>,
    pub output_id: usize,
}

/// Input to a gate: either a primary input or a gate output.
#[derive(Debug, Clone, Copy, PartialEq, Eq, Structural)]
pub enum GateInput {
    Primary(usize),
    Gate(usize),
}

/// A ternary circuit.
pub struct TernaryCircuit {
    pub primary_inputs: usize,
    pub gates: Vec<GateInstance>,
}

/// A gate instance as a mathematical value.
pub struct GateModel {
    pub gate: TernaryGate,
    pub inputs: Seq<GateInput>,
    pub output_id: usize,
}

/// A circuit as a mathematical value.
pub struct CircuitModel {
    pub primary_inputs: usize,
    pub gates: Seq<GateModel>,
}

impl View for GateInstance {
    type V = GateModel;

    open spec fn view(&self) -> GateModel {
        GateModel { gate: self.gate, inputs: self.inputs@, output_id: self.output_id }
    }
}

impl View for TernaryCircuit {
    type V = CircuitModel;

    open spec fn view(&self) -> CircuitModel {
        CircuitModel {
            primary_inputs: self.primary_inputs,
            gates: self.gates@.map_values(|g: GateInstance| g@),
        }
    }
}

impl GateInput {
    /// The wire that this input reads: a primary input and a gate output
    /// are looked up in the same table of values.
    pub open spec fn wire(self) -> usize {
        match self {
            GateInput::Primary(id) => id,
            GateInput::Gate(id) => id,
        }
    }
}

/// Every gate has an input count that it accepts (one for NOT, two for
/// IMP).
pub open spec fn arities_ok(gates: Seq<GateModel>) -> bool {
    forall|k: int|
        0 <= k < gates.len() ==> (#[trigger] gates[k]).gate.accepts_arity(gates[k].inputs.len() as int)
}

/// The values before any gate runs: primary input `i` holds `inputs[i]`.
pub open spec fn initial_values(inputs: Seq<Trit>) -> Map<usize, Trit> {
    Map::new(|i: usize| i < inputs.len(), |i: usize| inputs[i as int])
}

/// The value on a wire: what the table holds, Unknown where it holds
/// nothing.
pub open spec fn read_wire(values: Map<usize, Trit>, id: usize) -> Trit {
    if values.contains_key(id) {
        values[id]
    } else {
        Trit::Unknown
    }
}

/// The values that a gate with the given inputs reads from the table.
pub open spec fn wire_values(values: Map<usize, Trit>, inputs: Seq<GateInput>) -> Seq<Trit> {
    inputs.map_values(|inp: GateInput| read_wire(values, inp.wire()))
}

/// The table after running gate `g`: its output wire holds what `g`
/// computes from the values it reads.
pub open spec fn run_gate(system: LogicSystem, values: Map<usize, Trit>, g: GateModel) -> Map<usize, Trit> {
    values.insert(g.output_id, gate_output(system, g.gate, wire_values(values, g.inputs)))
}

/// The table after the gates run one after another, in order.
pub open spec fn run_gates(system: LogicSystem, gates: Seq<GateModel>, values: Map<usize, Trit>) -> Map<usize, Trit>
    decreases gates.len(),
{
    if gates.len() == 0 {
        values
    } else {
        run_gate(system, run_gates(system, gates.drop_last(), values), gates.last())
    }
}


/// Whether gate `i` may read `inp`: a primary input must be one of the
/// circuit's primary inputs, a gate input must be the output of an
/// earlier gate.
pub open spec fn reads_earlier(c: CircuitModel, i: int, inp: GateInput) -> bool {
    match inp {
        GateInput::Primary(p) => p < c.primary_inputs,
        GateInput::Gate(id) => exists|k: int| 0 <= k < i && (#[trigger] c.gates[k]).output_id == id,
    }
}

/// A circuit in single-assignment form: every gate accepts its input
/// count and drives a wire of its own above the primary inputs, and every
/// gate reads only primary inputs and outputs of earlier gates.
pub open spec fn single_assignment(c: CircuitModel) -> bool {
    &&& arities_ok(c.gates)
    &&& forall|i: int, j: int|
        0 <= i < j < c.gates.len() ==> (#[trigger] c.gates[i]).output_id != (#[trigger] c.gates[j]).output_id
    &&& forall|i: int| 0 <= i < c.gates.len() ==> (#[trigger] c.gates[i]).output_id >= c.primary_inputs
    &&& forall|i: int, j: int|
        0 <= i < c.gates.len() && 0 <= j < c.gates[i].inputs.len() ==> reads_earlier(
            c,
            i,
            #[trigger] c.gates[i].inputs[j],
        )
}


/// Two tables over the same wires, the second at least as decided as the
/// first on every wire.
pub open spec fn map_refines(m1: Map<usize, Trit>, m2: Map<usize, Trit>) -> bool {
    &&& m1.dom() == m2.dom()
    &&& forall|id: usize| #[trigger] m1.contains_key(id) ==> refines(m1[id], m2[id])
}

proof fn lemma_run_gates_monotone(gates: Seq<GateModel>, v1: Map<usize, Trit>, v2: Map<usize, Trit>)
    requires
        arities_ok(gates),
        map_refines(v1, v2),
    ensures
        map_refines(
            run_gates(LogicSystem::Kleene, gates, v1),
            run_gates(LogicSystem::Kleene, gates, v2),
        ),
    decreases gates.len(),
{
    if gates.len() > 0 {
        let p = gates.drop_last();
        let g = gates.last();
        assert forall|k: int| 0 <= k < p.len() implies (#[trigger] p[k]).gate.accepts_arity(
            p[k].inputs.len() as int,
        ) by {
            assert(p[k] == gates[k]);
        }
        lemma_run_gates_monotone(p, v1, v2);
        let w1 = run_gates(LogicSystem::Kleene, p, v1);
        let w2 = run_gates(LogicSystem::Kleene, p, v2);
        let s1 = wire_values(w1, g.inputs);
        let s2 = wire_values(w2, g.inputs);
        assert forall|i: int| 0 <= i < s1.len() implies refines(#[trigger] s1[i], s2[i]) by {
            let id = g.inputs[i].wire();
            if w1.contains_key(id) {
                assert(w2.contains_key(id));
            } else {
                assert(!w2.contains_key(id));
            }
        }
        assert(gates[gates.len() - 1] == g);
        lemma_kleene_gate_monotone(g.gate, s1, s2);
        let r1 = run_gates(LogicSystem::Kleene, gates, v1);
        let r2 = run_gates(LogicSystem::Kleene, gates, v2);
        assert(r1.dom() =~= r2.dom());
    }
}

/// Kleene evaluation is monotone: making Unknown primary inputs definite
/// leaves the set of wires unchanged and never changes a wire whose value
/// was already decided.
pub proof fn lemma_kleene_evaluation_monotone(gates: Seq<GateModel>, inputs: Seq<Trit>, decided: Seq<Trit>)
    requires
        arities_ok(gates),
        inputs.len() == decided.len(),
        forall|i: int| 0 <= i < inputs.len() && #[trigger] inputs[i] != Trit::Unknown ==> decided[i] == inputs[i],
    ensures
        ({
            let r1 = run_gates(LogicSystem::Kleene, gates, initial_values(inputs));
            let r2 = run_gates(LogicSystem::Kleene, gates, initial_values(decided));
            &&& r1.dom() == r2.dom()
            &&& forall|id: usize| #[trigger] r1.contains_key(id) && r1[id] != Trit::Unknown ==> r2[id] == r1[id]
        }),
{
    let v1 = initial_values(inputs);
    let v2 = initial_values(decided);
    assert(v1.dom() =~= v2.dom());
    assert forall|id: usize| #[trigger] v1.contains_key(id) implies refines(v1[id], v2[id]) by {
        assert(inputs[id as int] != Trit::Unknown ==> decided[id as int] == inputs[id as int]);
    }
    lemma_run_gates_monotone(gates, v1, v2);
}

/// Before any gate runs the table holds exactly the primary inputs: wire
/// `i` holds `inputs[i]` for every `i` below the number of inputs.
pub proof fn lemma_initial_table(inputs: Seq<Trit>)
    ensures
        forall|id: usize| #[trigger] initial_values(inputs).contains_key(id) <==> id < inputs.len(),
        forall|id: usize| id < inputs.len() ==> #[trigger] initial_values(inputs)[id] == inputs[id as int],
{
}

/// Running no gates leaves the table as it is.
pub proof fn lemma_run_no_gates(system: LogicSystem, values: Map<usize, Trit>)
    ensures
        run_gates(system, Seq::<GateModel>::empty(), values) == values,
{
}

/// Gates run in order: running `s1` and then `s2` is running `s1 + s2`.
pub proof fn lemma_run_gates_in_order(
    system: LogicSystem,
    s1: Seq<GateModel>,
    s2: Seq<GateModel>,
    values: Map<usize, Trit>,
)
    ensures
        run_gates(system, s1 + s2, values) == run_gates(system, s2, run_gates(system, s1, values)),
    decreases s2.len(),
{
    if s2.len() == 0 {
        assert(s1 + s2 =~= s1);
    } else {
        lemma_run_gates_in_order(system, s1, s2.drop_last(), values);
        assert((s1 + s2).drop_last() =~= s1 + s2.drop_last());
        assert((s1 + s2).last() == s2.last());
    }
}

/// Running one gate under a logic system writes, on that gate's output
/// wire and nowhere else, what that kind of gate computes under that
/// system from `read`, the values on its input wires in order, a wire that
/// holds nothing reading as Unknown.
pub proof fn lemma_run_one_gate(
    system: LogicSystem,
    g: GateModel,
    values: Map<usize, Trit>,
    read: Seq<Trit>,
)
    requires
        read.len() == g.inputs.len(),
        forall|j: int|
            0 <= j < read.len() ==> #[trigger] read[j] == match g.inputs[j] {
                GateInput::Primary(id) => if values.contains_key(id) {
                    values[id]
                } else {
                    Trit::Unknown
                },
                GateInput::Gate(id) => if values.contains_key(id) {
                    values[id]
                } else {
                    Trit::Unknown
                },
            },
    ensures
        run_gates(system, seq![g], values) == values.insert(
            g.output_id,
            gate_output(system, g.gate, read),
        ),
{
    assert(seq![g].drop_last() =~= Seq::<GateModel>::empty());
    assert(seq![g].last() == g);
    assert(run_gates(system, Seq::<GateModel>::empty(), values) == values);
    assert(run_gates(system, seq![g], values) == run_gate(system, values, g));
    assert forall|j: int| 0 <= j < read.len() implies wire_values(values, g.inputs)[j] == read[j] by {
        assert(read[j] == match g.inputs[j] {
            GateInput::Primary(id) => if values.contains_key(id) {
                values[id]
            } else {
                Trit::Unknown
            },
            GateInput::Gate(id) => if values.contains_key(id) {
                values[id]
            } else {
                Trit::Unknown
            },
        });
    }
    assert(wire_values(values, g.inputs) =~= read);
}

/// A circuit of one gate reading primary inputs `0..n` in order evaluates,
/// under any logic system, to the primary inputs plus that gate's output
/// under that system on its output wire.
pub proof fn lemma_one_gate_on_primaries(system: LogicSystem, g: GateModel, inputs: Seq<Trit>)
    requires
        inputs.len() <= usize::MAX,
        g.inputs.len() == inputs.len(),
        forall|j: int| 0 <= j < inputs.len() ==> #[trigger] g.inputs[j] == GateInput::Primary(j as usize),
    ensures
        run_gates(system, seq![g], initial_values(inputs)) == initial_values(inputs).insert(
            g.output_id,
            gate_output(system, g.gate, inputs),
        ),
{
    lemma_run_one_gate(system, g, initial_values(inputs), inputs);
}

impl TernaryCircuit {
    pub fn new(primary_inputs: usize) -> (c: Self)
        ensures
            c.primary_inputs == primary_inputs,
            c.gates@.len() == 0,
    {
        Self { primary_inputs, gates: Vec::new() }
    }

    pub fn add_gate(&mut self, gate: TernaryGate, inputs: Vec<GateInput>, output_id: usize)
        ensures
            final(self).primary_inputs == old(self).primary_inputs,
            final(self).gates@ == old(self).gates@.push(
                (GateInstance { gate, inputs, output_id }),
            ),
    {
        self.gates.push(GateInstance { gate, inputs, output_id });
    }

    /// Evaluate the circuit with given inputs.
    pub fn evaluate(&self, inputs: &[Trit], system: LogicSystem) -> (values: HashMap<usize, Trit>)
        requires
            arities_ok(self@.gates),
        ensures
            values@ == run_gates(system, self@.gates, initial_values(inputs@)),
    {
        let mut values: HashMap<usize, Trit> = HashMap::new();
        let mut i: usize = 0;
        while i < inputs.len()
            invariant
                i <= inputs@.len(),
                values@ == initial_values(inputs@.take(i as int)),
            decreases inputs@.len() - i,
        {
            values.insert(i, inputs[i]);
            i += 1;
            assert(values@ =~= initial_values(inputs@.take(i as int)));
        }
        assert(inputs@.take(i as int) =~= inputs@);
        let ghost init = initial_values(inputs@);
        let ghost models = self@.gates;
        let mut g: usize = 0;
        assert(models.take(0) =~= Seq::<GateModel>::empty());
        while g < self.gates.len()
            invariant
                g <= self.gates@.len(),
                models == self@.gates,
                arities_ok(models),
                values@ == run_gates(system, models.take(g as int), init),
            decreases self.gates@.len() - g,
        {
            let gate_inst = &self.gates[g];
            assert(models[g as int] == gate_inst@);
            let mut gate_inputs: Vec<Trit> = Vec::new();
            let mut j: usize = 0;
            while j < gate_inst.inputs.len()
                invariant
                    j <= gate_inst.inputs@.len(),
                    gate_inputs@ =~= wire_values(values@, gate_inst.inputs@.take(j as int)),
                decreases gate_inst.inputs@.len() - j,
            {
                let v = match gate_inst.inputs[j] {
                    GateInput::Primary(id) => match values.get(&id) {
                        Some(t) => *t,
                        None => Trit::Unknown,
                    },
                    GateInput::Gate(id) => match values.get(&id) {
                        Some(t) => *t,
                        None => Trit::Unknown,
                    },
                };
                gate_inputs.push(v);
                j += 1;
            }
            assert(gate_inst.inputs@.take(j as int) =~= gate_inst.inputs@);
            let output = system.eval_gate(gate_inst.gate, gate_inputs.as_slice());
            values.insert(gate_inst.output_id, output);
            assert(models.take(g + 1).drop_last() =~= models.take(g as int));
            g += 1;
        }
        assert(models.take(g as int) =~= models);
        values
    }
}

} // verus!
