use vstd::prelude::*;

use crate::trit::Trit;

verus! {

/// Ternary gate types.
#[derive(Debug, Clone, Copy, PartialEq, Eq, Structural)]
pub enum TernaryGate {
    And,
    Or,
    Not,
    Xor,
    Nand,
    Nor,
    Imp,
}

/// Logic system for 3-valued logic.
#[derive(Debug, Clone, Copy, PartialEq, Eq, Structural)]
pub enum LogicSystem {
    Kleene,
    Lukasiewicz,
}

impl TernaryGate {
    /// Whether this kind of gate accepts `n` inputs: NOT takes exactly one,
    /// IMP exactly two, every other kind any number.
    pub open spec fn accepts_arity(self, n: int) -> bool {
        match self {
            TernaryGate::Not => n == 1,
            TernaryGate::Imp => n == 2,
            _ => true,
        }
    }
}

/// Negation: swaps True and False, keeps Unknown.
pub open spec fn neg(t: Trit) -> Trit {
    match t {
        Trit::True => Trit::False,
        Trit::False => Trit::True,
        Trit::Unknown => Trit::Unknown,
    }
}

/// The smaller of two trits in the order False < Unknown < True.
pub open spec fn trit_min(a: Trit, b: Trit) -> Trit {
    if a.to_int() <= b.to_int() {
        a
    } else {
        b
    }
}

/// The larger of two trits in the order False < Unknown < True.
pub open spec fn trit_max(a: Trit, b: Trit) -> Trit {
    if a.to_int() >= b.to_int() {
        a
    } else {
        b
    }
}

/// One step of XOR: Unknown on either side gives Unknown, otherwise
/// False for equal and True for different values.
pub open spec fn xor_step(acc: Trit, t: Trit) -> Trit {
    if acc == Trit::Unknown || t == Trit::Unknown {
        Trit::Unknown
    } else if acc == t {
        Trit::False
    } else {
        Trit::True
    }
}

/// AND over a sequence: minimum, folded from the left starting at True.
pub open spec fn and_all(s: Seq<Trit>) -> Trit
    decreases s.len(),
{
    if s.len() == 0 {
        Trit::True
    } else {
        trit_min(and_all(s.drop_last()), s.last())
    }
}

/// OR over a sequence: maximum, folded from the left starting at False.
pub open spec fn or_any(s: Seq<Trit>) -> Trit
    decreases s.len(),
{
    if s.len() == 0 {
        Trit::False
    } else {
        trit_max(or_any(s.drop_last()), s.last())
    }
}

/// XOR over a sequence, folded from the left starting at False.
pub open spec fn xor_all(s: Seq<Trit>) -> Trit
    decreases s.len(),
{
    if s.len() == 0 {
        Trit::False
    } else {
        xor_step(xor_all(s.drop_last()), s.last())
    }
}

/// Implication `a -> b`. Kleene: `NOT a OR b`. Łukasiewicz: True when
/// `a <= b`, otherwise `NOT a OR b`.
pub open spec fn implies(system: LogicSystem, a: Trit, b: Trit) -> Trit {
    match system {
        LogicSystem::Kleene => trit_max(neg(a), b),
        LogicSystem::Lukasiewicz => if a.to_int() <= b.to_int() {
            Trit::True
        } else {
            trit_max(neg(a), b)
        },
    }
}

/// What a gate outputs on the given inputs under a logic system.
pub open spec fn gate_output(system: LogicSystem, gate: TernaryGate, inputs: Seq<Trit>) -> Trit {
    match gate {
        TernaryGate::Not => neg(inputs[0]),
        TernaryGate::And => and_all(inputs),
        TernaryGate::Or => or_any(inputs),
        TernaryGate::Xor => xor_all(inputs),
        TernaryGate::Nand => neg(and_all(inputs)),
        TernaryGate::Nor => neg(or_any(inputs)),
        TernaryGate::Imp => implies(system, inputs[0], inputs[1]),
    }
}

fn negate(t: Trit) -> (r: Trit)
    ensures
        r == neg(t),
{
    match t {
        Trit::True => Trit::False,
        Trit::False => Trit::True,
        Trit::Unknown => Trit::Unknown,
    }
}

impl LogicSystem {
    /// Evaluate a gate under this logic system.
    pub fn eval_gate(&self, gate: TernaryGate, inputs: &[Trit]) -> (out: Trit)
        requires
            gate.accepts_arity(inputs@.len() as int),
        ensures
            out == gate_output(*self, gate, inputs@),
    {
        match gate {
            TernaryGate::Not => negate(inputs[0]),
            TernaryGate::And => self.fold_and(inputs),
            TernaryGate::Or => self.fold_or(inputs),
            TernaryGate::Xor => fold_xor(inputs),
            TernaryGate::Nand => negate(self.fold_and(inputs)),
            TernaryGate::Nor => negate(self.fold_or(inputs)),
            TernaryGate::Imp => {
                let a = inputs[0];
                let b = inputs[1];
                let not_a = negate(a);
                match self {
                    LogicSystem::Kleene => self.max(not_a, b),
                    LogicSystem::Lukasiewicz => {
                        match (a, b) {
                            (Trit::False, _) => Trit::True,
                            (_, Trit::True) => Trit::True,
                            (Trit::True, Trit::False) => Trit::False,
                            (Trit::Unknown, Trit::Unknown) => Trit::True,
                            (Trit::True, Trit::Unknown) => Trit::Unknown,
                            (Trit::Unknown, Trit::False) => Trit::Unknown,
                        }
                    },
                }
            },
        }
    }

    fn fold_and(&self, inputs: &[Trit]) -> (out: Trit)
        ensures
            out == and_all(inputs@),
    {
        let mut acc = Trit::True;
        let mut i: usize = 0;
        while i < inputs.len()
            invariant
                i <= inputs@.len(),
                acc == and_all(inputs@.take(i as int)),
            decreases inputs@.len() - i,
        {
            assert(inputs@.take(i + 1).drop_last() =~= inputs@.take(i as int));
            acc = self.min(acc, inputs[i]);
            i += 1;
        }
        assert(inputs@.take(i as int) =~= inputs@);
        acc
    }

    fn fold_or(&self, inputs: &[Trit]) -> (out: Trit)
        ensures
            out == or_any(inputs@),
    {
        let mut acc = Trit::False;
        let mut i: usize = 0;
        while i < inputs.len()
            invariant
                i <= inputs@.len(),
                acc == or_any(inputs@.take(i as int)),
            decreases inputs@.len() - i,
        {
            assert(inputs@.take(i + 1).drop_last() =~= inputs@.take(i as int));
            acc = self.max(acc, inputs[i]);
            i += 1;
        }
        assert(inputs@.take(i as int) =~= inputs@);
        acc
    }

    fn min(&self, a: Trit, b: Trit) -> (r: Trit)
        ensures
            r == trit_min(a, b),
    {
        if a.value() <= b.value() {
            a
        } else {
            b
        }
    }

    fn max(&self, a: Trit, b: Trit) -> (r: Trit)
        ensures
            r == trit_max(a, b),
    {
        if a.value() >= b.value() {
            a
        } else {
            b
        }
    }
}

fn fold_xor(inputs: &[Trit]) -> (out: Trit)
    ensures
        out == xor_all(inputs@),
{
    let mut acc = Trit::False;
    let mut i: usize = 0;
    while i < inputs.len()
        invariant
            i <= inputs@.len(),
            acc == xor_all(inputs@.take(i as int)),
        decreases inputs@.len() - i,
    {
        assert(inputs@.take(i + 1).drop_last() =~= inputs@.take(i as int));
        let t = inputs[i];
        acc = match (acc, t) {
            (Trit::Unknown, _) | (_, Trit::Unknown) => Trit::Unknown,
            _ => if acc == t {
                Trit::False
            } else {
                Trit::True
            },
        };
        i += 1;
    }
    assert(inputs@.take(i as int) =~= inputs@);
    acc
}


/// AND is the minimum of its inputs in the order False < Unknown < True:
/// True on no inputs, otherwise one of the inputs and no larger than any.
pub proof fn lemma_and_is_minimum(s: Seq<Trit>)
    ensures
        forall|i: int| 0 <= i < s.len() ==> and_all(s).to_int() <= #[trigger] s[i].to_int(),
        s.len() == 0 ==> and_all(s) == Trit::True,
        s.len() > 0 ==> s.contains(and_all(s)),
    decreases s.len(),
{
    if s.len() > 0 {
        let p = s.drop_last();
        lemma_and_is_minimum(p);
        assert forall|i: int| 0 <= i < s.len() implies and_all(s).to_int() <= #[trigger] s[i].to_int() by {
            if i < p.len() {
                assert(s[i] == p[i]);
            }
        }
        if p.len() > 0 {
            let j = choose|j: int| 0 <= j < p.len() && p[j] == and_all(p);
            assert(s[j] == p[j]);
        }
        assert(s[s.len() - 1] == s.last());
    }
}

/// OR is the maximum of its inputs in the order False < Unknown < True:
/// False on no inputs, otherwise one of the inputs and no smaller than any.
pub proof fn lemma_or_is_maximum(s: Seq<Trit>)
    ensures
        forall|i: int| 0 <= i < s.len() ==> or_any(s).to_int() >= #[trigger] s[i].to_int(),
        s.len() == 0 ==> or_any(s) == Trit::False,
        s.len() > 0 ==> s.contains(or_any(s)),
    decreases s.len(),
{
    if s.len() > 0 {
        let p = s.drop_last();
        lemma_or_is_maximum(p);
        assert forall|i: int| 0 <= i < s.len() implies or_any(s).to_int() >= #[trigger] s[i].to_int() by {
            if i < p.len() {
                assert(s[i] == p[i]);
            }
        }
        if p.len() > 0 {
            let j = choose|j: int| 0 <= j < p.len() && p[j] == or_any(p);
            assert(s[j] == p[j]);
        }
        assert(s[s.len() - 1] == s.last());
    }
}

/// Double negation: NOT (NOT x) is x, in both logic systems.
pub proof fn lemma_double_negation(system: LogicSystem, x: Trit)
    ensures
        gate_output(
            system,
            TernaryGate::Not,
            seq![gate_output(system, TernaryGate::Not, seq![x])],
        ) == x,
{
}

/// NAND is NOT of AND, and NOR is NOT of OR.
pub proof fn lemma_nand_nor_negate(system: LogicSystem, s: Seq<Trit>)
    ensures
        gate_output(system, TernaryGate::Nand, s) == gate_output(
            system,
            TernaryGate::Not,
            seq![gate_output(system, TernaryGate::And, s)],
        ),
        gate_output(system, TernaryGate::Nor, s) == gate_output(
            system,
            TernaryGate::Not,
            seq![gate_output(system, TernaryGate::Or, s)],
        ),
{
}

/// Łukasiewicz logic differs from Kleene logic only in implication: every
/// other gate gives the same output under both.
pub proof fn lemma_systems_agree_except_implication(gate: TernaryGate, s: Seq<Trit>)
    requires
        gate != TernaryGate::Imp,
    ensures
        gate_output(LogicSystem::Kleene, gate, s) == gate_output(LogicSystem::Lukasiewicz, gate, s),
{
}

/// Kleene implication is `NOT a OR b`.
pub proof fn lemma_kleene_implication_is_not_or(a: Trit, b: Trit)
    ensures
        gate_output(LogicSystem::Kleene, TernaryGate::Imp, seq![a, b]) == gate_output(
            LogicSystem::Kleene,
            TernaryGate::Or,
            seq![gate_output(LogicSystem::Kleene, TernaryGate::Not, seq![a]), b],
        ),
{
    let s = seq![neg(a), b];
    assert(s.drop_last() =~= seq![neg(a)]);
    assert(seq![neg(a)].drop_last() =~= Seq::<Trit>::empty());
    assert(or_any(Seq::<Trit>::empty()) == Trit::False);
    assert(or_any(seq![neg(a)]) == neg(a));
    assert(or_any(s) == trit_max(neg(a), b));
}

/// Two-input XOR: Unknown if either input is Unknown, otherwise True when
/// the inputs differ and False when they are equal.
pub proof fn lemma_xor_two_inputs(a: Trit, b: Trit)
    ensures
        xor_all(seq![a, b]) == (if a == Trit::Unknown || b == Trit::Unknown {
            Trit::Unknown
        } else if a != b {
            Trit::True
        } else {
            Trit::False
        }),
{
    assert(seq![a, b].drop_last() =~= seq![a]);
    assert(seq![a].drop_last() =~= Seq::<Trit>::empty());
    assert(xor_all(Seq::<Trit>::empty()) == Trit::False);
    assert(xor_all(seq![a]) == xor_step(Trit::False, a));
    assert(xor_all(seq![a, b]) == xor_step(xor_step(Trit::False, a), b));
}

/// XOR keeps uncertainty: if any input is Unknown, the output is Unknown.
pub proof fn lemma_xor_unknown_absorbs(s: Seq<Trit>)
    requires
        s.contains(Trit::Unknown),
    ensures
        xor_all(s) == Trit::Unknown,
    decreases s.len(),
{
    let p = s.drop_last();
    if s.last() != Trit::Unknown {
        let j = choose|j: int| 0 <= j < s.len() && s[j] == Trit::Unknown;
        assert(p[j] == s[j]);
        lemma_xor_unknown_absorbs(p);
    }
}

/// In Kleene logic unknown inputs give an unknown output: every gate fed
/// only Unknown (at least one input) outputs Unknown.
pub proof fn lemma_kleene_unknown_in_unknown_out(gate: TernaryGate, s: Seq<Trit>)
    requires
        s.len() > 0,
        gate.accepts_arity(s.len() as int),
        forall|i: int| 0 <= i < s.len() ==> s[i] == Trit::Unknown,
    ensures
        gate_output(LogicSystem::Kleene, gate, s) == Trit::Unknown,
{
    lemma_and_is_minimum(s);
    lemma_or_is_maximum(s);
    assert(s[0] == Trit::Unknown);
    lemma_xor_unknown_absorbs(s);
}

/// `b` is at least as decided as `a`: `a` is Unknown, or the two agree.
pub open spec fn refines(a: Trit, b: Trit) -> bool {
    a == Trit::Unknown || a == b
}

/// Pointwise `refines` on two sequences of the same length.
pub open spec fn seq_refines(s1: Seq<Trit>, s2: Seq<Trit>) -> bool {
    &&& s1.len() == s2.len()
    &&& forall|i: int| 0 <= i < s1.len() ==> refines(#[trigger] s1[i], s2[i])
}

proof fn lemma_folds_monotone(s1: Seq<Trit>, s2: Seq<Trit>)
    requires
        seq_refines(s1, s2),
    ensures
        refines(and_all(s1), and_all(s2)),
        refines(or_any(s1), or_any(s2)),
        refines(xor_all(s1), xor_all(s2)),
    decreases s1.len(),
{
    if s1.len() > 0 {
        let p1 = s1.drop_last();
        let p2 = s2.drop_last();
        assert forall|i: int| 0 <= i < p1.len() implies refines(#[trigger] p1[i], p2[i]) by {
            assert(s1[i] == p1[i] && s2[i] == p2[i]);
        }
        lemma_folds_monotone(p1, p2);
        assert(refines(s1[s1.len() - 1], s2[s2.len() - 1]));
    }
}

/// Kleene gates are monotone in knowledge: making Unknown inputs definite
/// never changes an output that was already decided.
pub proof fn lemma_kleene_gate_monotone(gate: TernaryGate, s1: Seq<Trit>, s2: Seq<Trit>)
    requires
        gate.accepts_arity(s1.len() as int),
        seq_refines(s1, s2),
    ensures
        refines(gate_output(LogicSystem::Kleene, gate, s1), gate_output(LogicSystem::Kleene, gate, s2)),
{
    lemma_folds_monotone(s1, s2);
    if gate == TernaryGate::Not || gate == TernaryGate::Imp {
        assert(refines(s1[0], s2[0]));
    }
    if gate == TernaryGate::Imp {
        assert(refines(s1[1], s2[1]));
    }
}

/// The number of True values in a sequence.
pub open spec fn count_true(s: Seq<Trit>) -> nat {
    s.filter(|t: Trit| t == Trit::True).len()
}

/// NOT flips the sign of its input's value, in both logic systems.
pub proof fn lemma_not_flips_sign(system: LogicSystem, x: Trit)
    ensures
        gate_output(system, TernaryGate::Not, seq![x]).to_int() == -x.to_int(),
{
}

/// The AND gate outputs the minimum of its inputs' values (True on no
/// inputs), and the OR gate their maximum (False on no inputs), in both
/// logic systems.
pub proof fn lemma_and_or_gates_are_min_max(system: LogicSystem, s: Seq<Trit>)
    ensures
        forall|i: int|
            0 <= i < s.len() ==> gate_output(system, TernaryGate::And, s).to_int() <= #[trigger] s[i].to_int()
                && gate_output(system, TernaryGate::Or, s).to_int() >= s[i].to_int(),
        s.len() == 0 ==> gate_output(system, TernaryGate::And, s) == Trit::True && gate_output(
            system,
            TernaryGate::Or,
            s,
        ) == Trit::False,
        s.len() > 0 ==> s.contains(gate_output(system, TernaryGate::And, s)) && s.contains(
            gate_output(system, TernaryGate::Or, s),
        ),
{
    lemma_and_is_minimum(s);
    lemma_or_is_maximum(s);
}

/// XOR over any number of inputs: Unknown when any input is Unknown,
/// otherwise True exactly when an odd number of inputs are True.
pub proof fn lemma_xor_gate_parity(system: LogicSystem, s: Seq<Trit>)
    ensures
        s.contains(Trit::Unknown) ==> gate_output(system, TernaryGate::Xor, s) == Trit::Unknown,
        !s.contains(Trit::Unknown) ==> gate_output(system, TernaryGate::Xor, s) == (if count_true(s) % 2
            == 1 {
            Trit::True
        } else {
            Trit::False
        }),
    decreases s.len(),
{
    if s.contains(Trit::Unknown) {
        lemma_xor_unknown_absorbs(s);
    } else if s.len() > 0 {
        let p = s.drop_last();
        assert(!p.contains(Trit::Unknown)) by {
            if p.contains(Trit::Unknown) {
                let j = choose|j: int| 0 <= j < p.len() && p[j] == Trit::Unknown;
                assert(s[j] == p[j]);
            }
        }
        assert(s.last() != Trit::Unknown) by {
            assert(s[s.len() - 1] == s.last());
        }
        lemma_xor_gate_parity(system, p);
        let pred = |t: Trit| t == Trit::True;
        reveal(Seq::filter);
        assert(count_true(s) == s.filter(pred).len());
        assert(count_true(p) == p.filter(pred).len());
        assert(s.filter(pred) == if pred(s.last()) {
            p.filter(pred).push(s.last())
        } else {
            p.filter(pred)
        });
    }
}

/// Implication by value: Kleene gives `max(-a, b)`, Łukasiewicz gives
/// `min(1, 1 - a + b)`.
pub proof fn lemma_implication_values(a: Trit, b: Trit)
    ensures
        gate_output(LogicSystem::Kleene, TernaryGate::Imp, seq![a, b]).to_int() == (if -a.to_int()
            >= b.to_int() {
            -a.to_int()
        } else {
            b.to_int()
        }),
        gate_output(LogicSystem::Lukasiewicz, TernaryGate::Imp, seq![a, b]).to_int() == (if 1 - a.to_int()
            + b.to_int() <= 1 {
            1 - a.to_int() + b.to_int()
        } else {
            1
        }),
{
}

} // verus!
