use ternary_circuit::{minimize_circuit, truth_table, GateInput, LogicSystem, TernaryCircuit, TernaryGate, Trit};

#[test]
fn test_trit_values() {
    assert_eq!(Trit::False.value(), -1);
    assert_eq!(Trit::Unknown.value(), 0);
    assert_eq!(Trit::True.value(), 1);
}

#[test]
fn test_trit_predicates() {
    assert!(Trit::True.is_true());
    assert!(Trit::False.is_false());
    assert!(Trit::Unknown.is_unknown());
}

#[test]
fn test_kleene_and() {
    let sys = LogicSystem::Kleene;
    assert_eq!(sys.eval_gate(TernaryGate::And, &[Trit::True, Trit::True]), Trit::True);
    assert_eq!(sys.eval_gate(TernaryGate::And, &[Trit::True, Trit::False]), Trit::False);
    assert_eq!(sys.eval_gate(TernaryGate::And, &[Trit::True, Trit::Unknown]), Trit::Unknown);
}

#[test]
fn test_kleene_or() {
    let sys = LogicSystem::Kleene;
    assert_eq!(sys.eval_gate(TernaryGate::Or, &[Trit::False, Trit::False]), Trit::False);
    assert_eq!(sys.eval_gate(TernaryGate::Or, &[Trit::True, Trit::False]), Trit::True);
    assert_eq!(sys.eval_gate(TernaryGate::Or, &[Trit::Unknown, Trit::False]), Trit::Unknown);
}

#[test]
fn test_not() {
    let sys = LogicSystem::Kleene;
    assert_eq!(sys.eval_gate(TernaryGate::Not, &[Trit::True]), Trit::False);
    assert_eq!(sys.eval_gate(TernaryGate::Not, &[Trit::False]), Trit::True);
    assert_eq!(sys.eval_gate(TernaryGate::Not, &[Trit::Unknown]), Trit::Unknown);
}

#[test]
fn test_nand() {
    let sys = LogicSystem::Kleene;
    assert_eq!(sys.eval_gate(TernaryGate::Nand, &[Trit::True, Trit::True]), Trit::False);
    assert_eq!(sys.eval_gate(TernaryGate::Nand, &[Trit::False, Trit::False]), Trit::True);
}

#[test]
fn test_nor() {
    let sys = LogicSystem::Kleene;
    assert_eq!(sys.eval_gate(TernaryGate::Nor, &[Trit::False, Trit::False]), Trit::True);
    assert_eq!(sys.eval_gate(TernaryGate::Nor, &[Trit::True, Trit::True]), Trit::False);
}

#[test]
fn test_xor() {
    let sys = LogicSystem::Kleene;
    assert_eq!(sys.eval_gate(TernaryGate::Xor, &[Trit::True, Trit::False]), Trit::True);
    assert_eq!(sys.eval_gate(TernaryGate::Xor, &[Trit::True, Trit::True]), Trit::False);
    assert_eq!(sys.eval_gate(TernaryGate::Xor, &[Trit::Unknown, Trit::True]), Trit::Unknown);
}

#[test]
fn test_kleene_implication() {
    let sys = LogicSystem::Kleene;
    assert_eq!(sys.eval_gate(TernaryGate::Imp, &[Trit::False, Trit::False]), Trit::True);
    assert_eq!(sys.eval_gate(TernaryGate::Imp, &[Trit::True, Trit::False]), Trit::False);
    assert_eq!(sys.eval_gate(TernaryGate::Imp, &[Trit::True, Trit::True]), Trit::True);
}

#[test]
fn test_lukasiewicz_implication() {
    let sys = LogicSystem::Lukasiewicz;
    assert_eq!(sys.eval_gate(TernaryGate::Imp, &[Trit::Unknown, Trit::Unknown]), Trit::True);
    assert_eq!(sys.eval_gate(TernaryGate::Imp, &[Trit::True, Trit::False]), Trit::False);
}

#[test]
fn test_truth_table_size() {
    let table = truth_table(TernaryGate::And, LogicSystem::Kleene, 2);
    assert_eq!(table.len(), 9); // 3^2
}

#[test]
fn test_truth_table_not() {
    let table = truth_table(TernaryGate::Not, LogicSystem::Kleene, 1);
    assert_eq!(table.len(), 3);
    assert_eq!(table[0].1, Trit::True); // NOT False = True
    assert_eq!(table[2].1, Trit::False); // NOT True = False
}

#[test]
fn test_circuit_simple() {
    let mut c = TernaryCircuit::new(2);
    c.add_gate(TernaryGate::And, vec![GateInput::Primary(0), GateInput::Primary(1)], 2);
    let result = c.evaluate(&[Trit::True, Trit::True], LogicSystem::Kleene);
    assert_eq!(result[&2], Trit::True);
}

#[test]
fn test_circuit_chained() {
    let mut c = TernaryCircuit::new(1);
    c.add_gate(TernaryGate::Not, vec![GateInput::Primary(0)], 1);
    c.add_gate(TernaryGate::Not, vec![GateInput::Gate(1)], 2);
    let result = c.evaluate(&[Trit::True], LogicSystem::Kleene);
    assert_eq!(result[&2], Trit::True); // double negation
}

#[test]
fn test_minimize_double_negation() {
    let mut c = TernaryCircuit::new(1);
    c.add_gate(TernaryGate::Not, vec![GateInput::Primary(0)], 1);
    c.add_gate(TernaryGate::Not, vec![GateInput::Gate(1)], 2);
    let min = minimize_circuit(&c);
    assert!(min.gates.is_empty()); // both NOTs removed
}

#[test]
fn test_minimize_preserves_useful() {
    let mut c = TernaryCircuit::new(2);
    c.add_gate(TernaryGate::And, vec![GateInput::Primary(0), GateInput::Primary(1)], 2);
    c.add_gate(TernaryGate::Not, vec![GateInput::Gate(2)], 3);
    let min = minimize_circuit(&c);
    assert_eq!(min.gates.len(), 2);
}

#[test]
fn test_trit_from_i32() {
    assert_eq!(Trit::from_i32(-1), Some(Trit::False));
    assert_eq!(Trit::from_i32(5), None);
}

#[test]
fn test_circuit_with_unknown() {
    let mut c = TernaryCircuit::new(2);
    c.add_gate(TernaryGate::And, vec![GateInput::Primary(0), GateInput::Primary(1)], 2);
    let result = c.evaluate(&[Trit::True, Trit::Unknown], LogicSystem::Kleene);
    assert_eq!(result[&2], Trit::Unknown);
}

#[test]
fn test_or_with_all_unknown() {
    let sys = LogicSystem::Kleene;
    assert_eq!(sys.eval_gate(TernaryGate::Or, &[Trit::Unknown, Trit::Unknown]), Trit::Unknown);
}

#[test]
fn test_and_identity() {
    let sys = LogicSystem::Kleene;
    assert_eq!(sys.eval_gate(TernaryGate::And, &[Trit::True]), Trit::True);
    assert_eq!(sys.eval_gate(TernaryGate::And, &[Trit::False]), Trit::False);
}

#[test]
fn test_circuit_or_gate() {
    let mut c = TernaryCircuit::new(2);
    c.add_gate(TernaryGate::Or, vec![GateInput::Primary(0), GateInput::Primary(1)], 2);
    let result = c.evaluate(&[Trit::False, Trit::True], LogicSystem::Kleene);
    assert_eq!(result[&2], Trit::True);
}
