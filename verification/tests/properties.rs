use ternary_circuit::{minimize_circuit, truth_table, GateInput, LogicSystem, TernaryCircuit, TernaryGate, Trit};

const ALL: [Trit; 3] = [Trit::False, Trit::Unknown, Trit::True];
const GATES: [TernaryGate; 7] = [
    TernaryGate::And,
    TernaryGate::Or,
    TernaryGate::Not,
    TernaryGate::Xor,
    TernaryGate::Nand,
    TernaryGate::Nor,
    TernaryGate::Imp,
];

fn arity_for(gate: TernaryGate) -> usize {
    match gate {
        TernaryGate::Not => 1,
        TernaryGate::Imp => 2,
        _ => 3,
    }
}

#[test]
fn value_round_trips_through_from_i32() {
    for t in ALL {
        assert_eq!(Trit::from_i32(t.value()), Some(t));
    }
    assert_eq!(Trit::from_i32(0), Some(Trit::Unknown));
    assert_eq!(Trit::from_i32(1), Some(Trit::True));
    assert_eq!(Trit::from_i32(-2), None);
    assert_eq!(Trit::from_i32(2), None);
    assert_eq!(Trit::from_i32(i32::MIN), None);
}

#[test]
fn exactly_one_predicate_holds() {
    for t in ALL {
        let n = t.is_true() as i32 + t.is_false() as i32 + t.is_unknown() as i32;
        assert_eq!(n, 1);
    }
    assert!(!Trit::True.is_false());
    assert!(!Trit::Unknown.is_true());
}

#[test]
fn and_is_minimum_or_is_maximum() {
    let sys = LogicSystem::Kleene;
    for a in ALL {
        for b in ALL {
            for c in ALL {
                let and = sys.eval_gate(TernaryGate::And, &[a, b, c]);
                let or = sys.eval_gate(TernaryGate::Or, &[a, b, c]);
                let lo = a.value().min(b.value()).min(c.value());
                let hi = a.value().max(b.value()).max(c.value());
                assert_eq!(and.value(), lo);
                assert_eq!(or.value(), hi);
            }
        }
    }
}

#[test]
fn empty_inputs() {
    let sys = LogicSystem::Kleene;
    assert_eq!(sys.eval_gate(TernaryGate::And, &[]), Trit::True);
    assert_eq!(sys.eval_gate(TernaryGate::Or, &[]), Trit::False);
    assert_eq!(sys.eval_gate(TernaryGate::Xor, &[]), Trit::False);
    assert_eq!(sys.eval_gate(TernaryGate::Nand, &[]), Trit::False);
    assert_eq!(sys.eval_gate(TernaryGate::Nor, &[]), Trit::True);
}

#[test]
fn double_negation_in_both_systems() {
    for sys in [LogicSystem::Kleene, LogicSystem::Lukasiewicz] {
        for x in ALL {
            let once = sys.eval_gate(TernaryGate::Not, &[x]);
            assert_eq!(sys.eval_gate(TernaryGate::Not, &[once]), x);
        }
    }
}

#[test]
fn nand_and_nor_negate_and_and_or() {
    let sys = LogicSystem::Lukasiewicz;
    for a in ALL {
        for b in ALL {
            let and = sys.eval_gate(TernaryGate::And, &[a, b]);
            let or = sys.eval_gate(TernaryGate::Or, &[a, b]);
            assert_eq!(sys.eval_gate(TernaryGate::Nand, &[a, b]), sys.eval_gate(TernaryGate::Not, &[and]));
            assert_eq!(sys.eval_gate(TernaryGate::Nor, &[a, b]), sys.eval_gate(TernaryGate::Not, &[or]));
        }
    }
}

#[test]
fn systems_agree_except_implication() {
    for gate in GATES {
        if gate == TernaryGate::Imp {
            continue;
        }
        let n = arity_for(gate);
        let table_k = truth_table(gate, LogicSystem::Kleene, n);
        let table_l = truth_table(gate, LogicSystem::Lukasiewicz, n);
        assert_eq!(table_k, table_l);
    }
}

#[test]
fn implication_tables() {
    let k = LogicSystem::Kleene;
    let l = LogicSystem::Lukasiewicz;
    let (f, u, t) = (Trit::False, Trit::Unknown, Trit::True);
    let rows = [
        (f, f, t, t),
        (f, t, t, t),
        (t, f, f, f),
        (t, t, t, t),
        (u, u, u, t),
        (t, u, u, u),
        (u, f, u, u),
        (f, u, t, t),
        (u, t, t, t),
    ];
    for (a, b, kleene, luk) in rows {
        assert_eq!(k.eval_gate(TernaryGate::Imp, &[a, b]), kleene);
        assert_eq!(l.eval_gate(TernaryGate::Imp, &[a, b]), luk);
    }
}

#[test]
fn kleene_implication_is_not_or() {
    let k = LogicSystem::Kleene;
    for a in ALL {
        for b in ALL {
            let not_a = k.eval_gate(TernaryGate::Not, &[a]);
            assert_eq!(k.eval_gate(TernaryGate::Imp, &[a, b]), k.eval_gate(TernaryGate::Or, &[not_a, b]));
        }
    }
}

#[test]
fn lukasiewicz_implication_true_when_antecedent_le_consequent() {
    let l = LogicSystem::Lukasiewicz;
    for a in ALL {
        for b in ALL {
            let r = l.eval_gate(TernaryGate::Imp, &[a, b]);
            if a.value() <= b.value() {
                assert_eq!(r, Trit::True);
            } else {
                let not_a = l.eval_gate(TernaryGate::Not, &[a]);
                assert_eq!(r, l.eval_gate(TernaryGate::Or, &[not_a, b]));
            }
        }
    }
}

#[test]
fn xor_two_inputs_and_unknown_absorbs() {
    let sys = LogicSystem::Kleene;
    for a in ALL {
        for b in ALL {
            let r = sys.eval_gate(TernaryGate::Xor, &[a, b]);
            let expected = if a == Trit::Unknown || b == Trit::Unknown {
                Trit::Unknown
            } else if a != b {
                Trit::True
            } else {
                Trit::False
            };
            assert_eq!(r, expected);
        }
    }
    assert_eq!(sys.eval_gate(TernaryGate::Xor, &[Trit::True, Trit::True, Trit::Unknown]), Trit::Unknown);
    assert_eq!(sys.eval_gate(TernaryGate::Xor, &[Trit::Unknown, Trit::True, Trit::False]), Trit::Unknown);
    assert_eq!(sys.eval_gate(TernaryGate::Xor, &[Trit::True, Trit::True, Trit::True]), Trit::True);
}

#[test]
fn kleene_unknown_in_unknown_out() {
    for gate in GATES {
        let inputs = vec![Trit::Unknown; arity_for(gate)];
        assert_eq!(LogicSystem::Kleene.eval_gate(gate, &inputs), Trit::Unknown);
    }
    // Łukasiewicz differs: U -> U is True.
    assert_eq!(
        LogicSystem::Lukasiewicz.eval_gate(TernaryGate::Imp, &[Trit::Unknown, Trit::Unknown]),
        Trit::True
    );
}

#[test]
fn truth_table_rows_are_base_three_digits() {
    let table = truth_table(TernaryGate::Imp, LogicSystem::Lukasiewicz, 2);
    assert_eq!(table.len(), 9);
    for (i, (row, out)) in table.iter().enumerate() {
        assert_eq!(row.len(), 2);
        assert_eq!(row[0], ALL[i % 3]);
        assert_eq!(row[1], ALL[(i / 3) % 3]);
        assert_eq!(*out, LogicSystem::Lukasiewicz.eval_gate(TernaryGate::Imp, row));
    }
    // row 4 is (Unknown, Unknown)
    assert_eq!(table[4], (vec![Trit::Unknown, Trit::Unknown], Trit::True));
}

#[test]
fn truth_table_covers_every_combination_once() {
    let table = truth_table(TernaryGate::Xor, LogicSystem::Kleene, 3);
    assert_eq!(table.len(), 27);
    for a in ALL {
        for b in ALL {
            for c in ALL {
                let n = table.iter().filter(|(row, _)| *row == vec![a, b, c]).count();
                assert_eq!(n, 1);
            }
        }
    }
}

#[test]
fn truth_table_of_arity_zero() {
    let table = truth_table(TernaryGate::And, LogicSystem::Kleene, 0);
    assert_eq!(table, vec![(vec![], Trit::True)]);
}

#[test]
fn evaluate_reads_unknown_for_missing_wires() {
    let mut c = TernaryCircuit::new(1);
    c.add_gate(TernaryGate::Or, vec![GateInput::Primary(0), GateInput::Gate(7)], 1);
    let result = c.evaluate(&[Trit::False], LogicSystem::Kleene);
    assert_eq!(result[&1], Trit::Unknown);
    assert_eq!(result.len(), 2);
    assert_eq!(result[&0], Trit::False);
}

#[test]
fn evaluate_later_gate_overwrites_wire() {
    let mut c = TernaryCircuit::new(1);
    c.add_gate(TernaryGate::Not, vec![GateInput::Primary(0)], 0);
    let result = c.evaluate(&[Trit::True], LogicSystem::Kleene);
    assert_eq!(result[&0], Trit::False);
    assert_eq!(result.len(), 1);
}

#[test]
fn evaluate_documented_example_follows_truth_tables() {
    // (A AND B) OR (NOT A) with A = True, B = False: (T AND F) OR (NOT T) = F OR F = F.
    let mut circuit = TernaryCircuit::new(2);
    circuit.add_gate(TernaryGate::And, vec![GateInput::Primary(0), GateInput::Primary(1)], 2);
    circuit.add_gate(TernaryGate::Not, vec![GateInput::Primary(0)], 3);
    circuit.add_gate(TernaryGate::Or, vec![GateInput::Gate(2), GateInput::Gate(3)], 4);
    let result = circuit.evaluate(&[Trit::True, Trit::False], LogicSystem::Kleene);
    assert_eq!(result[&2], Trit::False);
    assert_eq!(result[&3], Trit::False);
    assert_eq!(result[&4], Trit::False);
    let result = circuit.evaluate(&[Trit::Unknown, Trit::False], LogicSystem::Kleene);
    assert_eq!(result[&4], Trit::Unknown);
}

#[test]
fn minimize_rewires_consumer_to_primary() {
    let mut c = TernaryCircuit::new(2);
    c.add_gate(TernaryGate::Not, vec![GateInput::Primary(1)], 2);
    c.add_gate(TernaryGate::Not, vec![GateInput::Gate(2)], 3);
    c.add_gate(TernaryGate::And, vec![GateInput::Primary(0), GateInput::Gate(3)], 4);
    let min = minimize_circuit(&c);
    assert_eq!(min.primary_inputs, 2);
    assert_eq!(min.gates.len(), 1);
    assert_eq!(min.gates[0].gate, TernaryGate::And);
    assert_eq!(min.gates[0].output_id, 4);
    assert_eq!(min.gates[0].inputs, vec![GateInput::Primary(0), GateInput::Primary(1)]);
    for sys in [LogicSystem::Kleene, LogicSystem::Lukasiewicz] {
        for a in ALL {
            for b in ALL {
                let before = c.evaluate(&[a, b], sys);
                let after = min.evaluate(&[a, b], sys);
                assert_eq!(after[&4], before[&4]);
                assert_eq!(after.len(), before.len() - 2);
                assert!(!after.contains_key(&2) && !after.contains_key(&3));
            }
        }
    }
}

#[test]
fn minimize_leaves_triple_negation_as_single_not() {
    let mut c = TernaryCircuit::new(1);
    c.add_gate(TernaryGate::Not, vec![GateInput::Primary(0)], 1);
    c.add_gate(TernaryGate::Not, vec![GateInput::Gate(1)], 2);
    c.add_gate(TernaryGate::Not, vec![GateInput::Gate(2)], 3);
    let min = minimize_circuit(&c);
    assert_eq!(min.gates.len(), 1);
    assert_eq!(min.gates[0].gate, TernaryGate::Not);
    assert_eq!(min.gates[0].inputs, vec![GateInput::Primary(0)]);
    assert_eq!(min.gates[0].output_id, 3);
    for x in ALL {
        let before = c.evaluate(&[x], LogicSystem::Kleene);
        let after = min.evaluate(&[x], LogicSystem::Kleene);
        assert_eq!(after[&3], before[&3]);
    }
}

#[test]
fn minimize_keeps_not_of_not_of_gate() {
    let mut c = TernaryCircuit::new(2);
    c.add_gate(TernaryGate::Or, vec![GateInput::Primary(0), GateInput::Primary(1)], 2);
    c.add_gate(TernaryGate::Not, vec![GateInput::Gate(2)], 3);
    c.add_gate(TernaryGate::Not, vec![GateInput::Gate(3)], 4);
    let min = minimize_circuit(&c);
    assert_eq!(min.gates.len(), 3);
    assert_eq!(min.gates[2].inputs, vec![GateInput::Gate(3)]);
}

#[test]
fn minimize_empty_circuit() {
    let c = TernaryCircuit::new(3);
    let min = minimize_circuit(&c);
    assert_eq!(min.primary_inputs, 3);
    assert!(min.gates.is_empty());
}

#[test]
fn kleene_evaluation_is_monotone() {
    let mut c = TernaryCircuit::new(3);
    c.add_gate(TernaryGate::And, vec![GateInput::Primary(0), GateInput::Primary(1)], 3);
    c.add_gate(TernaryGate::Xor, vec![GateInput::Gate(3), GateInput::Primary(2)], 4);
    c.add_gate(TernaryGate::Imp, vec![GateInput::Gate(4), GateInput::Primary(0)], 5);
    c.add_gate(TernaryGate::Nor, vec![GateInput::Gate(5), GateInput::Gate(3)], 6);
    for a in ALL {
        for b in ALL {
            for d in ALL {
                let partial = [a, b, d];
                let r = c.evaluate(&partial, LogicSystem::Kleene);
                for a2 in ALL {
                    for b2 in ALL {
                        for d2 in ALL {
                            let full = [a2, b2, d2];
                            if (0..3).any(|i| partial[i] != Trit::Unknown && full[i] != partial[i]) {
                                continue;
                            }
                            let r2 = c.evaluate(&full, LogicSystem::Kleene);
                            assert_eq!(r.len(), r2.len());
                            for (k, v) in r.iter() {
                                if *v != Trit::Unknown {
                                    assert_eq!(r2[k], *v);
                                }
                            }
                        }
                    }
                }
            }
        }
    }
    // Łukasiewicz implication is not monotone: U -> U is True, T -> F is False.
    let l = LogicSystem::Lukasiewicz;
    assert_eq!(l.eval_gate(TernaryGate::Imp, &[Trit::Unknown, Trit::Unknown]), Trit::True);
    assert_eq!(l.eval_gate(TernaryGate::Imp, &[Trit::True, Trit::False]), Trit::False);
}

#[test]
fn minimize_keeps_inner_not_that_is_still_read() {
    let mut c = TernaryCircuit::new(1);
    c.add_gate(TernaryGate::Not, vec![GateInput::Primary(0)], 1);
    c.add_gate(TernaryGate::Not, vec![GateInput::Gate(1)], 2);
    c.add_gate(TernaryGate::And, vec![GateInput::Gate(1), GateInput::Gate(2)], 3);
    let min = minimize_circuit(&c);
    assert_eq!(min.gates.len(), 2);
    assert_eq!(min.gates[0].gate, TernaryGate::Not);
    assert_eq!(min.gates[0].inputs, vec![GateInput::Primary(0)]);
    assert_eq!(min.gates[0].output_id, 1);
    assert_eq!(min.gates[1].gate, TernaryGate::And);
    assert_eq!(min.gates[1].inputs, vec![GateInput::Gate(1), GateInput::Primary(0)]);
    assert_eq!(min.gates[1].output_id, 3);
    for sys in [LogicSystem::Kleene, LogicSystem::Lukasiewicz] {
        for x in ALL {
            let before = c.evaluate(&[x], sys);
            let after = min.evaluate(&[x], sys);
            assert_eq!(after[&1], before[&1]);
            assert_eq!(after[&3], before[&3]);
            assert!(!after.contains_key(&2));
        }
    }
    let before = c.evaluate(&[Trit::True], LogicSystem::Kleene);
    let after = min.evaluate(&[Trit::True], LogicSystem::Kleene);
    assert_eq!(before[&3], Trit::False);
    assert_eq!(after[&3], Trit::False);
}

#[test]
fn minimize_removes_inner_not_read_only_by_outer_nots() {
    let mut c = TernaryCircuit::new(1);
    c.add_gate(TernaryGate::Not, vec![GateInput::Primary(0)], 1);
    c.add_gate(TernaryGate::Not, vec![GateInput::Gate(1)], 2);
    c.add_gate(TernaryGate::Not, vec![GateInput::Gate(1)], 3);
    c.add_gate(TernaryGate::Or, vec![GateInput::Gate(2), GateInput::Gate(3)], 4);
    let min = minimize_circuit(&c);
    assert_eq!(min.gates.len(), 1);
    assert_eq!(min.gates[0].inputs, vec![GateInput::Primary(0), GateInput::Primary(0)]);
    for x in ALL {
        assert_eq!(min.evaluate(&[x], LogicSystem::Kleene)[&4], c.evaluate(&[x], LogicSystem::Kleene)[&4]);
    }
}
