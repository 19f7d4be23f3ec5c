# ternary_circuit

Three-valued logic circuits with verified contracts.

- `trit` — the values False (-1), Unknown (0), True (+1).
- `logic` — gates (AND, OR, NOT, XOR, NAND, NOR, IMP) under Kleene and
  Łukasiewicz logic; `eval_gate` is proved to compute `gate_output`, and the
  algebraic facts of the two systems are proved as lemmas.
- `truth_table` — truth tables; row `i` holds the base-3 digits of `i`, and
  the rows are proved to cover every input combination exactly once.
- `circuit` — circuits and their evaluation, specified as running the gates
  in order over a table of wire values.
- `minimize` — double-negation elimination, specified exactly. The outer
  NOT of every NOT→NOT pair from a primary input is removed and its readers
  read that primary input; the inner NOT is removed only when no gate that
  stays reads its output. For single-assignment circuits `minimize_circuit`
  ensures that the minimized circuit gives every remaining wire the value
  the original gives it (`lemma_minimize_preserves_evaluation`), and
  `lemma_elimination_described` states which gates go without reference
  to the scan.
- Kleene evaluation is proved monotone (`lemma_kleene_evaluation_monotone`):
  making Unknown inputs definite never changes a decided wire.
