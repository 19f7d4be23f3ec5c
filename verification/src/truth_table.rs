use vstd::prelude::*;
use vstd::arithmetic::div_mod::{
    lemma_div_denominator,
    lemma_fundamental_div_mod,
    lemma_fundamental_div_mod_converse,
};

use crate::logic::{gate_output, LogicSystem, TernaryGate};
use crate::trit::Trit;

verus! {

/// Three to the power `n`.
pub open spec fn pow3(n: nat) -> nat
    decreases n,
{
    if n == 0 {
        1
    } else {
        3 * pow3((n - 1) as nat)
    }
}

/// The trit that a base-3 digit stands for: 0 False, 1 Unknown, 2 True.
pub open spec fn trit_of_digit(d: int) -> Trit {
    if d == 0 {
        Trit::False
    } else if d == 1 {
        Trit::Unknown
    } else {
        Trit::True
    }
}

/// The base-3 digit of a trit: False 0, Unknown 1, True 2.
pub open spec fn digit_of_trit(t: Trit) -> int {
    match t {
        Trit::False => 0,
        Trit::Unknown => 1,
        Trit::True => 2,
    }
}

/// Row `i` of a truth table of the given arity: input `j` is the `j`-th
/// base-3 digit of `i`, least significant first.
pub open spec fn input_row(i: int, arity: nat) -> Seq<Trit> {
    Seq::new(arity, |j: int| trit_of_digit((i / (pow3(j as nat) as int)) % 3))
}

/// The number whose base-3 digits, least significant first, are `row`.
pub open spec fn row_index(row: Seq<Trit>) -> int
    decreases row.len(),
{
    if row.len() == 0 {
        0
    } else {
        digit_of_trit(row[0]) + 3 * row_index(row.drop_first())
    }
}

proof fn lemma_pow3_monotone(a: nat, b: nat)
    requires
        a <= b,
    ensures
        1 <= pow3(a) <= pow3(b),
    decreases b,
{
    if a < b {
        lemma_pow3_monotone(a, (b - 1) as nat);
    } else if a > 0 {
        lemma_pow3_monotone((a - 1) as nat, (a - 1) as nat);
    }
}

/// Dropping the first input of row `i` gives row `i / 3` of one arity less.
proof fn lemma_row_shift(i: int, n: nat)
    requires
        0 <= i,
        n > 0,
    ensures
        input_row(i, n).drop_first() =~= input_row(i / 3, (n - 1) as nat),
        input_row(i, n)[0] == trit_of_digit(i % 3),
{
    let r = input_row(i, n);
    let s = input_row(i / 3, (n - 1) as nat);
    assert(pow3(0) == 1);
    assert(i / 1 == i);
    assert forall|j: int| 0 <= j < s.len() implies r.drop_first()[j] == s[j] by {
        lemma_pow3_monotone(0, j as nat);
        lemma_div_denominator(i, 3, pow3(j as nat) as int);
        assert(pow3((j + 1) as nat) == 3 * pow3(j as nat));
    }
}

/// Reading row `i` back as a base-3 number gives `i`.
proof fn lemma_index_of_row(i: int, n: nat)
    requires
        0 <= i < pow3(n),
    ensures
        row_index(input_row(i, n)) == i,
    decreases n,
{
    if n == 0 {
        assert(input_row(i, n) =~= Seq::<Trit>::empty());
    } else {
        lemma_fundamental_div_mod(i, 3);
        lemma_row_shift(i, n);
        lemma_index_of_row(i / 3, (n - 1) as nat);
    }
}

/// Every row of trits is the row of its base-3 number, which is below
/// `3^len`.
proof fn lemma_row_of_index(row: Seq<Trit>)
    ensures
        0 <= row_index(row) < pow3(row.len()),
        input_row(row_index(row), row.len()) =~= row,
    decreases row.len(),
{
    let n = row.len();
    if n > 0 {
        let rest = row.drop_first();
        lemma_row_of_index(rest);
        let idx = row_index(row);
        let d = digit_of_trit(row[0]);
        lemma_fundamental_div_mod_converse(idx, 3, row_index(rest), d);
        lemma_row_shift(idx, n);
        let r = input_row(idx, n);
        assert forall|j: int| 0 <= j < n implies r[j] == row[j] by {
            if j > 0 {
                assert(r[j] == r.drop_first()[j - 1]);
                assert(row[j] == rest[j - 1]);
            }
        }
    }
}

/// Rows are numbered in base 3, least significant input first: the first
/// input of row `i` is False, Unknown or True as `i % 3` is 0, 1 or 2, and
/// the remaining inputs form row `i / 3` of one arity less.
pub proof fn lemma_truth_table_row_order(i: int, n: nat)
    requires
        0 <= i,
        n > 0,
    ensures
        input_row(i, n)[0] == (if i % 3 == 0 {
            Trit::False
        } else if i % 3 == 1 {
            Trit::Unknown
        } else {
            Trit::True
        }),
        input_row(i, n).drop_first() == input_row(i / 3, (n - 1) as nat),
{
    lemma_row_shift(i, n);
}

/// The rows of a truth table are pairwise different.
pub proof fn lemma_truth_table_rows_distinct(arity: nat, i: int, j: int)
    requires
        0 <= i < j < pow3(arity),
    ensures
        input_row(i, arity) != input_row(j, arity),
{
    lemma_index_of_row(i, arity);
    lemma_index_of_row(j, arity);
}

/// Every combination of inputs is a row of the truth table of its arity.
pub proof fn lemma_truth_table_rows_complete(row: Seq<Trit>)
    ensures
        exists|i: int| 0 <= i < pow3(row.len()) && input_row(i, row.len()) == row,
{
    lemma_row_of_index(row);
    let i = row_index(row);
    assert(input_row(i, row.len()) == row);
}

/// Generate a truth table for a gate.
pub fn truth_table(gate: TernaryGate, system: LogicSystem, arity: usize) -> (table: Vec<(Vec<Trit>, Trit)>)
    requires
        gate.accepts_arity(arity as int),
        pow3(arity as nat) <= usize::MAX,
    ensures
        table@.len() == pow3(arity as nat),
        forall|i: int|
            0 <= i < table@.len() ==> {
                &&& (#[trigger] table@[i]).0@ == input_row(i, arity as nat)
                &&& table@[i].1 == gate_output(system, gate, table@[i].0@)
            },
{
    let values = [Trit::False, Trit::Unknown, Trit::True];
    let mut total: usize = 1;
    let mut k: usize = 0;
    while k < arity
        invariant
            k <= arity,
            total == pow3(k as nat),
            pow3(arity as nat) <= usize::MAX,
        decreases arity - k,
    {
        proof {
            lemma_pow3_monotone((k + 1) as nat, arity as nat);
        }
        total = total * 3;
        k += 1;
    }
    let mut table: Vec<(Vec<Trit>, Trit)> = Vec::new();
    let mut i: usize = 0;
    while i < total
        invariant
            total == pow3(arity as nat),
            gate.accepts_arity(arity as int),
            values@ == seq![Trit::False, Trit::Unknown, Trit::True],
            i <= total,
            table@.len() == i,
            forall|r: int|
                0 <= r < i ==> {
                    &&& (#[trigger] table@[r]).0@ == input_row(r, arity as nat)
                    &&& table@[r].1 == gate_output(system, gate, table@[r].0@)
                },
        decreases total - i,
    {
        let mut inputs: Vec<Trit> = Vec::new();
        let mut idx: usize = i;
        let mut j: usize = 0;
        assert(pow3(0) == 1);
        while j < arity
            invariant
                j <= arity,
                values@ == seq![Trit::False, Trit::Unknown, Trit::True],
                idx == (i as int) / (pow3(j as nat) as int),
                inputs@ =~= input_row(i as int, j as nat),
            decreases arity - j,
        {
            proof {
                lemma_pow3_monotone(0, j as nat);
                lemma_div_denominator(i as int, pow3(j as nat) as int, 3);
                assert(pow3((j + 1) as nat) == pow3(j as nat) * 3);
            }
            let d = idx % 3;
            inputs.push(values[d]);
            idx = idx / 3;
            j += 1;
        }
        let output = system.eval_gate(gate, inputs.as_slice());
        table.push((inputs, output));
        i += 1;
    }
    table
}

} // verus!
