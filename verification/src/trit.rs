use vstd::prelude::*;

verus! {

/// Ternary logic value: False (-1), Unknown (0), True (+1).
#[derive(Debug, Clone, Copy, PartialEq, Eq, Hash, Structural)]
pub enum Trit {
    False,
    Unknown,
    True,
}

impl Trit {
    /// The integer this value stands for: -1, 0 or +1.
    pub open spec fn to_int(self) -> int {
        match self {
            Trit::False => -1,
            Trit::Unknown => 0,
            Trit::True => 1,
        }
    }

    /// The value that an integer stands for, if it is -1, 0 or +1.
    pub open spec fn from_int(v: int) -> Option<Trit> {
        if v == -1 {
            Some(Trit::False)
        } else if v == 0 {
            Some(Trit::Unknown)
        } else if v == 1 {
            Some(Trit::True)
        } else {
            None
        }
    }

    pub fn value(&self) -> (v: i32)
        ensures
            v == self.to_int(),
    {
        match self {
            Trit::False => -1,
            Trit::Unknown => 0,
            Trit::True => 1,
        }
    }

    pub fn from_i32(v: i32) -> (t: Option<Self>)
        ensures
            t == Trit::from_int(v as int),
    {
        match v {
            -1 => Some(Trit::False),
            0 => Some(Trit::Unknown),
            1 => Some(Trit::True),
            _ => None,
        }
    }

    pub fn is_true(&self) -> (b: bool)
        ensures
            b == (*self == Trit::True),
    {
        *self == Trit::True
    }

    pub fn is_false(&self) -> (b: bool)
        ensures
            b == (*self == Trit::False),
    {
        *self == Trit::False
    }

    pub fn is_unknown(&self) -> (b: bool)
        ensures
            b == (*self == Trit::Unknown),
    {
        *self == Trit::Unknown
    }
}

/// `from_i32` undoes `value`: every trit is recovered from its integer.
pub proof fn lemma_value_round_trip(t: Trit)
    ensures
        Trit::from_int(t.to_int()) == Some(t),
{
}

/// `from_i32` accepts exactly -1, 0 and +1, and the trit it returns has
/// the given integer as its `value`.
pub proof fn lemma_from_int_exact(v: int)
    ensures
        Trit::from_int(v) is Some <==> -1 <= v <= 1,
        Trit::from_int(v) matches Some(t) ==> t.to_int() == v,
{
}

/// Exactly one of `is_true`, `is_false` and `is_unknown` holds of a trit.
pub proof fn lemma_exactly_one_predicate(t: Trit)
    ensures
        (t == Trit::True) as int + (t == Trit::False) as int + (t == Trit::Unknown) as int == 1,
{
}

} // verus!
