use vstd::prelude::*;

verus! {

/// A ternary value: Negative (-1), Zero (0), or Positive (+1).
#[derive(Debug, Clone, Copy, PartialEq, Eq, Hash, Structural)]
pub enum Ternary {
    Negative,
    Zero,
    Positive,
}

impl Ternary {
    /// The integer that the value stands for.
    pub open spec fn spec_value(self) -> int {
        match self {
            Ternary::Negative => -1,
            Ternary::Zero => 0,
            Ternary::Positive => 1,
        }
    }

    /// The value with the given integer, if there is one.
    pub open spec fn spec_from_value(v: int) -> Option<Ternary> {
        if v == -1 {
            Some(Ternary::Negative)
        } else if v == 0 {
            Some(Ternary::Zero)
        } else if v == 1 {
            Some(Ternary::Positive)
        } else {
            None
        }
    }

    pub fn value(self) -> (v: i8)
        ensures
            v == self.spec_value(),
    {
        match self {
            Ternary::Negative => -1,
            Ternary::Zero => 0,
            Ternary::Positive => 1,
        }
    }

    pub fn from_value(v: i8) -> (t: Option<Self>)
        ensures
            t == Self::spec_from_value(v as int),
    {
        match v {
            -1 => Some(Ternary::Negative),
            0 => Some(Ternary::Zero),
            1 => Some(Ternary::Positive),
            _ => None,
        }
    }
}

/// Reading a ternary value back from its integer gives the same value,
/// and an integer that some value stands for is read back to that value.
pub proof fn lemma_value_round_trip(t: Ternary, v: int)
    ensures
        Ternary::spec_from_value(t.spec_value()) == Some(t),
        Ternary::spec_from_value(v) matches Some(u) ==> u.spec_value() == v,
        Ternary::spec_from_value(v) is None <==> !(-1 <= v <= 1),
{
}

/// The sum of the integer values of a sequence of ternary states.
pub open spec fn value_sum(s: Seq<Ternary>) -> int
    decreases s.len(),
{
    if s.len() == 0 {
        0
    } else {
        value_sum(s.drop_last()) + s.last().spec_value()
    }
}

/// The value sum of a sequence lies between minus and plus its length.
pub proof fn lemma_value_sum_bounds(s: Seq<Ternary>)
    ensures
        -(s.len() as int) <= value_sum(s) <= s.len(),
    decreases s.len(),
{
    if s.len() > 0 {
        lemma_value_sum_bounds(s.drop_last());
    }
}

/// The sum of the values of `s`, computed exactly.
pub fn state_sum(s: &Vec<Ternary>) -> (r: i64)
    requires
        s@.len() <= i64::MAX,
    ensures
        r == value_sum(s@),
{
    let mut r: i64 = 0;
    let mut i: usize = 0;
    while i < s.len()
        invariant
            i <= s@.len() <= i64::MAX,
            r == value_sum(s@.take(i as int)),
        decreases s@.len() - i,
    {
        proof {
            lemma_value_sum_bounds(s@.take(i as int));
            assert(s@.take(i + 1).drop_last() =~= s@.take(i as int));
        }
        let v: i8 = s[i].value();
        r = r + v as i64;
        i = i + 1;
    }
    proof {
        assert(s@.take(s@.len() as int) =~= s@);
    }
    r
}

} // verus!
