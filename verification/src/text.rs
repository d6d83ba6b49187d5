use vstd::prelude::*;

use crate::ternary::Ternary;

verus! {

/// The decimal digit for `d` (below ten).
pub open spec fn digit_char(d: nat) -> char {
    if d == 0 {
        '0'
    } else if d == 1 {
        '1'
    } else if d == 2 {
        '2'
    } else if d == 3 {
        '3'
    } else if d == 4 {
        '4'
    } else if d == 5 {
        '5'
    } else if d == 6 {
        '6'
    } else if d == 7 {
        '7'
    } else if d == 8 {
        '8'
    } else {
        '9'
    }
}

/// The decimal notation of a natural number, without leading zeros.
pub open spec fn decimal(n: nat) -> Seq<char>
    decreases n,
{
    if n < 10 {
        seq![digit_char(n)]
    } else {
        decimal(n / 10).push(digit_char(n % 10))
    }
}

/// The decimal notation of an integer, with a minus sign when it is negative.
pub open spec fn signed_decimal(i: int) -> Seq<char> {
    if i < 0 {
        seq!['-'] + decimal((-i) as nat)
    } else {
        decimal(i as nat)
    }
}

fn digit_str(d: u64) -> (s: &'static str)
    requires
        d < 10,
    ensures
        s@ == seq![digit_char(d as nat)],
{
    proof {
        reveal_strlit("0");
        reveal_strlit("1");
        reveal_strlit("2");
        reveal_strlit("3");
        reveal_strlit("4");
        reveal_strlit("5");
        reveal_strlit("6");
        reveal_strlit("7");
        reveal_strlit("8");
        reveal_strlit("9");
    }
    match d {
        0 => "0",
        1 => "1",
        2 => "2",
        3 => "3",
        4 => "4",
        5 => "5",
        6 => "6",
        7 => "7",
        8 => "8",
        _ => "9",
    }
}

/// Appends the decimal notation of `n`.
pub fn push_u64(s: &mut String, n: u64)
    ensures
        final(s)@ == old(s)@ + decimal(n as nat),
    decreases n,
{
    if n >= 10 {
        push_u64(s, n / 10);
    }
    s.append(digit_str(n % 10));
    proof {
        if n >= 10 {
            assert(old(s)@ + decimal(n as nat) =~= old(s)@ + decimal((n / 10) as nat) + seq![
                digit_char((n % 10) as nat),
            ]);
        }
    }
}

/// Appends the decimal notation of `n`.
pub fn push_usize(s: &mut String, n: usize)
    ensures
        final(s)@ == old(s)@ + decimal(n as nat),
{
    push_u64(s, n as u64);
}

/// Appends the decimal notation of `n`, with a minus sign when it is negative.
pub fn push_i64(s: &mut String, n: i64)
    ensures
        final(s)@ == old(s)@ + signed_decimal(n as int),
{
    if n < 0 {
        proof {
            reveal_strlit("-");
        }
        s.append("-");
        let m: i128 = 0i128 - n as i128;
        push_u64(s, m as u64);
        proof {
            assert(old(s)@ + signed_decimal(n as int) =~= old(s)@ + seq!['-'] + decimal(
                (-n) as nat,
            ));
        }
    } else {
        push_u64(s, n as u64);
    }
}

/// The name that `Debug` prints for a ternary value.
pub open spec fn ternary_name(t: Ternary) -> Seq<char> {
    match t {
        Ternary::Negative => "Negative"@,
        Ternary::Zero => "Zero"@,
        Ternary::Positive => "Positive"@,
    }
}

/// The names of the values of `s`, separated by a comma and a space.
pub open spec fn ternary_items(s: Seq<Ternary>) -> Seq<char>
    decreases s.len(),
{
    if s.len() == 0 {
        Seq::empty()
    } else if s.len() == 1 {
        ternary_name(s[0])
    } else {
        ternary_items(s.drop_last()) + ", "@ + ternary_name(s.last())
    }
}

/// The `Debug` notation of a list of ternary values, such as `[Zero, Positive]`.
pub open spec fn ternary_list(s: Seq<Ternary>) -> Seq<char> {
    "["@ + ternary_items(s) + "]"@
}

fn ternary_name_str(t: Ternary) -> (s: &'static str)
    ensures
        s@ == ternary_name(t),
{
    match t {
        Ternary::Negative => "Negative",
        Ternary::Zero => "Zero",
        Ternary::Positive => "Positive",
    }
}

/// Appends the `Debug` notation of a list of ternary values.
pub fn push_ternary_list(s: &mut String, v: &Vec<Ternary>)
    ensures
        final(s)@ == old(s)@ + ternary_list(v@),
{
    s.append("[");
    let mut i: usize = 0;
    while i < v.len()
        invariant
            i <= v@.len(),
            s@ == old(s)@ + "["@ + ternary_items(v@.take(i as int)),
        decreases v@.len() - i,
    {
        let ghost before = s@;
        if i > 0 {
            s.append(", ");
        }
        s.append(ternary_name_str(v[i]));
        i = i + 1;
        proof {
            let t = v@.take(i as int);
            assert(t.drop_last() =~= v@.take(i - 1));
            if i == 1 {
                assert(ternary_items(v@.take(0)) =~= Seq::empty());
                assert(s@ =~= old(s)@ + "["@ + ternary_items(t));
            } else {
                assert(s@ =~= old(s)@ + "["@ + ternary_items(t));
            }
        }
    }
    s.append("]");
    proof {
        assert(v@.take(v@.len() as int) =~= v@);
        assert(s@ =~= old(s)@ + ternary_list(v@));
    }
}

} // verus!
