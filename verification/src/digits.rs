//! Decimal and hexadecimal rendering of unsigned integers.
use vstd::prelude::*;

verus! {

/// The character of digit `d` (0-15), lower-case for 10-15.
pub open spec fn digit_char(d: nat) -> char {
    if d < 10 {
        (48 + d) as char
    } else {
        (87 + d) as char
    }
}

/// The digits of `n` in base `base`, most significant first, with no leading zero.
pub open spec fn digits_of(n: nat, base: nat) -> Seq<char>
    recommends
        2 <= base <= 16,
    decreases n,
{
    if base < 2 || n < base {
        seq![digit_char(n)]
    } else {
        proof {
            assert(n / base < n) by (nonlinear_arith)
                requires
                    base >= 2,
                    n >= base,
            ;
        }
        digits_of(n / base, base) + seq![digit_char(n % base)]
    }
}

fn digit_str(d: u64) -> (r: &'static str)
    requires
        d < 16,
    ensures
        r@ == seq![digit_char(d as nat)],
{
    match d {
        0 => {
            proof { reveal_strlit("0"); }
            "0"
        },
        1 => {
            proof { reveal_strlit("1"); }
            "1"
        },
        2 => {
            proof { reveal_strlit("2"); }
            "2"
        },
        3 => {
            proof { reveal_strlit("3"); }
            "3"
        },
        4 => {
            proof { reveal_strlit("4"); }
            "4"
        },
        5 => {
            proof { reveal_strlit("5"); }
            "5"
        },
        6 => {
            proof { reveal_strlit("6"); }
            "6"
        },
        7 => {
            proof { reveal_strlit("7"); }
            "7"
        },
        8 => {
            proof { reveal_strlit("8"); }
            "8"
        },
        9 => {
            proof { reveal_strlit("9"); }
            "9"
        },
        10 => {
            proof { reveal_strlit("a"); }
            "a"
        },
        11 => {
            proof { reveal_strlit("b"); }
            "b"
        },
        12 => {
            proof { reveal_strlit("c"); }
            "c"
        },
        13 => {
            proof { reveal_strlit("d"); }
            "d"
        },
        14 => {
            proof { reveal_strlit("e"); }
            "e"
        },
        _ => {
            proof { reveal_strlit("f"); }
            "f"
        },
    }
}

/// Append the digits of `n` in base `base` to `s`.
pub fn push_digits(s: &mut String, n: u64, base: u64)
    requires
        2 <= base <= 16,
    ensures
        final(s)@ == old(s)@ + digits_of(n as nat, base as nat),
    decreases n,
{
    let ghost s0 = s@;
    if n >= base {
        proof {
            assert(n / base < n) by (nonlinear_arith)
                requires
                    base >= 2,
                    n >= base,
            ;
        }
        push_digits(s, n / base, base);
    }
    let ghost s1 = s@;
    let d = digit_str(n % base);
    s.append(d);
    proof {
        if n >= base {
            assert(digits_of(n as nat, base as nat) == digits_of((n / base) as nat, base as nat)
                + seq![digit_char((n % base) as nat)]);
            assert(s@ =~= s0 + digits_of(n as nat, base as nat));
        } else {
            vstd::arithmetic::div_mod::lemma_small_mod(n as nat, base as nat);
            assert(s@ =~= s0 + digits_of(n as nat, base as nat));
        }
    }
}

} // verus!
