//! Natural ordering of names, so that "item2" sorts before "item10".
use std::cmp::Ordering;
use vstd::prelude::*;
use crate::natural_spec::{
    all_digit_chars, decimal_value, is_digit_char, law_natural_order_common_prefix, law_natural_order_leading_numbers,
    lemma_natural_order_antisymmetric, lemma_natural_order_reflexive, lemma_natural_order_transitive, lemma_utf8_concat,
    lemma_utf8_digits, lemma_utf8_ends, natural_order, natural_sign, starts_without_digit_char, u64_modulus,
};
use crate::text::utf8_of;

verus! {

/// The `Ordering` whose sign is that of `x`.
pub open spec fn ordering_from_sign(x: int) -> Ordering {
    if x < 0 {
        Ordering::Less
    } else if x > 0 {
        Ordering::Greater
    } else {
        Ordering::Equal
    }
}

/// The natural order of two names, as an `Ordering`.
pub open spec fn natural_ordering(a: Seq<char>, b: Seq<char>) -> Ordering {
    ordering_from_sign(natural_order(utf8_of(a), utf8_of(b), 0, 0))
}

/// Compare two names so that runs of ASCII digits compare by numeric value
/// (modulo 2^64) and all other bytes compare by byte value; a name that is a
/// proper prefix of the other comes first.
pub fn natural_cmp(a: &str, b: &str) -> (r: Ordering)
    ensures
        r == natural_ordering(a@, b@),
{
    let sign = natural_sign(a.as_bytes(), b.as_bytes());
    if sign < 0 {
        Ordering::Less
    } else if sign > 0 {
        Ordering::Greater
    } else {
        Ordering::Equal
    }
}

/// Natural comparison of a name with itself is `Equal`.
pub proof fn law_natural_cmp_reflexive(a: Seq<char>)
    ensures
        natural_ordering(a, a) == Ordering::Equal,
{
    lemma_natural_order_reflexive(utf8_of(a), 0);
}

/// Swapping the two names reverses the natural comparison.
pub proof fn law_natural_cmp_antisymmetric(a: Seq<char>, b: Seq<char>)
    ensures
        natural_ordering(a, b) == Ordering::Less <==> natural_ordering(b, a) == Ordering::Greater,
        natural_ordering(a, b) == Ordering::Equal <==> natural_ordering(b, a) == Ordering::Equal,
{
    lemma_natural_order_antisymmetric(utf8_of(a), utf8_of(b), 0, 0);
}

/// The natural comparison is transitive: if `a` comes before or with `b`
/// and `b` before or with `c`, then `a` comes before or with `c`, and
/// strictly before where either step is strict.
pub proof fn law_natural_cmp_transitive(a: Seq<char>, b: Seq<char>, c: Seq<char>)
    requires
        natural_ordering(a, b) != Ordering::Greater,
        natural_ordering(b, c) != Ordering::Greater,
    ensures
        natural_ordering(a, c) != Ordering::Greater,
        natural_ordering(a, b) == Ordering::Less || natural_ordering(b, c) == Ordering::Less ==> natural_ordering(a, c) == Ordering::Less,
{
    lemma_natural_order_transitive(utf8_of(a), utf8_of(b), utf8_of(c), 0, 0, 0);
}

proof fn lemma_utf8_empty()
    ensures
        utf8_of(Seq::<char>::empty()) == Seq::<u8>::empty(),
{
    assert(utf8_of(Seq::<char>::empty()) =~= Seq::<u8>::empty());
}

/// A common prefix that does not end in a digit leaves the comparison to
/// what follows it: "Track 1 Left" and "Track 1 Right" compare as
/// "Left" and "Right" do.
pub proof fn law_natural_cmp_common_prefix(p: Seq<char>, a: Seq<char>, b: Seq<char>)
    requires
        p.len() == 0 || !is_digit_char(p.last()),
    ensures
        natural_ordering(p + a, p + b) == natural_ordering(a, b),
{
    lemma_utf8_concat(p, a);
    lemma_utf8_concat(p, b);
    if p.len() > 0 {
        lemma_utf8_ends(p);
    } else {
        lemma_utf8_empty();
    }
    law_natural_order_common_prefix(utf8_of(p), utf8_of(a), utf8_of(b));
}

/// After a common prefix that does not end in a digit, two whole numbers
/// (below 2^64) compare by value, so "x2" comes before "x10"; equal numbers
/// leave the comparison to what follows them.
pub proof fn law_natural_cmp_numbers(p: Seq<char>, d1: Seq<char>, r1: Seq<char>, d2: Seq<char>, r2: Seq<char>)
    requires
        p.len() == 0 || !is_digit_char(p.last()),
        d1.len() > 0,
        d2.len() > 0,
        all_digit_chars(d1),
        all_digit_chars(d2),
        starts_without_digit_char(r1),
        starts_without_digit_char(r2),
        decimal_value(d1) < u64_modulus(),
        decimal_value(d2) < u64_modulus(),
    ensures
        natural_ordering(p + d1 + r1, p + d2 + r2) == if decimal_value(d1) < decimal_value(d2) {
            Ordering::Less
        } else if decimal_value(d1) > decimal_value(d2) {
            Ordering::Greater
        } else {
            natural_ordering(r1, r2)
        },
{
    assert(p + d1 + r1 =~= p + (d1 + r1));
    assert(p + d2 + r2 =~= p + (d2 + r2));
    law_natural_cmp_common_prefix(p, d1 + r1, d2 + r2);
    lemma_utf8_concat(d1, r1);
    lemma_utf8_concat(d2, r2);
    lemma_utf8_digits(d1);
    lemma_utf8_digits(d2);
    if r1.len() > 0 {
        lemma_utf8_ends(r1);
    } else {
        lemma_utf8_empty();
    }
    if r2.len() > 0 {
        lemma_utf8_ends(r2);
    } else {
        lemma_utf8_empty();
    }
    law_natural_order_leading_numbers(utf8_of(d1), utf8_of(r1), utf8_of(d2), utf8_of(r2));
}

} // verus!
