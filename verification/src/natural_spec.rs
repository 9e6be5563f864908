//! The natural ("human") order on names: runs of ASCII digits compare by
//! their numeric value, every other byte compares by its value.
use vstd::prelude::*;
use vstd::arithmetic::div_mod::{lemma_add_mod_noop, lemma_small_mod};
use vstd::utf8::{char_is_scalar, encode_scalar, has_width_1_encoding};
use crate::text::utf8_of;

verus! {

/// 2^64: the numeric value of a digit run is taken modulo this.
pub open spec fn u64_modulus() -> int {
    0x1_0000_0000_0000_0000
}

pub open spec fn is_digit(c: u8) -> bool {
    48 <= c <= 57
}

/// The first index at or after `i` that does not hold a digit.
pub open spec fn run_end(s: Seq<u8>, i: int) -> int
    decreases s.len() - i,
{
    if 0 <= i < s.len() && is_digit(s[i]) {
        run_end(s, i + 1)
    } else {
        i
    }
}

/// The value of the decimal digits `s[i..e]`, modulo 2^64.
pub open spec fn run_value(s: Seq<u8>, i: int, e: int) -> int
    decreases e - i,
{
    if e <= i {
        0
    } else {
        (run_value(s, i, e - 1) * 10 + (s[e - 1] - 48)) % u64_modulus()
    }
}

/// Three-way natural comparison of `a[i..]` with `b[j..]`: -1, 0 or 1.
pub open spec fn natural_order(a: Seq<u8>, b: Seq<u8>, i: int, j: int) -> int
    decreases a.len() - i + b.len() - j, 1int,
{
    if i >= a.len() && j >= b.len() {
        0
    } else if i >= a.len() {
        -1
    } else if j >= b.len() {
        1
    } else if 0 <= i && 0 <= j && is_digit(a[i]) && is_digit(b[j]) {
        natural_order_runs(a, b, i, j)
    } else if 0 <= i && 0 <= j && a[i] < b[j] {
        -1
    } else if 0 <= i && 0 <= j && a[i] > b[j] {
        1
    } else {
        natural_order(a, b, i + 1, j + 1)
    }
}

/// Comparison of two digit runs starting at `a[i]` and `b[j]`, then of what follows them.
pub open spec fn natural_order_runs(a: Seq<u8>, b: Seq<u8>, i: int, j: int) -> int
    decreases a.len() - i + b.len() - j, 0int,
{
    if 0 <= i < a.len() && 0 <= j < b.len() && is_digit(a[i]) && is_digit(b[j]) {
        let ie = run_end(a, i);
        let je = run_end(b, j);
        let av = run_value(a, i, ie);
        let bv = run_value(b, j, je);
        if av < bv {
            -1
        } else if av > bv {
            1
        } else {
            proof {
                lemma_run_end_advances(a, i);
                lemma_run_end_advances(b, j);
            }
            natural_order(a, b, ie, je)
        }
    } else {
        0
    }
}

/// A digit run ends strictly after its first digit and within the sequence.
pub proof fn lemma_run_end_advances(s: Seq<u8>, i: int)
    requires
        0 <= i < s.len(),
        is_digit(s[i]),
    ensures
        i < run_end(s, i) <= s.len(),
    decreases s.len() - i,
{
    assert(run_end(s, i) == run_end(s, i + 1));
    if i + 1 < s.len() && is_digit(s[i + 1]) {
        lemma_run_end_advances(s, i + 1);
    } else {
        assert(run_end(s, i + 1) == i + 1);
    }
}

/// If `s[i..k]` are all digits then the run from `i` ends where the run from `k` does.
pub proof fn lemma_run_end_shift(s: Seq<u8>, i: int, k: int)
    requires
        0 <= i <= k <= s.len(),
        forall|m: int| i <= m < k ==> is_digit(#[trigger] s[m]),
    ensures
        run_end(s, i) == run_end(s, k),
    decreases k - i,
{
    if i < k {
        lemma_run_end_shift(s, i + 1, k);
    }
}

/// Fold one more decimal digit into a run value, wrapping at 2^64.
pub fn digit_step(v: u64, c: u8) -> (r: u64)
    requires
        is_digit(c),
    ensures
        r as int == (v * 10 + (c - 48)) % u64_modulus(),
{
    let d: u64 = (c - 48u8) as u64;
    let prod = v.wrapping_mul(10);
    let r = prod.wrapping_add(d);
    proof {
        let m = u64_modulus();
        assert(prod as int == (v * 10) % m);
        lemma_add_mod_noop(v * 10, d as int, m);
        lemma_small_mod(d as nat, m as nat);
        if prod + d > u64::MAX {
            assert(r as int == prod + d - m);
            assert((prod + d) % m == prod + d - m) by {
                vstd::arithmetic::div_mod::lemma_fundamental_div_mod_converse(prod + d, m, 1, prod + d - m);
            }
        } else {
            lemma_small_mod((prod + d) as nat, m as nat);
        }
    }
    r
}

/// Three-way natural comparison of two byte strings: -1, 0 or 1.
pub fn natural_sign(a: &[u8], b: &[u8]) -> (r: i8)
    ensures
        r as int == natural_order(a@, b@, 0, 0),
{
    let ab = a;
    let bb = b;
    let ghost sa = ab@;
    let ghost sb = bb@;
    let mut i: usize = 0;
    let mut j: usize = 0;
    loop
        invariant
            sa == ab@,
            sb == bb@,
            sa == a@,
            sb == b@,
            i <= sa.len(),
            j <= sb.len(),
            natural_order(sa, sb, 0, 0) == natural_order(sa, sb, i as int, j as int),
        decreases sa.len() - i + sb.len() - j,
    {
        if i >= ab.len() && j >= bb.len() {
            return 0;
        }
        if i >= ab.len() {
            return -1;
        }
        if j >= bb.len() {
            return 1;
        }
        let ac = ab[i];
        let bc = bb[j];
        if is_ascii_digit(ac) && is_ascii_digit(bc) {
            let ghost i0 = i as int;
            let ghost j0 = j as int;
            let mut an: u64 = 0;
            while i < ab.len() && is_ascii_digit(ab[i])
                invariant
                    sa == ab@,
                    i0 < sa.len(),
                    is_digit(sa[i0]),
                    i0 <= i <= sa.len(),
                    forall|m: int| i0 <= m < i ==> is_digit(#[trigger] sa[m]),
                    an as int == run_value(sa, i0, i as int),
                decreases sa.len() - i,
            {
                an = digit_step(an, ab[i]);
                i = i + 1;
            }
            let mut bn: u64 = 0;
            while j < bb.len() && is_ascii_digit(bb[j])
                invariant
                    sb == bb@,
                    j0 < sb.len(),
                    is_digit(sb[j0]),
                    j0 <= j <= sb.len(),
                    forall|m: int| j0 <= m < j ==> is_digit(#[trigger] sb[m]),
                    bn as int == run_value(sb, j0, j as int),
                decreases sb.len() - j,
            {
                bn = digit_step(bn, bb[j]);
                j = j + 1;
            }
            proof {
                lemma_run_end_shift(sa, i0, i as int);
                lemma_run_end_shift(sb, j0, j as int);
                assert(run_end(sa, i as int) == i as int);
                assert(run_end(sb, j as int) == j as int);
                assert(natural_order(sa, sb, i0, j0) == natural_order_runs(sa, sb, i0, j0));
            }
            if an < bn {
                return -1;
            }
            if an > bn {
                return 1;
            }
        } else {
            if ac < bc {
                return -1;
            }
            if ac > bc {
                return 1;
            }
            i = i + 1;
            j = j + 1;
        }
    }
}

fn is_ascii_digit(c: u8) -> (r: bool)
    ensures
        r == is_digit(c),
{
    48u8 <= c && c <= 57u8
}


/// A run value always fits in a `u64`.
pub proof fn lemma_run_value_bounded(s: Seq<u8>, i: int, e: int)
    ensures
        0 <= run_value(s, i, e) < u64_modulus(),
    decreases e - i,
{
    if e > i {
        lemma_run_value_bounded(s, i, e - 1);
    }
}

/// Natural comparison of a suffix with itself is `0`.
pub proof fn lemma_natural_order_reflexive(a: Seq<u8>, i: int)
    requires
        0 <= i,
    ensures
        natural_order(a, a, i, i) == 0,
    decreases a.len() - i,
{
    if i < a.len() {
        if is_digit(a[i]) {
            lemma_run_end_advances(a, i);
            assert(natural_order(a, a, i, i) == natural_order_runs(a, a, i, i));
            lemma_natural_order_reflexive(a, run_end(a, i));
        } else {
            lemma_natural_order_reflexive(a, i + 1);
        }
    }
}

/// Swapping the operands negates the natural comparison.
pub proof fn lemma_natural_order_antisymmetric(a: Seq<u8>, b: Seq<u8>, i: int, j: int)
    requires
        0 <= i,
        0 <= j,
    ensures
        natural_order(a, b, i, j) == -natural_order(b, a, j, i),
    decreases a.len() - i + b.len() - j,
{
    if i < a.len() && j < b.len() {
        if is_digit(a[i]) && is_digit(b[j]) {
            lemma_run_end_advances(a, i);
            lemma_run_end_advances(b, j);
            assert(natural_order(a, b, i, j) == natural_order_runs(a, b, i, j));
            assert(natural_order(b, a, j, i) == natural_order_runs(b, a, j, i));
            lemma_natural_order_antisymmetric(a, b, run_end(a, i), run_end(b, j));
        } else if a[i] == b[j] {
            lemma_natural_order_antisymmetric(a, b, i + 1, j + 1);
        }
    }
}

/// The natural comparison is transitive: from `a[i..] <= b[j..] <= c[k..]`
/// follows `a[i..] <= c[k..]`, strictly where either step is strict.
pub proof fn lemma_natural_order_transitive(a: Seq<u8>, b: Seq<u8>, c: Seq<u8>, i: int, j: int, k: int)
    requires
        0 <= i,
        0 <= j,
        0 <= k,
        natural_order(a, b, i, j) <= 0,
        natural_order(b, c, j, k) <= 0,
    ensures
        natural_order(a, c, i, k) <= 0,
        natural_order(a, b, i, j) < 0 || natural_order(b, c, j, k) < 0 ==> natural_order(a, c, i, k) < 0,
    decreases a.len() - i + b.len() - j + c.len() - k,
{
    if i < a.len() && j < b.len() && k < c.len() {
        let da = is_digit(a[i]);
        let db = is_digit(b[j]);
        let dc = is_digit(c[k]);
        if da && db && dc {
            lemma_run_end_advances(a, i);
            lemma_run_end_advances(b, j);
            lemma_run_end_advances(c, k);
            assert(natural_order(a, b, i, j) == natural_order_runs(a, b, i, j));
            assert(natural_order(b, c, j, k) == natural_order_runs(b, c, j, k));
            assert(natural_order(a, c, i, k) == natural_order_runs(a, c, i, k));
            let va = run_value(a, i, run_end(a, i));
            let vb = run_value(b, j, run_end(b, j));
            let vc = run_value(c, k, run_end(c, k));
            if va == vb && vb == vc {
                lemma_natural_order_transitive(a, b, c, run_end(a, i), run_end(b, j), run_end(c, k));
            }
        } else if !da && !db && !dc && a[i] == b[j] && b[j] == c[k] {
            lemma_natural_order_transitive(a, b, c, i + 1, j + 1, k + 1);
        }
    }
}

proof fn lemma_run_end_skip(x: Seq<u8>, i: int, k: int)
    requires
        0 <= i <= x.len(),
        0 <= k,
    ensures
        run_end(x, i + k) == i + run_end(x.skip(i), k),
    decreases x.len() - i - k,
{
    let x2 = x.skip(i);
    if i + k < x.len() && is_digit(x[i + k]) {
        assert(x2[k] == x[i + k]);
        lemma_run_end_skip(x, i, k + 1);
    } else if k < x2.len() {
        assert(x2[k] == x[i + k]);
    }
}

proof fn lemma_run_value_skip(x: Seq<u8>, i: int, a: int, e: int)
    requires
        0 <= i <= x.len(),
        0 <= a,
        e <= x.len() - i,
    ensures
        run_value(x, i + a, i + e) == run_value(x.skip(i), a, e),
    decreases e - a,
{
    if e > a {
        lemma_run_value_skip(x, i, a, e - 1);
        assert(x.skip(i)[e - 1] == x[i + e - 1]);
    }
}

/// Natural comparison from positions `i + a`, `j + b` is that of the
/// suffixes from `i`, `j` at positions `a`, `b`.
proof fn lemma_natural_order_skip(x: Seq<u8>, y: Seq<u8>, i: int, j: int, a: int, b: int)
    requires
        0 <= i <= x.len(),
        0 <= j <= y.len(),
        0 <= a,
        0 <= b,
    ensures
        natural_order(x, y, i + a, j + b) == natural_order(x.skip(i), y.skip(j), a, b),
    decreases x.len() - i - a + y.len() - j - b,
{
    let x2 = x.skip(i);
    let y2 = y.skip(j);
    if i + a < x.len() && j + b < y.len() {
        assert(x2[a] == x[i + a]);
        assert(y2[b] == y[j + b]);
        if is_digit(x[i + a]) && is_digit(y[j + b]) {
            lemma_run_end_advances(x2, a);
            lemma_run_end_advances(y2, b);
            lemma_run_end_skip(x, i, a);
            lemma_run_end_skip(y, j, b);
            lemma_run_value_skip(x, i, a, run_end(x2, a));
            lemma_run_value_skip(y, j, b, run_end(y2, b));
            assert(natural_order(x, y, i + a, j + b) == natural_order_runs(x, y, i + a, j + b));
            assert(natural_order(x2, y2, a, b) == natural_order_runs(x2, y2, a, b));
            lemma_natural_order_skip(x, y, i, j, run_end(x2, a), run_end(y2, b));
        } else {
            lemma_natural_order_skip(x, y, i, j, a + 1, b + 1);
        }
    }
}

/// Two sequences that agree below `e` give the same run value there.
proof fn lemma_run_value_agree(x: Seq<u8>, y: Seq<u8>, i: int, e: int)
    requires
        0 <= i,
        e <= x.len(),
        e <= y.len(),
        forall|m: int| i <= m < e ==> x[m] == y[m],
    ensures
        run_value(x, i, e) == run_value(y, i, e),
    decreases e - i,
{
    if e > i {
        lemma_run_value_agree(x, y, i, e - 1);
    }
}

proof fn lemma_prefix_runs(p: Seq<u8>, x: Seq<u8>, y: Seq<u8>, k: int)
    requires
        0 <= k < p.len(),
        !is_digit(p.last()),
        x.len() >= p.len(),
        y.len() >= p.len(),
        forall|m: int| 0 <= m < p.len() ==> x[m] == p[m] && y[m] == p[m],
    ensures
        run_end(x, k) == run_end(y, k),
        run_end(x, k) < p.len(),
    decreases p.len() - k,
{
    if is_digit(p[k]) {
        lemma_prefix_runs(p, x, y, k + 1);
    }
}

proof fn lemma_prefix_walk(p: Seq<u8>, a: Seq<u8>, b: Seq<u8>, k: int)
    requires
        0 <= k <= p.len(),
        p.len() == 0 || !is_digit(p.last()),
    ensures
        natural_order(p + a, p + b, k, k) == natural_order(p + a, p + b, p.len() as int, p.len() as int),
    decreases p.len() - k,
{
    let x = p + a;
    let y = p + b;
    if k < p.len() {
        assert(x[k] == p[k] && y[k] == p[k]);
        if is_digit(p[k]) {
            assert forall|m: int| 0 <= m < p.len() implies x[m] == p[m] && y[m] == p[m] by {}
            lemma_prefix_runs(p, x, y, k);
            lemma_run_end_advances(x, k);
            let e = run_end(x, k);
            lemma_run_value_agree(x, y, k, e);
            assert(natural_order(x, y, k, k) == natural_order_runs(x, y, k, k));
            lemma_prefix_walk(p, a, b, e);
        } else {
            lemma_prefix_walk(p, a, b, k + 1);
        }
    }
}

/// A common prefix that does not end inside a digit run (it is empty or its
/// last byte is no digit) leaves the natural order to what follows it.
pub proof fn law_natural_order_common_prefix(p: Seq<u8>, a: Seq<u8>, b: Seq<u8>)
    requires
        p.len() == 0 || !is_digit(p.last()),
    ensures
        natural_order(p + a, p + b, 0, 0) == natural_order(a, b, 0, 0),
{
    lemma_prefix_walk(p, a, b, 0);
    lemma_natural_order_skip(p + a, p + b, p.len() as int, p.len() as int, 0, 0);
    assert((p + a).skip(p.len() as int) =~= a);
    assert((p + b).skip(p.len() as int) =~= b);
}

/// The empty name comes first; two empty names are equal.
pub proof fn law_natural_order_empty(b: Seq<u8>)
    ensures
        natural_order(Seq::empty(), b, 0, 0) == if b.len() == 0 { 0int } else { -1int },
{
}

/// Names whose first bytes differ, and are not both digits, are ordered by
/// those bytes.
pub proof fn law_natural_order_first_byte(x: u8, y: u8, a: Seq<u8>, b: Seq<u8>)
    requires
        x != y,
        !(is_digit(x) && is_digit(y)),
    ensures
        natural_order(seq![x] + a, seq![y] + b, 0, 0) == if x < y { -1int } else { 1int },
{
    assert((seq![x] + a)[0] == x);
    assert((seq![y] + b)[0] == y);
}

/// Every byte of `d` is a digit.
pub open spec fn all_digits(d: Seq<u8>) -> bool {
    forall|m: int| 0 <= m < d.len() ==> is_digit(#[trigger] d[m])
}

/// `r` does not go on with a digit.
pub open spec fn starts_without_digit(r: Seq<u8>) -> bool {
    r.len() == 0 || !is_digit(r[0])
}

proof fn lemma_leading_run(d: Seq<u8>, r: Seq<u8>)
    requires
        d.len() > 0,
        all_digits(d),
        starts_without_digit(r),
    ensures
        run_end(d + r, 0) == d.len(),
        run_value(d + r, 0, d.len() as int) == run_value(d, 0, d.len() as int),
{
    let x = d + r;
    assert forall|m: int| 0 <= m < d.len() implies is_digit(#[trigger] x[m]) by {
        assert(x[m] == d[m]);
    }
    lemma_run_end_shift(x, 0, d.len() as int);
    if r.len() > 0 {
        assert(x[d.len() as int] == r[0]);
    }
    lemma_run_value_agree(x, d, 0, d.len() as int);
}

/// Names that start with whole digit runs are ordered by the runs' values
/// (taken modulo 2^64); where these are equal, by what follows the runs.
pub proof fn law_natural_order_leading_numbers(d1: Seq<u8>, r1: Seq<u8>, d2: Seq<u8>, r2: Seq<u8>)
    requires
        d1.len() > 0,
        d2.len() > 0,
        all_digits(d1),
        all_digits(d2),
        starts_without_digit(r1),
        starts_without_digit(r2),
    ensures
        natural_order(d1 + r1, d2 + r2, 0, 0) == {
            let v1 = run_value(d1, 0, d1.len() as int);
            let v2 = run_value(d2, 0, d2.len() as int);
            if v1 < v2 {
                -1int
            } else if v1 > v2 {
                1int
            } else {
                natural_order(r1, r2, 0, 0)
            }
        },
{
    let x = d1 + r1;
    let y = d2 + r2;
    lemma_leading_run(d1, r1);
    lemma_leading_run(d2, r2);
    assert(x[0] == d1[0]);
    assert(y[0] == d2[0]);
    assert(natural_order(x, y, 0, 0) == natural_order_runs(x, y, 0, 0));
    lemma_natural_order_skip(x, y, d1.len() as int, d2.len() as int, 0, 0);
    assert(x.skip(d1.len() as int) =~= r1);
    assert(y.skip(d2.len() as int) =~= r2);
}

/// An ASCII decimal digit character.
pub open spec fn is_digit_char(c: char) -> bool {
    '0' <= c <= '9'
}

/// Every character of `d` is a decimal digit.
pub open spec fn all_digit_chars(d: Seq<char>) -> bool {
    forall|m: int| 0 <= m < d.len() ==> is_digit_char(#[trigger] d[m])
}

/// `r` does not go on with a digit character.
pub open spec fn starts_without_digit_char(r: Seq<char>) -> bool {
    r.len() == 0 || !is_digit_char(r[0])
}

/// The decimal number that the digit characters `d` write.
pub open spec fn decimal_value(d: Seq<char>) -> nat
    decreases d.len(),
{
    if d.len() == 0 {
        0
    } else {
        decimal_value(d.drop_last()) * 10 + (d.last() as int - 48) as nat
    }
}

pub proof fn lemma_utf8_concat(p: Seq<char>, a: Seq<char>)
    ensures
        utf8_of(p + a) == utf8_of(p) + utf8_of(a),
    decreases p.len(),
{
    if p.len() == 0 {
        assert(p + a =~= a);
        assert(utf8_of(p) =~= Seq::<u8>::empty());
        assert(utf8_of(p) + utf8_of(a) =~= utf8_of(a));
    } else {
        assert((p + a).drop_first() =~= p.drop_first() + a);
        assert((p + a)[0] == p[0]);
        lemma_utf8_concat(p.drop_first(), a);
        assert(utf8_of(p + a) =~= utf8_of(p) + utf8_of(a));
    }
}

proof fn lemma_utf8_char(c: char)
    ensures
        utf8_of(seq![c]) == encode_scalar(c as u32),
{
    let e = Seq::<char>::empty();
    assert(seq![c].drop_first() =~= e);
    assert(utf8_of(e) =~= Seq::<u8>::empty());
    assert(seq![c][0] == c);
    assert(utf8_of(seq![c]) == encode_scalar(c as u32) + utf8_of(e));
    assert(encode_scalar(c as u32) + Seq::<u8>::empty() =~= encode_scalar(c as u32));
}

/// The UTF-8 form of a character is one byte, itself, for ASCII; otherwise
/// no byte of it is an ASCII digit at either end.
proof fn lemma_scalar_ends(c: char)
    ensures
        encode_scalar(c as u32).len() > 0,
        is_digit(encode_scalar(c as u32)[0]) <==> is_digit_char(c),
        is_digit(encode_scalar(c as u32).last()) <==> is_digit_char(c),
        is_digit_char(c) ==> encode_scalar(c as u32) == seq![(c as u32) as u8],
{
    broadcast use char_is_scalar;
    let v = c as u32;
    if has_width_1_encoding(v) {
        assert((v & 0x7F) as u8 == v) by (bit_vector)
            requires
                v <= 0x7F,
        ;
    } else {
        assert(v > 0x7F);
        assert(0x80u8 | ((v & 0x3F) as u8) >= 0x80) by (bit_vector);
        assert(0xC0u8 | (((v >> 6) & 0x1F) as u8) >= 0x80) by (bit_vector);
        assert(0xE0u8 | (((v >> 12) & 0x0F) as u8) >= 0x80) by (bit_vector);
        assert(0xF0u8 | (((v >> 18) & 0x7) as u8) >= 0x80) by (bit_vector);
    }
}

/// The first byte of a name's UTF-8 form is a digit exactly when its first
/// character is one, and the same for the last.
pub proof fn lemma_utf8_ends(p: Seq<char>)
    requires
        p.len() > 0,
    ensures
        utf8_of(p).len() > 0,
        is_digit(utf8_of(p)[0]) <==> is_digit_char(p[0]),
        is_digit(utf8_of(p).last()) <==> is_digit_char(p.last()),
{
    let c = p.last();
    let q = p.drop_last();
    assert(p =~= q + seq![c]);
    lemma_utf8_concat(q, seq![c]);
    lemma_utf8_char(c);
    lemma_scalar_ends(c);
    lemma_scalar_ends(p[0]);
    assert(p =~= seq![p[0]] + p.drop_first());
    lemma_utf8_concat(seq![p[0]], p.drop_first());
    lemma_utf8_char(p[0]);
}

/// Digit characters are written as themselves, one byte each, and their
/// bytes read back their decimal value where it is below 2^64.
pub proof fn lemma_utf8_digits(d: Seq<char>)
    requires
        all_digit_chars(d),
    ensures
        utf8_of(d).len() == d.len(),
        all_digits(utf8_of(d)),
        decimal_value(d) < u64_modulus() ==> run_value(utf8_of(d), 0, d.len() as int) == decimal_value(d),
    decreases d.len(),
{
    if d.len() > 0 {
        let c = d.last();
        let q = d.drop_last();
        assert(d =~= q + seq![c]);
        assert forall|m: int| 0 <= m < q.len() implies is_digit_char(#[trigger] q[m]) by {
            assert(q[m] == d[m]);
        }
        lemma_utf8_digits(q);
        lemma_utf8_concat(q, seq![c]);
        lemma_utf8_char(c);
        lemma_scalar_ends(c);
        let u = utf8_of(d);
        let n = d.len() as int;
        assert(u =~= utf8_of(q) + seq![(c as u32) as u8]);
        assert forall|m: int| 0 <= m < u.len() implies is_digit(#[trigger] u[m]) by {
            if m < q.len() {
                assert(u[m] == utf8_of(q)[m]);
            }
        }
        if decimal_value(d) < u64_modulus() {
            assert(decimal_value(d) == decimal_value(q) * 10 + (c as int - 48));
            lemma_run_value_agree(u, utf8_of(q), 0, n - 1);
            assert(u[n - 1] == (c as u32) as u8);
            assert(run_value(u, 0, n) == (decimal_value(q) * 10 + (u[n - 1] - 48)) % u64_modulus());
            lemma_small_mod(decimal_value(d), u64_modulus() as nat);
        }
    }
}

} // verus!
