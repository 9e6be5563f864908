//! Glob patterns over node names: `*` matches any run of bytes, `?` any one byte.
use vstd::prelude::*;
use crate::text::{bytes_eq, lemma_utf8_injective, utf8_of};

verus! {

/// The byte of `*`.
pub open spec fn star() -> u8 {
    42u8
}

/// The byte of `?`.
pub open spec fn qmark() -> u8 {
    63u8
}

/// Whether the first `i` bytes of `p` match the first `j` bytes of `t`.
pub open spec fn glob_prefix(p: Seq<u8>, t: Seq<u8>, i: nat, j: nat) -> bool
    decreases i, j,
{
    if i == 0 {
        j == 0
    } else if p[i - 1] == star() {
        glob_prefix(p, t, (i - 1) as nat, j) || (j > 0 && glob_prefix(p, t, i, (j - 1) as nat))
    } else if j > 0 && (p[i - 1] == qmark() || p[i - 1] == t[j - 1]) {
        glob_prefix(p, t, (i - 1) as nat, (j - 1) as nat)
    } else {
        false
    }
}

/// Whether the byte pattern `p` matches the whole byte string `t`.
pub open spec fn glob_match(p: Seq<u8>, t: Seq<u8>) -> bool {
    glob_prefix(p, t, p.len(), t.len())
}

/// Whether a byte pattern holds a wildcard.
pub open spec fn has_wildcard(p: Seq<u8>) -> bool {
    exists|k: int| 0 <= k < p.len() && (p[k] == star() || p[k] == qmark())
}

/// Whether the pattern `pattern` matches the name `text`.
pub open spec fn pattern_matches_spec(pattern: Seq<char>, text: Seq<char>) -> bool {
    glob_match(utf8_of(pattern), utf8_of(text))
}

/// Without wildcards, a pattern prefix matches a text prefix exactly when both are equal.
pub proof fn lemma_glob_literal(p: Seq<u8>, t: Seq<u8>, i: nat, j: nat)
    requires
        !has_wildcard(p),
        i <= p.len(),
        j <= t.len(),
    ensures
        glob_prefix(p, t, i, j) <==> (i == j && p.take(i as int) == t.take(j as int)),
    decreases i,
{
    if i == 0 {
        if j == 0 {
            assert(p.take(0) =~= t.take(0));
        }
    } else {
        assert(p[i - 1] != star() && p[i - 1] != qmark());
        if j > 0 {
            lemma_glob_literal(p, t, (i - 1) as nat, (j - 1) as nat);
            if i == j && p.take(i as int) == t.take(j as int) {
                assert(p.take(i - 1) =~= p.take(i as int).take(i - 1));
                assert(t.take(j - 1) =~= t.take(j as int).take(j - 1));
                assert(p[i - 1] == p.take(i as int)[i - 1]);
                assert(t[j - 1] == t.take(j as int)[j - 1]);
            }
            if glob_prefix(p, t, i, j) {
                assert(p.take(i as int) =~= p.take(i - 1).push(p[i - 1]));
                assert(t.take(j as int) =~= t.take(j - 1).push(t[j - 1]));
            }
        }
    }
}

/// A pattern without `*` or `?` matches exactly the text equal to it.
pub proof fn lemma_literal_pattern(pattern: Seq<char>, text: Seq<char>)
    requires
        !has_wildcard(utf8_of(pattern)),
    ensures
        pattern_matches_spec(pattern, text) <==> pattern == text,
{
    let p = utf8_of(pattern);
    let t = utf8_of(text);
    lemma_glob_literal(p, t, p.len(), t.len());
    assert(p.take(p.len() as int) =~= p);
    assert(t.take(t.len() as int) =~= t);
    lemma_utf8_injective(pattern, text);
}

/// A lone `*` matches every text.
pub proof fn lemma_star_matches_all(t: Seq<u8>, j: nat)
    requires
        j <= t.len(),
    ensures
        glob_prefix(seq![star()], t, 1, j),
    decreases j,
{
    let p = seq![star()];
    if j > 0 {
        lemma_star_matches_all(t, (j - 1) as nat);
    }
    assert(glob_prefix(p, t, 0, 0));
}

proof fn lemma_glob_self(p: Seq<u8>, i: nat)
    requires
        i <= p.len(),
    ensures
        glob_prefix(p, p, i, i),
    decreases i,
{
    if i > 0 {
        lemma_glob_self(p, (i - 1) as nat);
        if p[i - 1] == star() {
            assert(glob_prefix(p, p, i, (i - 1) as nat));
        }
    }
}

/// Every name matches itself taken as a pattern: a plain character matches
/// itself, `?` matches the byte it stands on and `*` the run it stands on.
pub proof fn law_pattern_matches_itself(s: Seq<char>)
    ensures
        pattern_matches_spec(s, s),
{
    let p = utf8_of(s);
    lemma_glob_self(p, p.len());
}

fn byte_pattern_has_wildcard(p: &[u8]) -> (r: bool)
    ensures
        r == has_wildcard(p@),
{
    let mut i: usize = 0;
    while i < p.len()
        invariant
            0 <= i <= p@.len(),
            forall|k: int| 0 <= k < i ==> p@[k] != star() && p@[k] != qmark(),
        decreases p@.len() - i,
    {
        if p[i] == 42u8 || p[i] == 63u8 {
            return true;
        }
        i = i + 1;
    }
    false
}

/// Match `text` against a glob `pattern` where `*` stands for any run of
/// bytes (possibly empty) and `?` for any single byte. A pattern with no
/// wildcard must equal the text.
pub fn pattern_matches(pattern: &str, text: &str) -> (r: bool)
    ensures
        r == pattern_matches_spec(pattern@, text@),
{
    let p = pattern.as_bytes();
    let t = text.as_bytes();
    if p.len() == 1 && p[0] == 42u8 {
        proof {
            assert(p@ =~= seq![star()]);
            lemma_star_matches_all(t@, t@.len());
        }
        return true;
    }
    if !byte_pattern_has_wildcard(p) {
        proof {
            lemma_glob_literal(p@, t@, p@.len(), t@.len());
            assert(p@.take(p@.len() as int) =~= p@);
            assert(t@.take(t@.len() as int) =~= t@);
        }
        return bytes_eq(t, p);
    }
    glob_table(p, t)
}

fn glob_table(p: &[u8], t: &[u8]) -> (r: bool)
    ensures
        r == glob_match(p@, t@),
{
    let m = p.len();
    let n = t.len();
    // Row 0 of the table: only the empty text is matched by the empty pattern.
    let mut prev: Vec<bool> = Vec::new();
    prev.push(true);
    for j in 0..n
        invariant
            n == t@.len(),
            prev@.len() == j + 1,
            forall|k: int| 0 <= k <= j ==> prev@[k] == glob_prefix(p@, t@, 0, k as nat),
    {
        prev.push(false);
    }
    for i in 0..m
        invariant
            m == p@.len(),
            n == t@.len(),
            prev@.len() == n + 1,
            forall|k: int| 0 <= k <= n ==> prev@[k] == glob_prefix(p@, t@, i as nat, k as nat),
    {
        let pc = p[i];
        let mut cur: Vec<bool> = Vec::new();
        let first = if pc == 42u8 { prev[0] } else { false };
        cur.push(first);
        for j in 0..n
            invariant
                m == p@.len(),
                n == t@.len(),
                i < m,
                pc == p@[i as int],
                prev@.len() == n + 1,
                cur@.len() == j + 1,
                forall|k: int| 0 <= k <= n ==> prev@[k] == glob_prefix(p@, t@, i as nat, k as nat),
                forall|k: int| 0 <= k <= j ==> cur@[k] == glob_prefix(p@, t@, (i + 1) as nat, k as nat),
        {
            let v = if pc == 42u8 {
                prev[j + 1] || cur[j]
            } else if pc == 63u8 || pc == t[j] {
                prev[j]
            } else {
                false
            };
            cur.push(v);
        }
        prev = cur;
    }
    prev[n]
}

/// Run `k` of the split `b`, `t[b[k]..b[k+1]]`, is one that byte `k` of `p`
/// matches: any run for `*`, one byte for `?`, that byte itself otherwise.
pub open spec fn run_matches(p: Seq<u8>, t: Seq<u8>, b: Seq<int>, k: int) -> bool {
    p[k] == star() || (b[k + 1] == b[k] + 1 && (p[k] == qmark() || p[k] == t[b[k]]))
}

/// `b` cuts the first `j` bytes of `t` into `i` runs, one for each of the
/// first `i` bytes of `p`, each of which its byte matches.
pub open spec fn split_matches(p: Seq<u8>, t: Seq<u8>, b: Seq<int>, i: nat, j: nat) -> bool {
    &&& b.len() == i + 1
    &&& b[0] == 0
    &&& b[i as int] == j
    &&& forall|k1: int, k2: int| 0 <= k1 <= k2 <= i ==> #[trigger] b[k1] <= #[trigger] b[k2]
    &&& forall|k: int| 0 <= k < i ==> #[trigger] run_matches(p, t, b, k)
}

proof fn lemma_glob_prefix_split(p: Seq<u8>, t: Seq<u8>, i: nat, j: nat)
    requires
        i <= p.len(),
        j <= t.len(),
    ensures
        glob_prefix(p, t, i, j) <==> exists|b: Seq<int>| #[trigger] split_matches(p, t, b, i, j),
    decreases i, j,
{
    if i == 0 {
        if j == 0 {
            assert(split_matches(p, t, seq![0int], 0, 0));
        }
    } else {
        let ghost c = (i - 1) as int;
        if glob_prefix(p, t, i, j) {
            if p[c] == star() && glob_prefix(p, t, (i - 1) as nat, j) {
                lemma_glob_prefix_split(p, t, (i - 1) as nat, j);
                let b = choose|b: Seq<int>| #[trigger] split_matches(p, t, b, (i - 1) as nat, j);
                let b2 = b.push(j as int);
                assert(run_matches(p, t, b2, c));
                assert forall|k: int| 0 <= k < i implies #[trigger] run_matches(p, t, b2, k) by {
                    if k < c {
                        assert(run_matches(p, t, b, k));
                    }
                }
                assert(split_matches(p, t, b2, i, j));
            } else if p[c] == star() {
                lemma_glob_prefix_split(p, t, i, (j - 1) as nat);
                let b = choose|b: Seq<int>| #[trigger] split_matches(p, t, b, i, (j - 1) as nat);
                let b2 = b.update(i as int, j as int);
                assert forall|k: int| 0 <= k < i implies #[trigger] run_matches(p, t, b2, k) by {
                    if k < c {
                        assert(run_matches(p, t, b, k));
                    }
                }
                assert forall|k1: int, k2: int| 0 <= k1 <= k2 <= i implies #[trigger] b2[k1] <= #[trigger] b2[k2] by {
                    assert(b[k1] <= b[k2]);
                    assert(b[k1] <= b[i as int]);
                }
                assert(split_matches(p, t, b2, i, j));
            } else {
                lemma_glob_prefix_split(p, t, (i - 1) as nat, (j - 1) as nat);
                let b = choose|b: Seq<int>| #[trigger] split_matches(p, t, b, (i - 1) as nat, (j - 1) as nat);
                let b2 = b.push(j as int);
                assert(run_matches(p, t, b2, c));
                assert forall|k: int| 0 <= k < i implies #[trigger] run_matches(p, t, b2, k) by {
                    if k < c {
                        assert(run_matches(p, t, b, k));
                    }
                }
                assert forall|k1: int, k2: int| 0 <= k1 <= k2 <= i implies #[trigger] b2[k1] <= #[trigger] b2[k2] by {
                    if k2 < i {
                        assert(b[k1] <= b[k2]);
                    } else if k1 < i {
                        assert(b[k1] <= b[c]);
                    }
                }
                assert(split_matches(p, t, b2, i, j));
            }
        }
        if exists|b: Seq<int>| #[trigger] split_matches(p, t, b, i, j) {
            let b = choose|b: Seq<int>| #[trigger] split_matches(p, t, b, i, j);
            assert(run_matches(p, t, b, c));
            assert(b[c] <= b[i as int]);
            assert(b[0] <= b[c]);
            if p[c] == star() && b[c] == j {
                let b2 = b.take(i as int);
                assert forall|k: int| 0 <= k < c implies #[trigger] run_matches(p, t, b2, k) by {
                    assert(run_matches(p, t, b, k));
                }
                assert(split_matches(p, t, b2, (i - 1) as nat, j));
                lemma_glob_prefix_split(p, t, (i - 1) as nat, j);
            } else if p[c] == star() {
                let b2 = b.update(i as int, j - 1);
                assert forall|k: int| 0 <= k < i implies #[trigger] run_matches(p, t, b2, k) by {
                    assert(run_matches(p, t, b, k));
                }
                assert forall|k1: int, k2: int| 0 <= k1 <= k2 <= i implies #[trigger] b2[k1] <= #[trigger] b2[k2] by {
                    assert(b[k1] <= b[k2]);
                    if k1 < i {
                        assert(b[k1] <= b[c]);
                    }
                }
                assert(split_matches(p, t, b2, i, (j - 1) as nat));
                lemma_glob_prefix_split(p, t, i, (j - 1) as nat);
            } else {
                let b2 = b.take(i as int);
                assert forall|k: int| 0 <= k < c implies #[trigger] run_matches(p, t, b2, k) by {
                    assert(run_matches(p, t, b, k));
                }
                assert(split_matches(p, t, b2, (i - 1) as nat, (j - 1) as nat));
                lemma_glob_prefix_split(p, t, (i - 1) as nat, (j - 1) as nat);
            }
        }
    }
}

/// A pattern matches a name exactly when the name's bytes can be cut into
/// one run per pattern byte, where `*` takes any run (empty too), `?` one
/// byte and any other byte one byte equal to it.
pub proof fn law_pattern_matches_split(pattern: Seq<char>, text: Seq<char>)
    ensures
        pattern_matches_spec(pattern, text) <==> exists|b: Seq<int>| #[trigger] split_matches(
            utf8_of(pattern),
            utf8_of(text),
            b,
            utf8_of(pattern).len(),
            utf8_of(text).len(),
        ),
{
    lemma_glob_prefix_split(utf8_of(pattern), utf8_of(text), utf8_of(pattern).len(), utf8_of(text).len());
}

} // verus!
