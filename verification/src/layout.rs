//! Plain data of the layered graph layout, and the count of edge crossings
//! between two adjacent columns with an accumulator (Fenwick) tree.
use vstd::prelude::*;

verus! {

/// Identifier of a layout node (a PipeWire object id or a virtual id).
pub type NodeId = u32;

/// Identifier of a port.
pub type PortId = u32;

/// Identifier of an edge (link).
pub type EdgeId = u32;

/// The kind of a layout node, which decides its default column.
#[derive(Debug, Clone, Copy, PartialEq, Eq, Hash, Structural)]
pub enum LayoutNodeKind {
    Source,
    Sink,
    StreamOutput,
    StreamInput,
    Duplex,
    Plugin,
    Dummy,
    Unknown,
}

/// A port (socket) on a layout node.
#[derive(Debug, Clone)]
pub struct LayoutPort {
    /// PipeWire port id.
    pub id: PortId,
    /// The node it belongs to (index into the graph's nodes).
    pub node_idx: usize,
    /// Its index among the node's ports of the same direction.
    pub port_index: usize,
    /// Output (`true`) or input (`false`).
    pub is_output: bool,
}

/// A directed edge of the layout graph.
#[derive(Debug, Clone)]
pub struct LayoutEdge {
    /// PipeWire link id (0 for dummy edges).
    pub id: EdgeId,
    /// Source node index.
    pub from_node: usize,
    /// Target node index.
    pub to_node: usize,
    /// Output port, where known.
    pub from_port: Option<PortId>,
    /// Input port, where known.
    pub to_port: Option<PortId>,
}

/// Direction of the horizontal alignment; `Balanced` averages all four.
#[derive(Debug, Clone, Copy, PartialEq, Eq, Structural)]
pub enum LayoutDirection {
    RightDown,
    RightUp,
    LeftDown,
    LeftUp,
    Balanced,
}

/// The lowest set bit of `p` (0 for 0).
pub open spec fn low_bit(p: usize) -> usize {
    p & (p ^ ((p - 1) as usize))
}

/// Slot `q` of an accumulator tree sums the slots in `(q - low_bit(q), q]`;
/// this says that slot `x` is among them.
pub open spec fn covers(q: int, x: int) -> bool {
    &&& 0 < q <= usize::MAX
    &&& q - low_bit(q as usize) < x <= q
}

/// How many pairs of `s` have a second component below `k`.
pub open spec fn count_upto(s: Seq<(usize, usize)>, k: int) -> nat
    decreases s.len(),
{
    if s.len() == 0 {
        0
    } else {
        count_upto(s.drop_last(), k) + if s.last().1 < k { 1nat } else { 0nat }
    }
}

/// How many pairs of `s` have a second component above `r`.
pub open spec fn count_above(s: Seq<(usize, usize)>, r: int) -> nat
    decreases s.len(),
{
    if s.len() == 0 {
        0
    } else {
        count_above(s.drop_last(), r) + if s.last().1 > r { 1nat } else { 0nat }
    }
}

/// The inversions of `s` by its second components: the pairs `i < j` with
/// `s[i].1 > s[j].1`. For edges sorted by their left position these are the
/// crossings.
pub open spec fn inversions(s: Seq<(usize, usize)>) -> nat
    decreases s.len(),
{
    if s.len() == 0 {
        0
    } else {
        inversions(s.drop_last()) + count_above(s.drop_last(), s.last().1 as int)
    }
}

/// What `query` adds up: slot `p`, then the slot below its range, down to 0.
pub open spec fn fenwick_sum(t: Seq<usize>, p: usize) -> int
    decreases p,
{
    if p == 0 || p >= t.len() {
        0
    } else {
        proof {
            lemma_low_bit(p);
        }
        t[p as int] + fenwick_sum(t, (p - low_bit(p)) as usize)
    }
}

/// `t` is the accumulator tree of size `n` of the second components of `s`,
/// each counted at slot `second + 1`.
pub open spec fn fenwick_of(t: Seq<usize>, n: int, s: Seq<(usize, usize)>) -> bool {
    &&& t.len() == n + 1
    &&& forall|p: int| 1 <= p <= n ==> #[trigger] t[p] == count_upto(s, p) - count_upto(s, p - low_bit(p as usize))
}

pub proof fn lemma_low_bit(p: usize)
    requires
        p > 0,
    ensures
        0 < low_bit(p) <= p,
{
    assert(0 < (p & (p ^ ((p - 1) as usize))) && (p & (p ^ ((p - 1) as usize))) <= p) by (bit_vector)
        requires
            p > 0,
    ;
}

proof fn lemma_low_bit_step(p: usize)
    requires
        p > 0,
        p + low_bit(p) <= usize::MAX,
    ensures
        (p + low_bit(p)) - low_bit((p + low_bit(p)) as usize) <= p - low_bit(p),
{
    let q = (p + low_bit(p)) as usize;
    assert(q == p + low_bit(p));
    assert(q - (q & (q ^ ((q - 1) as usize))) <= p - (p & (p ^ ((p - 1) as usize)))) by (bit_vector)
        requires
            p > 0,
            q == p + (p & (p ^ ((p - 1) as usize))),
    ;
}

proof fn lemma_low_bit_gap(p: usize, r: usize)
    requires
        p > 0,
        0 < r < low_bit(p),
        p + r <= usize::MAX,
    ensures
        low_bit((p + r) as usize) <= r,
{
    let q = (p + r) as usize;
    assert(q == p + r);
    assert((q & (q ^ ((q - 1) as usize))) <= r) by (bit_vector)
        requires
            p > 0,
            0 < r,
            r < (p & (p ^ ((p - 1) as usize))),
            q == p + r,
    ;
}

proof fn lemma_count_upto_zero(s: Seq<(usize, usize)>)
    ensures
        count_upto(s, 0) == 0,
    decreases s.len(),
{
    if s.len() > 0 {
        lemma_count_upto_zero(s.drop_last());
    }
}

proof fn lemma_count_upto_bounds(s: Seq<(usize, usize)>, a: int, b: int)
    requires
        a <= b,
    ensures
        count_upto(s, a) <= count_upto(s, b) <= s.len(),
    decreases s.len(),
{
    if s.len() > 0 {
        lemma_count_upto_bounds(s.drop_last(), a, b);
    }
}

proof fn lemma_count_upto_all(s: Seq<(usize, usize)>, k: int)
    requires
        forall|i: int| 0 <= i < s.len() ==> (#[trigger] s[i]).1 < k,
    ensures
        count_upto(s, k) == s.len(),
    decreases s.len(),
{
    if s.len() > 0 {
        assert(s.last() == s[s.len() - 1]);
        let t = s.drop_last();
        assert forall|i: int| 0 <= i < t.len() implies (#[trigger] t[i]).1 < k by {
            assert(t[i] == s[i]);
        }
        lemma_count_upto_all(t, k);
    }
}

proof fn lemma_above_plus_upto(s: Seq<(usize, usize)>, r: int)
    ensures
        count_above(s, r) + count_upto(s, r + 1) == s.len(),
    decreases s.len(),
{
    if s.len() > 0 {
        lemma_above_plus_upto(s.drop_last(), r);
    }
}

proof fn lemma_fenwick_sum(t: Seq<usize>, n: int, s: Seq<(usize, usize)>, p: usize)
    requires
        fenwick_of(t, n, s),
        p <= n,
    ensures
        fenwick_sum(t, p) == count_upto(s, p as int),
    decreases p,
{
    if p == 0 {
        lemma_count_upto_zero(s);
    } else {
        lemma_low_bit(p);
        assert(t[p as int] == count_upto(s, p as int) - count_upto(s, p - low_bit(p)));
        lemma_fenwick_sum(t, n, s, (p - low_bit(p)) as usize);
    }
}

/// Sum of the tree's slots along the chain from `pos` down: the prefix sum
/// of slots `1..=pos` when `tree` is an accumulator tree.
fn query(tree: &[usize], pos: usize) -> (r: usize)
    requires
        pos < tree@.len(),
        fenwick_sum(tree@, pos) <= usize::MAX,
    ensures
        r == fenwick_sum(tree@, pos),
{
    let mut sum: usize = 0;
    let mut p: usize = pos;
    while p > 0
        invariant
            p <= pos < tree@.len(),
            sum + fenwick_sum(tree@, p) == fenwick_sum(tree@, pos),
            fenwick_sum(tree@, pos) <= usize::MAX,
        decreases p,
    {
        proof {
            lemma_low_bit(p);
            assert(fenwick_sum(tree@, p) == tree@[p as int] + fenwick_sum(tree@, (p - low_bit(p)) as usize));
            assert(fenwick_sum(tree@, (p - low_bit(p)) as usize) >= 0) by {
                lemma_fenwick_sum_nonneg(tree@, (p - low_bit(p)) as usize);
            }
        }
        sum = sum + tree[p];
        let lb: usize = p & (p ^ (p - 1));
        p = p - lb;
    }
    sum
}

proof fn lemma_fenwick_sum_nonneg(t: Seq<usize>, p: usize)
    ensures
        fenwick_sum(t, p) >= 0,
    decreases p,
{
    if p != 0 && p < t.len() {
        lemma_low_bit(p);
        lemma_fenwick_sum_nonneg(t, (p - low_bit(p)) as usize);
    }
}

/// Adds `val` to every slot of the tree whose range holds `pos`, up to
/// slot `max_pos`.
fn update(tree: &mut [usize], pos: usize, val: usize, max_pos: usize)
    requires
        1 <= pos,
        max_pos < old(tree)@.len(),
        max_pos <= usize::MAX / 2,
        forall|q: int| 1 <= q <= max_pos && covers(q, pos as int) ==> old(tree)@[q] + val <= usize::MAX,
    ensures
        final(tree)@.len() == old(tree)@.len(),
        forall|q: int| 0 <= q < old(tree)@.len() ==> #[trigger] final(tree)@[q] == old(tree)@[q] + if 1 <= q <= max_pos && covers(q, pos as int) {
            val as int
        } else {
            0
        },
{
    let ghost t0 = tree@;
    let mut p: usize = pos;
    proof {
        lemma_low_bit(p);
    }
    while p <= max_pos
        invariant
            tree@.len() == t0.len(),
            max_pos < t0.len(),
            max_pos <= usize::MAX / 2,
            1 <= pos <= p,
            covers(p as int, pos as int),
            forall|q: int| 1 <= q <= max_pos && covers(q, pos as int) ==> t0[q] + val <= usize::MAX,
            forall|q: int| 0 <= q < t0.len() ==> #[trigger] tree@[q] == t0[q] + if 1 <= q < p && q <= max_pos && covers(q, pos as int) {
                val as int
            } else {
                0
            },
        decreases usize::MAX - p,
    {
        proof {
            lemma_low_bit(p);
        }
        let cur = tree[p];
        tree[p] = cur + val;
        let lb: usize = p & (p ^ (p - 1));
        proof {
            assert(lb == low_bit(p));
            assert forall|q: int| p < q < p + lb implies !covers(q, pos as int) by {
                lemma_low_bit_gap(p, (q - p) as usize);
            }
            lemma_low_bit_step(p);
        }
        p = p + lb;
    }
}

/// The number of crossings among `edges`, sorted by their left position:
/// for each edge, how many earlier edges have a larger right position.
/// Right positions run from 0 to `max_pos`.
pub fn count_inversions(edges: &[(usize, usize)], max_pos: usize) -> (r: usize)
    requires
        max_pos < usize::MAX / 2,
        forall|i: int| 0 <= i < edges@.len() ==> (#[trigger] edges@[i]).1 <= max_pos,
        inversions(edges@) <= usize::MAX,
    ensures
        r == inversions(edges@),
{
    let tree_size: usize = max_pos + 1;
    let mut tree: Vec<usize> = vec![0usize; tree_size + 1];
    proof {
        assert forall|p: int| 1 <= p <= tree_size implies #[trigger] tree@[p] == count_upto(edges@.take(0), p) - count_upto(edges@.take(0), p - low_bit(p as usize)) by {
            assert(tree@[p] == 0);
        }
    }
    let mut crossings: usize = 0;
    let mut j: usize = 0;
    while j < edges.len()
        invariant
            0 <= j <= edges@.len(),
            tree_size == max_pos + 1,
            max_pos < usize::MAX / 2,
            forall|i: int| 0 <= i < edges@.len() ==> (#[trigger] edges@[i]).1 <= max_pos,
            inversions(edges@) <= usize::MAX,
            fenwick_of(tree@, tree_size as int, edges@.take(j as int)),
            crossings == inversions(edges@.take(j as int)),
        decreases edges@.len() - j,
    {
        let ghost s = edges@.take(j as int);
        let (_left, right) = edges[j];
        proof {
            lemma_fenwick_sum(tree@, tree_size as int, s, tree_size);
            lemma_fenwick_sum(tree@, tree_size as int, s, (right + 1) as usize);
            lemma_count_upto_bounds(s, right + 1, tree_size as int);
            assert forall|i: int| 0 <= i < s.len() implies (#[trigger] s[i]).1 < tree_size by {
                assert(s[i] == edges@[i]);
            }
            lemma_count_upto_all(s, tree_size as int);
            lemma_above_plus_upto(s, right as int);
            let s2 = edges@.take(j + 1);
            assert(s2.drop_last() == s);
            assert(s2.last() == edges@[j as int]);
            lemma_inversions_prefix(edges@, j + 1);
        }
        let total = query(&tree, tree_size);
        let below = query(&tree, right + 1);
        crossings = crossings + (total - below);
        let ghost t1 = tree@;
        proof {
            assert forall|q: int| 1 <= q <= tree_size && covers(q, right + 1) implies t1[q] + 1 <= usize::MAX by {
                lemma_low_bit(q as usize);
                lemma_count_upto_bounds(s, q - low_bit(q as usize), q);
            }
        }
        update(&mut tree, right + 1, 1, tree_size);
        proof {
            let s2 = edges@.take(j + 1);
            assert(s2.drop_last() == s);
            assert forall|p: int| 1 <= p <= tree_size implies #[trigger] tree@[p] == count_upto(s2, p) - count_upto(s2, p - low_bit(p as usize)) by {
                assert(tree@[p] == t1[p] + if 1 <= p <= tree_size && covers(p, right + 1) { 1int } else { 0 });
                assert(t1[p] == count_upto(s, p) - count_upto(s, p - low_bit(p as usize)));
            }
        }
        j = j + 1;
    }
    proof {
        assert(edges@.take(edges@.len() as int) == edges@);
    }
    crossings
}

proof fn lemma_inversions_prefix(s: Seq<(usize, usize)>, n: int)
    requires
        0 <= n <= s.len(),
    ensures
        inversions(s.take(n)) <= inversions(s),
    decreases s.len() - n,
{
    if n < s.len() {
        lemma_inversions_prefix(s, n + 1);
        let t = s.take(n + 1);
        assert(t.drop_last() == s.take(n));
        assert(inversions(t) == inversions(t.drop_last()) + count_above(t.drop_last(), t.last().1 as int));
    } else {
        assert(s.take(n) =~= s);
    }
}

/// The places of `t` whose second component is above `r`.
pub open spec fn places_above(t: Seq<(usize, usize)>, r: int) -> Set<int> {
    Set::new(|i: int| 0 <= i < t.len() && t[i].1 > r)
}

/// The pairs of places `i < j` of `s` with `s[i].1 > s[j].1`.
pub open spec fn inversion_pairs(s: Seq<(usize, usize)>) -> Set<(int, int)> {
    Set::new(|p: (int, int)| 0 <= p.0 < p.1 < s.len() && s[p.0].1 > s[p.1].1)
}

proof fn lemma_count_above_places(t: Seq<(usize, usize)>, r: int)
    ensures
        places_above(t, r).finite(),
        places_above(t, r).len() == count_above(t, r),
    decreases t.len(),
{
    if t.len() == 0 {
        assert(places_above(t, r) =~= Set::empty());
    } else {
        let rest = t.drop_last();
        lemma_count_above_places(rest, r);
        let n = t.len() - 1;
        if t.last().1 > r {
            assert(places_above(t, r) =~= places_above(rest, r).insert(n));
            assert(!places_above(rest, r).contains(n));
        } else {
            assert(places_above(t, r) =~= places_above(rest, r));
        }
    }
}

/// [`inversions`] counts the inversion pairs: the pairs of places `i < j`
/// whose second components go down.
pub proof fn law_inversions_count_pairs(s: Seq<(usize, usize)>)
    ensures
        inversion_pairs(s).finite(),
        inversions(s) == inversion_pairs(s).len(),
    decreases s.len(),
{
    if s.len() == 0 {
        assert(inversion_pairs(s) =~= Set::empty());
    } else {
        let rest = s.drop_last();
        let n = s.len() - 1;
        law_inversions_count_pairs(rest);
        let above = places_above(rest, s.last().1 as int);
        lemma_count_above_places(rest, s.last().1 as int);
        let f = |i: int| (i, n);
        let last_pairs = above.map(f);
        assert(vstd::relations::injective_on(f, above));
        vstd::set_lib::lemma_map_size(above, last_pairs, f);
        assert forall|p: (int, int)| #[trigger] inversion_pairs(s).contains(p) <==> (inversion_pairs(rest) + last_pairs).contains(p) by {
            if inversion_pairs(s).contains(p) && p.1 == n {
                assert(above.contains(p.0));
                assert(f(p.0) == p);
            }
            if last_pairs.contains(p) {
                let i = choose|i: int| above.contains(i) && f(i) == p;
            }
        }
        assert(inversion_pairs(s) =~= inversion_pairs(rest) + last_pairs);
        assert(inversion_pairs(rest).disjoint(last_pairs)) by {
            assert forall|p: (int, int)| inversion_pairs(rest).contains(p) implies !last_pairs.contains(p) by {
                if last_pairs.contains(p) {
                    let i = choose|i: int| above.contains(i) && f(i) == p;
                }
            }
        }
        vstd::set_lib::lemma_set_disjoint_lens(inversion_pairs(rest), last_pairs);
    }
}

} // verus!
