use vstd::prelude::*;
use crate::layout_graph::{endpoints, LayoutGraph};

verus! {

/// The nodes that the edges entering `v` come from, in list order.
pub open spec fn preds_of(g: LayoutGraph, v: usize) -> Seq<usize> {
    endpoints(g.edges@, g.in_edges@[v as int]@, false)
}

/// `v` is a dummy fed by a dummy: the lower end of an inner segment.
pub open spec fn inner_end(g: LayoutGraph, v: usize) -> bool {
    &&& g.nodes@[v as int].is_dummy
    &&& exists|t: int| 0 <= t < preds_of(g, v).len() && #[trigger] g.nodes@[preds_of(g, v)[t] as int].is_dummy
}

/// The order of the first node of `ps` that lies in `prev`, or `dflt`.
pub open spec fn first_order_in(g: LayoutGraph, ps: Seq<usize>, prev: Seq<usize>, dflt: usize) -> usize
    decreases ps.len(),
{
    if ps.len() == 0 {
        dflt
    } else if prev.contains(ps[0]) {
        g.nodes@[ps[0] as int].order
    } else {
        first_order_in(g, ps.drop_first(), prev, dflt)
    }
}

/// The upper bound that place `l1` of column `curr` sets, looking back at
/// column `prev`: at the lower end of an inner segment, the order of its
/// first predecessor in `prev` (the last place of `prev` where there is
/// none); at the last place, the last place of `prev`; elsewhere none.
pub open spec fn upper_at(g: LayoutGraph, prev: Seq<usize>, curr: Seq<usize>, l1: int) -> Option<usize> {
    let u = curr[l1];
    if inner_end(g, u) {
        Some(first_order_in(g, preds_of(g, u), prev, (prev.len() - 1) as usize))
    } else if l1 == curr.len() - 1 {
        Some((prev.len() - 1) as usize)
    } else {
        None
    }
}

/// The lower bound in force at place `l1`: the upper bound that the last
/// place before it set, or 0.
pub open spec fn lower_at(g: LayoutGraph, prev: Seq<usize>, curr: Seq<usize>, l1: int) -> usize
    decreases l1,
{
    if l1 <= 0 {
        0
    } else {
        match upper_at(g, prev, curr, l1 - 1) {
            Some(k) => k,
            None => lower_at(g, prev, curr, l1 - 1),
        }
    }
}

/// The edge from the `t`-th predecessor of the node at place `l` of `curr`
/// is marked at place `l1`: `l1` sets an upper bound, `l` is not after it,
/// the node there is no inner segment's lower end, and the predecessor lies
/// in `prev` with an order outside the bounds in force at `l1`.
pub open spec fn marked_at(g: LayoutGraph, prev: Seq<usize>, curr: Seq<usize>, l1: int, l: int, t: int) -> bool {
    let v = curr[l];
    let p = preds_of(g, v)[t];
    &&& 0 <= l <= l1 < curr.len()
    &&& upper_at(g, prev, curr, l1) is Some
    &&& !inner_end(g, v)
    &&& 0 <= t < preds_of(g, v).len()
    &&& prev.contains(p)
    &&& (g.nodes@[p as int].order < lower_at(g, prev, curr, l1) || g.nodes@[p as int].order > upper_at(
        g,
        prev,
        curr,
        l1,
    )->0)
}

/// The edge `e` (from, to) between columns `prev` and `curr` crosses an
/// inner segment: it is marked at some place.
pub open spec fn marked_between(g: LayoutGraph, prev: Seq<usize>, curr: Seq<usize>, e: (usize, usize)) -> bool {
    exists|l1: int, l: int, t: int| #[trigger] marked_at(g, prev, curr, l1, l, t) && e == (preds_of(g, curr[l])[t], curr[l])
}

/// The edge `e` is marked between some pair of columns that follow each
/// other in `cols`.
pub open spec fn marked_in(g: LayoutGraph, cols: Seq<usize>, e: (usize, usize)) -> bool {
    exists|w: int| 0 <= w && w + 1 < cols.len() && #[trigger] marked_between(
        g,
        g.columns@[cols[w] as int]@,
        g.columns@[cols[w + 1] as int]@,
        e,
    )
}

/// The graph's lists are well formed and each column lists nodes of it.
pub open spec fn columns_in_graph(g: LayoutGraph) -> bool {
    &&& g.well_formed()
    &&& forall|c: int, i: int| 0 <= c < g.columns@.len() && 0 <= i < g.columns@[c]@.len() ==> #[trigger] g.columns@[c]@[i] < g.n()
}

proof fn lemma_preds_in_graph(g: LayoutGraph, v: usize)
    requires
        g.well_formed(),
        v < g.n(),
    ensures
        forall|t: int| 0 <= t < preds_of(g, v).len() ==> #[trigger] preds_of(g, v)[t] < g.n(),
        preds_of(g, v).len() == g.in_edges@[v as int]@.len(),
{
    assert forall|t: int| 0 <= t < preds_of(g, v).len() implies #[trigger] preds_of(g, v)[t] < g.n() by {
        let e = g.in_edges@[v as int]@[t];
        assert(e < g.edges@.len());
    }
}

fn contains_node(s: &[usize], x: usize) -> (r: bool)
    ensures
        r == s@.contains(x),
{
    let mut i: usize = 0;
    while i < s.len()
        invariant
            0 <= i <= s@.len(),
            forall|k: int| 0 <= k < i ==> s@[k] != x,
        decreases s@.len() - i,
    {
        if s[i] == x {
            assert(s@[i as int] == x);
            return true;
        }
        i = i + 1;
    }
    false
}

fn is_inner(g: &LayoutGraph, v: usize) -> (r: bool)
    requires
        g.well_formed(),
        v < g.n(),
    ensures
        r == inner_end(*g, v),
{
    if !g.nodes[v].is_dummy {
        return false;
    }
    let ps = g.predecessors(v);
    proof {
        lemma_preds_in_graph(*g, v);
    }
    let mut i: usize = 0;
    while i < ps.len()
        invariant
            g.well_formed(),
            v < g.n(),
            g.nodes@[v as int].is_dummy,
            ps@ == preds_of(*g, v),
            forall|t: int| 0 <= t < ps@.len() ==> #[trigger] ps@[t] < g.n(),
            0 <= i <= ps@.len(),
            forall|t: int| 0 <= t < i ==> !(#[trigger] g.nodes@[ps@[t] as int]).is_dummy,
        decreases ps@.len() - i,
    {
        if g.nodes[ps[i]].is_dummy {
            assert(g.nodes@[preds_of(*g, v)[i as int] as int].is_dummy);
            return true;
        }
        i = i + 1;
    }
    false
}

fn first_order(g: &LayoutGraph, ps: &Vec<usize>, prev: &[usize], dflt: usize) -> (r: usize)
    requires
        forall|t: int| 0 <= t < ps@.len() ==> #[trigger] ps@[t] < g.n(),
    ensures
        r == first_order_in(*g, ps@, prev@, dflt),
{
    let mut i: usize = 0;
    assert(ps@.subrange(0, ps@.len() as int) =~= ps@);
    while i < ps.len()
        invariant
            forall|t: int| 0 <= t < ps@.len() ==> #[trigger] ps@[t] < g.n(),
            0 <= i <= ps@.len(),
            first_order_in(*g, ps@.subrange(i as int, ps@.len() as int), prev@, dflt) == first_order_in(*g, ps@, prev@, dflt),
        decreases ps@.len() - i,
    {
        let ghost rest = ps@.subrange(i as int, ps@.len() as int);
        assert(rest[0] == ps@[i as int]);
        if contains_node(prev, ps[i]) {
            return g.nodes[ps[i]].order;
        }
        assert(rest.drop_first() =~= ps@.subrange(i + 1, ps@.len() as int));
        i = i + 1;
    }
    assert(ps@.subrange(i as int, ps@.len() as int) =~= Seq::<usize>::empty());
    dflt
}

fn push_unique(out: &mut Vec<(usize, usize)>, e: (usize, usize))
    requires
        old(out)@.no_duplicates(),
    ensures
        final(out)@.no_duplicates(),
        forall|x: (usize, usize)| final(out)@.contains(x) <==> old(out)@.contains(x) || x == e,
{
    let mut i: usize = 0;
    while i < out.len()
        invariant
            out@ == old(out)@,
            old(out)@.no_duplicates(),
            0 <= i <= out@.len(),
            forall|k: int| 0 <= k < i ==> out@[k] != e,
        decreases out@.len() - i,
    {
        if out[i].0 == e.0 && out[i].1 == e.1 {
            assert(out@[i as int] == e);
            return;
        }
        i = i + 1;
    }
    out.push(e);
    assert forall|x: (usize, usize)| out@.contains(x) <==> old(out)@.contains(x) || x == e by {
        if x == e {
            assert(out@[out@.len() - 1] == e);
        }
        if old(out)@.contains(x) {
            let k = choose|k: int| 0 <= k < old(out)@.len() && old(out)@[k] == x;
            assert(out@[k] == x);
        }
        if out@.contains(x) {
            let k = choose|k: int| 0 <= k < out@.len() && out@[k] == x;
            if k < old(out)@.len() {
                assert(old(out)@[k] == x);
            }
        }
    }
}

/// The edge that [`marked_at`] speaks of: from the `t`-th predecessor of the
/// node at place `l` of `curr` to that node.
pub open spec fn edge_at(g: LayoutGraph, curr: Seq<usize>, l: int, t: int) -> (usize, usize) {
    (preds_of(g, curr[l])[t], curr[l])
}

/// `e` is marked at a place, node and predecessor that come before
/// `(a, b, c)` in the order in which [`mark_conflicts`] visits them.
spec fn marked_before(g: LayoutGraph, prev: Seq<usize>, curr: Seq<usize>, e: (usize, usize), a: int, b: int, c: int) -> bool {
    exists|l1: int, l: int, t: int| #[trigger] marked_at(g, prev, curr, l1, l, t) && e == edge_at(g, curr, l, t) && (l1 < a || (l1 == a && (l < b || (l == b && t < c))))
}

fn upper(g: &LayoutGraph, prev: &[usize], curr: &[usize], l1: usize) -> (r: Option<usize>)
    requires
        columns_in_graph(*g),
        prev@.len() > 0,
        l1 < curr@.len(),
        forall|i: int| 0 <= i < curr@.len() ==> #[trigger] curr@[i] < g.n(),
    ensures
        r == upper_at(*g, prev@, curr@, l1 as int),
{
    let u = curr[l1];
    if is_inner(g, u) {
        let ps = g.predecessors(u);
        proof {
            lemma_preds_in_graph(*g, u);
        }
        Some(first_order(g, &ps, prev, prev.len() - 1))
    } else if l1 == curr.len() - 1 {
        Some(prev.len() - 1)
    } else {
        None
    }
}

/// `e` is marked at place `l1` as the edge from one of the first `c`
/// predecessors of the node at place `l`.
spec fn marked_node(g: LayoutGraph, prev: Seq<usize>, curr: Seq<usize>, e: (usize, usize), l1: int, l: int, c: int) -> bool {
    exists|t: int| t < c && #[trigger] marked_at(g, prev, curr, l1, l, t) && e == edge_at(g, curr, l, t)
}

/// Adds to `out` the edges into the node at place `l` of `curr` that are
/// marked at place `l1`, whose bounds are `k0` and `k1`.
fn mark_node(
    g: &LayoutGraph,
    prev: &[usize],
    curr: &[usize],
    l1: usize,
    l: usize,
    k0: usize,
    k1: usize,
    out: &mut Vec<(usize, usize)>,
)
    requires
        columns_in_graph(*g),
        l <= l1 < curr@.len(),
        forall|i: int| 0 <= i < curr@.len() ==> #[trigger] curr@[i] < g.n(),
        upper_at(*g, prev@, curr@, l1 as int) == Some(k1),
        lower_at(*g, prev@, curr@, l1 as int) == k0,
        old(out)@.no_duplicates(),
    ensures
        final(out)@.no_duplicates(),
        forall|x: (usize, usize)| #[trigger] final(out)@.contains(x) <==> old(out)@.contains(x)
            || marked_node(*g, prev@, curr@, x, l1 as int, l as int, preds_of(*g, curr@[l as int]).len() as int),
{
    let v = curr[l];
    proof {
        lemma_preds_in_graph(*g, v);
    }
    if is_inner(g, v) {
        return;
    }
    let ps = g.predecessors(v);
    let mut t: usize = 0;
    while t < ps.len()
        invariant
            columns_in_graph(*g),
            l <= l1 < curr@.len(),
            v == curr@[l as int],
            v < g.n(),
            !inner_end(*g, v),
            ps@ == preds_of(*g, v),
            forall|i: int| 0 <= i < ps@.len() ==> #[trigger] ps@[i] < g.n(),
            upper_at(*g, prev@, curr@, l1 as int) == Some(k1),
            lower_at(*g, prev@, curr@, l1 as int) == k0,
            0 <= t <= ps@.len(),
            out@.no_duplicates(),
            forall|x: (usize, usize)| #[trigger] out@.contains(x) <==> old(out)@.contains(x)
                || marked_node(*g, prev@, curr@, x, l1 as int, l as int, t as int),
        decreases ps@.len() - t,
    {
        let p = ps[t];
        let mut hit = false;
        if contains_node(prev, p) {
            let k = g.nodes[p].order;
            if k < k0 || k > k1 {
                assert(marked_at(*g, prev@, curr@, l1 as int, l as int, t as int));
                push_unique(out, (p, v));
                hit = true;
            }
        }
        assert forall|x: (usize, usize)| #[trigger] out@.contains(x) <==> old(out)@.contains(x)
            || marked_node(*g, prev@, curr@, x, l1 as int, l as int, t + 1) by {
            if hit && x == (p, v) {
                assert(marked_at(*g, prev@, curr@, l1 as int, l as int, t as int));
                assert(edge_at(*g, curr@, l as int, t as int) == x);
            }
            if marked_node(*g, prev@, curr@, x, l1 as int, l as int, t + 1) {
                let c1 = choose|c1: int| c1 < t + 1 && #[trigger] marked_at(*g, prev@, curr@, l1 as int, l as int, c1) && x == edge_at(*g, curr@, l as int, c1);
                if c1 < t {
                    assert(marked_node(*g, prev@, curr@, x, l1 as int, l as int, t as int));
                } else {
                    assert(c1 == t);
                    assert(hit);
                }
            }
            if marked_node(*g, prev@, curr@, x, l1 as int, l as int, t as int) {
                let c1 = choose|c1: int| c1 < t && #[trigger] marked_at(*g, prev@, curr@, l1 as int, l as int, c1) && x == edge_at(*g, curr@, l as int, c1);
                assert(marked_node(*g, prev@, curr@, x, l1 as int, l as int, t + 1));
            }
        }
        t = t + 1;
    }
}

proof fn lemma_step_node(g: LayoutGraph, prev: Seq<usize>, curr: Seq<usize>, x: (usize, usize), l1: int, l: int)
    ensures
        marked_before(g, prev, curr, x, l1, l + 1, 0) <==> marked_before(g, prev, curr, x, l1, l, 0)
            || marked_node(g, prev, curr, x, l1, l, preds_of(g, curr[l]).len() as int),
{
    if marked_before(g, prev, curr, x, l1, l + 1, 0) {
        let (a, b, c) = choose|a: int, b: int, c: int| #[trigger] marked_at(g, prev, curr, a, b, c) && x == edge_at(g, curr, b, c)
            && (a < l1 || (a == l1 && (b < l + 1 || (b == l + 1 && c < 0))));
        if a == l1 && b == l {
            assert(marked_node(g, prev, curr, x, l1, l, preds_of(g, curr[l]).len() as int));
        } else {
            assert(marked_before(g, prev, curr, x, l1, l, 0));
        }
    }
    if marked_node(g, prev, curr, x, l1, l, preds_of(g, curr[l]).len() as int) {
        let c = choose|c: int| c < preds_of(g, curr[l]).len() && #[trigger] marked_at(g, prev, curr, l1, l, c) && x == edge_at(g, curr, l, c);
        assert(marked_before(g, prev, curr, x, l1, l + 1, 0));
    }
    if marked_before(g, prev, curr, x, l1, l, 0) {
        let (a, b, c) = choose|a: int, b: int, c: int| #[trigger] marked_at(g, prev, curr, a, b, c) && x == edge_at(g, curr, b, c)
            && (a < l1 || (a == l1 && (b < l || (b == l && c < 0))));
        assert(marked_before(g, prev, curr, x, l1, l + 1, 0));
    }
}

proof fn lemma_step_place(g: LayoutGraph, prev: Seq<usize>, curr: Seq<usize>, x: (usize, usize), l1: int)
    ensures
        marked_before(g, prev, curr, x, l1, l1 + 1, 0) <==> marked_before(g, prev, curr, x, l1 + 1, 0, 0),
        upper_at(g, prev, curr, l1) is None ==> (marked_before(g, prev, curr, x, l1, 0, 0)
            <==> marked_before(g, prev, curr, x, l1 + 1, 0, 0)),
{
    if marked_before(g, prev, curr, x, l1 + 1, 0, 0) {
        let (a, b, c) = choose|a: int, b: int, c: int| #[trigger] marked_at(g, prev, curr, a, b, c) && x == edge_at(g, curr, b, c)
            && (a < l1 + 1 || (a == l1 + 1 && (b < 0 || (b == 0 && c < 0))));
        assert(marked_before(g, prev, curr, x, l1, l1 + 1, 0));
        if upper_at(g, prev, curr, l1) is None {
            assert(a != l1);
            assert(marked_before(g, prev, curr, x, l1, 0, 0));
        }
    }
    if marked_before(g, prev, curr, x, l1, l1 + 1, 0) {
        let (a, b, c) = choose|a: int, b: int, c: int| #[trigger] marked_at(g, prev, curr, a, b, c) && x == edge_at(g, curr, b, c)
            && (a < l1 || (a == l1 && (b < l1 + 1 || (b == l1 + 1 && c < 0))));
        assert(marked_before(g, prev, curr, x, l1 + 1, 0, 0));
    }
    if marked_before(g, prev, curr, x, l1, 0, 0) {
        let (a, b, c) = choose|a: int, b: int, c: int| #[trigger] marked_at(g, prev, curr, a, b, c) && x == edge_at(g, curr, b, c)
            && (a < l1 || (a == l1 && (b < 0 || (b == 0 && c < 0))));
        assert(marked_before(g, prev, curr, x, l1 + 1, 0, 0));
    }
}

proof fn lemma_all_places(g: LayoutGraph, prev: Seq<usize>, curr: Seq<usize>, x: (usize, usize))
    ensures
        marked_before(g, prev, curr, x, curr.len() as int, 0, 0) <==> marked_between(g, prev, curr, x),
        marked_before(g, prev, curr, x, 0, 0, 0) == false,
{
    if marked_between(g, prev, curr, x) {
        let (a, b, c) = choose|a: int, b: int, c: int| #[trigger] marked_at(g, prev, curr, a, b, c) && x == (preds_of(g, curr[b])[c], curr[b]);
        assert(marked_before(g, prev, curr, x, curr.len() as int, 0, 0));
    }
    if marked_before(g, prev, curr, x, curr.len() as int, 0, 0) {
        let (a, b, c) = choose|a: int, b: int, c: int| #[trigger] marked_at(g, prev, curr, a, b, c) && x == edge_at(g, curr, b, c)
            && (a < curr.len() || (a == curr.len() && (b < 0 || (b == 0 && c < 0))));
        assert(marked_between(g, prev, curr, x));
    }
}

/// Adds to `out` the edges from `prev` into `curr` that cross an inner
/// segment (see [`marked_between`]).
fn mark_columns(g: &LayoutGraph, prev: &[usize], curr: &[usize], out: &mut Vec<(usize, usize)>)
    requires
        columns_in_graph(*g),
        prev@.len() > 0,
        forall|i: int| 0 <= i < curr@.len() ==> #[trigger] curr@[i] < g.n(),
        old(out)@.no_duplicates(),
    ensures
        final(out)@.no_duplicates(),
        forall|x: (usize, usize)| #[trigger] final(out)@.contains(x) <==> old(out)@.contains(x)
            || marked_between(*g, prev@, curr@, x),
{
    let mut k0: usize = 0;
    let mut l1: usize = 0;
    let n = curr.len();
    assert forall|x: (usize, usize)| #[trigger] out@.contains(x) <==> old(out)@.contains(x)
        || marked_before(*g, prev@, curr@, x, 0, 0, 0) by {
        lemma_all_places(*g, prev@, curr@, x);
    }
    while l1 < curr.len()
        invariant
            n == curr@.len(),
            columns_in_graph(*g),
            prev@.len() > 0,
            forall|i: int| 0 <= i < curr@.len() ==> #[trigger] curr@[i] < g.n(),
            0 <= l1 <= curr@.len(),
            k0 == lower_at(*g, prev@, curr@, l1 as int),
            out@.no_duplicates(),
            forall|x: (usize, usize)| #[trigger] out@.contains(x) <==> old(out)@.contains(x)
                || marked_before(*g, prev@, curr@, x, l1 as int, 0, 0),
        decreases curr@.len() - l1,
    {
        match upper(g, prev, curr, l1) {
            Some(k1) => {
                let mut l: usize = 0;
                while l <= l1
                    invariant
                        n == curr@.len(),
                        columns_in_graph(*g),
                        forall|i: int| 0 <= i < curr@.len() ==> #[trigger] curr@[i] < g.n(),
                        l1 < curr@.len(),
                        0 <= l <= l1 + 1,
                        upper_at(*g, prev@, curr@, l1 as int) == Some(k1),
                        k0 == lower_at(*g, prev@, curr@, l1 as int),
                        out@.no_duplicates(),
                        forall|x: (usize, usize)| #[trigger] out@.contains(x) <==> old(out)@.contains(x)
                            || marked_before(*g, prev@, curr@, x, l1 as int, l as int, 0),
                    decreases l1 + 1 - l,
                {
                    mark_node(g, prev, curr, l1, l, k0, k1, out);
                    assert forall|x: (usize, usize)| #[trigger] out@.contains(x) <==> old(out)@.contains(x)
                        || marked_before(*g, prev@, curr@, x, l1 as int, l + 1, 0) by {
                        lemma_step_node(*g, prev@, curr@, x, l1 as int, l as int);
                    }
                    l = l + 1;
                }
                assert forall|x: (usize, usize)| #[trigger] out@.contains(x) <==> old(out)@.contains(x)
                    || marked_before(*g, prev@, curr@, x, l1 + 1, 0, 0) by {
                    lemma_step_place(*g, prev@, curr@, x, l1 as int);
                }
                k0 = k1;
            },
            None => {
                assert forall|x: (usize, usize)| #[trigger] out@.contains(x) <==> old(out)@.contains(x)
                    || marked_before(*g, prev@, curr@, x, l1 + 1, 0, 0) by {
                    lemma_step_place(*g, prev@, curr@, x, l1 as int);
                }
            },
        }
        l1 = l1 + 1;
    }
    assert forall|x: (usize, usize)| #[trigger] out@.contains(x) <==> old(out)@.contains(x)
        || marked_between(*g, prev@, curr@, x) by {
        lemma_all_places(*g, prev@, curr@, x);
    }
}

/// The edges (from, to) that cross an inner segment, a segment between two
/// dummy nodes, between each two columns that follow each other in
/// `col_indices` (see [`marked_in`]), each listed once. The direction flag
/// `_up` does not affect the result.
pub fn mark_conflicts(graph: &LayoutGraph, col_indices: &[usize], _up: bool) -> (r: Vec<(usize, usize)>)
    requires
        columns_in_graph(*graph),
        col_indices@.len() >= 2 ==> forall|i: int| 0 <= i < col_indices@.len() ==> #[trigger] col_indices@[i]
            < graph.columns@.len(),
    ensures
        r@.no_duplicates(),
        forall|x: (usize, usize)| #[trigger] r@.contains(x) <==> marked_in(*graph, col_indices@, x),
{
    let mut out: Vec<(usize, usize)> = Vec::new();
    let n = col_indices.len();
    if n < 2 {
        return out;
    }
    let mut w: usize = 0;
    while w + 1 < n
        invariant
            columns_in_graph(*graph),
            n == col_indices@.len(),
            forall|i: int| 0 <= i < col_indices@.len() ==> #[trigger] col_indices@[i] < graph.columns@.len(),
            0 <= w < n,
            out@.no_duplicates(),
            forall|x: (usize, usize)| #[trigger] out@.contains(x) <==> exists|v: int| 0 <= v < w && #[trigger] marked_between(
                *graph,
                graph.columns@[col_indices@[v] as int]@,
                graph.columns@[col_indices@[v + 1] as int]@,
                x,
            ),
        decreases col_indices@.len() - w,
    {
        let prev = graph.columns[col_indices[w]].as_slice();
        let curr = graph.columns[col_indices[w + 1]].as_slice();
        if !(curr.len() == 0 || prev.len() == 0) {
            mark_columns(graph, prev, curr, &mut out);
        }
        assert forall|x: (usize, usize)| #[trigger] out@.contains(x) <==> exists|v: int| 0 <= v < w + 1 && #[trigger] marked_between(
            *graph,
            graph.columns@[col_indices@[v] as int]@,
            graph.columns@[col_indices@[v + 1] as int]@,
            x,
        ) by {
            if marked_between(*graph, prev@, curr@, x) {
                assert(marked_between(
                    *graph,
                    graph.columns@[col_indices@[w as int] as int]@,
                    graph.columns@[col_indices@[w + 1] as int]@,
                    x,
                ));
            }
        }
        w = w + 1;
    }
    out
}

} // verus!
