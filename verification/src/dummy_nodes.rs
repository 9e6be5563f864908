//! Long edges split by dummy nodes, so that an edge that went forward over
//! several columns becomes a chain of edges between adjacent columns.
use vstd::prelude::*;
use crate::layout::LayoutEdge;
use crate::layout_graph::{dummy_at, lemma_filter_no_dup, lists_consistent, LayoutGraph};

verus! {

/// The rank of edge `e`'s target less the rank of its source.
pub open spec fn span(g: LayoutGraph, e: int) -> int {
    g.nodes@[g.edges@[e].to_node as int].rank - g.nodes@[g.edges@[e].from_node as int].rank
}

/// Holds of every value but `x`.
pub open spec fn other_than(x: usize) -> spec_fn(usize) -> bool {
    |y: usize| y != x
}

/// Edge `i` (of `0 ..= k`) of the chain that replaces `ed` through the
/// dummy nodes `n .. n + k`: the first keeps the source and its port, the
/// last the target and its port; none has an id.
pub open spec fn chain_edge(ed: LayoutEdge, n: int, k: int, i: int) -> LayoutEdge {
    LayoutEdge {
        id: 0,
        from_node: if i == 0 { ed.from_node } else { (n + i - 1) as usize },
        to_node: if i == k { ed.to_node } else { (n + i) as usize },
        from_port: if i == 0 { ed.from_port } else { None },
        to_port: if i == k { ed.to_port } else { None },
    }
}

/// `b` is `a` with edge `e` split: one dummy node is added for each rank
/// strictly between the edge's ends, in rank order, and a chain of new
/// edges runs from the source through them to the target; the edge keeps
/// its place among the edges but leaves the lists of its ends.
pub open spec fn split_step(a: LayoutGraph, b: LayoutGraph, e: int) -> bool {
    let ed = a.edges@[e];
    let u = ed.from_node as int;
    let w = ed.to_node as int;
    let fr = a.nodes@[u].rank as int;
    let k = a.nodes@[w].rank - fr - 1;
    let n = a.n();
    let m = a.edges@.len() as int;
    &&& b.nodes@.len() == n + k
    &&& b.nodes@.take(n) == a.nodes@
    &&& forall|i: int| 0 <= i < k ==> dummy_at(#[trigger] b.nodes@[n + i], (n + i) as usize, (fr + 1 + i) as i32)
    &&& b.edges@.len() == m + k + 1
    &&& b.edges@.take(m) == a.edges@
    &&& forall|i: int| 0 <= i <= k ==> #[trigger] b.edges@[m + i] == chain_edge(ed, n, k, i)
    &&& b.out_edges@.len() == n + k
    &&& b.in_edges@.len() == n + k
    &&& forall|v: int| 0 <= v < n ==> (#[trigger] b.out_edges@[v])@
        == if v == u { a.out_edges@[v]@.push(m as usize).filter(other_than(e as usize)) } else { a.out_edges@[v]@ }
    &&& forall|v: int| 0 <= v < n ==> (#[trigger] b.in_edges@[v])@
        == if v == w { a.in_edges@[v]@.push((m + k) as usize).filter(other_than(e as usize)) } else { a.in_edges@[v]@ }
    &&& forall|i: int| 0 <= i < k ==> (#[trigger] b.out_edges@[n + i])@ == seq![(m + i + 1) as usize]
    &&& forall|i: int| 0 <= i < k ==> (#[trigger] b.in_edges@[n + i])@ == seq![(m + i) as usize]
    &&& b.columns@ == a.columns@
    &&& b.id_to_idx@ == a.id_to_idx@
    &&& b.port_map@ == a.port_map@
}

/// The entries of `list` other than `x`, in order.
fn without(list: &Vec<usize>, x: usize) -> (r: Vec<usize>)
    ensures
        r@ == list@.filter(other_than(x)),
{
    let mut r: Vec<usize> = Vec::new();
    let mut i: usize = 0;
    while i < list.len()
        invariant
            0 <= i <= list@.len(),
            r@ == list@.take(i as int).filter(other_than(x)),
        decreases list@.len() - i,
    {
        proof {
            assert(list@.take(i + 1) == list@.take(i as int).push(list@[i as int]));
            list@.take(i as int).lemma_filter_push(list@[i as int], other_than(x));
        }
        if list[i] != x {
            r.push(list[i]);
        }
        i = i + 1;
    }
    proof {
        assert(list@.take(list@.len() as int) == list@);
    }
    r
}

/// Splits edge `e`, which spans more than one rank (see [`split_step`]).
fn split_edge(graph: &mut LayoutGraph, e: usize)
    requires
        old(graph).well_formed(),
        lists_consistent(*old(graph)),
        e < old(graph).edges@.len(),
        span(*old(graph), e as int) > 1,
    ensures
        split_step(*old(graph), *final(graph), e as int),
        final(graph).well_formed(),
        lists_consistent(*final(graph)),
{
    let ghost a = *graph;
    let n = graph.nodes.len();
    let m = graph.edges.len();
    let from = graph.edges[e].from_node;
    let to = graph.edges[e].to_node;
    let from_port = graph.edges[e].from_port;
    let to_port = graph.edges[e].to_port;
    let fr = graph.nodes[from].rank;
    let tr = graph.nodes[to].rank;
    let ghost ed = a.edges@[e as int];
    let ghost k: int = tr - fr - 1;
    let mut prev = from;
    let mut rank = fr + 1;
    while rank < tr
        invariant
            a == *old(graph),
            a.well_formed(),
            n == a.n(),
            m == a.edges@.len(),
            e < m,
            ed == a.edges@[e as int],
            from == ed.from_node,
            to == ed.to_node,
            from_port == ed.from_port,
            to_port == ed.to_port,
            from < n,
            to < n,
            fr == a.nodes@[from as int].rank,
            tr == a.nodes@[to as int].rank,
            k == tr - fr - 1,
            k >= 1,
            fr + 1 <= rank <= tr,
            graph.well_formed(),
            lists_consistent(*graph),
            graph.nodes@.len() == n + (rank - fr - 1),
            graph.nodes@.take(n as int) == a.nodes@,
            forall|i: int| 0 <= i < rank - fr - 1 ==> dummy_at(#[trigger] graph.nodes@[n + i], (n + i) as usize, (fr + 1 + i) as i32),
            graph.edges@.len() == m + (rank - fr - 1),
            graph.edges@.take(m as int) == a.edges@,
            forall|i: int| 0 <= i < rank - fr - 1 ==> #[trigger] graph.edges@[m + i] == chain_edge(ed, n as int, k, i),
            prev == if rank == fr + 1 { from as int } else { n + (rank - fr - 1) - 1 },
            forall|v: int| 0 <= v < n ==> (#[trigger] graph.out_edges@[v])@
                == if v == from && rank > fr + 1 { a.out_edges@[v]@.push(m) } else { a.out_edges@[v]@ },
            forall|v: int| 0 <= v < n ==> (#[trigger] graph.in_edges@[v])@ == a.in_edges@[v]@,
            forall|i: int| 0 <= i < rank - fr - 1 ==> (#[trigger] graph.out_edges@[n + i])@
                == if i < rank - fr - 2 { seq![(m + i + 1) as usize] } else { Seq::<usize>::empty() },
            forall|i: int| 0 <= i < rank - fr - 1 ==> (#[trigger] graph.in_edges@[n + i])@ == seq![(m + i) as usize],
            graph.columns@ == a.columns@,
            graph.id_to_idx@ == a.id_to_idx@,
            graph.port_map@ == a.port_map@,
        decreases tr - rank,
    {
        let ghost g1 = *graph;
        let ghost j: int = rank - fr - 1;
        let d = graph.add_dummy_node(rank);
        let ghost g2 = *graph;
        if prev == from {
            graph.push_edge(LayoutEdge { id: 0, from_node: prev, to_node: d, from_port, to_port: None });
        } else {
            graph.add_dummy_edge(prev, d);
        }
        proof {
            assert(d == n + j);
            assert(graph.nodes@ == g2.nodes@);
            assert(graph.nodes@.take(n as int) == a.nodes@) by {
                assert(g2.nodes@.drop_last() == g1.nodes@);
                assert(graph.nodes@.take(n as int) == g1.nodes@.take(n as int));
            }
            assert forall|i: int| 0 <= i < j + 1 implies dummy_at(#[trigger] graph.nodes@[n + i], (n + i) as usize, (fr + 1 + i) as i32) by {
                if i < j {
                    assert(graph.nodes@[n + i] == g1.nodes@[n + i]);
                }
            }
            assert(graph.edges@.take(m as int) == a.edges@) by {
                assert(graph.edges@.take(m as int) == g1.edges@.take(m as int));
            }
            assert forall|i: int| 0 <= i < j + 1 implies #[trigger] graph.edges@[m + i] == chain_edge(ed, n as int, k, i) by {
                if i < j {
                    assert(graph.edges@[m + i] == g1.edges@[m + i]);
                }
            }
            assert forall|v: int| 0 <= v < n implies (#[trigger] graph.out_edges@[v])@
                == if v == from && rank + 1 > fr + 1 { a.out_edges@[v]@.push(m) } else { a.out_edges@[v]@ } by {
                assert(g2.out_edges@[v] == g1.out_edges@[v]);
            }
            assert forall|v: int| 0 <= v < n implies (#[trigger] graph.in_edges@[v])@ == a.in_edges@[v]@ by {
                assert(g2.in_edges@[v] == g1.in_edges@[v]);
            }
            assert forall|i: int| 0 <= i < j + 1 implies (#[trigger] graph.out_edges@[n + i])@
                == if i < j { seq![(m + i + 1) as usize] } else { Seq::<usize>::empty() } by {
                if i < j {
                    assert(g2.out_edges@[n + i] == g1.out_edges@[n + i]);
                } else {
                    assert(g2.out_edges@[n + i] == g2.out_edges@.last());
                }
                if i == j - 1 {
                    assert(g1.out_edges@[n + i]@ == Seq::<usize>::empty());
                    assert(graph.out_edges@[n + i]@ == Seq::<usize>::empty().push((m + j) as usize));
                }
            }
            assert forall|i: int| 0 <= i < j + 1 implies (#[trigger] graph.in_edges@[n + i])@ == seq![(m + i) as usize] by {
                if i < j {
                    assert(g2.in_edges@[n + i] == g1.in_edges@[n + i]);
                } else {
                    assert(g2.in_edges@[n + i] == g2.in_edges@.last());
                    assert(graph.in_edges@[n + i]@ == Seq::<usize>::empty().push((m + j) as usize));
                }
            }
        }
        prev = d;
        rank = rank + 1;
    }
    let ghost g3 = *graph;
    graph.push_edge(LayoutEdge { id: 0, from_node: prev, to_node: to, from_port: None, to_port });
    let ghost g4 = *graph;
    let out_list = without(&graph.out_edges[from], e);
    let in_list = without(&graph.in_edges[to], e);
    graph.out_edges.set(from, out_list);
    graph.in_edges.set(to, in_list);
    proof {
        let g = *graph;
        let pout = other_than(e);
        let lo = g4.out_edges@[from as int]@;
        let li = g4.in_edges@[to as int]@;
        assert(prev == n + k - 1);
        assert(from != to);
        assert(g.out_edges@ == g4.out_edges@.update(from as int, out_list));
        assert(g.in_edges@ == g4.in_edges@.update(to as int, in_list));
        lemma_filter_no_dup(lo, pout);
        lemma_filter_no_dup(li, pout);
        assert(g4.edges@[e as int] == ed) by {
            assert(g4.edges@[e as int] == g3.edges@[e as int]);
            assert(g3.edges@.take(m as int)[e as int] == g3.edges@[e as int]);
        }
        // the chain and the new lists
        assert(g.edges@.take(m as int) == a.edges@) by {
            assert(g.edges@.take(m as int) == g3.edges@.take(m as int));
        }
        assert forall|i: int| 0 <= i <= k implies #[trigger] g.edges@[m + i] == chain_edge(ed, n as int, k, i) by {
            if i < k {
                assert(g.edges@[m + i] == g3.edges@[m + i]);
            }
        }
        assert forall|v: int| 0 <= v < n implies (#[trigger] g.out_edges@[v])@
            == if v == from { a.out_edges@[v]@.push(m).filter(pout) } else { a.out_edges@[v]@ } by {
            assert(g4.out_edges@[v]@ == g3.out_edges@[v]@);
        }
        assert forall|v: int| 0 <= v < n implies (#[trigger] g.in_edges@[v])@
            == if v == to { a.in_edges@[v]@.push((m + k) as usize).filter(pout) } else { a.in_edges@[v]@ } by {
            if v != to {
                assert(g4.in_edges@[v]@ == g3.in_edges@[v]@);
            }
        }
        assert forall|i: int| 0 <= i < k implies (#[trigger] g.out_edges@[n + i])@ == seq![(m + i + 1) as usize] by {
            if i == k - 1 {
                assert(g3.out_edges@[n + i]@ == Seq::<usize>::empty());
                assert(g4.out_edges@[n + i]@ == Seq::<usize>::empty().push((m + k) as usize));
            } else {
                assert(g4.out_edges@[n + i]@ == g3.out_edges@[n + i]@);
            }
        }
        assert forall|i: int| 0 <= i < k implies (#[trigger] g.in_edges@[n + i])@ == seq![(m + i) as usize] by {
            assert(g4.in_edges@[n + i]@ == g3.in_edges@[n + i]@);
        }
        assert(split_step(a, g, e as int));
        // the graph stays well formed
        assert forall|v: int, q: int| 0 <= v < g.n() && 0 <= q < g.out_edges@[v]@.len() implies {
            &&& #[trigger] g.out_edges@[v]@[q] < g.edges@.len()
            &&& g.edges@[g.out_edges@[v]@[q] as int].from_node == v
        } by {
            if v == from {
                let x = g.out_edges@[v]@[q];
                assert(lo.filter(pout).contains(x));
                let i = choose|i: int| 0 <= i < lo.len() && lo[i] == x;
                assert(g4.out_edges@[v]@[i] == x);
            } else {
                assert(g.out_edges@[v] == g4.out_edges@[v]);
                assert(g4.out_edges@[v]@[q] == g.out_edges@[v]@[q]);
            }
        }
        assert forall|v: int, q: int| 0 <= v < g.n() && 0 <= q < g.in_edges@[v]@.len() implies {
            &&& #[trigger] g.in_edges@[v]@[q] < g.edges@.len()
            &&& g.edges@[g.in_edges@[v]@[q] as int].to_node == v
        } by {
            if v == to {
                let x = g.in_edges@[v]@[q];
                assert(li.filter(pout).contains(x));
                let i = choose|i: int| 0 <= i < li.len() && li[i] == x;
                assert(g4.in_edges@[v]@[i] == x);
            } else {
                assert(g.in_edges@[v] == g4.in_edges@[v]);
                assert(g4.in_edges@[v]@[q] == g.in_edges@[v]@[q]);
            }
        }
        assert(g.well_formed());
        // and its lists consistent
        assert forall|v: int, q: int| 0 <= v < g.n() && 0 <= q < g.out_edges@[v]@.len()
            implies g.in_edges@[g.edges@[#[trigger] g.out_edges@[v]@[q] as int].to_node as int]@.contains(g.out_edges@[v]@[q]) by {
            let x = g.out_edges@[v]@[q];
            let i: int = if v == from {
                assert(lo.filter(pout).contains(x));
                choose|i: int| 0 <= i < lo.len() && lo[i] == x
            } else {
                assert(g.out_edges@[v] == g4.out_edges@[v]);
                q
            };
            assert(g4.out_edges@[v]@[i] == x);
            assert(x != e) by {
                if x == e {
                    assert(g4.edges@[x as int].from_node == v);
                }
            }
            let t = g4.edges@[x as int].to_node;
            assert(g4.in_edges@[t as int]@.contains(x));
            if t == to {
                assert(li.filter(pout).contains(x));
            } else {
                assert(g.in_edges@[t as int] == g4.in_edges@[t as int]);
            }
        }
        assert forall|v: int, q: int| 0 <= v < g.n() && 0 <= q < g.in_edges@[v]@.len()
            implies g.out_edges@[g.edges@[#[trigger] g.in_edges@[v]@[q] as int].from_node as int]@.contains(g.in_edges@[v]@[q]) by {
            let x = g.in_edges@[v]@[q];
            let i: int = if v == to {
                assert(li.filter(pout).contains(x));
                choose|i: int| 0 <= i < li.len() && li[i] == x
            } else {
                assert(g.in_edges@[v] == g4.in_edges@[v]);
                q
            };
            assert(g4.in_edges@[v]@[i] == x);
            assert(x != e) by {
                if x == e {
                    assert(g4.edges@[x as int].to_node == v);
                }
            }
            let f = g4.edges@[x as int].from_node;
            assert(g4.out_edges@[f as int]@.contains(x));
            if f == from {
                assert(lo.filter(pout).contains(x));
            } else {
                assert(g.out_edges@[f as int] == g4.out_edges@[f as int]);
            }
        }
        assert forall|v: int| 0 <= v < g.n() implies (#[trigger] g.out_edges@[v])@.no_duplicates() by {
            if v != from {
                assert(g.out_edges@[v] == g4.out_edges@[v]);
            }
        }
        assert forall|v: int| 0 <= v < g.n() implies (#[trigger] g.in_edges@[v])@.no_duplicates() by {
            if v != to {
                assert(g.in_edges@[v] == g4.in_edges@[v]);
            }
        }
    }
}

/// The edges among the first `k` of `g` that span more than one rank, in
/// index order.
pub open spec fn long_edges(g: LayoutGraph, k: int) -> Seq<usize>
    decreases k,
{
    if k <= 0 {
        Seq::empty()
    } else if span(g, k - 1) > 1 {
        long_edges(g, k - 1).push((k - 1) as usize)
    } else {
        long_edges(g, k - 1)
    }
}

/// `gs` runs from `g0` to `g`, each step splitting the next long edge of
/// `g0` (see [`split_step`]).
pub open spec fn split_all(g0: LayoutGraph, gs: Seq<LayoutGraph>, g: LayoutGraph) -> bool {
    let long = long_edges(g0, g0.edges@.len() as int);
    &&& gs.len() == long.len() + 1
    &&& gs[0] == g0
    &&& gs.last() == g
    &&& forall|i: int| 0 <= i < long.len() ==> split_step(gs[i], #[trigger] gs[i + 1], long[i] as int)
}

/// `x` is one of the entries of `long` from `i` on.
pub open spec fn pending_long(long: Seq<usize>, i: int, x: usize) -> bool {
    exists|p: int| i <= p < long.len() && #[trigger] long[p] == x
}

/// Every edge in the lists of `g` spans at most one rank, but the entries
/// of `long` from `i` on.
pub open spec fn spans_ok(g: LayoutGraph, long: Seq<usize>, i: int) -> bool {
    forall|v: int, q: int| 0 <= v < g.n() && 0 <= q < g.out_edges@[v]@.len()
        ==> span(g, #[trigger] g.out_edges@[v]@[q] as int) <= 1 || pending_long(long, i, g.out_edges@[v]@[q])
}

proof fn lemma_long_edges(g: LayoutGraph, k: int)
    requires
        0 <= k <= usize::MAX,
    ensures
        forall|p: int| 0 <= p < long_edges(g, k).len() ==> #[trigger] long_edges(g, k)[p] < k && span(g, long_edges(g, k)[p] as int) > 1,
        forall|p: int, q: int| 0 <= p < q < long_edges(g, k).len() ==> #[trigger] long_edges(g, k)[p] < #[trigger] long_edges(g, k)[q],
        forall|e: usize| e < k && span(g, e as int) > 1 ==> #[trigger] long_edges(g, k).contains(e),
    decreases k,
{
    if k > 0 {
        lemma_long_edges(g, k - 1);
        let t = long_edges(g, k - 1);
        let l = long_edges(g, k);
        if span(g, k - 1) > 1 {
            assert(l == t.push((k - 1) as usize));
            assert forall|p: int| 0 <= p < l.len() implies #[trigger] l[p] < k && span(g, l[p] as int) > 1 by {
                if p < t.len() {
                    assert(l[p] == t[p]);
                }
            }
            assert forall|p: int, q: int| 0 <= p < q < l.len() implies #[trigger] l[p] < #[trigger] l[q] by {
                assert(l[p] == t[p]);
                if q < t.len() {
                    assert(l[q] == t[q]);
                }
            }
        } else {
            assert(l == t);
        }
        assert forall|e: usize| e < k && span(g, e as int) > 1 implies #[trigger] long_edges(g, k).contains(e) by {
            if e < k - 1 {
                assert(t.contains(e));
                let p = choose|p: int| 0 <= p < t.len() && t[p] == e;
                assert(long_edges(g, k)[p] == e);
            } else {
                assert(long_edges(g, k) == t.push(e));
                assert(long_edges(g, k)[t.len() as int] == e);
            }
        }
    }
}

proof fn lemma_split_keeps_prefix(a: LayoutGraph, b: LayoutGraph, e: int)
    requires
        a.well_formed(),
        0 <= e < a.edges@.len(),
        span(a, e) > 1,
        split_step(a, b, e),
        forall|x: int| 0 <= x < a.n() ==> 0 <= #[trigger] a.nodes@[x].rank,
    ensures
        b.nodes@.len() >= a.nodes@.len(),
        b.edges@.len() >= a.edges@.len(),
        forall|i: int| 0 <= i < a.nodes@.len() ==> #[trigger] b.nodes@[i] == a.nodes@[i],
        forall|i: int| 0 <= i < a.edges@.len() ==> #[trigger] b.edges@[i] == a.edges@[i],
        forall|x: int| 0 <= x < a.edges@.len() ==> #[trigger] span(b, x) == span(a, x),
        forall|i: int| a.nodes@.len() <= i < b.nodes@.len() ==> 0 <= #[trigger] b.nodes@[i].rank,
{
    let n = a.n();
    let m = a.edges@.len() as int;
    assert forall|i: int| 0 <= i < n implies #[trigger] b.nodes@[i] == a.nodes@[i] by {
        assert(b.nodes@.take(n)[i] == b.nodes@[i]);
    }
    assert forall|i: int| 0 <= i < m implies #[trigger] b.edges@[i] == a.edges@[i] by {
        assert(b.edges@.take(m)[i] == b.edges@[i]);
    }
    assert forall|x: int| 0 <= x < m implies #[trigger] span(b, x) == span(a, x) by {
        assert(b.edges@[x] == a.edges@[x]);
        assert(b.nodes@[a.edges@[x].from_node as int] == a.nodes@[a.edges@[x].from_node as int]);
        assert(b.nodes@[a.edges@[x].to_node as int] == a.nodes@[a.edges@[x].to_node as int]);
    }
    let fr = a.nodes@[a.edges@[e].from_node as int].rank as int;
    assert(0 <= fr);
    assert forall|i: int| n <= i < b.nodes@.len() implies 0 <= #[trigger] b.nodes@[i].rank by {
        let d = i - n;
        assert(dummy_at(b.nodes@[n + d], (n + d) as usize, (fr + 1 + d) as i32));
        assert(n + d == i);
        assert(0 < fr + 1 + d < i32::MAX);
    }
}

proof fn lemma_split_spans(a: LayoutGraph, b: LayoutGraph, long: Seq<usize>, i: int)
    requires
        a.well_formed(),
        0 <= i < long.len(),
        forall|p: int, q: int| 0 <= p < q < long.len() ==> #[trigger] long[p] < #[trigger] long[q],
        long[i] < a.edges@.len(),
        span(a, long[i] as int) > 1,
        split_step(a, b, long[i] as int),
        spans_ok(a, long, i),
        forall|x: int| 0 <= x < a.n() ==> 0 <= #[trigger] a.nodes@[x].rank,
    ensures
        spans_ok(b, long, i + 1),
{
    let e = long[i];
    let ed = a.edges@[e as int];
    let u = ed.from_node as int;
    let w = ed.to_node as int;
    let fr = a.nodes@[u].rank as int;
    let k = a.nodes@[w].rank - fr - 1;
    let n = a.n();
    let m = a.edges@.len() as int;
    assert(b.edges@.len() == b.edges.len());
    assert(a.edges@.len() == a.edges.len());
    assert(b.nodes@.len() == b.nodes.len());
    lemma_split_keeps_prefix(a, b, e as int);
    assert forall|v: int, q: int| 0 <= v < b.n() && 0 <= q < b.out_edges@[v]@.len()
        implies span(b, #[trigger] b.out_edges@[v]@[q] as int) <= 1 || pending_long(long, i + 1, b.out_edges@[v]@[q]) by {
        let x = b.out_edges@[v]@[q];
        assert(b.out_edges@[v]@.contains(x)) by {
            assert(b.out_edges@[v]@[q] == x);
        }
        if v < n {
            let la = a.out_edges@[v]@;
            let is_new = v == u && x == m;
            if !is_new {
                if v == u {
                    let lp = la.push(m as usize);
                    assert(b.out_edges@[v]@ == lp.filter(other_than(e)));
                    lemma_filter_no_dup_contains(lp, other_than(e), x);
                    crate::layout_graph::lemma_push_contains(la, m as usize, x);
                } else {
                    assert(b.out_edges@[v]@ == la);
                }
                assert(la.contains(x));
                let j = choose|j: int| 0 <= j < la.len() && la[j] == x;
                assert(a.out_edges@[v]@[j] == x);
                assert(x < m);
                assert(x != e) by {
                    if x == e {
                        assert(a.edges@[e as int].from_node == v);
                        if v == u {
                            assert(b.out_edges@[v]@ == la.push(m as usize).filter(other_than(e)));
                            lemma_filter_no_dup_contains(la.push(m as usize), other_than(e), x);
                        }
                    }
                }
                if span(a, x as int) > 1 {
                    assert(pending_long(long, i, a.out_edges@[v]@[j]));
                    let p = choose|p: int| i <= p < long.len() && #[trigger] long[p] == x;
                    assert(p != i);
                    assert(pending_long(long, i + 1, x));
                }
            } else {
                assert(b.edges@[m + 0] == chain_edge(ed, n, k, 0));
                assert(b.nodes@[u] == a.nodes@[u]);
                assert(dummy_at(b.nodes@[n + 0], (n + 0) as usize, (fr + 1 + 0) as i32));
                assert(span(b, x as int) == 1);
            }
        } else {
            let d = v - n;
            assert(b.out_edges@[n + d]@ == seq![(m + d + 1) as usize]);
            assert(n + d == v);
            assert(q == 0);
            assert(x == m + d + 1);
            assert(b.edges@[m + (d + 1)] == chain_edge(ed, n, k, d + 1));
            assert(dummy_at(b.nodes@[n + d], (n + d) as usize, (fr + 1 + d) as i32));
            if d + 1 < k {
                assert(dummy_at(b.nodes@[n + (d + 1)], (n + (d + 1)) as usize, (fr + 1 + (d + 1)) as i32));
            } else {
                assert(b.nodes@[w] == a.nodes@[w]);
            }
        }
    }
}

proof fn lemma_filter_no_dup_contains(s: Seq<usize>, p: spec_fn(usize) -> bool, x: usize)
    ensures
        s.filter(p).contains(x) ==> s.contains(x) && p(x),
{
    if s.filter(p).contains(x) {
        let i = choose|i: int| 0 <= i < s.filter(p).len() && s.filter(p)[i] == x;
        s.lemma_filter_pred(p, i);
        s.lemma_filter_contains_rev(p, x);
    }
}

/// Splits every edge that spans more than one rank, in index order (see
/// [`split_step`] and [`split_all`]); after this every edge left in the
/// lists spans at most one rank.
pub fn insert_dummy_nodes(graph: &mut LayoutGraph)
    requires
        old(graph).well_formed(),
        lists_consistent(*old(graph)),
        forall|i: int| 0 <= i < old(graph).n() ==> 0 <= #[trigger] old(graph).nodes@[i].rank,
    ensures
        final(graph).well_formed(),
        lists_consistent(*final(graph)),
        exists|gs: Seq<LayoutGraph>| split_all(*old(graph), gs, *final(graph)),
        forall|v: int, q: int| 0 <= v < final(graph).n() && 0 <= q < final(graph).out_edges@[v]@.len()
            ==> span(*final(graph), #[trigger] final(graph).out_edges@[v]@[q] as int) <= 1,
        forall|w: int, q: int| 0 <= w < final(graph).n() && 0 <= q < final(graph).in_edges@[w]@.len()
            ==> span(*final(graph), #[trigger] final(graph).in_edges@[w]@[q] as int) <= 1,
{
    let ghost g0 = *graph;
    let m0 = graph.edges.len();
    let mut to_split: Vec<usize> = Vec::new();
    let mut ei: usize = 0;
    while ei < m0
        invariant
            *graph == g0,
            g0.well_formed(),
            m0 == g0.edges@.len(),
            forall|i: int| 0 <= i < g0.n() ==> 0 <= #[trigger] g0.nodes@[i].rank,
            0 <= ei <= m0,
            to_split@ == long_edges(g0, ei as int),
        decreases m0 - ei,
    {
        let from_rank = graph.nodes[graph.edges[ei].from_node].rank;
        let to_rank = graph.nodes[graph.edges[ei].to_node].rank;
        if to_rank - from_rank > 1 {
            to_split.push(ei);
        }
        ei = ei + 1;
    }
    let ghost long = to_split@;
    proof {
        lemma_long_edges(g0, m0 as int);
        assert forall|v: int, q: int| 0 <= v < g0.n() && 0 <= q < g0.out_edges@[v]@.len()
            implies span(g0, #[trigger] g0.out_edges@[v]@[q] as int) <= 1 || pending_long(long, 0, g0.out_edges@[v]@[q]) by {
            let x = g0.out_edges@[v]@[q];
            if span(g0, x as int) > 1 {
                assert(long.contains(x));
                let p = choose|p: int| 0 <= p < long.len() && long[p] == x;
                assert(pending_long(long, 0, x));
            }
        }
    }
    let ghost mut gs: Seq<LayoutGraph> = seq![g0];
    let mut idx: usize = 0;
    while idx < to_split.len()
        invariant
            to_split@ == long,
            long == long_edges(g0, m0 as int),
            m0 == g0.edges@.len(),
            forall|p: int| 0 <= p < long.len() ==> #[trigger] long[p] < m0 && span(g0, long[p] as int) > 1,
            forall|p: int, q: int| 0 <= p < q < long.len() ==> #[trigger] long[p] < #[trigger] long[q],
            0 <= idx <= long.len(),
            graph.well_formed(),
            lists_consistent(*graph),
            forall|i: int| 0 <= i < graph.n() ==> 0 <= #[trigger] graph.nodes@[i].rank,
            graph.edges@.len() >= m0,
            forall|x: int| 0 <= x < m0 ==> #[trigger] span(*graph, x) == span(g0, x),
            spans_ok(*graph, long, idx as int),
            gs.len() == idx + 1,
            gs[0] == g0,
            gs.last() == *graph,
            forall|i: int| 0 <= i < idx ==> split_step(gs[i], #[trigger] gs[i + 1], long[i] as int),
        decreases long.len() - idx,
    {
        let e = to_split[idx];
        let ghost before = *graph;
        proof {
            assert(span(before, e as int) == span(g0, e as int));
        }
        split_edge(graph, e);
        proof {
            lemma_split_keeps_prefix(before, *graph, e as int);
            lemma_split_spans(before, *graph, long, idx as int);
            let gs0 = gs;
            gs = gs.push(*graph);
            assert forall|i: int| 0 <= i < idx + 1 implies split_step(gs[i], #[trigger] gs[i + 1], long[i] as int) by {
                if i < idx {
                    assert(gs[i] == gs0[i] && gs[i + 1] == gs0[i + 1]);
                } else {
                    assert(gs[i] == gs0.last());
                }
            }
            assert forall|x: int| 0 <= x < m0 implies #[trigger] span(*graph, x) == span(g0, x) by {
                assert(span(*graph, x) == span(before, x));
            }
        }
        idx = idx + 1;
    }
    proof {
        assert(split_all(g0, gs, *graph));
        assert forall|v: int, q: int| 0 <= v < graph.n() && 0 <= q < graph.out_edges@[v]@.len()
            implies span(*graph, #[trigger] graph.out_edges@[v]@[q] as int) <= 1 by {
            assert(spans_ok(*graph, long, long.len() as int));
            if pending_long(long, long.len() as int, graph.out_edges@[v]@[q]) {
                let p = choose|p: int| long.len() <= p < long.len() && #[trigger] long[p] == graph.out_edges@[v]@[q];
            }
        }
        assert forall|w: int, q: int| 0 <= w < graph.n() && 0 <= q < graph.in_edges@[w]@.len()
            implies span(*graph, #[trigger] graph.in_edges@[w]@[q] as int) <= 1 by {
            let e = graph.in_edges@[w]@[q];
            let v = graph.edges@[e as int].from_node;
            assert(graph.out_edges@[v as int]@.contains(e));
            let q2 = choose|q2: int| 0 <= q2 < graph.out_edges@[v as int]@.len() && graph.out_edges@[v as int]@[q2] == e;
            assert(span(*graph, graph.out_edges@[v as int]@[q2] as int) <= 1);
        }
    }
}

} // verus!
