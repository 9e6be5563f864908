//! The ranking phase of the layout: each node gets a column (rank). The
//! first ranks are the topological generations; a relaxation pass then
//! pulls targets towards their sources; last, ranks are made to start at
//! zero and nodes with as many entering as leaving edges move to the least
//! filled column that their neighbours allow.
use vstd::prelude::*;
use crate::layout_graph::{components_of, generations_split, joined_back, linked, lists_consistent, partitions_nodes, LayoutGraph, LayoutNode};

verus! {

/// Only the ranks of the two nodes may differ.
pub open spec fn same_but_rank(a: LayoutNode, b: LayoutNode) -> bool {
    LayoutNode { rank: 0, ..a } == LayoutNode { rank: 0, ..b }
}

/// The two graphs differ in the ranks of their nodes at most.
pub open spec fn reranked(a: LayoutGraph, b: LayoutGraph) -> bool {
    &&& a.nodes@.len() == b.nodes@.len()
    &&& forall|i: int| 0 <= i < a.nodes@.len() ==> same_but_rank(#[trigger] a.nodes@[i], b.nodes@[i])
    &&& a.edges@ == b.edges@
    &&& a.columns@ == b.columns@
    &&& a.out_edges@ == b.out_edges@
    &&& a.in_edges@ == b.in_edges@
    &&& a.id_to_idx@ == b.id_to_idx@
    &&& a.port_map@ == b.port_map@
}

/// Each node of list `gi` of `r` has rank `gi`.
pub open spec fn ranked_by(g: LayoutGraph, r: Seq<Vec<usize>>) -> bool {
    forall|gi: int, k: int| 0 <= gi < r.len() && 0 <= k < r[gi]@.len() ==> g.nodes@[#[trigger] r[gi]@[k] as int].rank == gi
}

proof fn lemma_lists_bounded(g: LayoutGraph, r: Seq<Vec<usize>>, n: usize)
    requires
        n == g.n(),
        partitions_nodes(g, r),
        forall|gi: int| 0 <= gi < r.len() ==> (#[trigger] r[gi])@.len() > 0,
    ensures
        r.len() <= n,
{
    let firsts = Seq::new(r.len(), |gi: int| r[gi]@[0]);
    assert forall|a: int, b: int| 0 <= a < firsts.len() && 0 <= b < firsts.len() && a != b implies firsts[a] != firsts[b] by {
        assert(r[a]@.len() > 0 && r[b]@.len() > 0);
        assert(r[a]@[0] != r[b]@[0]);
    }
    assert forall|i: int| 0 <= i < firsts.len() implies #[trigger] firsts[i] < n by {
        assert(r[i]@.len() > 0);
        assert(r[i]@[0] < n);
    }
    crate::layout_graph::lemma_distinct_bounded(firsts, n);
}

/// Gives each node the index of its topological generation as rank:
/// the length of the longest path that reaches it from a node without
/// entering edges; the nodes on or after a cycle share the rank after
/// the last generation.
pub fn initial_ranking(graph: &mut LayoutGraph)
    requires
        old(graph).well_formed(),
        lists_consistent(*old(graph)),
        old(graph).n() <= i32::MAX,
    ensures
        reranked(*final(graph), *old(graph)),
        exists|r: Seq<Vec<usize>>, m: int|
            partitions_nodes(*old(graph), r) && generations_split(*old(graph), r, m) && ranked_by(*final(graph), r),
{
    let gens = graph.topological_generations();
    let ghost g0 = *graph;
    let ghost m = choose|m: int| generations_split(g0, gens@, m);
    let n = graph.nodes.len();
    proof {
        lemma_lists_bounded(g0, gens@, n);
    }
    let mut gi: usize = 0;
    while gi < gens.len()
        invariant
            g0 == *old(graph),
            n == g0.n(),
            n <= i32::MAX,
            partitions_nodes(g0, gens@),
            gens@.len() <= n,
            0 <= gi <= gens@.len(),
            reranked(*graph, g0),
            forall|gj: int, k: int| 0 <= gj < gi && 0 <= k < gens@[gj]@.len() ==> graph.nodes@[#[trigger] gens@[gj]@[k] as int].rank == gj,
        decreases gens@.len() - gi,
    {
        let mut k: usize = 0;
        let rank = gi as i32;
        while k < gens[gi].len()
            invariant
                g0 == *old(graph),
                n == g0.n(),
                partitions_nodes(g0, gens@),
                0 <= gi < gens@.len(),
                rank == gi,
                0 <= k <= gens@[gi as int]@.len(),
                reranked(*graph, g0),
                forall|gj: int, q: int| 0 <= gj < gi && 0 <= q < gens@[gj]@.len() ==> graph.nodes@[#[trigger] gens@[gj]@[q] as int].rank == gj,
                forall|q: int| 0 <= q < k ==> graph.nodes@[#[trigger] gens@[gi as int]@[q] as int].rank == gi,
            decreases gens@[gi as int]@.len() - k,
        {
            let v = gens[gi][k];
            proof {
                assert(v < n);
            }
            let ghost before = graph.nodes@;
            graph.nodes[v].rank = rank;
            proof {
                assert forall|i: int| 0 <= i < n && i != v implies #[trigger] graph.nodes@[i] == before[i] by {}
                assert forall|gj: int, q: int| 0 <= gj < gi && 0 <= q < gens@[gj]@.len() implies graph.nodes@[#[trigger] gens@[gj]@[q] as int].rank == gj by {
                    assert(gens@[gj]@[q] != gens@[gi as int]@[k as int]);
                    assert(gens@[gj]@[q] < n);
                }
                assert forall|q: int| 0 <= q < k + 1 implies graph.nodes@[#[trigger] gens@[gi as int]@[q] as int].rank == gi by {
                    if q < k {
                        assert(gens@[gi as int]@[q] != gens@[gi as int]@[k as int]);
                        assert(gens@[gi as int]@[q] < n);
                    }
                }
                assert forall|i: int| 0 <= i < graph.nodes@.len() implies same_but_rank(#[trigger] graph.nodes@[i], g0.nodes@[i]) by {
                    assert(same_but_rank(before[i], g0.nodes@[i]));
                }
            }
            k = k + 1;
        }
        gi = gi + 1;
    }
    proof {
        assert(partitions_nodes(g0, gens@) && generations_split(g0, gens@, m) && ranked_by(*graph, gens@));
    }
}

/// The ranks of the nodes, by index.
pub open spec fn ranks_of(g: LayoutGraph) -> Seq<int> {
    Seq::new(g.nodes@.len(), |i: int| g.nodes@[i].rank as int)
}

/// One more than the highest rank (in `rk`) among the sources of the edges
/// of `list`; zero for an empty list.
pub open spec fn pred_bound(g: LayoutGraph, rk: Seq<int>, list: Seq<usize>) -> int
    decreases list.len(),
{
    if list.len() == 0 {
        0
    } else {
        let c = rk[g.edges@[list.last() as int].from_node as int] + 1;
        if list.len() == 1 {
            c
        } else {
            let b = pred_bound(g, rk, list.drop_last());
            if c > b { c } else { b }
        }
    }
}

/// Edge `e` considered once: where its target lies more than one rank
/// after its source, the target moves to one past its highest source, if
/// that is lower. The flag tells whether a rank changed.
pub open spec fn relax_edge(g: LayoutGraph, rk: Seq<int>, e: int) -> (Seq<int>, bool) {
    let u = g.edges@[e].from_node as int;
    let w = g.edges@[e].to_node as int;
    if rk[w] - rk[u] - 1 > 0 {
        let nb = pred_bound(g, rk, g.in_edges@[w]@);
        if nb < rk[w] {
            (rk.update(w, nb), true)
        } else {
            (rk, false)
        }
    } else {
        (rk, false)
    }
}

/// The first `k` edges considered in order; the flag tells whether any
/// rank changed.
pub open spec fn relax_round(g: LayoutGraph, rk: Seq<int>, k: int) -> (Seq<int>, bool)
    decreases k,
{
    if k <= 0 {
        (rk, false)
    } else {
        let prev = relax_round(g, rk, k - 1);
        let step = relax_edge(g, prev.0, k - 1);
        (step.0, prev.1 || step.1)
    }
}

/// Up to `t` rounds over all edges, stopping after the first round that
/// changes nothing.
pub open spec fn relax_rounds(g: LayoutGraph, rk: Seq<int>, t: nat) -> Seq<int>
    decreases t,
{
    if t == 0 {
        rk
    } else {
        let round = relax_round(g, rk, g.edges@.len() as int);
        if !round.1 {
            round.0
        } else {
            relax_rounds(g, round.0, (t - 1) as nat)
        }
    }
}

/// Every rank of `rk` lies in `0 ..= hi`.
pub open spec fn ranks_within(rk: Seq<int>, hi: int) -> bool {
    forall|i: int| 0 <= i < rk.len() ==> 0 <= #[trigger] rk[i] <= hi
}

proof fn lemma_relax_round_bounds(g: LayoutGraph, rk: Seq<int>, k: int)
    requires
        g.well_formed(),
        rk.len() == g.n(),
        ranks_within(rk, i32::MAX - 1),
        0 <= k <= g.edges@.len(),
    ensures
        relax_round(g, rk, k).0.len() == rk.len(),
        ranks_within(relax_round(g, rk, k).0, i32::MAX - 1),
        forall|i: int| 0 <= i < rk.len() ==> #[trigger] relax_round(g, rk, k).0[i] <= rk[i],
    decreases k,
{
    if k > 0 {
        lemma_relax_round_bounds(g, rk, k - 1);
        let prev = relax_round(g, rk, k - 1).0;
        let w = g.edges@[k - 1].to_node as int;
        lemma_pred_bound_nonneg(g, prev, g.in_edges@[w]@);
    }
}

proof fn lemma_pred_bound_nonneg(g: LayoutGraph, rk: Seq<int>, list: Seq<usize>)
    requires
        forall|i: int| 0 <= i < rk.len() ==> 0 <= #[trigger] rk[i],
        forall|k: int| 0 <= k < list.len() ==> 0 <= g.edges@[#[trigger] list[k] as int].from_node < rk.len(),
    ensures
        pred_bound(g, rk, list) >= 0,
    decreases list.len(),
{
    if list.len() > 1 {
        lemma_pred_bound_nonneg(g, rk, list.drop_last());
    }
    if list.len() > 0 {
        assert(0 <= g.edges@[list[list.len() - 1] as int].from_node < rk.len());
    }
}

proof fn lemma_relax_rounds_bounds(g: LayoutGraph, rk: Seq<int>, t: nat)
    requires
        g.well_formed(),
        rk.len() == g.n(),
        ranks_within(rk, i32::MAX - 1),
    ensures
        relax_rounds(g, rk, t).len() == rk.len(),
        ranks_within(relax_rounds(g, rk, t), i32::MAX - 1),
        forall|i: int| 0 <= i < rk.len() ==> #[trigger] relax_rounds(g, rk, t)[i] <= rk[i],
    decreases t,
{
    if t > 0 {
        let e = g.edges@.len() as int;
        lemma_relax_round_bounds(g, rk, e);
        let r1 = relax_round(g, rk, e).0;
        lemma_relax_rounds_bounds(g, r1, (t - 1) as nat);
    }
}

/// The number of relaxation rounds for `n` nodes: the floor of `50 * √n`,
/// computed exactly as the square root of `2500 * n` rounded down.
pub fn iteration_cap(n: usize) -> (r: usize)
    ensures
        r * r <= 2500 * n < (r + 1) * (r + 1),
{
    let x: u128 = 2500 * (n as u128);
    let mut r: u128 = 0;
    while (r + 1) * (r + 1) <= x
        invariant
            x == 2500 * n,
            x <= 2500 * 0xffff_ffff_ffff_ffffu128,
            r * r <= x,
            r < 0x80_0000_0000,
            (r + 1) * (r + 1) <= 0x80_0000_0001 * 0x80_0000_0001,
        decreases x - r * r,
    {
        assert(r + 1 < 0x80_0000_0000) by (nonlinear_arith)
            requires
                (r + 1) * (r + 1) <= x,
                x <= 2500 * 0xffff_ffff_ffff_ffffu128,
        {
            if r + 1 >= 0x80_0000_0000 {
                assert((r + 1) * (r + 1) >= 0x80_0000_0000 * 0x80_0000_0000);
            }
        }
        assert((r + 2) * (r + 2) <= 0x80_0000_0001 * 0x80_0000_0001) by (nonlinear_arith)
            requires
                r + 1 < 0x80_0000_0000,
        ;
        assert((r + 1) * (r + 1) > r * r) by (nonlinear_arith);
        r = r + 1;
    }
    let m: u128 = usize::MAX as u128;
    assert(r <= m) by (nonlinear_arith)
        requires
            r * r <= x,
            x == 2500 * n,
            n <= m,
            m >= 0xffff_ffff,
    {
        if r > m {
            assert(r * r > m * m);
            assert(m * m >= 0xffff_ffff * m);
        }
    }
    r as usize
}

/// Relaxation of the ranks: in each round, every edge whose target lies
/// more than one rank after its source moves the target to one past its
/// highest source, if that is lower; rounds repeat while one changes a
/// rank, at most [`iteration_cap`] of them. Ranks only fall.
pub fn network_simplex(graph: &mut LayoutGraph)
    requires
        old(graph).well_formed(),
        ranks_within(ranks_of(*old(graph)), i32::MAX - 1),
    ensures
        reranked(*final(graph), *old(graph)),
        exists|t: nat| t * t <= 2500 * old(graph).n() < (t + 1) * (t + 1)
            && ranks_of(*final(graph)) == relax_rounds(*old(graph), ranks_of(*old(graph)), t),
        ranks_within(ranks_of(*final(graph)), i32::MAX - 1),
        forall|i: int| 0 <= i < old(graph).n() ==> #[trigger] final(graph).nodes@[i].rank <= old(graph).nodes@[i].rank,
{
    let ghost g0 = *graph;
    let ghost rk0 = ranks_of(g0);
    let n = graph.nodes.len();
    if n == 0 {
        proof {
            let t: nat = 0;
            assert(t * t == 0 && (t + 1) * (t + 1) == 1) by (nonlinear_arith)
                requires
                    t == 0,
            ;
            assert(t * t <= 2500 * g0.n() < (t + 1) * (t + 1));
            assert(ranks_of(*graph) == relax_rounds(g0, rk0, t));
        }
        return;
    }
    let max_iterations = iteration_cap(n);
    let mut iter: usize = 0;
    let mut done = false;
    while iter < max_iterations && !done
        invariant
            g0 == *old(graph),
            g0.well_formed(),
            n == g0.n(),
            0 <= iter <= max_iterations,
            reranked(*graph, g0),
            ranks_within(ranks_of(*graph), i32::MAX - 1),
            done ==> relax_rounds(g0, rk0, max_iterations as nat) == ranks_of(*graph),
            !done ==> relax_rounds(g0, rk0, max_iterations as nat) == relax_rounds(g0, ranks_of(*graph), (max_iterations - iter) as nat),
        decreases max_iterations - iter + (if done { 0int } else { 1int }),
    {
        let ghost rk_start = ranks_of(*graph);
        let mut improved = false;
        let mut ei: usize = 0;
        let ne = graph.edges.len();
        while ei < ne
            invariant
                g0 == *old(graph),
                g0.well_formed(),
                n == g0.n(),
                ne == g0.edges@.len(),
                0 <= ei <= ne,
                reranked(*graph, g0),
                rk_start.len() == n,
                ranks_within(rk_start, i32::MAX - 1),
                ranks_within(ranks_of(*graph), i32::MAX - 1),
                (ranks_of(*graph), improved) == relax_round(g0, rk_start, ei as int),
            decreases ne - ei,
        {
            let ghost rk = ranks_of(*graph);
            let u = graph.edges[ei].from_node;
            let w = graph.edges[ei].to_node;
            let from_rank = graph.nodes[u].rank;
            let to_rank = graph.nodes[w].rank;
            proof {
                assert(rk[u as int] == from_rank && rk[w as int] == to_rank);
                assert(0 <= rk[u as int] && 0 <= rk[w as int]);
            }
            let slack = to_rank - from_rank - 1;
            if slack > 0 {
                let list = &graph.in_edges[w];
                let mut best: i32 = 0;
                let mut j: usize = 0;
                while j < list.len()
                    invariant
                        g0.well_formed(),
                        reranked(*graph, g0),
                        n == g0.n(),
                        w < n,
                        list@ == g0.in_edges@[w as int]@,
                        rk == ranks_of(*graph),
                        ranks_within(rk, i32::MAX - 1),
                        0 <= j <= list@.len(),
                        best == pred_bound(g0, rk, list@.take(j as int)),
                        0 <= best <= i32::MAX,
                    decreases list@.len() - j,
                {
                    let src = graph.edges[list[j]].from_node;
                    proof {
                        assert(src < n);
                        assert(rk[src as int] == graph.nodes@[src as int].rank);
                        assert(0 <= rk[src as int] <= i32::MAX - 1);
                        let t = list@.take(j + 1);
                        assert(t.drop_last() == list@.take(j as int));
                        assert(t.last() == list@[j as int]);
                    }
                    let c = graph.nodes[src].rank + 1;
                    if j == 0 || c > best {
                        best = c;
                    }
                    j = j + 1;
                }
                proof {
                    assert(list@.take(list@.len() as int) == list@);
                }
                if best < to_rank {
                    let ghost before = *graph;
                    graph.nodes[w].rank = best;
                    improved = true;
                    proof {
                        assert(ranks_of(*graph) =~= rk.update(w as int, best as int));
                        assert forall|i: int| 0 <= i < graph.nodes@.len() implies same_but_rank(#[trigger] graph.nodes@[i], g0.nodes@[i]) by {
                            assert(same_but_rank(before.nodes@[i], g0.nodes@[i]));
                        }
                    }
                }
            }
            proof {
                assert(relax_round(g0, rk_start, ei + 1) == ({
                    let prev = relax_round(g0, rk_start, ei as int);
                    let step = relax_edge(g0, prev.0, ei as int);
                    (step.0, prev.1 || step.1)
                }));
            }
            ei = ei + 1;
        }
        proof {
            lemma_relax_round_bounds(g0, rk_start, ne as int);
        }
        if !improved {
            done = true;
        } else {
            iter = iter + 1;
        }
    }
    proof {
        let t = max_iterations as nat;
        if !done {
            assert(relax_rounds(g0, ranks_of(*graph), 0) == ranks_of(*graph));
        }
        lemma_relax_rounds_bounds(g0, rk0, t);
        assert forall|i: int| 0 <= i < g0.n() implies #[trigger] graph.nodes@[i].rank <= g0.nodes@[i].rank by {
            assert(ranks_of(*graph)[i] == graph.nodes@[i].rank);
            assert(rk0[i] == g0.nodes@[i].rank);
        }
    }
}

/// The lowest rank (in `rk`) among the nodes of `list`; zero for none.
pub open spec fn list_min(rk: Seq<int>, list: Seq<usize>) -> int
    decreases list.len(),
{
    if list.len() == 0 {
        0
    } else if list.len() == 1 {
        rk[list[0] as int]
    } else {
        let a = list_min(rk, list.drop_last());
        let b = rk[list.last() as int];
        if b < a { b } else { a }
    }
}

/// Each node of list `c` of `cs` has in `rk1` its rank in `rk0` less the
/// lowest rank of its list.
pub open spec fn lowered_by_lists(rk0: Seq<int>, cs: Seq<Vec<usize>>, rk1: Seq<int>) -> bool {
    &&& rk1.len() == rk0.len()
    &&& forall|c: int, k: int| 0 <= c < cs.len() && 0 <= k < cs[c]@.len()
        ==> rk1[#[trigger] cs[c]@[k] as int] == rk0[cs[c]@[k] as int] - list_min(rk0, cs[c]@)
}

proof fn lemma_list_min(rk: Seq<int>, list: Seq<usize>)
    requires
        list.len() > 0,
    ensures
        forall|k: int| 0 <= k < list.len() ==> list_min(rk, list) <= rk[#[trigger] list[k] as int],
        exists|k: int| 0 <= k < list.len() && list_min(rk, list) == rk[#[trigger] list[k] as int],
    decreases list.len(),
{
    if list.len() == 1 {
        assert(list_min(rk, list) == rk[list[0] as int]);
    } else {
        let t = list.drop_last();
        lemma_list_min(rk, t);
        assert forall|k: int| 0 <= k < list.len() implies list_min(rk, list) <= rk[#[trigger] list[k] as int] by {
            if k < t.len() {
                assert(list[k] == t[k]);
            }
        }
        let b = rk[list.last() as int];
        if b < list_min(rk, t) {
            assert(list_min(rk, list) == rk[list[list.len() - 1] as int]);
        } else {
            let k = choose|k: int| 0 <= k < t.len() && list_min(rk, t) == rk[#[trigger] t[k] as int];
            assert(list[k] == t[k]);
        }
    }
}

/// Lowers the ranks of each list of `components` so that the list's lowest
/// rank becomes zero.
fn lower_components(graph: &mut LayoutGraph, components: &Vec<Vec<usize>>)
    requires
        old(graph).well_formed(),
        components_of(*old(graph), components@, old(graph).n()),
        ranks_within(ranks_of(*old(graph)), i32::MAX - 1),
    ensures
        reranked(*final(graph), *old(graph)),
        lowered_by_lists(ranks_of(*old(graph)), components@, ranks_of(*final(graph))),
        ranks_within(ranks_of(*final(graph)), i32::MAX - 1),
{
    let ghost g0 = *graph;
    let ghost rk0 = ranks_of(g0);
    let ghost cs = components@;
    let n = graph.nodes.len();
    let mut c: usize = 0;
    while c < components.len()
        invariant
            g0 == *old(graph),
            n == g0.n(),
            cs == components@,
            components_of(g0, cs, n as int),
            ranks_within(rk0, i32::MAX - 1),
            rk0 == ranks_of(g0),
            0 <= c <= cs.len(),
            reranked(*graph, g0),
            ranks_within(ranks_of(*graph), i32::MAX - 1),
            forall|d: int, k: int| 0 <= d < c && 0 <= k < cs[d]@.len()
                ==> ranks_of(*graph)[#[trigger] cs[d]@[k] as int] == rk0[cs[d]@[k] as int] - list_min(rk0, cs[d]@),
            forall|d: int, k: int| c <= d < cs.len() && 0 <= k < cs[d]@.len()
                ==> ranks_of(*graph)[#[trigger] cs[d]@[k] as int] == rk0[cs[d]@[k] as int],
        decreases cs.len() - c,
    {
        let comp = &components[c];
        let ghost list = comp@;
        proof {
            lemma_list_min(rk0, list);
        }
        let mut mn: i32 = graph.nodes[comp[0]].rank;
        proof {
            assert(cs[c as int]@[0] < n);
            assert(ranks_of(*graph)[comp@[0] as int] == rk0[comp@[0] as int]);
            assert(list.take(1).len() == 1);
            assert(list.take(1)[0] == list[0]);
        }
        let mut j: usize = 1;
        while j < comp.len()
            invariant
                g0 == *old(graph),
                n == g0.n(),
                cs == components@,
                components_of(g0, cs, n as int),
                0 <= c < cs.len(),
                list == cs[c as int]@,
                comp@ == list,
                rk0 == ranks_of(g0),
                reranked(*graph, g0),
                forall|d: int, k: int| c <= d < cs.len() && 0 <= k < cs[d]@.len()
                    ==> ranks_of(*graph)[#[trigger] cs[d]@[k] as int] == rk0[cs[d]@[k] as int],
                1 <= j <= list.len(),
                mn == list_min(rk0, list.take(j as int)),
            decreases list.len() - j,
        {
            let x = comp[j];
            proof {
                assert(x < n);
                assert(ranks_of(*graph)[x as int] == rk0[x as int]);
                let t = list.take(j + 1);
                assert(t.drop_last() == list.take(j as int));
                assert(t.last() == x);
            }
            let r = graph.nodes[x].rank;
            if r < mn {
                mn = r;
            }
            j = j + 1;
        }
        proof {
            assert(list.take(list.len() as int) == list);
            let q = choose|q: int| 0 <= q < list.len() && list_min(rk0, list) == rk0[#[trigger] list[q] as int];
            assert(list[q] < n);
            assert(0 <= mn);
        }
        let mut k: usize = 0;
        while k < comp.len()
            invariant
                g0 == *old(graph),
                n == g0.n(),
                cs == components@,
                components_of(g0, cs, n as int),
                0 <= c < cs.len(),
                list == cs[c as int]@,
                comp@ == list,
                rk0 == ranks_of(g0),
                ranks_within(rk0, i32::MAX - 1),
                mn == list_min(rk0, list),
                0 <= mn,
                forall|q: int| 0 <= q < list.len() ==> mn <= rk0[#[trigger] list[q] as int],
                reranked(*graph, g0),
                ranks_within(ranks_of(*graph), i32::MAX - 1),
                0 <= k <= list.len(),
                forall|d: int, q: int| 0 <= d < c && 0 <= q < cs[d]@.len()
                    ==> ranks_of(*graph)[#[trigger] cs[d]@[q] as int] == rk0[cs[d]@[q] as int] - list_min(rk0, cs[d]@),
                forall|q: int| 0 <= q < k ==> ranks_of(*graph)[#[trigger] list[q] as int] == rk0[list[q] as int] - mn,
                forall|d: int, q: int| c <= d < cs.len() && 0 <= q < cs[d]@.len() && (d != c || q >= k)
                    ==> ranks_of(*graph)[#[trigger] cs[d]@[q] as int] == rk0[cs[d]@[q] as int],
            decreases list.len() - k,
        {
            let x = comp[k];
            let ghost before = *graph;
            proof {
                assert(x < n);
                assert(ranks_of(*graph)[x as int] == rk0[x as int]);
                assert(mn <= rk0[list[k as int] as int]);
                assert(0 <= rk0[x as int] <= i32::MAX - 1);
            }
            let r = graph.nodes[x].rank;
            graph.nodes[x].rank = r - mn;
            proof {
                assert(ranks_of(*graph) =~= ranks_of(before).update(x as int, (r - mn) as int));
                assert forall|i: int| 0 <= i < graph.nodes@.len() implies same_but_rank(#[trigger] graph.nodes@[i], g0.nodes@[i]) by {
                    assert(same_but_rank(before.nodes@[i], g0.nodes@[i]));
                }
                assert forall|d: int, q: int| 0 <= d < c && 0 <= q < cs[d]@.len()
                    implies ranks_of(*graph)[#[trigger] cs[d]@[q] as int] == rk0[cs[d]@[q] as int] - list_min(rk0, cs[d]@) by {
                    assert(cs[d]@[q] != cs[c as int]@[k as int]);
                    assert(cs[d]@[q] < n);
                }
                assert forall|q: int| 0 <= q < k + 1 implies ranks_of(*graph)[#[trigger] list[q] as int] == rk0[list[q] as int] - mn by {
                    if q < k {
                        assert(cs[c as int]@[q] != cs[c as int]@[k as int]);
                        assert(list[q] < n);
                    }
                }
                assert forall|d: int, q: int| c <= d < cs.len() && 0 <= q < cs[d]@.len() && (d != c || q >= k + 1)
                    implies ranks_of(*graph)[#[trigger] cs[d]@[q] as int] == rk0[cs[d]@[q] as int] by {
                    assert(cs[d]@[q] != cs[c as int]@[k as int]);
                    assert(cs[d]@[q] < n);
                }
            }
            k = k + 1;
        }
        c = c + 1;
    }
}

/// The lowest entry of `rk`; zero for none.
pub open spec fn seq_min(rk: Seq<int>) -> int
    decreases rk.len(),
{
    if rk.len() == 0 {
        0
    } else if rk.len() == 1 {
        rk[0]
    } else {
        let a = seq_min(rk.drop_last());
        if rk.last() < a { rk.last() } else { a }
    }
}

/// The highest entry of `rk`; zero for none.
pub open spec fn seq_max(rk: Seq<int>) -> int
    decreases rk.len(),
{
    if rk.len() == 0 {
        0
    } else if rk.len() == 1 {
        rk[0]
    } else {
        let a = seq_max(rk.drop_last());
        if rk.last() > a { rk.last() } else { a }
    }
}

/// Every entry of `rk` less `d`.
pub open spec fn shift(rk: Seq<int>, d: int) -> Seq<int> {
    Seq::new(rk.len(), |i: int| rk[i] - d)
}

proof fn lemma_seq_min_max(rk: Seq<int>)
    ensures
        forall|i: int| 0 <= i < rk.len() ==> seq_min(rk) <= #[trigger] rk[i] <= seq_max(rk),
        rk.len() > 0 ==> exists|i: int| 0 <= i < rk.len() && seq_min(rk) == #[trigger] rk[i],
        rk.len() > 0 ==> exists|i: int| 0 <= i < rk.len() && seq_max(rk) == #[trigger] rk[i],
    decreases rk.len(),
{
    if rk.len() > 1 {
        let t = rk.drop_last();
        lemma_seq_min_max(t);
        assert forall|i: int| 0 <= i < rk.len() implies seq_min(rk) <= #[trigger] rk[i] <= seq_max(rk) by {
            if i < t.len() {
                assert(rk[i] == t[i]);
            }
        }
        if rk.last() >= seq_min(t) {
            let i = choose|i: int| 0 <= i < t.len() && seq_min(t) == #[trigger] t[i];
            assert(rk[i] == t[i]);
        } else {
            assert(rk[rk.len() - 1] == rk.last());
        }
        if rk.last() <= seq_max(t) {
            let i = choose|i: int| 0 <= i < t.len() && seq_max(t) == #[trigger] t[i];
            assert(rk[i] == t[i]);
        } else {
            assert(rk[rk.len() - 1] == rk.last());
        }
    } else if rk.len() == 1 {
        assert(rk[0] == seq_min(rk));
    }
}

/// How many entries of `rk` equal `r`.
pub open spec fn rank_count(rk: Seq<int>, r: int) -> nat
    decreases rk.len(),
{
    if rk.len() == 0 {
        0
    } else {
        rank_count(rk.drop_last(), r) + if rk.last() == r { 1nat } else { 0nat }
    }
}

proof fn lemma_rank_count_update(rk: Seq<int>, i: int, b: int, r: int)
    requires
        0 <= i < rk.len(),
    ensures
        rank_count(rk.update(i, b), r) + (if rk[i] == r { 1int } else { 0int })
            == rank_count(rk, r) + (if b == r { 1int } else { 0int }),
    decreases rk.len(),
{
    let u = rk.update(i, b);
    if i == rk.len() - 1 {
        assert(u.drop_last() == rk.drop_last());
    } else {
        assert(u.drop_last() == rk.drop_last().update(i, b));
        lemma_rank_count_update(rk.drop_last(), i, b, r);
    }
}

proof fn lemma_rank_count_bounds(rk: Seq<int>, r: int)
    ensures
        rank_count(rk, r) <= rk.len(),
        (exists|i: int| 0 <= i < rk.len() && #[trigger] rk[i] == r) ==> rank_count(rk, r) >= 1,
    decreases rk.len(),
{
    if rk.len() > 0 {
        let t = rk.drop_last();
        lemma_rank_count_bounds(t, r);
        if exists|i: int| 0 <= i < rk.len() && #[trigger] rk[i] == r {
            let i = choose|i: int| 0 <= i < rk.len() && #[trigger] rk[i] == r;
            if i < t.len() {
                assert(t[i] == r);
            }
        }
    }
}

/// One less than the lowest rank (in `rk`) among the targets of the edges
/// of `list`; `dflt` for an empty list.
pub open spec fn succ_bound(g: LayoutGraph, rk: Seq<int>, list: Seq<usize>, dflt: int) -> int
    decreases list.len(),
{
    if list.len() == 0 {
        dflt
    } else {
        let c = rk[g.edges@[list.last() as int].to_node as int] - 1;
        if list.len() == 1 {
            c
        } else {
            let b = succ_bound(g, rk, list.drop_last(), dflt);
            if c < b { c } else { b }
        }
    }
}

/// The first rank of `lo ..= hi` that the fewest entries of `rk` hold.
pub open spec fn least_filled(rk: Seq<int>, lo: int, hi: int) -> int
    decreases hi - lo,
{
    if hi <= lo {
        lo
    } else {
        let b = least_filled(rk, lo, hi - 1);
        if rank_count(rk, hi) < rank_count(rk, b) { hi } else { b }
    }
}

proof fn lemma_least_filled_range(rk: Seq<int>, lo: int, hi: int)
    requires
        lo <= hi,
    ensures
        lo <= least_filled(rk, lo, hi) <= hi,
    decreases hi - lo,
{
    if hi > lo {
        lemma_least_filled_range(rk, lo, hi - 1);
    }
}

/// Node `i` considered once: with as many entering as leaving edges, and
/// some, it moves to the least filled rank between one past its highest
/// source and one before its lowest target, if that rank holds fewer
/// nodes than its own.
pub open spec fn balance_node(g: LayoutGraph, rk: Seq<int>, hi: int, i: int) -> Seq<int> {
    let ins = g.in_edges@[i]@;
    let outs = g.out_edges@[i]@;
    if ins.len() != outs.len() || ins.len() == 0 {
        rk
    } else {
        let lo = pred_bound(g, rk, ins);
        let up = succ_bound(g, rk, outs, hi);
        if lo > up {
            rk
        } else {
            let best = least_filled(rk, lo, up);
            if rank_count(rk, best) < rank_count(rk, rk[i]) {
                rk.update(i, best)
            } else {
                rk
            }
        }
    }
}

/// The first `k` nodes considered in index order.
pub open spec fn balance_upto(g: LayoutGraph, rk: Seq<int>, hi: int, k: int) -> Seq<int>
    decreases k,
{
    if k <= 0 {
        rk
    } else {
        balance_node(g, balance_upto(g, rk, hi, k - 1), hi, k - 1)
    }
}

/// Every node considered once, with the highest rank of `rk` as the bound
/// for a node without targets.
pub open spec fn balanced(g: LayoutGraph, rk: Seq<int>) -> Seq<int> {
    balance_upto(g, rk, seq_max(rk), rk.len() as int)
}

/// The two graphs have the same edges and adjacency lists.
pub open spec fn same_edges(a: LayoutGraph, b: LayoutGraph) -> bool {
    &&& a.edges@ == b.edges@
    &&& a.in_edges@ == b.in_edges@
    &&& a.out_edges@ == b.out_edges@
}

proof fn lemma_bounds_same_edges(a: LayoutGraph, b: LayoutGraph, rk: Seq<int>, list: Seq<usize>, dflt: int)
    requires
        same_edges(a, b),
    ensures
        pred_bound(a, rk, list) == pred_bound(b, rk, list),
        succ_bound(a, rk, list, dflt) == succ_bound(b, rk, list, dflt),
    decreases list.len(),
{
    if list.len() > 0 {
        lemma_bounds_same_edges(a, b, rk, list.drop_last(), dflt);
    }
}

proof fn lemma_balance_same_edges(a: LayoutGraph, b: LayoutGraph, rk: Seq<int>, hi: int, k: int)
    requires
        same_edges(a, b),
    ensures
        balance_upto(a, rk, hi, k) == balance_upto(b, rk, hi, k),
    decreases k,
{
    if k > 0 {
        lemma_balance_same_edges(a, b, rk, hi, k - 1);
        let prev = balance_upto(a, rk, hi, k - 1);
        let i = k - 1;
        lemma_bounds_same_edges(a, b, prev, a.in_edges@[i]@, hi);
        lemma_bounds_same_edges(a, b, prev, a.out_edges@[i]@, hi);
    }
}

proof fn lemma_relax_same_edges(a: LayoutGraph, b: LayoutGraph, rk: Seq<int>, t: nat)
    requires
        same_edges(a, b),
    ensures
        relax_rounds(a, rk, t) == relax_rounds(b, rk, t),
    decreases t,
{
    if t > 0 {
        let e = a.edges@.len() as int;
        lemma_round_same_edges(a, b, rk, e);
        lemma_relax_same_edges(a, b, relax_round(a, rk, e).0, (t - 1) as nat);
    }
}

proof fn lemma_round_same_edges(a: LayoutGraph, b: LayoutGraph, rk: Seq<int>, k: int)
    requires
        same_edges(a, b),
    ensures
        relax_round(a, rk, k) == relax_round(b, rk, k),
    decreases k,
{
    if k > 0 {
        lemma_round_same_edges(a, b, rk, k - 1);
        let prev = relax_round(a, rk, k - 1).0;
        let w = a.edges@[k - 1].to_node as int;
        lemma_bounds_same_edges(a, b, prev, a.in_edges@[w]@, 0);
    }
}

/// Lowers all ranks by the lowest one, where that is not zero.
fn lower_all(graph: &mut LayoutGraph)
    requires
        ranks_within(ranks_of(*old(graph)), i32::MAX - 1),
    ensures
        reranked(*final(graph), *old(graph)),
        ranks_of(*final(graph)) == shift(ranks_of(*old(graph)), seq_min(ranks_of(*old(graph)))),
        ranks_within(ranks_of(*final(graph)), i32::MAX - 1),
{
    let ghost g0 = *graph;
    let ghost rk0 = ranks_of(g0);
    let n = graph.nodes.len();
    let mut gmin: i32 = 0;
    if n > 0 {
        gmin = graph.nodes[0].rank;
        proof {
            assert(rk0.take(1).len() == 1 && rk0.take(1)[0] == rk0[0]);
        }
        let mut i: usize = 1;
        while i < n
            invariant
                g0 == *old(graph),
                *graph == g0,
                rk0 == ranks_of(g0),
                n == rk0.len(),
                1 <= i <= n,
                gmin == seq_min(rk0.take(i as int)),
            decreases n - i,
        {
            proof {
                assert(rk0.take(i + 1).drop_last() == rk0.take(i as int));
                assert(rk0.take(i + 1).last() == rk0[i as int]);
            }
            let r = graph.nodes[i].rank;
            if r < gmin {
                gmin = r;
            }
            i = i + 1;
        }
        proof {
            assert(rk0.take(n as int) == rk0);
        }
    }
    proof {
        lemma_seq_min_max(rk0);
        if n > 0 {
            let i = choose|i: int| 0 <= i < rk0.len() && seq_min(rk0) == #[trigger] rk0[i];
            assert(0 <= rk0[i]);
        }
        assert(gmin == seq_min(rk0));
    }
    if gmin != 0 {
        let mut i: usize = 0;
        while i < n
            invariant
                g0 == *old(graph),
                rk0 == ranks_of(g0),
                n == rk0.len(),
                ranks_within(rk0, i32::MAX - 1),
                0 <= gmin,
                forall|j: int| 0 <= j < n ==> gmin <= #[trigger] rk0[j],
                0 <= i <= n,
                reranked(*graph, g0),
                forall|j: int| 0 <= j < i ==> #[trigger] ranks_of(*graph)[j] == rk0[j] - gmin,
                forall|j: int| i <= j < n ==> #[trigger] ranks_of(*graph)[j] == rk0[j],
            decreases n - i,
        {
            let ghost before = *graph;
            proof {
                assert(ranks_of(*graph)[i as int] == rk0[i as int]);
                assert(gmin <= rk0[i as int]);
            }
            let r = graph.nodes[i].rank;
            graph.nodes[i].rank = r - gmin;
            proof {
                assert(ranks_of(*graph) =~= ranks_of(before).update(i as int, (r - gmin) as int));
                assert forall|j: int| 0 <= j < graph.nodes@.len() implies same_but_rank(#[trigger] graph.nodes@[j], g0.nodes@[j]) by {
                    assert(same_but_rank(before.nodes@[j], g0.nodes@[j]));
                }
            }
            i = i + 1;
        }
    }
    proof {
        assert(ranks_of(*graph) =~= shift(rk0, gmin as int));
    }
}

/// Moves each node with as many entering as leaving edges, and some, to
/// the least filled column between its sources and its targets, where that
/// column holds fewer nodes than its own.
fn balance_columns(graph: &mut LayoutGraph)
    requires
        old(graph).well_formed(),
        ranks_within(ranks_of(*old(graph)), i32::MAX - 1),
    ensures
        reranked(*final(graph), *old(graph)),
        ranks_of(*final(graph)) == balanced(*old(graph), ranks_of(*old(graph))),
        ranks_within(ranks_of(*final(graph)), i32::MAX - 1),
{
    let ghost g0 = *graph;
    let ghost rk0 = ranks_of(g0);
    let n = graph.nodes.len();
    let mut hi: i32 = 0;
    if n > 0 {
        hi = graph.nodes[0].rank;
        proof {
            assert(rk0.take(1).len() == 1 && rk0.take(1)[0] == rk0[0]);
        }
        let mut i: usize = 1;
        while i < n
            invariant
                *graph == g0,
                rk0 == ranks_of(g0),
                n == rk0.len(),
                1 <= i <= n,
                hi == seq_max(rk0.take(i as int)),
            decreases n - i,
        {
            proof {
                assert(rk0.take(i + 1).drop_last() == rk0.take(i as int));
                assert(rk0.take(i + 1).last() == rk0[i as int]);
            }
            let r = graph.nodes[i].rank;
            if r > hi {
                hi = r;
            }
            i = i + 1;
        }
        proof {
            assert(rk0.take(n as int) == rk0);
        }
    }
    proof {
        lemma_seq_min_max(rk0);
        if n > 0 {
            let i = choose|i: int| 0 <= i < rk0.len() && seq_max(rk0) == #[trigger] rk0[i];
            assert(0 <= rk0[i] <= i32::MAX - 1);
        }
        assert(hi == seq_max(rk0));
    }
    let size: usize = (hi + 1) as usize;
    let mut col_sizes: Vec<usize> = Vec::new();
    let mut c: usize = 0;
    while c < size
        invariant
            0 <= c <= size,
            col_sizes@.len() == c,
            forall|q: int| 0 <= q < c ==> #[trigger] col_sizes@[q] == 0,
        decreases size - c,
    {
        col_sizes.push(0);
        c = c + 1;
    }
    let mut i: usize = 0;
    while i < n
        invariant
            *graph == g0,
            rk0 == ranks_of(g0),
            n == rk0.len(),
            hi == seq_max(rk0),
            0 <= hi <= i32::MAX - 1,
            size == hi + 1,
            forall|j: int| 0 <= j < n ==> 0 <= #[trigger] rk0[j] <= hi,
            0 <= i <= n,
            col_sizes@.len() == size,
            forall|q: int| 0 <= q < size ==> #[trigger] col_sizes@[q] == rank_count(rk0.take(i as int), q),
        decreases n - i,
    {
        let r = graph.nodes[i].rank;
        proof {
            assert(rk0[i as int] == r);
            assert(rk0.take(i + 1).drop_last() == rk0.take(i as int));
            assert(rk0.take(i + 1).last() == r);
            lemma_rank_count_bounds(rk0.take(i as int), r as int);
        }
        let ri = r as usize;
        col_sizes[ri] = col_sizes[ri] + 1;
        i = i + 1;
    }
    proof {
        assert(rk0.take(n as int) == rk0);
    }
    i = 0;
    while i < n
        invariant
            g0 == *old(graph),
            g0.well_formed(),
            rk0 == ranks_of(g0),
            n == g0.n(),
            hi == seq_max(rk0),
            0 <= hi <= i32::MAX - 1,
            size == hi + 1,
            0 <= i <= n,
            reranked(*graph, g0),
            ranks_of(*graph) == balance_upto(g0, rk0, hi as int, i as int),
            ranks_within(ranks_of(*graph), hi as int),
            col_sizes@.len() == size,
            forall|q: int| 0 <= q < size ==> #[trigger] col_sizes@[q] == rank_count(ranks_of(*graph), q),
        decreases n - i,
    {
        let ghost rk = ranks_of(*graph);
        let in_deg = graph.in_edges[i].len();
        let out_deg = graph.out_edges[i].len();
        if in_deg == out_deg && in_deg != 0 {
            let current = graph.nodes[i].rank;
            proof {
                assert(rk[i as int] == current);
            }
            let ins = &graph.in_edges[i];
            let mut lo: i32 = 0;
            let mut j: usize = 0;
            while j < ins.len()
                invariant
                    g0.well_formed(),
                    reranked(*graph, g0),
                    n == g0.n(),
                    i < n,
                    ins@ == g0.in_edges@[i as int]@,
                    rk == ranks_of(*graph),
                    ranks_within(rk, hi as int),
                    0 <= hi <= i32::MAX - 1,
                    0 <= j <= ins@.len(),
                    lo == pred_bound(g0, rk, ins@.take(j as int)),
                    0 <= lo <= hi + 1,
                decreases ins@.len() - j,
            {
                let src = graph.edges[ins[j]].from_node;
                proof {
                    assert(src < n);
                    assert(rk[src as int] == graph.nodes@[src as int].rank);
                    let t = ins@.take(j + 1);
                    assert(t.drop_last() == ins@.take(j as int));
                    assert(t.last() == ins@[j as int]);
                }
                let cand = graph.nodes[src].rank + 1;
                if j == 0 || cand > lo {
                    lo = cand;
                }
                j = j + 1;
            }
            proof {
                assert(ins@.take(ins@.len() as int) == ins@);
            }
            let outs = &graph.out_edges[i];
            let mut up: i32 = hi;
            j = 0;
            while j < outs.len()
                invariant
                    g0.well_formed(),
                    reranked(*graph, g0),
                    n == g0.n(),
                    i < n,
                    outs@ == g0.out_edges@[i as int]@,
                    rk == ranks_of(*graph),
                    ranks_within(rk, hi as int),
                    0 <= hi <= i32::MAX - 1,
                    0 <= j <= outs@.len(),
                    up == succ_bound(g0, rk, outs@.take(j as int), hi as int),
                    -1 <= up <= hi,
                    j > 0 ==> up <= hi - 1,
                decreases outs@.len() - j,
            {
                let dst = graph.edges[outs[j]].to_node;
                proof {
                    assert(dst < n);
                    assert(rk[dst as int] == graph.nodes@[dst as int].rank);
                    let t = outs@.take(j + 1);
                    assert(t.drop_last() == outs@.take(j as int));
                    assert(t.last() == outs@[j as int]);
                }
                let cand = graph.nodes[dst].rank - 1;
                if j == 0 || cand < up {
                    up = cand;
                }
                j = j + 1;
            }
            proof {
                assert(outs@.take(outs@.len() as int) == outs@);
            }
            if lo <= up {
                let mut best: i32 = lo;
                let mut best_count: usize = col_sizes[lo as usize];
                let mut r: i32 = lo + 1;
                while r <= up
                    invariant
                        0 <= lo <= up <= hi - 1,
                        0 <= hi <= i32::MAX - 1,
                        lo + 1 <= r <= up + 1,
                        lo <= best <= up,
                        best == least_filled(rk, lo as int, (r - 1) as int),
                        best_count == rank_count(rk, best as int),
                        col_sizes@.len() == hi + 1,
                        forall|q: int| 0 <= q < hi + 1 ==> #[trigger] col_sizes@[q] == rank_count(rk, q),
                    decreases up - r + 1,
                {
                    let cnt = col_sizes[r as usize];
                    if cnt < best_count {
                        best = r;
                        best_count = cnt;
                    }
                    r = r + 1;
                }
                let cur_count = col_sizes[current as usize];
                if best_count < cur_count {
                    let ghost before = *graph;
                    proof {
                        assert(best != current);
                        lemma_rank_count_bounds(rk, best as int);
                        lemma_rank_count_bounds(rk, current as int);
                    }
                    col_sizes[current as usize] = cur_count - 1;
                    col_sizes[best as usize] = col_sizes[best as usize] + 1;
                    graph.nodes[i].rank = best;
                    proof {
                        let rk2 = rk.update(i as int, best as int);
                        assert(ranks_of(*graph) =~= rk2);
                        assert forall|j: int| 0 <= j < graph.nodes@.len() implies same_but_rank(#[trigger] graph.nodes@[j], g0.nodes@[j]) by {
                            assert(same_but_rank(before.nodes@[j], g0.nodes@[j]));
                        }
                        assert forall|q: int| 0 <= q < size implies #[trigger] col_sizes@[q] == rank_count(ranks_of(*graph), q) by {
                            lemma_rank_count_update(rk, i as int, best as int, q);
                        }
                    }
                }
            }
        }
        proof {
            assert(balance_upto(g0, rk0, hi as int, i + 1) == balance_node(g0, rk, hi as int, i as int));
        }
        i = i + 1;
    }
}

/// Normalises and balances the ranks: the ranks of each connected
/// component are lowered so that its lowest rank is zero, then all ranks
/// by the lowest one if that is not zero; then the nodes are balanced
/// (see [`balance_node`]).
pub fn normalize_and_balance(graph: &mut LayoutGraph)
    requires
        old(graph).well_formed(),
        ranks_within(ranks_of(*old(graph)), i32::MAX - 1),
    ensures
        reranked(*final(graph), *old(graph)),
        ranks_within(ranks_of(*final(graph)), i32::MAX - 1),
        exists|cs: Seq<Vec<usize>>, rk1: Seq<int>|
            components_of(*old(graph), cs, old(graph).n())
            && lowered_by_lists(ranks_of(*old(graph)), cs, rk1)
            && ranks_of(*final(graph)) == balanced(*old(graph), shift(rk1, seq_min(rk1))),
{
    let ghost g0 = *graph;
    let components = graph.connected_components();
    lower_components(graph, &components);
    let ghost rk1 = ranks_of(*graph);
    lower_all(graph);
    let ghost g2 = *graph;
    balance_columns(graph);
    proof {
        lemma_balance_same_edges(g2, g0, ranks_of(g2), seq_max(ranks_of(g2)), ranks_of(g2).len() as int);
        assert(components_of(g0, components@, g0.n()) && lowered_by_lists(ranks_of(g0), components@, rk1));
    }
}

/// Each node of list `gi` of `r` has rank `gi` in `rk`.
pub open spec fn ranks_by_lists(rk: Seq<int>, r: Seq<Vec<usize>>) -> bool {
    forall|gi: int, k: int| 0 <= gi < r.len() && 0 <= k < r[gi]@.len() ==> rk[#[trigger] r[gi]@[k] as int] == gi
}

proof fn lemma_components_same_edges(a: LayoutGraph, b: LayoutGraph, cs: Seq<Vec<usize>>, upto: int)
    requires
        same_edges(a, b),
        a.n() == b.n(),
        components_of(a, cs, upto),
    ensures
        components_of(b, cs, upto),
{
    assert forall|x: int, w: usize| #[trigger] linked(b, x, w) == linked(a, x, w) by {}
    assert forall|c: int, k: int| 0 <= c < cs.len() && 0 < k < cs[c]@.len() implies #[trigger] joined_back(b, cs[c]@, k) by {
        assert(joined_back(a, cs[c]@, k));
        let j = choose|j: int| 0 <= j < k && #[trigger] linked(a, cs[c]@[j] as int, cs[c]@[k]);
        assert(linked(b, cs[c]@[j] as int, cs[c]@[k]));
    }
    assert forall|c: int, k: int, w: usize| 0 <= c < cs.len() && 0 <= k < cs[c]@.len() && #[trigger] linked(b, cs[c]@[k] as int, w)
        implies exists|d: int, m: int| 0 <= d <= c && 0 <= m < cs[d]@.len() && #[trigger] cs[d]@[m] == w by {
        assert(linked(a, cs[c]@[k] as int, w));
    }
}

/// Assigns a rank to every node: the generation ranks (see
/// [`initial_ranking`]), relaxed (see [`network_simplex`]), then
/// normalised and balanced (see [`normalize_and_balance`]). A graph
/// without nodes is left as it is.
pub fn compute_ranks(graph: &mut LayoutGraph)
    requires
        old(graph).well_formed(),
        lists_consistent(*old(graph)),
        old(graph).n() <= i32::MAX,
    ensures
        reranked(*final(graph), *old(graph)),
        old(graph).n() == 0 ==> *final(graph) == *old(graph),
        old(graph).n() > 0 ==> exists|r: Seq<Vec<usize>>, m: int, rk0: Seq<int>, t: nat, cs: Seq<Vec<usize>>, rk1: Seq<int>| {
            &&& partitions_nodes(*old(graph), r)
            &&& generations_split(*old(graph), r, m)
            &&& rk0.len() == old(graph).n()
            &&& ranks_by_lists(rk0, r)
            &&& t * t <= 2500 * old(graph).n() < (t + 1) * (t + 1)
            &&& components_of(*old(graph), cs, old(graph).n())
            &&& lowered_by_lists(relax_rounds(*old(graph), rk0, t), cs, rk1)
            &&& ranks_of(*final(graph)) == balanced(*old(graph), shift(rk1, seq_min(rk1)))
        },
{
    let n = graph.nodes.len();
    if n == 0 {
        return;
    }
    let ghost g0 = *graph;
    initial_ranking(graph);
    let ghost g1 = *graph;
    let ghost r = choose|r: Seq<Vec<usize>>, m: int| partitions_nodes(g0, r) && generations_split(g0, r, m) && ranked_by(g1, r);
    proof {
        let (gens, m) = r;
        let rk0 = ranks_of(g1);
        assert(generations_split(g0, gens, m));
        lemma_lists_bounded(g0, gens, n);
        assert forall|i: int| 0 <= i < rk0.len() implies 0 <= #[trigger] rk0[i] <= i32::MAX - 1 by {
            assert(crate::layout_graph::covered(gens, i as usize));
            let (gi, k) = choose|gi: int, k: int| 0 <= gi < gens.len() && 0 <= k < gens[gi]@.len() && #[trigger] gens[gi]@[k] == i as usize;
            assert(g1.nodes@[gens[gi]@[k] as int].rank == gi);
        }
        assert forall|gi: int, k: int| 0 <= gi < gens.len() && 0 <= k < gens[gi]@.len() implies rk0[#[trigger] gens[gi]@[k] as int] == gi by {
            assert(gens[gi]@[k] < n);
        }
    }
    network_simplex(graph);
    let ghost g2 = *graph;
    let ghost t = choose|t: nat| t * t <= 2500 * g1.n() < (t + 1) * (t + 1)
        && ranks_of(g2) == relax_rounds(g1, ranks_of(g1), t);
    normalize_and_balance(graph);
    proof {
        let (gens, m) = r;
        let rk0 = ranks_of(g1);
        lemma_relax_same_edges(g1, g0, rk0, t);
        let (cs, rk1) = choose|cs: Seq<Vec<usize>>, rk1: Seq<int>|
            components_of(g2, cs, g2.n())
            && lowered_by_lists(ranks_of(g2), cs, rk1)
            && ranks_of(*graph) == balanced(g2, shift(rk1, seq_min(rk1)));
        lemma_components_same_edges(g2, g0, cs, g2.n());
        let rs = shift(rk1, seq_min(rk1));
        lemma_balance_same_edges(g2, g0, rs, seq_max(rs), rs.len() as int);
        assert forall|i: int| 0 <= i < graph.nodes@.len() implies same_but_rank(#[trigger] graph.nodes@[i], g0.nodes@[i]) by {
            assert(same_but_rank(graph.nodes@[i], g2.nodes@[i]));
            assert(same_but_rank(g2.nodes@[i], g1.nodes@[i]));
            assert(same_but_rank(g1.nodes@[i], g0.nodes@[i]));
        }
    }
}

} // verus!
