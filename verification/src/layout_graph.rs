//! The layered graph that the layout works on: nodes with their column
//! (rank) and place in the column (order), directed edges and adjacency
//! lists, and the graph algorithms of the ranking and ordering phases.
//! Sizes and coordinates are not held here.
use vstd::prelude::*;
use std::collections::HashMap;
use std::collections::HashSet;
use crate::layout::{count_inversions, inversions, count_above, EdgeId, LayoutEdge, LayoutNodeKind, NodeId, PortId};
use crate::text::str_eq;

verus! {

broadcast use vstd::std_specs::hash::group_hash_axioms;

/// A node of the layout graph.
#[derive(Debug, Clone)]
pub struct LayoutNode {
    /// PipeWire node id (0 for a dummy).
    pub id: NodeId,
    /// Display name.
    pub name: String,
    /// Kind, which decides the default column.
    pub kind: LayoutNodeKind,
    /// Column (rank).
    pub rank: i32,
    /// Place within the column.
    pub order: usize,
    /// Inserted to split a long edge.
    pub is_dummy: bool,
    /// Index of the node in the graph.
    pub idx: usize,
}

/// The layout graph.
pub struct LayoutGraph {
    /// All nodes, real and dummy; a node's index is its `idx`.
    pub nodes: Vec<LayoutNode>,
    /// All edges, real and dummy.
    pub edges: Vec<LayoutEdge>,
    /// `columns[c]`: the nodes of column `c`, in order.
    pub columns: Vec<Vec<usize>>,
    /// Node index by PipeWire node id.
    pub id_to_idx: HashMap<NodeId, usize>,
    /// `out_edges[v]`: the edges leaving `v`.
    pub out_edges: Vec<Vec<usize>>,
    /// `in_edges[v]`: the edges entering `v`.
    pub in_edges: Vec<Vec<usize>>,
    /// Port id to (node index, index among its direction, is output).
    pub port_map: HashMap<PortId, (usize, usize, bool)>,
}

/// The node kind that a type name gives.
pub open spec fn kind_of(s: Seq<char>) -> LayoutNodeKind {
    if s == "Source"@ {
        LayoutNodeKind::Source
    } else if s == "Sink"@ {
        LayoutNodeKind::Sink
    } else if s == "StreamOutput"@ {
        LayoutNodeKind::StreamOutput
    } else if s == "StreamInput"@ {
        LayoutNodeKind::StreamInput
    } else if s == "Duplex"@ {
        LayoutNodeKind::Duplex
    } else if s == "Plugin"@ {
        LayoutNodeKind::Plugin
    } else {
        LayoutNodeKind::Unknown
    }
}

/// The index map of a list of node ids: each id to its last index.
pub open spec fn index_of_ids(ids: Seq<NodeId>) -> Map<NodeId, usize>
    decreases ids.len(),
{
    if ids.len() == 0 {
        Map::empty()
    } else {
        index_of_ids(ids.drop_last()).insert(ids.last(), (ids.len() - 1) as usize)
    }
}

/// The port map of a list of ports, given the node index map: each port of a
/// known node to its node's index, its index and its direction; the last
/// entry of an id wins.
pub open spec fn ports_of(ports: Seq<(PortId, NodeId, usize, bool)>, idx: Map<NodeId, usize>) -> Map<PortId, (usize, usize, bool)>
    decreases ports.len(),
{
    if ports.len() == 0 {
        Map::empty()
    } else {
        let p = ports.last();
        let rest = ports_of(ports.drop_last(), idx);
        if idx.contains_key(p.1) {
            rest.insert(p.0, (idx[p.1], p.2, p.3))
        } else {
            rest
        }
    }
}

/// The edges of a list of links between known nodes, in order.
pub open spec fn edges_of(links: Seq<(EdgeId, NodeId, PortId, NodeId, PortId)>, idx: Map<NodeId, usize>) -> Seq<LayoutEdge>
    decreases links.len(),
{
    if links.len() == 0 {
        Seq::empty()
    } else {
        let l = links.last();
        let rest = edges_of(links.drop_last(), idx);
        if idx.contains_key(l.1) && idx.contains_key(l.3) {
            rest.push(LayoutEdge { id: l.0, from_node: idx[l.1], to_node: idx[l.3], from_port: Some(l.2), to_port: Some(l.4) })
        } else {
            rest
        }
    }
}

/// The indices of the edges of `es` that leave node `v`, in order.
pub open spec fn edges_from(es: Seq<LayoutEdge>, v: usize) -> Seq<usize>
    decreases es.len(),
{
    if es.len() == 0 {
        Seq::empty()
    } else if es.last().from_node == v {
        edges_from(es.drop_last(), v).push((es.len() - 1) as usize)
    } else {
        edges_from(es.drop_last(), v)
    }
}

/// The indices of the edges of `es` that enter node `v`, in order.
pub open spec fn edges_to(es: Seq<LayoutEdge>, v: usize) -> Seq<usize>
    decreases es.len(),
{
    if es.len() == 0 {
        Seq::empty()
    } else if es.last().to_node == v {
        edges_to(es.drop_last(), v).push((es.len() - 1) as usize)
    } else {
        edges_to(es.drop_last(), v)
    }
}

impl LayoutGraph {
    /// The number of nodes.
    pub open spec fn n(&self) -> int {
        self.nodes@.len() as int
    }

    /// The edges and adjacency lists agree: every edge joins two nodes, and
    /// each adjacency entry is an edge leaving (entering) its node.
    pub open spec fn well_formed(&self) -> bool {
        &&& self.out_edges@.len() == self.n()
        &&& self.in_edges@.len() == self.n()
        &&& forall|i: int| 0 <= i < self.n() ==> (#[trigger] self.nodes@[i]).idx == i
        &&& forall|e: int| 0 <= e < self.edges@.len() ==> (#[trigger] self.edges@[e]).from_node < self.n() && self.edges@[e].to_node < self.n()
        &&& forall|v: int, k: int| 0 <= v < self.n() && 0 <= k < self.out_edges@[v]@.len() ==> {
            &&& #[trigger] self.out_edges@[v]@[k] < self.edges@.len()
            &&& self.edges@[self.out_edges@[v]@[k] as int].from_node == v
        }
        &&& forall|v: int, k: int| 0 <= v < self.n() && 0 <= k < self.in_edges@[v]@.len() ==> {
            &&& #[trigger] self.in_edges@[v]@[k] < self.edges@.len()
            &&& self.edges@[self.in_edges@[v]@[k] as int].to_node == v
        }
    }
}

/// Each edge listed as leaving a node is listed as entering its target, and
/// the other way round, and no list names an edge twice.
pub open spec fn lists_consistent(g: LayoutGraph) -> bool {
    &&& forall|v: int, k: int| 0 <= v < g.n() && 0 <= k < g.out_edges@[v]@.len()
        ==> g.in_edges@[g.edges@[#[trigger] g.out_edges@[v]@[k] as int].to_node as int]@.contains(g.out_edges@[v]@[k])
    &&& forall|v: int, k: int| 0 <= v < g.n() && 0 <= k < g.in_edges@[v]@.len()
        ==> g.out_edges@[g.edges@[#[trigger] g.in_edges@[v]@[k] as int].from_node as int]@.contains(g.in_edges@[v]@[k])
    &&& forall|v: int| 0 <= v < g.n() ==> (#[trigger] g.out_edges@[v])@.no_duplicates()
    &&& forall|v: int| 0 <= v < g.n() ==> (#[trigger] g.in_edges@[v])@.no_duplicates()
}

/// The kind that a type name gives.
fn parse_kind(s: &str) -> (r: LayoutNodeKind)
    ensures
        r == kind_of(s@),
{
    if str_eq(s, "Source") {
        LayoutNodeKind::Source
    } else if str_eq(s, "Sink") {
        LayoutNodeKind::Sink
    } else if str_eq(s, "StreamOutput") {
        LayoutNodeKind::StreamOutput
    } else if str_eq(s, "StreamInput") {
        LayoutNodeKind::StreamInput
    } else if str_eq(s, "Duplex") {
        LayoutNodeKind::Duplex
    } else if str_eq(s, "Plugin") {
        LayoutNodeKind::Plugin
    } else {
        LayoutNodeKind::Unknown
    }
}

proof fn lemma_index_of_ids(ids: Seq<NodeId>)
    requires
        ids.len() <= usize::MAX,
    ensures
        forall|id: NodeId| #[trigger] index_of_ids(ids).contains_key(id) ==> index_of_ids(ids)[id] < ids.len(),
    decreases ids.len(),
{
    if ids.len() > 0 {
        let t = ids.drop_last();
        lemma_index_of_ids(t);
        let m = index_of_ids(ids);
        assert(m == index_of_ids(t).insert(ids.last(), (ids.len() - 1) as usize));
        assert forall|id: NodeId| #[trigger] m.contains_key(id) implies m[id] < ids.len() by {
            if id != ids.last() {
                assert(index_of_ids(t).contains_key(id));
            }
        }
    }
}

proof fn lemma_edges_of(links: Seq<(EdgeId, NodeId, PortId, NodeId, PortId)>, idx: Map<NodeId, usize>, n: int)
    requires
        forall|id: NodeId| #[trigger] idx.contains_key(id) ==> idx[id] < n,
    ensures
        forall|e: int| 0 <= e < edges_of(links, idx).len() ==> (#[trigger] edges_of(links, idx)[e]).from_node < n
            && edges_of(links, idx)[e].to_node < n,
    decreases links.len(),
{
    if links.len() > 0 {
        lemma_edges_of(links.drop_last(), idx, n);
    }
}

proof fn lemma_edges_from_exact(es: Seq<LayoutEdge>, v: usize)
    requires
        es.len() <= usize::MAX,
    ensures
        forall|e: usize| #[trigger] edges_from(es, v).contains(e) <==> (e < es.len() && es[e as int].from_node == v),
        edges_from(es, v).no_duplicates(),
        forall|k: int| 0 <= k < edges_from(es, v).len() ==> #[trigger] edges_from(es, v)[k] < es.len(),
    decreases es.len(),
{
    if es.len() > 0 {
        let t = es.drop_last();
        lemma_edges_from_exact(t, v);
        let last = (es.len() - 1) as usize;
        assert forall|e: usize| #[trigger] edges_from(es, v).contains(e) <==> (e < es.len() && es[e as int].from_node == v) by {
            if e < t.len() {
                assert(es[e as int] == t[e as int]);
            }
            if edges_from(es, v).contains(e) {
                let i = choose|i: int| 0 <= i < edges_from(es, v).len() && edges_from(es, v)[i] == e;
                if i < edges_from(t, v).len() {
                    assert(edges_from(t, v)[i] == e);
                    assert(edges_from(t, v).contains(e));
                }
            }
            if e < es.len() && es[e as int].from_node == v {
                if e < t.len() {
                    assert(edges_from(t, v).contains(e));
                    let i = choose|i: int| 0 <= i < edges_from(t, v).len() && edges_from(t, v)[i] == e;
                    assert(edges_from(es, v)[i] == e);
                } else {
                    assert(edges_from(es, v)[edges_from(es, v).len() - 1] == e);
                }
            }
        }
    }
}

proof fn lemma_edges_to_exact(es: Seq<LayoutEdge>, v: usize)
    requires
        es.len() <= usize::MAX,
    ensures
        forall|e: usize| #[trigger] edges_to(es, v).contains(e) <==> (e < es.len() && es[e as int].to_node == v),
        edges_to(es, v).no_duplicates(),
        forall|k: int| 0 <= k < edges_to(es, v).len() ==> #[trigger] edges_to(es, v)[k] < es.len(),
    decreases es.len(),
{
    if es.len() > 0 {
        let t = es.drop_last();
        lemma_edges_to_exact(t, v);
        let last = (es.len() - 1) as usize;
        assert forall|e: usize| #[trigger] edges_to(es, v).contains(e) <==> (e < es.len() && es[e as int].to_node == v) by {
            if e < t.len() {
                assert(es[e as int] == t[e as int]);
            }
            if edges_to(es, v).contains(e) {
                let i = choose|i: int| 0 <= i < edges_to(es, v).len() && edges_to(es, v)[i] == e;
                if i < edges_to(t, v).len() {
                    assert(edges_to(t, v)[i] == e);
                    assert(edges_to(t, v).contains(e));
                }
            }
            if e < es.len() && es[e as int].to_node == v {
                if e < t.len() {
                    assert(edges_to(t, v).contains(e));
                    let i = choose|i: int| 0 <= i < edges_to(t, v).len() && edges_to(t, v)[i] == e;
                    assert(edges_to(es, v)[i] == e);
                } else {
                    assert(edges_to(es, v)[edges_to(es, v).len() - 1] == e);
                }
            }
        }
    }
}

proof fn lemma_edges_from(es: Seq<LayoutEdge>, v: usize)
    requires
        es.len() <= usize::MAX,
    ensures
        forall|k: int| 0 <= k < edges_from(es, v).len() ==> {
            &&& #[trigger] edges_from(es, v)[k] < es.len()
            &&& es[edges_from(es, v)[k] as int].from_node == v
        },
    decreases es.len(),
{
    if es.len() > 0 {
        let t = es.drop_last();
        lemma_edges_from(t, v);
        assert forall|k: int| 0 <= k < edges_from(es, v).len() implies {
            &&& #[trigger] edges_from(es, v)[k] < es.len()
            &&& es[edges_from(es, v)[k] as int].from_node == v
        } by {
            if k < edges_from(t, v).len() {
                assert(edges_from(es, v)[k] == edges_from(t, v)[k]);
                assert(es[edges_from(t, v)[k] as int] == t[edges_from(t, v)[k] as int]);
            } else {
                assert(edges_from(es, v)[k] == es.len() - 1);
                assert(es[es.len() - 1] == es.last());
            }
        }
    }
}

proof fn lemma_edges_to(es: Seq<LayoutEdge>, v: usize)
    requires
        es.len() <= usize::MAX,
    ensures
        forall|k: int| 0 <= k < edges_to(es, v).len() ==> {
            &&& #[trigger] edges_to(es, v)[k] < es.len()
            &&& es[edges_to(es, v)[k] as int].to_node == v
        },
    decreases es.len(),
{
    if es.len() > 0 {
        let t = es.drop_last();
        lemma_edges_to(t, v);
        assert forall|k: int| 0 <= k < edges_to(es, v).len() implies {
            &&& #[trigger] edges_to(es, v)[k] < es.len()
            &&& es[edges_to(es, v)[k] as int].to_node == v
        } by {
            if k < edges_to(t, v).len() {
                assert(edges_to(es, v)[k] == edges_to(t, v)[k]);
                assert(es[edges_to(t, v)[k] as int] == t[edges_to(t, v)[k] as int]);
            } else {
                assert(edges_to(es, v)[k] == es.len() - 1);
                assert(es[es.len() - 1] == es.last());
            }
        }
    }
}

/// Node `n` at index `k` is made from the description `d`: its id, name and
/// kind, rank and order 0, not a dummy.
pub open spec fn made_from(n: LayoutNode, d: (NodeId, String, &str), k: int) -> bool {
    &&& n.id == d.0
    &&& n.name@ == d.1@
    &&& n.kind == kind_of(d.2@)
    &&& n.rank == 0
    &&& n.order == 0
    &&& !n.is_dummy
    &&& n.idx == k
}

/// The ids of a list of (id, name, type name) node descriptions.
pub open spec fn node_ids(nodes: Seq<(NodeId, String, &str)>) -> Seq<NodeId> {
    nodes.map_values(|t: (NodeId, String, &str)| t.0)
}

impl LayoutGraph {
    /// The graph of the given nodes (id, name, type name), ports (id, node
    /// id, index, is output) and links (id, output node, output port, input
    /// node, input port). Nodes keep their order; a node id given twice
    /// maps to its later node. Ports and links of unknown nodes are left
    /// out.
    pub fn new(
        nodes: Vec<(NodeId, String, &str)>,
        ports: Vec<(PortId, NodeId, usize, bool)>,
        links: Vec<(EdgeId, NodeId, PortId, NodeId, PortId)>,
    ) -> (r: Self)
        ensures
            r.well_formed(),
            r.nodes@.len() == nodes@.len(),
            forall|i: int| 0 <= i < nodes@.len() ==> made_from(#[trigger] r.nodes@[i], nodes@[i], i),
            r.id_to_idx@ == index_of_ids(node_ids(nodes@)),
            r.port_map@ == ports_of(ports@, r.id_to_idx@),
            r.edges@ == edges_of(links@, r.id_to_idx@),
            forall|v: int| 0 <= v < r.n() ==> (#[trigger] r.out_edges@[v])@ == edges_from(r.edges@, v as usize),
            forall|v: int| 0 <= v < r.n() ==> (#[trigger] r.in_edges@[v])@ == edges_to(r.edges@, v as usize),
            r.columns@.len() == 0,
            lists_consistent(r),
    {
        let mut g = LayoutGraph {
            nodes: Vec::new(),
            edges: Vec::new(),
            columns: Vec::new(),
            id_to_idx: HashMap::new(),
            out_edges: Vec::new(),
            in_edges: Vec::new(),
            port_map: HashMap::new(),
        };
        let ghost ids = node_ids(nodes@);
        let mut i: usize = 0;
        while i < nodes.len()
            invariant
                0 <= i <= nodes@.len(),
                ids == node_ids(nodes@),
                g.nodes@.len() == i,
                g.out_edges@.len() == i,
                g.in_edges@.len() == i,
                g.edges@.len() == 0,
                g.columns@.len() == 0,
                g.port_map@ == Map::<PortId, (usize, usize, bool)>::empty(),
                g.id_to_idx@ == index_of_ids(ids.take(i as int)),
                forall|k: int| 0 <= k < i ==> made_from(#[trigger] g.nodes@[k], nodes@[k], k),
                forall|k: int| 0 <= k < i ==> (#[trigger] g.out_edges@[k])@.len() == 0,
                forall|k: int| 0 <= k < i ==> (#[trigger] g.in_edges@[k])@.len() == 0,
            decreases nodes@.len() - i,
        {
            let id = nodes[i].0;
            let kind = parse_kind(nodes[i].2);
            let name = nodes[i].1.clone();
            g.id_to_idx.insert(id, i);
            g.nodes.push(LayoutNode { id, name, kind, rank: 0, order: 0, is_dummy: false, idx: i });
            g.out_edges.push(Vec::new());
            g.in_edges.push(Vec::new());
            proof {
                assert(ids.take(i + 1).drop_last() == ids.take(i as int));
                assert(ids[i as int] == id);
            }
            i = i + 1;
        }
        proof {
            assert(ids.take(nodes@.len() as int) == ids);
            lemma_index_of_ids(ids);
        }
        let ghost idx = g.id_to_idx@;
        let mut j: usize = 0;
        while j < ports.len()
            invariant
                0 <= j <= ports@.len(),
                g.nodes@.len() == nodes@.len(),
                forall|q: int| 0 <= q < nodes@.len() ==> made_from(#[trigger] g.nodes@[q], nodes@[q], q),
                g.columns@.len() == 0,
                g.out_edges@.len() == nodes@.len(),
                g.in_edges@.len() == nodes@.len(),
                forall|q: int| 0 <= q < nodes@.len() ==> (#[trigger] g.out_edges@[q])@.len() == 0,
                forall|q: int| 0 <= q < nodes@.len() ==> (#[trigger] g.in_edges@[q])@.len() == 0,
                g.edges@.len() == 0,
                g.id_to_idx@ == idx,
                forall|id: NodeId| #[trigger] idx.contains_key(id) ==> idx[id] < nodes@.len(),
                g.port_map@ == ports_of(ports@.take(j as int), idx),
            decreases ports@.len() - j,
        {
            let (port_id, node_id, port_index, is_output) = ports[j];
            match g.id_to_idx.get(&node_id) {
                Some(node_idx) => {
                    let ni = *node_idx;
                    g.port_map.insert(port_id, (ni, port_index, is_output));
                },
                None => {},
            }
            proof {
                assert(ports@.take(j + 1).drop_last() == ports@.take(j as int));
                assert(ports@.take(j + 1).last() == ports@[j as int]);
            }
            j = j + 1;
        }
        proof {
            assert(ports@.take(ports@.len() as int) == ports@);
        }
        let n = g.nodes.len();
        let mut k: usize = 0;
        while k < links.len()
            invariant
                0 <= k <= links@.len(),
                g.nodes@.len() == nodes@.len(),
                forall|q: int| 0 <= q < nodes@.len() ==> made_from(#[trigger] g.nodes@[q], nodes@[q], q),
                g.columns@.len() == 0,
                g.port_map@ == ports_of(ports@, idx),
                n == g.nodes@.len(),
                g.out_edges@.len() == n,
                g.in_edges@.len() == n,
                g.id_to_idx@ == idx,
                forall|id: NodeId| #[trigger] idx.contains_key(id) ==> idx[id] < n,
                g.edges@ == edges_of(links@.take(k as int), idx),
                forall|v: int| 0 <= v < n ==> (#[trigger] g.out_edges@[v])@ == edges_from(g.edges@, v as usize),
                forall|v: int| 0 <= v < n ==> (#[trigger] g.in_edges@[v])@ == edges_to(g.edges@, v as usize),
            decreases links@.len() - k,
        {
            let (link_id, out_node_id, out_port_id, in_node_id, in_port_id) = links[k];
            let from = g.id_to_idx.get(&out_node_id);
            let to = g.id_to_idx.get(&in_node_id);
            let ghost es0 = g.edges@;
            match (from, to) {
                (Some(f), Some(t)) => {
                    let from_idx = *f;
                    let to_idx = *t;
                    let edge_idx = g.edges.len();
                    g.edges.push(LayoutEdge {
                        id: link_id,
                        from_node: from_idx,
                        to_node: to_idx,
                        from_port: Some(out_port_id),
                        to_port: Some(in_port_id),
                    });
                    g.out_edges[from_idx].push(edge_idx);
                    g.in_edges[to_idx].push(edge_idx);
                    proof {
                        assert(g.edges@.drop_last() == es0);
                    }
                },
                _ => {},
            }
            proof {
                assert(links@.take(k + 1).drop_last() == links@.take(k as int));
                assert(links@.take(k + 1).last() == links@[k as int]);
            }
            k = k + 1;
        }
        let ne = g.edges.len();
        proof {
            assert(links@.take(links@.len() as int) == links@);
            lemma_edges_of(links@, idx, n as int);
            assert forall|v: int, q: int| 0 <= v < g.n() && 0 <= q < g.out_edges@[v]@.len() implies {
                &&& #[trigger] g.out_edges@[v]@[q] < g.edges@.len()
                &&& g.edges@[g.out_edges@[v]@[q] as int].from_node == v
            } by {
                lemma_edges_from(g.edges@, v as usize);
            }
            assert forall|v: int, q: int| 0 <= v < g.n() && 0 <= q < g.in_edges@[v]@.len() implies {
                &&& #[trigger] g.in_edges@[v]@[q] < g.edges@.len()
                &&& g.edges@[g.in_edges@[v]@[q] as int].to_node == v
            } by {
                lemma_edges_to(g.edges@, v as usize);
            }
            let es = g.edges@;
            assert forall|v: int, q: int| 0 <= v < g.n() && 0 <= q < g.out_edges@[v]@.len()
                implies g.in_edges@[g.edges@[#[trigger] g.out_edges@[v]@[q] as int].to_node as int]@.contains(g.out_edges@[v]@[q]) by {
                lemma_edges_from(es, v as usize);
                let e = g.out_edges@[v]@[q];
                let t = es[e as int].to_node;
                lemma_edges_to_exact(es, t);
                assert(g.in_edges@[t as int]@ == edges_to(es, t));
            }
            assert forall|v: int, q: int| 0 <= v < g.n() && 0 <= q < g.in_edges@[v]@.len()
                implies g.out_edges@[g.edges@[#[trigger] g.in_edges@[v]@[q] as int].from_node as int]@.contains(g.in_edges@[v]@[q]) by {
                lemma_edges_to(es, v as usize);
                let e = g.in_edges@[v]@[q];
                let f = es[e as int].from_node;
                lemma_edges_from_exact(es, f);
                assert(g.out_edges@[f as int]@ == edges_from(es, f));
            }
            assert forall|v: int| 0 <= v < g.n() implies (#[trigger] g.out_edges@[v])@.no_duplicates() by {
                lemma_edges_from_exact(es, v as usize);
            }
            assert forall|v: int| 0 <= v < g.n() implies (#[trigger] g.in_edges@[v])@.no_duplicates() by {
                lemma_edges_to_exact(es, v as usize);
            }
        }
        g
    }
}

/// A dummy node at index `idx` in column `rank`.
pub open spec fn dummy_at(n: LayoutNode, idx: usize, rank: i32) -> bool {
    &&& n.id == 0
    &&& n.name@.len() == 0
    &&& n.kind == LayoutNodeKind::Dummy
    &&& n.rank == rank
    &&& n.order == 0
    &&& n.is_dummy
    &&& n.idx == idx
}

/// The other endpoints of a list of edges, leaving (`outgoing`) or entering.
pub open spec fn endpoints(es: Seq<LayoutEdge>, list: Seq<usize>, outgoing: bool) -> Seq<usize> {
    list.map_values(|e: usize| if outgoing { es[e as int].to_node } else { es[e as int].from_node })
}

impl LayoutGraph {
    /// Adds a dummy node in column `rank`, without edges, and returns its
    /// index.
    pub fn add_dummy_node(&mut self, rank: i32) -> (r: usize)
        requires
            old(self).well_formed(),
        ensures
            final(self).well_formed(),
            r == old(self).n(),
            final(self).nodes@.len() == old(self).n() + 1,
            final(self).nodes@.drop_last() == old(self).nodes@,
            dummy_at(final(self).nodes@.last(), r, rank),
            lists_consistent(*old(self)) ==> lists_consistent(*final(self)),
            final(self).edges@ == old(self).edges@,
            final(self).out_edges@.len() == old(self).n() + 1,
            final(self).out_edges@.drop_last() == old(self).out_edges@,
            final(self).out_edges@.last()@.len() == 0,
            final(self).in_edges@.len() == old(self).n() + 1,
            final(self).in_edges@.drop_last() == old(self).in_edges@,
            final(self).in_edges@.last()@.len() == 0,
            final(self).columns@ == old(self).columns@,
            final(self).id_to_idx@ == old(self).id_to_idx@,
            final(self).port_map@ == old(self).port_map@,
    {
        let idx = self.nodes.len();
        self.nodes.push(LayoutNode {
            id: 0,
            name: String::new(),
            kind: LayoutNodeKind::Dummy,
            rank,
            order: 0,
            is_dummy: true,
            idx,
        });
        self.out_edges.push(Vec::new());
        self.in_edges.push(Vec::new());
        proof {
            assert(self.nodes@.drop_last() =~= old(self).nodes@);
            assert(self.out_edges@.drop_last() =~= old(self).out_edges@);
            assert(self.in_edges@.drop_last() =~= old(self).in_edges@);
            assert forall|v: int, k: int| 0 <= v < self.n() && 0 <= k < self.out_edges@[v]@.len() implies {
                &&& #[trigger] self.out_edges@[v]@[k] < self.edges@.len()
                &&& self.edges@[self.out_edges@[v]@[k] as int].from_node == v
            } by {
                assert(v < old(self).n());
            }
            assert forall|v: int, k: int| 0 <= v < self.n() && 0 <= k < self.in_edges@[v]@.len() implies {
                &&& #[trigger] self.in_edges@[v]@[k] < self.edges@.len()
                &&& self.edges@[self.in_edges@[v]@[k] as int].to_node == v
            } by {
                assert(v < old(self).n());
            }
            assert forall|i: int| 0 <= i < self.n() implies (#[trigger] self.nodes@[i]).idx == i by {
                if i < old(self).n() {
                    assert(self.nodes@[i] == old(self).nodes@[i]);
                }
            }
            if lists_consistent(*old(self)) {
                assert forall|v: int, k: int| 0 <= v < self.n() && 0 <= k < self.out_edges@[v]@.len()
                    implies self.in_edges@[self.edges@[#[trigger] self.out_edges@[v]@[k] as int].to_node as int]@.contains(self.out_edges@[v]@[k]) by {
                    assert(v < old(self).n());
                    assert(self.out_edges@[v] == old(self).out_edges@[v]);
                    let t = self.edges@[self.out_edges@[v]@[k] as int].to_node;
                    assert(self.in_edges@[t as int] == old(self).in_edges@[t as int]);
                }
                assert forall|v: int, k: int| 0 <= v < self.n() && 0 <= k < self.in_edges@[v]@.len()
                    implies self.out_edges@[self.edges@[#[trigger] self.in_edges@[v]@[k] as int].from_node as int]@.contains(self.in_edges@[v]@[k]) by {
                    assert(v < old(self).n());
                    assert(self.in_edges@[v] == old(self).in_edges@[v]);
                    let f = self.edges@[self.in_edges@[v]@[k] as int].from_node;
                    assert(self.out_edges@[f as int] == old(self).out_edges@[f as int]);
                }
                assert forall|v: int| 0 <= v < self.n() implies (#[trigger] self.out_edges@[v])@.no_duplicates() by {
                    if v < old(self).n() {
                        assert(self.out_edges@[v] == old(self).out_edges@[v]);
                    }
                }
                assert forall|v: int| 0 <= v < self.n() implies (#[trigger] self.in_edges@[v])@.no_duplicates() by {
                    if v < old(self).n() {
                        assert(self.in_edges@[v] == old(self).in_edges@[v]);
                    }
                }
            }
        }
        idx
    }

    /// Adds a dummy edge (no id, no ports) from `from_idx` to `to_idx` and
    /// returns its index.
    pub fn add_dummy_edge(&mut self, from_idx: usize, to_idx: usize) -> (r: usize)
        requires
            old(self).well_formed(),
            from_idx < old(self).n(),
            to_idx < old(self).n(),
        ensures
            final(self).well_formed(),
            r == old(self).edges@.len(),
            final(self).edges@ == old(self).edges@.push(
                LayoutEdge { id: 0, from_node: from_idx, to_node: to_idx, from_port: None, to_port: None },
            ),
            final(self).out_edges@.len() == old(self).out_edges@.len(),
            final(self).in_edges@.len() == old(self).in_edges@.len(),
            forall|v: int| 0 <= v < old(self).n() ==> (#[trigger] final(self).out_edges@[v])@
                == if v == from_idx { old(self).out_edges@[v]@.push(r) } else { old(self).out_edges@[v]@ },
            forall|v: int| 0 <= v < old(self).n() ==> (#[trigger] final(self).in_edges@[v])@
                == if v == to_idx { old(self).in_edges@[v]@.push(r) } else { old(self).in_edges@[v]@ },
            final(self).nodes@ == old(self).nodes@,
            final(self).columns@ == old(self).columns@,
            final(self).id_to_idx@ == old(self).id_to_idx@,
            final(self).port_map@ == old(self).port_map@,
            lists_consistent(*old(self)) ==> lists_consistent(*final(self)),
    {
        self.push_edge(LayoutEdge { id: 0, from_node: from_idx, to_node: to_idx, from_port: None, to_port: None })
    }

    /// Appends `edge` to the edges and to the lists of its endpoints, and
    /// returns its index.
    pub(crate) fn push_edge(&mut self, edge: LayoutEdge) -> (r: usize)
        requires
            old(self).well_formed(),
            edge.from_node < old(self).n(),
            edge.to_node < old(self).n(),
        ensures
            final(self).well_formed(),
            r == old(self).edges@.len(),
            final(self).edges@ == old(self).edges@.push(edge),
            final(self).out_edges@.len() == old(self).out_edges@.len(),
            final(self).in_edges@.len() == old(self).in_edges@.len(),
            forall|v: int| 0 <= v < old(self).n() ==> (#[trigger] final(self).out_edges@[v])@
                == if v == edge.from_node { old(self).out_edges@[v]@.push(r) } else { old(self).out_edges@[v]@ },
            forall|v: int| 0 <= v < old(self).n() ==> (#[trigger] final(self).in_edges@[v])@
                == if v == edge.to_node { old(self).in_edges@[v]@.push(r) } else { old(self).in_edges@[v]@ },
            final(self).nodes@ == old(self).nodes@,
            final(self).columns@ == old(self).columns@,
            final(self).id_to_idx@ == old(self).id_to_idx@,
            final(self).port_map@ == old(self).port_map@,
            lists_consistent(*old(self)) ==> lists_consistent(*final(self)),
    {
        let from_idx = edge.from_node;
        let to_idx = edge.to_node;
        let edge_idx = self.edges.len();
        self.edges.push(edge);
        self.out_edges[from_idx].push(edge_idx);
        self.in_edges[to_idx].push(edge_idx);
        proof {
            assert forall|v: int, k: int| 0 <= v < self.n() && 0 <= k < self.out_edges@[v]@.len() implies {
                &&& #[trigger] self.out_edges@[v]@[k] < self.edges@.len()
                &&& self.edges@[self.out_edges@[v]@[k] as int].from_node == v
            } by {
                if v != from_idx || k < old(self).out_edges@[v]@.len() {
                    assert(self.out_edges@[v]@[k] == old(self).out_edges@[v]@[k]);
                }
            }
            assert forall|v: int, k: int| 0 <= v < self.n() && 0 <= k < self.in_edges@[v]@.len() implies {
                &&& #[trigger] self.in_edges@[v]@[k] < self.edges@.len()
                &&& self.edges@[self.in_edges@[v]@[k] as int].to_node == v
            } by {
                if v != to_idx || k < old(self).in_edges@[v]@.len() {
                    assert(self.in_edges@[v]@[k] == old(self).in_edges@[v]@[k]);
                }
            }
            if lists_consistent(*old(self)) {
                let ne = old(self).edges@.len();
                assert forall|v: int, k: int| 0 <= v < self.n() && 0 <= k < self.out_edges@[v]@.len()
                    implies self.in_edges@[self.edges@[#[trigger] self.out_edges@[v]@[k] as int].to_node as int]@.contains(self.out_edges@[v]@[k]) by {
                    let e = self.out_edges@[v]@[k];
                    if v == from_idx && k == old(self).out_edges@[v]@.len() {
                        assert(e == ne);
                        assert(self.in_edges@[to_idx as int]@[old(self).in_edges@[to_idx as int]@.len() as int] == e);
                    } else {
                        assert(e == old(self).out_edges@[v]@[k]);
                        let t = old(self).edges@[e as int].to_node;
                        assert(self.edges@[e as int] == old(self).edges@[e as int]);
                        assert(old(self).in_edges@[t as int]@.contains(e));
                        let i = choose|i: int| 0 <= i < old(self).in_edges@[t as int]@.len() && old(self).in_edges@[t as int]@[i] == e;
                        assert(self.in_edges@[t as int]@[i] == e);
                    }
                }
                assert forall|v: int, k: int| 0 <= v < self.n() && 0 <= k < self.in_edges@[v]@.len()
                    implies self.out_edges@[self.edges@[#[trigger] self.in_edges@[v]@[k] as int].from_node as int]@.contains(self.in_edges@[v]@[k]) by {
                    let e = self.in_edges@[v]@[k];
                    if v == to_idx && k == old(self).in_edges@[v]@.len() {
                        assert(e == ne);
                        assert(self.out_edges@[from_idx as int]@[old(self).out_edges@[from_idx as int]@.len() as int] == e);
                    } else {
                        assert(e == old(self).in_edges@[v]@[k]);
                        let f = old(self).edges@[e as int].from_node;
                        assert(self.edges@[e as int] == old(self).edges@[e as int]);
                        assert(old(self).out_edges@[f as int]@.contains(e));
                        let i = choose|i: int| 0 <= i < old(self).out_edges@[f as int]@.len() && old(self).out_edges@[f as int]@[i] == e;
                        assert(self.out_edges@[f as int]@[i] == e);
                    }
                }
                assert forall|v: int| 0 <= v < self.n() implies (#[trigger] self.out_edges@[v])@.no_duplicates() by {
                    if v == from_idx {
                        let l = old(self).out_edges@[v]@;
                        assert(self.out_edges@[v]@ == l.push(ne as usize));
                        assert forall|a: int, b: int| 0 <= a < l.len() + 1 && 0 <= b < l.len() + 1 && a != b implies #[trigger] l.push(ne as usize)[a] != #[trigger] l.push(ne as usize)[b] by {
                            if b == l.len() {
                                assert(l[a] < ne);
                            } else if a == l.len() {
                                assert(l[b] < ne);
                            } else {
                                assert(l[a] != l[b]);
                            }
                        }
                    }
                }
                assert forall|v: int| 0 <= v < self.n() implies (#[trigger] self.in_edges@[v])@.no_duplicates() by {
                    if v == to_idx {
                        let l = old(self).in_edges@[v]@;
                        assert(self.in_edges@[v]@ == l.push(ne as usize));
                        assert forall|a: int, b: int| 0 <= a < l.len() + 1 && 0 <= b < l.len() + 1 && a != b implies #[trigger] l.push(ne as usize)[a] != #[trigger] l.push(ne as usize)[b] by {
                            if b == l.len() {
                                assert(l[a] < ne);
                            } else if a == l.len() {
                                assert(l[b] < ne);
                            } else {
                                assert(l[a] != l[b]);
                            }
                        }
                    }
                }
            }
        }
        edge_idx
    }

    /// The nodes that the edges leaving `node_idx` go to, in list order.
    pub fn successors(&self, node_idx: usize) -> (r: Vec<usize>)
        requires
            self.well_formed(),
            node_idx < self.n(),
        ensures
            r@ == endpoints(self.edges@, self.out_edges@[node_idx as int]@, true),
    {
        let list = &self.out_edges[node_idx];
        let mut r: Vec<usize> = Vec::new();
        let mut k: usize = 0;
        while k < list.len()
            invariant
                self.well_formed(),
                node_idx < self.n(),
                list@ == self.out_edges@[node_idx as int]@,
                0 <= k <= list@.len(),
                r@ == endpoints(self.edges@, list@.take(k as int), true),
            decreases list@.len() - k,
        {
            let e = list[k];
            r.push(self.edges[e].to_node);
            proof {
                assert(endpoints(self.edges@, list@.take(k + 1), true) =~= endpoints(self.edges@, list@.take(k as int), true).push(self.edges@[e as int].to_node));
            }
            k = k + 1;
        }
        proof {
            assert(list@.take(list@.len() as int) == list@);
        }
        r
    }

    /// The nodes that the edges entering `node_idx` come from, in list order.
    pub fn predecessors(&self, node_idx: usize) -> (r: Vec<usize>)
        requires
            self.well_formed(),
            node_idx < self.n(),
        ensures
            r@ == endpoints(self.edges@, self.in_edges@[node_idx as int]@, false),
    {
        let list = &self.in_edges[node_idx];
        let mut r: Vec<usize> = Vec::new();
        let mut k: usize = 0;
        while k < list.len()
            invariant
                self.well_formed(),
                node_idx < self.n(),
                list@ == self.in_edges@[node_idx as int]@,
                0 <= k <= list@.len(),
                r@ == endpoints(self.edges@, list@.take(k as int), false),
            decreases list@.len() - k,
        {
            let e = list[k];
            r.push(self.edges[e].from_node);
            proof {
                assert(endpoints(self.edges@, list@.take(k + 1), false) =~= endpoints(self.edges@, list@.take(k as int), false).push(self.edges@[e as int].from_node));
            }
            k = k + 1;
        }
        proof {
            assert(list@.take(list@.len() as int) == list@);
        }
        r
    }

    /// The nodes of column `col_idx`, or none past the last column.
    pub fn column(&self, col_idx: usize) -> (r: &[usize])
        ensures
            r@ == if col_idx < self.columns@.len() { self.columns@[col_idx as int]@ } else { Seq::empty() },
    {
        if col_idx < self.columns.len() {
            self.columns[col_idx].as_slice()
        } else {
            &[]
        }
    }

    /// The number of nodes that are not dummies.
    pub fn real_node_count(&self) -> (r: usize)
        ensures
            r == self.nodes@.filter(|n: LayoutNode| !n.is_dummy).len(),
    {
        let mut count: usize = 0;
        let mut i: usize = 0;
        while i < self.nodes.len()
            invariant
                0 <= i <= self.nodes@.len(),
                count == self.nodes@.take(i as int).filter(|n: LayoutNode| !n.is_dummy).len(),
                count <= i,
            decreases self.nodes@.len() - i,
        {
            proof {
                assert(self.nodes@.take(i + 1).drop_last() == self.nodes@.take(i as int));
                reveal(Seq::filter);
            }
            if !self.nodes[i].is_dummy {
                count = count + 1;
            }
            i = i + 1;
        }
        proof {
            assert(self.nodes@.take(self.nodes@.len() as int) == self.nodes@);
        }
        count
    }
}

/// The lowest rank among the nodes (0 for none).
pub open spec fn min_rank(ns: Seq<LayoutNode>) -> int
    decreases ns.len(),
{
    if ns.len() == 0 {
        0
    } else if ns.len() == 1 {
        ns[0].rank as int
    } else if (ns.last().rank as int) < min_rank(ns.drop_last()) {
        ns.last().rank as int
    } else {
        min_rank(ns.drop_last())
    }
}

/// The highest rank among the nodes (0 for none).
pub open spec fn max_rank(ns: Seq<LayoutNode>) -> int
    decreases ns.len(),
{
    if ns.len() == 0 {
        0
    } else if ns.len() == 1 {
        ns[0].rank as int
    } else if (ns.last().rank as int) > max_rank(ns.drop_last()) {
        ns.last().rank as int
    } else {
        max_rank(ns.drop_last())
    }
}

/// The indices of the nodes of rank `r`, in order.
pub open spec fn rank_members(ns: Seq<LayoutNode>, r: int) -> Seq<usize>
    decreases ns.len(),
{
    if ns.len() == 0 {
        Seq::empty()
    } else if ns.last().rank == r {
        rank_members(ns.drop_last(), r).push((ns.len() - 1) as usize)
    } else {
        rank_members(ns.drop_last(), r)
    }
}

proof fn lemma_rank_bounds(ns: Seq<LayoutNode>)
    ensures
        forall|i: int| 0 <= i < ns.len() ==> min_rank(ns) <= (#[trigger] ns[i]).rank <= max_rank(ns),
        ns.len() > 0 ==> exists|i: int| 0 <= i < ns.len() && ns[i].rank == min_rank(ns),
        ns.len() > 0 ==> exists|i: int| 0 <= i < ns.len() && ns[i].rank == max_rank(ns),
    decreases ns.len(),
{
    if ns.len() > 1 {
        let t = ns.drop_last();
        lemma_rank_bounds(t);
        assert forall|i: int| 0 <= i < ns.len() implies min_rank(ns) <= (#[trigger] ns[i]).rank <= max_rank(ns) by {
            if i < t.len() {
                assert(ns[i] == t[i]);
            }
        }
        let a = choose|i: int| 0 <= i < t.len() && t[i].rank == min_rank(t);
        let b = choose|i: int| 0 <= i < t.len() && t[i].rank == max_rank(t);
        assert(ns[a] == t[a] && ns[b] == t[b]);
        assert(ns[ns.len() - 1] == ns.last());
    } else if ns.len() == 1 {
        assert(ns[0].rank == min_rank(ns));
    }
}

/// Only the nodes' orders differ.
pub open spec fn same_but_order(a: LayoutNode, b: LayoutNode) -> bool {
    LayoutNode { order: 0, ..a } == LayoutNode { order: 0, ..b }
}

impl LayoutGraph {
    /// Builds the columns from the ranks: column `c` holds the nodes of rank
    /// `c` plus the lowest rank, by index, and each node's order becomes its
    /// place in its column.
    pub fn build_columns(&mut self)
        requires
            old(self).well_formed(),
            max_rank(old(self).nodes@) - min_rank(old(self).nodes@) < i32::MAX,
        ensures
            final(self).well_formed(),
            final(self).nodes@.len() == old(self).n(),
            forall|i: int| 0 <= i < old(self).n() ==> same_but_order(#[trigger] final(self).nodes@[i], old(self).nodes@[i]),
            final(self).edges@ == old(self).edges@,
            final(self).out_edges@ == old(self).out_edges@,
            final(self).in_edges@ == old(self).in_edges@,
            final(self).columns@.len() == if old(self).n() == 0 { 0 } else { max_rank(old(self).nodes@) - min_rank(old(self).nodes@) + 1 },
            forall|c: int| 0 <= c < final(self).columns@.len() ==> (#[trigger] final(self).columns@[c])@
                == rank_members(old(self).nodes@, min_rank(old(self).nodes@) + c),
            forall|i: int| 0 <= i < old(self).n() ==> {
                let c = final(self).nodes@[i].rank - min_rank(old(self).nodes@);
                &&& 0 <= c < final(self).columns@.len()
                &&& #[trigger] final(self).nodes@[i].order < final(self).columns@[c]@.len()
                &&& final(self).columns@[c]@[final(self).nodes@[i].order as int] == i
            },
    {
        let n = self.nodes.len();
        if n == 0 {
            self.columns = Vec::new();
            return;
        }
        let ghost ns = self.nodes@;
        proof {
            lemma_rank_bounds(ns);
        }
        let mut lo: i32 = self.nodes[0].rank;
        let mut hi: i32 = lo;
        let mut i: usize = 1;
        while i < n
            invariant
                n == ns.len(),
                self.nodes@ == ns,
                1 <= i <= n,
                lo == min_rank(ns.take(i as int)),
                hi == max_rank(ns.take(i as int)),
            decreases n - i,
        {
            proof {
                assert(ns.take(i + 1).drop_last() == ns.take(i as int));
                assert(ns.take(i + 1).last() == ns[i as int]);
            }
            let r = self.nodes[i].rank;
            if r < lo {
                lo = r;
            }
            if r > hi {
                hi = r;
            }
            i = i + 1;
        }
        proof {
            assert(ns.take(n as int) == ns);
        }
        let num_cols: usize = (hi - lo + 1) as usize;
        let mut columns: Vec<Vec<usize>> = Vec::new();
        let mut c: usize = 0;
        while c < num_cols
            invariant
                0 <= c <= num_cols,
                columns@.len() == c,
                forall|q: int| 0 <= q < c ==> (#[trigger] columns@[q])@ == Seq::<usize>::empty(),
            decreases num_cols - c,
        {
            columns.push(Vec::new());
            c = c + 1;
        }
        proof {
            assert forall|q: int| 0 <= q < num_cols implies (#[trigger] columns@[q])@ == rank_members(ns.take(0), lo + q) by {}
        }
        let mut j: usize = 0;
        while j < n
            invariant
                n == ns.len(),
                self.nodes@.len() == n,
                self.edges@ == old(self).edges@,
                self.out_edges@ == old(self).out_edges@,
                self.in_edges@ == old(self).in_edges@,
                self.columns@ == old(self).columns@,
                ns == old(self).nodes@,
                lo == min_rank(ns),
                hi == max_rank(ns),
                num_cols == hi - lo + 1,
                hi - lo < i32::MAX,
                forall|k: int| 0 <= k < n ==> lo <= (#[trigger] ns[k]).rank <= hi,
                0 <= j <= n,
                columns@.len() == num_cols,
                forall|q: int| 0 <= q < num_cols ==> (#[trigger] columns@[q])@ == rank_members(ns.take(j as int), lo + q),
                forall|k: int| 0 <= k < n ==> same_but_order(#[trigger] self.nodes@[k], ns[k]),
                forall|k: int| j <= k < n ==> #[trigger] self.nodes@[k] == ns[k],
                forall|k: int| 0 <= k < j ==> {
                    let q = ns[k].rank - lo;
                    &&& #[trigger] self.nodes@[k].order < columns@[q]@.len()
                    &&& columns@[q]@[self.nodes@[k].order as int] == k
                },
            decreases n - j,
        {
            let col: usize = (self.nodes[j].rank - lo) as usize;
            let ord = columns[col].len();
            self.nodes[j].order = ord;
            columns[col].push(j);
            proof {
                let t = ns.take(j + 1);
                assert(t.drop_last() == ns.take(j as int));
                assert(t.last() == ns[j as int]);
                assert forall|q: int| 0 <= q < num_cols implies (#[trigger] columns@[q])@ == rank_members(ns.take(j + 1), lo + q) by {
                    assert(rank_members(t, lo + q) == if ns[j as int].rank == lo + q {
                        rank_members(ns.take(j as int), lo + q).push(j)
                    } else {
                        rank_members(ns.take(j as int), lo + q)
                    });
                }
            }
            j = j + 1;
        }
        self.columns = columns;
        proof {
            assert(ns.take(n as int) == ns);
        }
    }
}

/// An edge of node `a`'s lists, leaving or entering, joins it to `b`.
pub open spec fn linked(g: LayoutGraph, a: int, b: usize) -> bool {
    ||| endpoints(g.edges@, g.out_edges@[a]@, true).contains(b)
    ||| endpoints(g.edges@, g.in_edges@[a]@, false).contains(b)
}

/// Node `list[k]` is joined to a node before it in `list`.
pub open spec fn joined_back(g: LayoutGraph, list: Seq<usize>, k: int) -> bool {
    exists|j: int| 0 <= j < k && #[trigger] linked(g, list[j] as int, list[k])
}

/// `x` is in one of the lists.
pub open spec fn covered(cs: Seq<Vec<usize>>, x: usize) -> bool {
    exists|c: int, k: int| 0 <= c < cs.len() && 0 <= k < cs[c]@.len() && #[trigger] cs[c]@[k] == x
}

/// The lists are the weakly connected components of `g`, found from the
/// lowest node up: together they hold every node once; each starts with
/// its lowest node, and their first nodes increase; every node of a list
/// after its first is joined to an earlier one of the list; and every node
/// joined to a node of a list is in that list or an earlier one.
pub open spec fn components_of(g: LayoutGraph, cs: Seq<Vec<usize>>, upto: int) -> bool {
    &&& forall|x: usize| 0 <= x < upto ==> covered(cs, x)
    &&& forall|c: int, k: int| 0 <= c < cs.len() && 0 <= k < cs[c]@.len() ==> #[trigger] cs[c]@[k] < g.n()
    &&& forall|c: int| 0 <= c < cs.len() ==> (#[trigger] cs[c])@.len() > 0
    &&& forall|c: int, k: int| 0 <= c < cs.len() && 0 <= k < cs[c]@.len() ==> cs[c]@[0] <= #[trigger] cs[c]@[k]
    &&& forall|c: int, d: int| 0 <= c < d < cs.len() ==> (#[trigger] cs[c])@[0] < (#[trigger] cs[d])@[0]
    &&& forall|c: int, k: int, d: int, m: int| 0 <= c < cs.len() && 0 <= k < cs[c]@.len() && 0 <= d < cs.len() && 0 <= m < cs[d]@.len()
        && (c != d || k != m) ==> #[trigger] cs[c]@[k] != #[trigger] cs[d]@[m]
    &&& forall|c: int, k: int| 0 <= c < cs.len() && 0 < k < cs[c]@.len() ==> #[trigger] joined_back(g, cs[c]@, k)
    &&& forall|c: int, k: int, w: usize| 0 <= c < cs.len() && 0 <= k < cs[c]@.len() && #[trigger] linked(g, cs[c]@[k] as int, w)
        ==> exists|d: int, m: int| 0 <= d <= c && 0 <= m < cs[d]@.len() && #[trigger] cs[d]@[m] == w
}

/// How many entries are `false`.
pub open spec fn count_false(s: Seq<bool>) -> nat
    decreases s.len(),
{
    if s.len() == 0 {
        0
    } else {
        count_false(s.drop_last()) + if s.last() { 0nat } else { 1nat }
    }
}

proof fn lemma_count_false_set(s: Seq<bool>, i: int)
    requires
        0 <= i < s.len(),
        !s[i],
    ensures
        count_false(s.update(i, true)) + 1 == count_false(s),
    decreases s.len(),
{
    let t = s.update(i, true);
    if i < s.len() - 1 {
        lemma_count_false_set(s.drop_last(), i);
        assert(t.drop_last() == s.drop_last().update(i, true));
    } else {
        assert(t.drop_last() == s.drop_last());
    }
}

proof fn lemma_covered_push(cs: Seq<Vec<usize>>, comp: Vec<usize>, x: usize)
    ensures
        covered(cs.push(comp), x) <==> (covered(cs, x) || comp@.contains(x)),
{
    let cs2 = cs.push(comp);
    if covered(cs, x) {
        let (c, k) = choose|c: int, k: int| 0 <= c < cs.len() && 0 <= k < cs[c]@.len() && #[trigger] cs[c]@[k] == x;
        assert(cs2[c] == cs[c]);
        assert(cs2[c]@[k] == x);
    }
    if comp@.contains(x) {
        let k = choose|k: int| 0 <= k < comp@.len() && comp@[k] == x;
        assert(cs2[cs.len() as int] == comp);
        assert(cs2[cs.len() as int]@[k] == x);
    }
    if covered(cs2, x) {
        let (c, k) = choose|c: int, k: int| 0 <= c < cs2.len() && 0 <= k < cs2[c]@.len() && #[trigger] cs2[c]@[k] == x;
        if c < cs.len() {
            assert(cs2[c] == cs[c]);
            assert(cs[c]@[k] == x);
        } else {
            assert(cs2[c] == comp);
            assert(comp@[k] == x);
        }
    }
}

proof fn lemma_component_done(g: LayoutGraph, cs: Seq<Vec<usize>>, comp: Vec<usize>, start: usize, vis: Seq<bool>)
    requires
        g.well_formed(),
        start < g.n(),
        vis.len() == g.n(),
        components_of(g, cs, start as int),
        forall|c: int| 0 <= c < cs.len() ==> (#[trigger] cs[c])@[0] < start,
        forall|x: usize| x < g.n() ==> (#[trigger] vis[x as int] <==> (covered(cs, x) || comp@.contains(x))),
        comp@.len() > 0,
        comp@[0] == start,
        forall|k: int| 0 <= k < comp@.len() ==> start <= #[trigger] comp@[k] < g.n(),
        forall|k: int, m: int| 0 <= k < m < comp@.len() ==> #[trigger] comp@[k] != #[trigger] comp@[m],
        forall|k: int| 0 <= k < comp@.len() ==> !covered(cs, #[trigger] comp@[k]),
        forall|k: int| 0 < k < comp@.len() ==> #[trigger] joined_back(g, comp@, k),
        forall|j: int, w: usize| 0 <= j < comp@.len() && #[trigger] linked(g, comp@[j] as int, w) ==> vis[w as int],
        forall|j: int, w: usize| 0 <= j < comp@.len() && #[trigger] linked(g, comp@[j] as int, w) ==> w < g.n(),
    ensures
        components_of(g, cs.push(comp), start + 1),
        forall|x: usize| x < g.n() ==> (#[trigger] vis[x as int] <==> covered(cs.push(comp), x)),
        forall|c: int| 0 <= c < cs.push(comp).len() ==> (#[trigger] cs.push(comp)[c])@[0] < start + 1,
{
    let cs2 = cs.push(comp);
    let last = cs.len() as int;
    assert(cs2[last] == comp);
    assert forall|c: int| 0 <= c < cs.len() implies #[trigger] cs2[c] == cs[c] by {}
    assert forall|x: usize| x < g.n() implies (#[trigger] vis[x as int] <==> covered(cs2, x)) by {
        lemma_covered_push(cs, comp, x);
    }
    assert forall|x: usize| 0 <= x < start + 1 implies covered(cs2, x) by {
        lemma_covered_push(cs, comp, x);
        if x == start {
            assert(comp@[0] == x);
        }
    }
    assert forall|c: int, k: int| 0 <= c < cs2.len() && 0 <= k < cs2[c]@.len() implies #[trigger] cs2[c]@[k] < g.n() by {
        if c < last {
            assert(cs2[c] == cs[c]);
        }
    }
    assert forall|c: int| 0 <= c < cs2.len() implies (#[trigger] cs2[c])@.len() > 0 by {
        if c < last {
            assert(cs2[c] == cs[c]);
        }
    }
    assert forall|c: int, k: int| 0 <= c < cs2.len() && 0 <= k < cs2[c]@.len() implies cs2[c]@[0] <= #[trigger] cs2[c]@[k] by {
        if c < last {
            assert(cs2[c] == cs[c]);
        }
    }
    assert forall|c: int, d: int| 0 <= c < d < cs2.len() implies (#[trigger] cs2[c])@[0] < (#[trigger] cs2[d])@[0] by {
        assert(cs2[c] == cs[c]);
        if d < last {
            assert(cs2[d] == cs[d]);
        }
    }
    assert forall|c: int, k: int, d: int, m: int| 0 <= c < cs2.len() && 0 <= k < cs2[c]@.len() && 0 <= d < cs2.len() && 0 <= m < cs2[d]@.len()
        && (c != d || k != m) implies #[trigger] cs2[c]@[k] != #[trigger] cs2[d]@[m] by {
        if c < last && d < last {
            assert(cs2[c] == cs[c] && cs2[d] == cs[d]);
        } else if c < last {
            assert(cs2[c] == cs[c]);
            assert(!covered(cs, comp@[m]));
        } else if d < last {
            assert(cs2[d] == cs[d]);
            assert(!covered(cs, comp@[k]));
        } else {
            if k < m {
                assert(comp@[k] != comp@[m]);
            } else {
                assert(comp@[m] != comp@[k]);
            }
        }
    }
    assert forall|c: int, k: int| 0 <= c < cs2.len() && 0 < k < cs2[c]@.len() implies #[trigger] joined_back(g, cs2[c]@, k) by {
        if c < last {
            assert(cs2[c] == cs[c]);
            assert(cs[c]@[k] == cs2[c]@[k]);
            assert(joined_back(g, cs[c]@, k));
        } else {
            assert(cs2[c] == comp);
            assert(comp@[k] == cs2[c]@[k]);
            assert(joined_back(g, comp@, k));
        }
    }
    assert forall|c: int, k: int, w: usize| 0 <= c < cs2.len() && 0 <= k < cs2[c]@.len() && #[trigger] linked(g, cs2[c]@[k] as int, w)
        implies exists|d: int, m: int| 0 <= d <= c && 0 <= m < cs2[d]@.len() && #[trigger] cs2[d]@[m] == w by {
        if c < last {
            assert(cs2[c] == cs[c]);
            let (d, m) = choose|d: int, m: int| 0 <= d <= c && 0 <= m < cs[d]@.len() && #[trigger] cs[d]@[m] == w;
            assert(cs2[d] == cs[d]);
        } else {
            assert(linked(g, comp@[k] as int, w));
            assert(vis[w as int]);
            lemma_covered_push(cs, comp, w);
            let (d, m) = choose|d: int, m: int| 0 <= d < cs2.len() && 0 <= m < cs2[d]@.len() && #[trigger] cs2[d]@[m] == w;
        }
    }
}

proof fn lemma_linked_in_range(g: LayoutGraph, a: int, w: usize)
    requires
        g.well_formed(),
        0 <= a < g.n(),
        linked(g, a, w),
    ensures
        w < g.n(),
{
    if endpoints(g.edges@, g.out_edges@[a]@, true).contains(w) {
        let i = choose|i: int| 0 <= i < g.out_edges@[a]@.len() && endpoints(g.edges@, g.out_edges@[a]@, true)[i] == w;
        assert(g.out_edges@[a]@[i] < g.edges@.len());
    } else {
        let i = choose|i: int| 0 <= i < g.in_edges@[a]@.len() && endpoints(g.edges@, g.in_edges@[a]@, false)[i] == w;
        assert(g.in_edges@[a]@[i] < g.edges@.len());
    }
}

impl LayoutGraph {
    /// The weakly connected components (see [`components_of`]).
    pub fn connected_components(&self) -> (r: Vec<Vec<usize>>)
        requires
            self.well_formed(),
        ensures
            components_of(*self, r@, self.n()),
    {
        let n = self.nodes.len();
        let mut visited: Vec<bool> = Vec::new();
        let mut q: usize = 0;
        while q < n
            invariant
                0 <= q <= n,
                visited@.len() == q,
                forall|x: int| 0 <= x < q ==> !(#[trigger] visited@[x]),
            decreases n - q,
        {
            visited.push(false);
            q = q + 1;
        }
        let mut components: Vec<Vec<usize>> = Vec::new();
        let mut start: usize = 0;
        while start < n
            invariant
                self.well_formed(),
                n == self.n(),
                0 <= start <= n,
                visited@.len() == n,
                components_of(*self, components@, start as int),
                forall|x: usize| x < n ==> (#[trigger] visited@[x as int] <==> covered(components@, x)),
                forall|c: int| 0 <= c < components@.len() ==> (#[trigger] components@[c])@[0] < start,
            decreases n - start,
        {
            if visited[start] {
                start = start + 1;
                continue;
            }
            let ghost cs = components@;
            let mut component: Vec<usize> = Vec::new();
            let mut stack: Vec<usize> = Vec::new();
            stack.push(start);
            while stack.len() > 0
                invariant
                    self.well_formed(),
                    n == self.n(),
                    start < n,
                    visited@.len() == n,
                    components@ == cs,
                    components_of(*self, cs, start as int),
                    forall|c: int| 0 <= c < cs.len() ==> (#[trigger] cs[c])@[0] < start,
                    forall|x: usize| x < n ==> (#[trigger] visited@[x as int] <==> (covered(cs, x) || component@.contains(x))),
                    forall|i: int| 0 <= i < stack@.len() ==> #[trigger] stack@[i] < n,
                    component@.len() == 0 ==> stack@ == seq![start],
                    !covered(cs, start),
                    component@.len() > 0 ==> component@[0] == start,
                    forall|k: int| 0 <= k < component@.len() ==> start <= #[trigger] component@[k] < n,
                    forall|k: int, m: int| 0 <= k < m < component@.len() ==> #[trigger] component@[k] != #[trigger] component@[m],
                    forall|k: int| 0 <= k < component@.len() ==> !covered(cs, #[trigger] component@[k]),
                    forall|k: int| 0 < k < component@.len() ==> #[trigger] joined_back(*self, component@, k),
                    forall|i: int| 0 <= i < stack@.len() ==> #[trigger] stack@[i] == start
                        || exists|j: int| 0 <= j < component@.len() && linked(*self, component@[j] as int, stack@[i]),
                    forall|j: int, w: usize| 0 <= j < component@.len() && #[trigger] linked(*self, component@[j] as int, w)
                        ==> visited@[w as int] || stack@.contains(w),
                decreases count_false(visited@), stack@.len(),
            {
                let ghost st_before = stack@;
                let v = stack.pop().unwrap();
                proof {
                    assert(st_before == stack@.push(v));
                    assert forall|x: usize| x != v && st_before.contains(x) implies stack@.contains(x) by {
                        let i = choose|i: int| 0 <= i < st_before.len() && st_before[i] == x;
                        assert(i < stack@.len());
                        assert(stack@[i] == x);
                    }
                    assert forall|j: int, w: usize| 0 <= j < component@.len() && #[trigger] linked(*self, component@[j] as int, w)
                        implies visited@[w as int] || stack@.contains(w) || w == v by {
                        if !visited@[w as int] && w != v {
                            assert(st_before.contains(w));
                        }
                    }
                    assert forall|i: int| 0 <= i < stack@.len() implies #[trigger] stack@[i] == start
                        || exists|j: int| 0 <= j < component@.len() && linked(*self, component@[j] as int, stack@[i]) by {
                        assert(stack@[i] == st_before[i]);
                    }
                    if component@.len() == 0 {
                        assert(v == start);
                        assert(!component@.contains(start));
                    }
                }
                if visited[v] {
                    continue;
                }
                let ghost vis0 = visited@;
                let ghost comp0 = component@;
                visited[v] = true;
                component.push(v);
                proof {
                    lemma_count_false_set(vis0, v as int);
                    assert(component@ == comp0.push(v));
                    assert forall|x: usize| x < n implies (#[trigger] visited@[x as int] <==> (covered(cs, x) || component@.contains(x))) by {
                        if comp0.contains(x) {
                            let i = choose|i: int| 0 <= i < comp0.len() && comp0[i] == x;
                            assert(component@[i] == x);
                        }
                        if component@.contains(x) && x != v {
                            let i = choose|i: int| 0 <= i < component@.len() && component@[i] == x;
                            assert(i < comp0.len());
                            assert(comp0[i] == x);
                        }
                        if x == v {
                            assert(component@[comp0.len() as int] == v);
                        }
                    }
                    assert forall|j: int, w: usize| 0 <= j < comp0.len() && #[trigger] linked(*self, comp0[j] as int, w)
                        implies visited@[w as int] || stack@.contains(w) by {
                        assert(comp0[j] == component@[j]);
                    }
                    assert forall|k: int| 0 < k < component@.len() implies #[trigger] joined_back(*self, component@, k) by {
                        if k < comp0.len() {
                            assert(comp0[k] == component@[k]);
                            assert(joined_back(*self, comp0, k));
                            let j = choose|j: int| 0 <= j < k && #[trigger] linked(*self, comp0[j] as int, comp0[k]);
                            assert(component@[j] == comp0[j]);
                            assert(linked(*self, component@[j] as int, component@[k]));
                        } else {
                            assert(component@[k] == v);
                            assert(st_before[st_before.len() - 1] == v);
                            assert(comp0[0] == start);
                            assert(vis0[start as int]);
                            let j = choose|j: int| 0 <= j < comp0.len() && linked(*self, comp0[j] as int, st_before[st_before.len() - 1]);
                            assert(component@[j] == comp0[j]);
                            assert(linked(*self, component@[j] as int, component@[k]));
                        }
                    }
                    assert forall|i: int| 0 <= i < stack@.len() implies #[trigger] stack@[i] == start
                        || exists|j: int| 0 <= j < component@.len() && linked(*self, component@[j] as int, stack@[i]) by {
                        if stack@[i] != start {
                            let j = choose|j: int| 0 <= j < comp0.len() && linked(*self, comp0[j] as int, stack@[i]);
                            assert(component@[j] == comp0[j]);
                        }
                    }
                }
                let outs = &self.out_edges[v];
                let mut k: usize = 0;
                while k < outs.len()
                    invariant
                        self.well_formed(),
                        n == self.n(),
                        v < n,
                        outs@ == self.out_edges@[v as int]@,
                        0 <= k <= outs@.len(),
                        visited@.len() == n,
                        count_false(visited@) < count_false(vis0),
                        forall|x: usize| x < n ==> (#[trigger] visited@[x as int] <==> (covered(cs, x) || component@.contains(x))),
                        forall|i: int| 0 <= i < stack@.len() ==> #[trigger] stack@[i] < n,
                        forall|i: int| 0 <= i < stack@.len() ==> #[trigger] stack@[i] == start
                            || exists|j: int| 0 <= j < component@.len() && linked(*self, component@[j] as int, stack@[i]),
                        component@.last() == v,
                        forall|j: int| 0 <= j < k ==> visited@[#[trigger] endpoints(self.edges@, outs@, true)[j] as int]
                            || stack@.contains(endpoints(self.edges@, outs@, true)[j]),
                        forall|j: int, w: usize| 0 <= j < comp0.len() && #[trigger] linked(*self, comp0[j] as int, w)
                            ==> visited@[w as int] || stack@.contains(w),
                        component@ == comp0.push(v),
                    decreases outs@.len() - k,
                {
                    let e = outs[k];
                    let w = self.edges[e].to_node;
                    let ghost st0 = stack@;
                    if !visited[w] {
                        stack.push(w);
                        proof {
                            assert(linked(*self, v as int, w)) by {
                                assert(endpoints(self.edges@, outs@, true)[k as int] == w);
                            }
                            assert(component@[comp0.len() as int] == v);
                        }
                    }
                    proof {
                        assert(endpoints(self.edges@, outs@, true)[k as int] == w);
                        assert forall|j: int, x: usize| 0 <= j < comp0.len() && #[trigger] linked(*self, comp0[j] as int, x)
                            implies visited@[x as int] || stack@.contains(x) by {
                            if !visited@[x as int] {
                                let i = choose|i: int| 0 <= i < st0.len() && st0[i] == x;
                                assert(stack@[i] == x);
                            }
                        }
                        assert forall|j: int| 0 <= j < k + 1 implies visited@[#[trigger] endpoints(self.edges@, outs@, true)[j] as int]
                            || stack@.contains(endpoints(self.edges@, outs@, true)[j]) by {
                            let x = endpoints(self.edges@, outs@, true)[j];
                            if j < k && !visited@[x as int] {
                                let i = choose|i: int| 0 <= i < st0.len() && st0[i] == x;
                                assert(stack@[i] == x);
                            } else if j == k && !visited@[x as int] {
                                assert(stack@[st0.len() as int] == x);
                            }
                        }
                    }
                    k = k + 1;
                }
                let ghost st_mid = stack@;
                let ins = &self.in_edges[v];
                let mut k2: usize = 0;
                while k2 < ins.len()
                    invariant
                        self.well_formed(),
                        n == self.n(),
                        v < n,
                        ins@ == self.in_edges@[v as int]@,
                        0 <= k2 <= ins@.len(),
                        visited@.len() == n,
                        count_false(visited@) < count_false(vis0),
                        forall|x: usize| x < n ==> (#[trigger] visited@[x as int] <==> (covered(cs, x) || component@.contains(x))),
                        forall|i: int| 0 <= i < stack@.len() ==> #[trigger] stack@[i] < n,
                        forall|i: int| 0 <= i < stack@.len() ==> #[trigger] stack@[i] == start
                            || exists|j: int| 0 <= j < component@.len() && linked(*self, component@[j] as int, stack@[i]),
                        component@.last() == v,
                        forall|j: int| 0 <= j < self.out_edges@[v as int]@.len() ==> visited@[#[trigger] endpoints(self.edges@, self.out_edges@[v as int]@, true)[j] as int]
                            || stack@.contains(endpoints(self.edges@, self.out_edges@[v as int]@, true)[j]),
                        forall|j: int| 0 <= j < k2 ==> visited@[#[trigger] endpoints(self.edges@, ins@, false)[j] as int]
                            || stack@.contains(endpoints(self.edges@, ins@, false)[j]),
                        forall|j: int, w: usize| 0 <= j < comp0.len() && #[trigger] linked(*self, comp0[j] as int, w)
                            ==> visited@[w as int] || stack@.contains(w),
                        component@ == comp0.push(v),
                    decreases ins@.len() - k2,
                {
                    let e = ins[k2];
                    let w = self.edges[e].from_node;
                    let ghost st0 = stack@;
                    if !visited[w] {
                        stack.push(w);
                        proof {
                            assert(linked(*self, v as int, w)) by {
                                assert(endpoints(self.edges@, ins@, false)[k2 as int] == w);
                            }
                            assert(component@[comp0.len() as int] == v);
                        }
                    }
                    proof {
                        assert(endpoints(self.edges@, ins@, false)[k2 as int] == w);
                        assert forall|j: int, x: usize| 0 <= j < comp0.len() && #[trigger] linked(*self, comp0[j] as int, x)
                            implies visited@[x as int] || stack@.contains(x) by {
                            if !visited@[x as int] {
                                let i = choose|i: int| 0 <= i < st0.len() && st0[i] == x;
                                assert(stack@[i] == x);
                            }
                        }
                        assert forall|j: int| 0 <= j < self.out_edges@[v as int]@.len() implies visited@[#[trigger] endpoints(self.edges@, self.out_edges@[v as int]@, true)[j] as int]
                            || stack@.contains(endpoints(self.edges@, self.out_edges@[v as int]@, true)[j]) by {
                            let x = endpoints(self.edges@, self.out_edges@[v as int]@, true)[j];
                            if !visited@[x as int] {
                                let i = choose|i: int| 0 <= i < st0.len() && st0[i] == x;
                                assert(stack@[i] == x);
                            }
                        }
                        assert forall|j: int| 0 <= j < k2 + 1 implies visited@[#[trigger] endpoints(self.edges@, ins@, false)[j] as int]
                            || stack@.contains(endpoints(self.edges@, ins@, false)[j]) by {
                            let x = endpoints(self.edges@, ins@, false)[j];
                            if j < k2 && !visited@[x as int] {
                                let i = choose|i: int| 0 <= i < st0.len() && st0[i] == x;
                                assert(stack@[i] == x);
                            } else if j == k2 && !visited@[x as int] {
                                assert(stack@[st0.len() as int] == x);
                            }
                        }
                    }
                    k2 = k2 + 1;
                }
                proof {
                    assert forall|j: int, w: usize| 0 <= j < component@.len() && #[trigger] linked(*self, component@[j] as int, w)
                        implies visited@[w as int] || stack@.contains(w) by {
                        if j < comp0.len() {
                            assert(component@[j] == comp0[j]);
                        } else {
                            assert(component@[j] == v);
                            if endpoints(self.edges@, self.out_edges@[v as int]@, true).contains(w) {
                                let i = choose|i: int| 0 <= i < self.out_edges@[v as int]@.len() && endpoints(self.edges@, self.out_edges@[v as int]@, true)[i] == w;
                            } else {
                                let i = choose|i: int| 0 <= i < self.in_edges@[v as int]@.len() && endpoints(self.edges@, self.in_edges@[v as int]@, false)[i] == w;
                            }
                        }
                    }
                }
            }
            proof {
                assert forall|j: int, w: usize| 0 <= j < component@.len() && #[trigger] linked(*self, component@[j] as int, w)
                    implies w < n by {
                    lemma_linked_in_range(*self, component@[j] as int, w);
                }
                lemma_component_done(*self, cs, component, start, visited@);
            }
            components.push(component);
            start = start + 1;
        }
        components
    }
}

/// Each column entry is a node, and each node of a column knows its place
/// in it.
pub open spec fn columns_placed(g: LayoutGraph) -> bool {
    &&& forall|c: int, k: int| 0 <= c < g.columns@.len() && 0 <= k < g.columns@[c]@.len() ==> #[trigger] g.columns@[c]@[k] < g.n()
    &&& forall|c: int, k: int| 0 <= c < g.columns@.len() && 0 <= k < g.columns@[c]@.len() ==> g.nodes@[#[trigger] g.columns@[c]@[k] as int].order == k
}

/// The (left order, right order) pairs of the edges in `list` (leaving
/// node `v`) that end in `right`.
pub open spec fn edge_pairs(g: LayoutGraph, v: usize, list: Seq<usize>, right: Set<usize>) -> Seq<(usize, usize)>
    decreases list.len(),
{
    if list.len() == 0 {
        Seq::empty()
    } else {
        let w = g.edges@[list.last() as int].to_node;
        let rest = edge_pairs(g, v, list.drop_last(), right);
        if right.contains(w) {
            rest.push((g.nodes@[v as int].order, g.nodes@[w as int].order))
        } else {
            rest
        }
    }
}

/// The pairs of all edges from the nodes `left` (in turn) into `right`.
pub open spec fn crossing_pairs(g: LayoutGraph, left: Seq<usize>, right: Set<usize>) -> Seq<(usize, usize)>
    decreases left.len(),
{
    if left.len() == 0 {
        Seq::empty()
    } else {
        crossing_pairs(g, left.drop_last(), right) + edge_pairs(g, left.last(), g.out_edges@[left.last() as int]@, right)
    }
}

/// Pairs in lexicographic order.
pub open spec fn pairs_sorted(s: Seq<(usize, usize)>) -> bool {
    forall|i: int, j: int| 0 <= i < j < s.len() ==> (#[trigger] s[i]).0 < (#[trigger] s[j]).0 || (s[i].0 == s[j].0 && s[i].1 <= s[j].1)
}

/// The pairs in lexicographic order (the arrangement is unique).
pub open spec fn sorted_arrangement(p: Seq<(usize, usize)>) -> Seq<(usize, usize)> {
    choose|s: Seq<(usize, usize)>| s.to_multiset() == p.to_multiset() && pairs_sorted(s)
}

/// The crossings between two columns: the inversions, by right order, of
/// the order pairs of the edges between them, sorted; 0 where either
/// column is empty or missing.
pub open spec fn column_crossings(g: LayoutGraph, left: usize, right: usize) -> nat {
    if g.column_view(left).len() == 0 || g.column_view(right).len() == 0 {
        0
    } else {
        inversions(sorted_arrangement(crossing_pairs(g, g.column_view(left), g.column_view(right).to_set())))
    }
}

/// The crossings between each column and the next, for the first `k`
/// columns.
pub open spec fn all_crossings(g: LayoutGraph, k: int) -> nat
    decreases k,
{
    if k <= 0 {
        0
    } else {
        all_crossings(g, k - 1) + column_crossings(g, (k - 1) as usize, k as usize)
    }
}

/// The number of edge pairs between a column and the next.
pub open spec fn pair_count(g: LayoutGraph, left: usize) -> nat {
    crossing_pairs(g, g.column_view(left), g.column_view((left + 1) as usize).to_set()).len()
}

proof fn lemma_sorted_perm_unique(s1: Seq<(usize, usize)>, s2: Seq<(usize, usize)>)
    requires
        pairs_sorted(s1),
        pairs_sorted(s2),
        s1.to_multiset() == s2.to_multiset(),
    ensures
        s1 == s2,
    decreases s1.len(),
{
    s1.to_multiset_ensures();
    s2.to_multiset_ensures();
    if s1.len() == 0 {
        assert(s2.len() == 0);
        assert(s1 =~= s2);
    } else {
        assert(s2.len() == s1.len());
        let a = s1[0];
        let b = s2[0];
        assert(s1.contains(a));
        assert(s2.to_multiset().count(a) > 0);
        assert(s2.contains(a));
        let j = choose|j: int| 0 <= j < s2.len() && s2[j] == a;
        assert(s1.to_multiset().count(b) > 0);
        assert(s1.contains(b));
        let i = choose|i: int| 0 <= i < s1.len() && s1[i] == b;
        if j > 0 {
            assert(s2[0].0 < s2[j].0 || (s2[0].0 == s2[j].0 && s2[0].1 <= s2[j].1));
        }
        if i > 0 {
            assert(s1[0].0 < s1[i].0 || (s1[0].0 == s1[i].0 && s1[0].1 <= s1[i].1));
        }
        assert(a == b);
        let t1 = s1.drop_first();
        let t2 = s2.drop_first();
        assert(s1.remove(0) == t1);
        assert(s2.remove(0) == t2);
        assert(t1.to_multiset() == s1.to_multiset().remove(a));
        assert(t2.to_multiset() == s2.to_multiset().remove(b));
        assert forall|x: int, y: int| 0 <= x < y < t1.len() implies (#[trigger] t1[x]).0 < (#[trigger] t1[y]).0 || (t1[x].0 == t1[y].0 && t1[x].1 <= t1[y].1) by {
            assert(t1[x] == s1[x + 1] && t1[y] == s1[y + 1]);
        }
        assert forall|x: int, y: int| 0 <= x < y < t2.len() implies (#[trigger] t2[x]).0 < (#[trigger] t2[y]).0 || (t2[x].0 == t2[y].0 && t2[x].1 <= t2[y].1) by {
            assert(t2[x] == s2[x + 1] && t2[y] == s2[y + 1]);
        }
        lemma_sorted_perm_unique(t1, t2);
        assert(s1 =~= s2) by {
            assert forall|k: int| 0 <= k < s1.len() implies s1[k] == s2[k] by {
                if k > 0 {
                    assert(s1[k] == t1[k - 1]);
                    assert(s2[k] == t2[k - 1]);
                }
            }
        }
    }
}

/// Calls `slice::sort` on pairs, which orders them lexicographically
/// (tuples compare field by field) and keeps each pair.
#[verifier::external_body]
fn sort_pairs(v: &mut Vec<(usize, usize)>)
    ensures
        final(v)@.to_multiset() == old(v)@.to_multiset(),
        pairs_sorted(final(v)@),
{
    v.sort();
}

proof fn lemma_all_crossings_mono(g: LayoutGraph, a: int, b: int)
    requires
        0 <= a <= b,
    ensures
        all_crossings(g, a) <= all_crossings(g, b),
    decreases b - a,
{
    if a < b {
        lemma_all_crossings_mono(g, a, b - 1);
    }
}

proof fn lemma_count_above_le(s: Seq<(usize, usize)>, r: int)
    ensures
        count_above(s, r) <= s.len(),
    decreases s.len(),
{
    if s.len() > 0 {
        lemma_count_above_le(s.drop_last(), r);
    }
}

proof fn lemma_inversions_le(s: Seq<(usize, usize)>)
    ensures
        inversions(s) <= s.len() * s.len(),
    decreases s.len(),
{
    if s.len() > 0 {
        let t = s.drop_last();
        lemma_inversions_le(t);
        lemma_count_above_le(t, s.last().1 as int);
        assert(t.len() * t.len() + t.len() <= s.len() * s.len()) by (nonlinear_arith)
            requires
                t.len() + 1 == s.len(),
        ;
    }
}

impl LayoutGraph {
    /// The number of crossings between the edges from column `left_col` to
    /// column `right_col` (see [`column_crossings`]); 0 where either column is
    /// empty or missing.
    pub fn count_crossings_between(&self, left_col: usize, right_col: usize) -> (r: usize)
        requires
            self.well_formed(),
            columns_placed(*self),
            self.n() < usize::MAX / 2,
            right_col < self.columns@.len() ==> crossing_pairs(*self, self.column_view(left_col), self.columns@[right_col as int]@.to_set()).len()
                * crossing_pairs(*self, self.column_view(left_col), self.columns@[right_col as int]@.to_set()).len() <= usize::MAX,
        ensures
            r == column_crossings(*self, left_col, right_col),
    {
        let left_nodes = self.column(left_col);
        let right_nodes = self.column(right_col);
        if left_nodes.len() == 0 || right_nodes.len() == 0 {
            return 0;
        }
        let ghost right_seq = right_nodes@;
        let mut right_set: HashSet<usize> = HashSet::new();
        let mut i: usize = 0;
        while i < right_nodes.len()
            invariant
                0 <= i <= right_nodes@.len(),
                right_set@ == right_nodes@.take(i as int).to_set(),
            decreases right_nodes@.len() - i,
        {
            right_set.insert(right_nodes[i]);
            proof {
                assert(right_nodes@.take(i + 1) == right_nodes@.take(i as int).push(right_nodes@[i as int]));
                right_nodes@.take(i as int).lemma_push_to_set_commute(right_nodes@[i as int]);
            }
            i = i + 1;
        }
        proof {
            assert(right_nodes@.take(right_nodes@.len() as int) == right_nodes@);
        }
        let ghost rs = right_set@;
        let mut pairs: Vec<(usize, usize)> = Vec::new();
        let mut a: usize = 0;
        while a < left_nodes.len()
            invariant
                self.well_formed(),
                columns_placed(*self),
                left_nodes@ == self.column_view(left_col),
                right_nodes@ == self.column_view(right_col),
                left_col < self.columns@.len(),
                right_col < self.columns@.len(),
                rs == right_set@,
                rs == right_nodes@.to_set(),
                0 <= a <= left_nodes@.len(),
                pairs@ == crossing_pairs(*self, left_nodes@.take(a as int), rs),
            decreases left_nodes@.len() - a,
        {
            let v = left_nodes[a];
            proof {
                assert(left_nodes@[a as int] == self.columns@[left_col as int]@[a as int]);
            }
            let outs = &self.out_edges[v];
            let ghost p0 = pairs@;
            let mut k: usize = 0;
            while k < outs.len()
                invariant
                    self.well_formed(),
                    v < self.n(),
                    outs@ == self.out_edges@[v as int]@,
                    rs == right_set@,
                    forall|x: usize| #[trigger] rs.contains(x) ==> x < self.n(),
                    0 <= k <= outs@.len(),
                    pairs@ == p0 + edge_pairs(*self, v, outs@.take(k as int), rs),
                decreases outs@.len() - k,
            {
                let e = outs[k];
                let w = self.edges[e].to_node;
                proof {
                    assert(outs@.take(k + 1).drop_last() == outs@.take(k as int));
                    assert(outs@.take(k + 1).last() == e);
                }
                if right_set.contains(&w) {
                    pairs.push((self.nodes[v].order, self.nodes[w].order));
                }
                k = k + 1;
            }
            proof {
                assert(outs@.take(outs@.len() as int) == outs@);
                let t = left_nodes@.take(a + 1);
                assert(t.drop_last() == left_nodes@.take(a as int));
                assert(t.last() == v);
            }
            a = a + 1;
        }
        proof {
            assert(left_nodes@.take(left_nodes@.len() as int) == left_nodes@);
        }
        if pairs.len() == 0 {
            proof {
                let p = pairs@;
                assert(p.to_multiset() == p.to_multiset() && pairs_sorted(p));
                let s0 = sorted_arrangement(p);
                lemma_sorted_perm_unique(s0, p);
                assert(inversions(p) == 0);
            }
            return 0;
        }
        let ghost unsorted = pairs@;
        sort_pairs(&mut pairs);
        let max_right = right_nodes.len();
        proof {
            lemma_column_len(*self, right_col as int);
            lemma_inversions_le(pairs@);
            pairs@.to_multiset_ensures();
            unsorted.to_multiset_ensures();
            assert(pairs@.len() == unsorted.len());
            assert forall|j: int| 0 <= j < pairs@.len() implies (#[trigger] pairs@[j]).1 <= max_right by {
                assert(pairs@.contains(pairs@[j]));
                assert(pairs@.to_multiset().count(pairs@[j]) > 0);
                assert(unsorted.contains(pairs@[j]));
                lemma_pairs_bounded(*self, left_nodes@, rs, right_nodes@, right_col as int);
            }
        }
        proof {
            let s0 = sorted_arrangement(unsorted);
            assert(pairs@.to_multiset() == unsorted.to_multiset() && pairs_sorted(pairs@));
            lemma_sorted_perm_unique(s0, pairs@);
        }
        count_inversions(pairs.as_slice(), max_right)
    }

    /// The crossings over all adjacent column pairs.
    pub fn count_all_crossings(&self) -> (r: usize)
        requires
            self.well_formed(),
            columns_placed(*self),
            self.n() < usize::MAX / 2,
            forall|c: int| 0 <= c < self.columns@.len() - 1 ==> #[trigger] pair_count(*self, c as usize) * pair_count(*self, c as usize) <= usize::MAX,
            self.columns@.len() > 0 ==> all_crossings(*self, self.columns@.len() - 1) <= usize::MAX,
        ensures
            r == all_crossings(*self, self.columns@.len() - 1),
    {
        let mut total: usize = 0;
        let last: usize = self.columns.len().saturating_sub(1);
        let mut c: usize = 0;
        while c < last
            invariant
                self.well_formed(),
                columns_placed(*self),
                self.n() < usize::MAX / 2,
                forall|q: int| 0 <= q < self.columns@.len() - 1 ==> #[trigger] pair_count(*self, q as usize) * pair_count(*self, q as usize) <= usize::MAX,
                self.columns@.len() > 0 ==> all_crossings(*self, self.columns@.len() - 1) <= usize::MAX,
                last == if self.columns@.len() > 0 { self.columns@.len() - 1 } else { 0 },
                0 <= c <= last,
                total == all_crossings(*self, c as int),
            decreases last - c,
        {
            proof {
                assert(pair_count(*self, c) * pair_count(*self, c) <= usize::MAX);
                lemma_all_crossings_mono(*self, c + 1, last as int);
            }
            let x = self.count_crossings_between(c, c + 1);
            total = total + x;
            c = c + 1;
        }
        total
    }

    /// The view of column `c`, or empty past the last column.
    pub open spec fn column_view(&self, c: usize) -> Seq<usize> {
        if c < self.columns@.len() {
            self.columns@[c as int]@
        } else {
            Seq::empty()
        }
    }
}

proof fn lemma_pairs_bounded(g: LayoutGraph, left: Seq<usize>, rs: Set<usize>, right: Seq<usize>, rc: int)
    requires
        g.well_formed(),
        columns_placed(g),
        0 <= rc < g.columns@.len(),
        right == g.columns@[rc]@,
        rs == right.to_set(),
        forall|k: int| 0 <= k < left.len() ==> #[trigger] left[k] < g.n(),
    ensures
        forall|x: (usize, usize)| #[trigger] crossing_pairs(g, left, rs).contains(x) ==> x.1 < right.len(),
    decreases left.len(),
{
    if left.len() > 0 {
        let t = left.drop_last();
        assert forall|k: int| 0 <= k < t.len() implies #[trigger] t[k] < g.n() by {
            assert(t[k] == left[k]);
        }
        lemma_pairs_bounded(g, t, rs, right, rc);
        let v = left.last();
        assert(left[left.len() - 1] == v);
        lemma_edge_pairs_bounded(g, v, g.out_edges@[v as int]@, rs, right, rc);
        assert forall|x: (usize, usize)| #[trigger] crossing_pairs(g, left, rs).contains(x) implies x.1 < right.len() by {
            let a = crossing_pairs(g, t, rs);
            let b = edge_pairs(g, v, g.out_edges@[v as int]@, rs);
            let i = choose|i: int| 0 <= i < (a + b).len() && (a + b)[i] == x;
            if i < a.len() {
                assert(a[i] == x);
                assert(a.contains(x));
            } else {
                assert(b[i - a.len()] == x);
                assert(b.contains(x));
            }
        }
    }
}

proof fn lemma_edge_pairs_bounded(g: LayoutGraph, v: usize, list: Seq<usize>, rs: Set<usize>, right: Seq<usize>, rc: int)
    requires
        g.well_formed(),
        columns_placed(g),
        0 <= rc < g.columns@.len(),
        right == g.columns@[rc]@,
        rs == right.to_set(),
    ensures
        forall|x: (usize, usize)| #[trigger] edge_pairs(g, v, list, rs).contains(x) ==> x.1 < right.len(),
    decreases list.len(),
{
    if list.len() > 0 {
        let t = list.drop_last();
        lemma_edge_pairs_bounded(g, v, t, rs, right, rc);
        let w = g.edges@[list.last() as int].to_node;
        let rest = edge_pairs(g, v, t, rs);
        if rs.contains(w) {
            assert(right.contains(w));
            let k = choose|k: int| 0 <= k < right.len() && right[k] == w;
            assert(g.nodes@[g.columns@[rc]@[k] as int].order == k);
            let p = (g.nodes@[v as int].order, g.nodes@[w as int].order);
            assert(edge_pairs(g, v, list, rs) == rest.push(p));
            assert forall|x: (usize, usize)| #[trigger] rest.push(p).contains(x) implies x.1 < right.len() by {
                let i = choose|i: int| 0 <= i < rest.len() + 1 && rest.push(p)[i] == x;
                if i < rest.len() {
                    assert(rest[i] == x);
                    assert(rest.contains(x));
                }
            }
        } else {
            assert(edge_pairs(g, v, list, rs) == rest);
        }
    }
}

proof fn lemma_column_len(g: LayoutGraph, c: int)
    requires
        g.n() <= usize::MAX,
        g.well_formed(),
        columns_placed(g),
        0 <= c < g.columns@.len(),
    ensures
        g.columns@[c]@.len() <= g.n(),
{
    let col = g.columns@[c]@;
    assert(col.no_duplicates()) by {
        assert forall|i: int, j: int| 0 <= i < col.len() && 0 <= j < col.len() && i != j implies col[i] != col[j] by {
            assert(g.nodes@[g.columns@[c]@[i] as int].order == i);
            assert(g.nodes@[g.columns@[c]@[j] as int].order == j);
        }
    }
    col.unique_seq_to_set();
    let range = Set::new(|x: usize| x < g.n() as usize);
    assert(col.to_set().subset_of(range));
    lemma_usize_range_finite(g.n() as usize);
    vstd::set_lib::lemma_len_subset(col.to_set(), range);
}

proof fn lemma_usize_range_finite(n: usize)
    ensures
        Set::new(|x: usize| x < n).finite(),
        Set::new(|x: usize| x < n).len() == n,
    decreases n,
{
    let s = Set::new(|x: usize| x < n);
    if n == 0 {
        assert(s =~= Set::<usize>::empty());
    } else {
        let m = (n - 1) as usize;
        lemma_usize_range_finite(m);
        let t = Set::new(|x: usize| x < m);
        assert(s =~= t.insert(m));
    }
}

/// The edges entering `w` whose source is not yet in `done`.
pub open spec fn pending(g: LayoutGraph, w: int, done: Set<usize>) -> nat {
    g.in_edges@[w]@.filter(|e: usize| !done.contains(g.edges@[e as int].from_node)).len()
}

/// The edges entering `w` from `v`.
pub open spec fn from_count(g: LayoutGraph, w: int, v: usize) -> nat {
    g.in_edges@[w]@.filter(|e: usize| g.edges@[e as int].from_node == v).len()
}

/// The edges leaving `v` for `w`.
pub open spec fn to_count(g: LayoutGraph, v: int, w: usize) -> nat {
    g.out_edges@[v]@.filter(|e: usize| g.edges@[e as int].to_node == w).len()
}

proof fn lemma_split_count(s: Seq<usize>, es: Seq<LayoutEdge>, done: Set<usize>, v: usize)
    requires
        !done.contains(v),
    ensures
        s.filter(|e: usize| !done.contains(es[e as int].from_node)).len()
            == s.filter(|e: usize| !done.insert(v).contains(es[e as int].from_node)).len()
            + s.filter(|e: usize| es[e as int].from_node == v).len(),
    decreases s.len(),
{
    if s.len() > 0 {
        let t = s.drop_last();
        lemma_split_count(t, es, done, v);
        assert(s == t.push(s.last()));
        t.lemma_filter_len_push(|e: usize| !done.contains(es[e as int].from_node), s.last());
        t.lemma_filter_len_push(|e: usize| !done.insert(v).contains(es[e as int].from_node), s.last());
        t.lemma_filter_len_push(|e: usize| es[e as int].from_node == v, s.last());
    }
}

pub(crate) proof fn lemma_filter_no_dup(s: Seq<usize>, p: spec_fn(usize) -> bool)
    requires
        s.no_duplicates(),
    ensures
        s.filter(p).no_duplicates(),
        forall|x: usize| #[trigger] s.filter(p).contains(x) <==> (s.contains(x) && p(x)),
    decreases s.len(),
{
    reveal(Seq::filter);
    if s.len() > 0 {
        let t = s.drop_last();
        assert(t.no_duplicates()) by {
            assert forall|a: int, b: int| 0 <= a < t.len() && 0 <= b < t.len() && a != b implies t[a] != t[b] by {
                assert(t[a] == s[a] && t[b] == s[b]);
            }
        }
        lemma_filter_no_dup(t, p);
        let x = s.last();
        assert(!t.contains(x)) by {
            if t.contains(x) {
                let i = choose|i: int| 0 <= i < t.len() && t[i] == x;
                assert(s[i] == s[s.len() - 1]);
            }
        }
        let f = t.filter(p);
        assert forall|y: usize| #[trigger] s.filter(p).contains(y) <==> (s.contains(y) && p(y)) by {
            if s.contains(y) && y != x {
                let i = choose|i: int| 0 <= i < s.len() && s[i] == y;
                assert(t[i] == y);
            }
            if t.contains(y) {
                let i = choose|i: int| 0 <= i < t.len() && t[i] == y;
                assert(s[i] == y);
            }
            if p(x) {
                assert(s.filter(p) == f.push(x));
                if f.push(x).contains(y) && y != x {
                    let i = choose|i: int| 0 <= i < f.len() + 1 && f.push(x)[i] == y;
                    assert(f[i] == y);
                }
                if f.contains(y) {
                    let i = choose|i: int| 0 <= i < f.len() && f[i] == y;
                    assert(f.push(x)[i] == y);
                }
                if y == x {
                    assert(f.push(x)[f.len() as int] == x);
                }
            } else {
                assert(s.filter(p) == f);
            }
        }
        if p(x) {
            assert(s.filter(p) == f.push(x));
            assert forall|a: int, b: int| 0 <= a < f.len() + 1 && 0 <= b < f.len() + 1 && a != b implies #[trigger] f.push(x)[a] != #[trigger] f.push(x)[b] by {
                if a == f.len() {
                    assert(f.contains(f[b]));
                } else if b == f.len() {
                    assert(f.contains(f[a]));
                }
            }
        }
    }
}

proof fn lemma_from_to_count(g: LayoutGraph, v: usize, w: usize)
    requires
        g.well_formed(),
        lists_consistent(g),
        v < g.n(),
        w < g.n(),
    ensures
        from_count(g, w as int, v) == to_count(g, v as int, w),
{
    let a = g.in_edges@[w as int]@;
    let b = g.out_edges@[v as int]@;
    let pa = |e: usize| g.edges@[e as int].from_node == v;
    let pb = |e: usize| g.edges@[e as int].to_node == w;
    lemma_filter_no_dup(a, pa);
    lemma_filter_no_dup(b, pb);
    let fa = a.filter(pa);
    let fb = b.filter(pb);
    assert forall|e: usize| fa.to_set().contains(e) <==> fb.to_set().contains(e) by {
        if fa.contains(e) {
            assert(a.contains(e));
            let k = choose|k: int| 0 <= k < a.len() && a[k] == e;
            assert(g.edges@[g.in_edges@[w as int]@[k] as int].to_node == w);
            assert(b.contains(e));
        }
        if fb.contains(e) {
            assert(b.contains(e));
            let k = choose|k: int| 0 <= k < b.len() && b[k] == e;
            assert(g.edges@[g.out_edges@[v as int]@[k] as int].from_node == v);
            assert(a.contains(e));
        }
    }
    assert(fa.to_set() =~= fb.to_set());
    fa.unique_seq_to_set();
    fb.unique_seq_to_set();
}

/// The source of the `k`-th edge entering `x`.
pub open spec fn src_of(g: LayoutGraph, x: usize, k: int) -> usize {
    g.edges@[g.in_edges@[x as int]@[k] as int].from_node
}

/// Node `y` is in list `gi` of `r`.
pub open spec fn in_gen(r: Seq<Vec<usize>>, gi: int, y: usize) -> bool {
    r[gi]@.contains(y)
}

/// The source of the `k`-th edge entering `x` is in a list before `gi`.
pub open spec fn src_before(g: LayoutGraph, r: Seq<Vec<usize>>, gi: int, x: usize, k: int) -> bool {
    exists|gj: int| 0 <= gj < gi && #[trigger] in_gen(r, gj, src_of(g, x, k))
}

/// Node `x` of list `gi` has the source of each entering edge in an earlier
/// list and, past the first list, one in the list just before.
pub open spec fn layered(g: LayoutGraph, r: Seq<Vec<usize>>, gi: int, x: usize) -> bool {
    &&& forall|k: int| 0 <= k < g.in_edges@[x as int]@.len() ==> #[trigger] src_before(g, r, gi, x, k)
    &&& gi > 0 ==> exists|k: int| 0 <= k < g.in_edges@[x as int]@.len() && #[trigger] in_gen(r, gi - 1, src_of(g, x, k))
}

/// Strictly increasing.
pub open spec fn increasing(s: Seq<usize>) -> bool {
    forall|a: int, b: int| 0 <= a < b < s.len() ==> #[trigger] s[a] < #[trigger] s[b]
}

/// The lists hold every node once, each node in one list only.
pub open spec fn partitions_nodes(g: LayoutGraph, r: Seq<Vec<usize>>) -> bool {
    &&& forall|x: usize| 0 <= x < g.n() ==> covered(r, x)
    &&& forall|c: int, k: int| 0 <= c < r.len() && 0 <= k < r[c]@.len() ==> #[trigger] r[c]@[k] < g.n()
    &&& forall|c: int, k: int, d: int, m: int| 0 <= c < r.len() && 0 <= k < r[c]@.len() && 0 <= d < r.len() && 0 <= m < r[d]@.len()
        && (c != d || k != m) ==> #[trigger] r[c]@[k] != #[trigger] r[d]@[m]
}

/// The first `m` lists of `r` are the generations of `g` and any list after
/// them holds the rest: the first generation is the nodes with no entering
/// edge, in index order; each node of a later generation has every source
/// in an earlier generation and one in the generation just before; the
/// rest, in index order, are the nodes that each have a source among the
/// rest (they lie on or after a cycle).
pub open spec fn generations_split(g: LayoutGraph, r: Seq<Vec<usize>>, m: int) -> bool {
    &&& 0 <= m <= r.len() <= m + 1
    &&& forall|gi: int| 0 <= gi < r.len() ==> (#[trigger] r[gi])@.len() > 0
    &&& forall|gi: int, k: int| 0 <= gi < m && 0 <= k < r[gi]@.len() ==> layered(g, r, gi, #[trigger] r[gi]@[k])
    &&& m > 0 ==> increasing(r[0]@)
    &&& m > 0 ==> forall|x: usize| x < g.n() && #[trigger] g.in_edges@[x as int]@.len() == 0 ==> r[0]@.contains(x)
    &&& m < r.len() ==> increasing(r[m]@)
    &&& m < r.len() ==> forall|k: int| 0 <= k < r[m]@.len() ==> source_in(g, r, m, #[trigger] r[m]@[k])
}

/// Some edge entering `x` comes from a node of list `gi`.
pub open spec fn source_in(g: LayoutGraph, r: Seq<Vec<usize>>, gi: int, x: usize) -> bool {
    exists|q: int| 0 <= q < g.in_edges@[x as int]@.len() && #[trigger] in_gen(r, gi, src_of(g, x, q))
}

/// The nodes of the lists, list after list.
pub open spec fn flat(r: Seq<Vec<usize>>) -> Seq<usize>
    decreases r.len(),
{
    if r.len() == 0 {
        Seq::empty()
    } else {
        flat(r.drop_last()) + r.last()@
    }
}

pub(crate) proof fn lemma_push_contains(s: Seq<usize>, v: usize, x: usize)
    ensures
        s.push(v).contains(x) <==> (s.contains(x) || x == v),
{
    if s.contains(x) {
        let j = choose|j: int| 0 <= j < s.len() && s[j] == x;
        assert(s.push(v)[j] == x);
    }
    if x == v {
        assert(s.push(v)[s.len() as int] == v);
    }
    if s.push(v).contains(x) {
        let j = choose|j: int| 0 <= j < s.len() + 1 && s.push(v)[j] == x;
        if j < s.len() {
            assert(s[j] == x);
        }
    }
}

proof fn lemma_concat_contains(a: Seq<usize>, b: Seq<usize>, x: usize)
    ensures
        (a + b).contains(x) <==> (a.contains(x) || b.contains(x)),
{
    if a.contains(x) {
        let j = choose|j: int| 0 <= j < a.len() && a[j] == x;
        assert((a + b)[j] == x);
    }
    if b.contains(x) {
        let j = choose|j: int| 0 <= j < b.len() && b[j] == x;
        assert((a + b)[a.len() + j] == x);
    }
    if (a + b).contains(x) {
        let j = choose|j: int| 0 <= j < (a + b).len() && (a + b)[j] == x;
        if j < a.len() {
            assert(a[j] == x);
        } else {
            assert(b[j - a.len()] == x);
        }
    }
}

proof fn lemma_flat_contains(r: Seq<Vec<usize>>, x: usize)
    ensures
        flat(r).contains(x) <==> covered(r, x),
    decreases r.len(),
{
    if r.len() > 0 {
        let t = r.drop_last();
        lemma_flat_contains(t, x);
        let a = flat(t);
        let b = r.last()@;
        assert(flat(r) == a + b);
        if flat(r).contains(x) {
            let i = choose|i: int| 0 <= i < (a + b).len() && (a + b)[i] == x;
            if i < a.len() {
                assert(a[i] == x);
                assert(a.contains(x));
                let (c, k) = choose|c: int, k: int| 0 <= c < t.len() && 0 <= k < t[c]@.len() && #[trigger] t[c]@[k] == x;
                assert(r[c] == t[c]);
                assert(r[c]@[k] == x);
            } else {
                assert(b[i - a.len()] == x);
                assert(r[r.len() - 1]@[i - a.len()] == x);
            }
        }
        if covered(r, x) {
            let (c, k) = choose|c: int, k: int| 0 <= c < r.len() && 0 <= k < r[c]@.len() && #[trigger] r[c]@[k] == x;
            if c < t.len() {
                assert(t[c] == r[c]);
                assert(t[c]@[k] == x);
                assert(a.contains(x));
                let i = choose|i: int| 0 <= i < a.len() && a[i] == x;
                assert((a + b)[i] == x);
            } else {
                assert(b[k] == x);
                assert((a + b)[a.len() + k] == x);
            }
        }
    }
}

proof fn lemma_pending_zero(g: LayoutGraph, w: usize, done: Set<usize>)
    requires
        pending(g, w as int, done) == 0,
    ensures
        forall|k: int| 0 <= k < g.in_edges@[w as int]@.len() ==> done.contains(#[trigger] src_of(g, w, k)),
{
    let s = g.in_edges@[w as int]@;
    let p = |e: usize| !done.contains(g.edges@[e as int].from_node);
    assert forall|k: int| 0 <= k < s.len() implies done.contains(#[trigger] src_of(g, w, k)) by {
        if !done.contains(src_of(g, w, k)) {
            s.lemma_filter_contains(p, k);
        }
    }
}

proof fn lemma_pending_positive(g: LayoutGraph, w: usize, done: Set<usize>)
    requires
        pending(g, w as int, done) > 0,
    ensures
        exists|k: int| 0 <= k < g.in_edges@[w as int]@.len() && !done.contains(#[trigger] src_of(g, w, k)),
{
    let s = g.in_edges@[w as int]@;
    let p = |e: usize| !done.contains(g.edges@[e as int].from_node);
    let f = s.filter(p);
    s.lemma_filter_pred(p, 0);
    assert(f.contains(f[0]));
    s.lemma_filter_contains_rev(p, f[0]);
    let k = choose|k: int| 0 <= k < s.len() && s[k] == f[0];
    assert(!done.contains(src_of(g, w, k)));
}

proof fn lemma_from_count_positive(g: LayoutGraph, w: usize, v: usize)
    requires
        from_count(g, w as int, v) > 0,
    ensures
        exists|k: int| 0 <= k < g.in_edges@[w as int]@.len() && #[trigger] src_of(g, w, k) == v,
{
    let s = g.in_edges@[w as int]@;
    let p = |e: usize| g.edges@[e as int].from_node == v;
    let f = s.filter(p);
    s.lemma_filter_pred(p, 0);
    assert(f.contains(f[0]));
    s.lemma_filter_contains_rev(p, f[0]);
    let k = choose|k: int| 0 <= k < s.len() && s[k] == f[0];
    assert(src_of(g, w, k) == v);
}

proof fn lemma_pending_none_done(g: LayoutGraph, w: usize)
    ensures
        pending(g, w as int, Set::<usize>::empty()) == g.in_edges@[w as int]@.len(),
{
    let s = g.in_edges@[w as int]@;
    let p = |e: usize| !Set::<usize>::empty().contains(g.edges@[e as int].from_node);
    assert(s.filter(p) == s) by {
        lemma_filter_all(s, p);
    }
}

proof fn lemma_filter_all(s: Seq<usize>, p: spec_fn(usize) -> bool)
    requires
        forall|e: usize| #[trigger] p(e),
    ensures
        s.filter(p) == s,
    decreases s.len(),
{
    reveal(Seq::filter);
    if s.len() > 0 {
        lemma_filter_all(s.drop_last(), p);
        assert(s.drop_last().push(s.last()) == s);
    }
}

pub proof fn lemma_distinct_bounded(s: Seq<usize>, n: usize)
    requires
        s.no_duplicates(),
        forall|i: int| 0 <= i < s.len() ==> #[trigger] s[i] < n,
    ensures
        s.len() <= n,
{
    s.unique_seq_to_set();
    let range = Set::new(|x: usize| x < n);
    assert(s.to_set().subset_of(range));
    lemma_usize_range_finite(n);
    vstd::set_lib::lemma_len_subset(s.to_set(), range);
}

/// Node `c` is ready to follow the lists `gens`: every source of an edge
/// entering it is in them, and (where there are lists) one is in the last.
pub open spec fn ready(g: LayoutGraph, gens: Seq<Vec<usize>>, c: usize) -> bool {
    &&& forall|k: int| 0 <= k < g.in_edges@[c as int]@.len() ==> #[trigger] covered(gens, src_of(g, c, k))
    &&& gens.len() > 0 ==> exists|k: int| 0 <= k < g.in_edges@[c as int]@.len() && #[trigger] in_gen(gens, gens.len() - 1, src_of(g, c, k))
}

proof fn lemma_ready_layered(g: LayoutGraph, gens: Seq<Vec<usize>>, cur: Vec<usize>, c: usize)
    requires
        ready(g, gens, c),
    ensures
        layered(g, gens.push(cur), gens.len() as int, c),
{
    let r = gens.push(cur);
    assert forall|k: int| 0 <= k < g.in_edges@[c as int]@.len() implies #[trigger] src_before(g, r, gens.len() as int, c, k) by {
        let y = src_of(g, c, k);
        assert(g.edges@[g.in_edges@[c as int]@[k] as int].from_node == src_of(g, c, k));
        assert(covered(gens, y));
        let (gj, m) = choose|gj: int, m: int| 0 <= gj < gens.len() && 0 <= m < gens[gj]@.len() && #[trigger] gens[gj]@[m] == y;
        assert(r[gj] == gens[gj]);
        assert(r[gj]@[m] == y);
        assert(in_gen(r, gj, y));
    }
    if gens.len() > 0 {
        let k = choose|k: int| 0 <= k < g.in_edges@[c as int]@.len() && #[trigger] in_gen(gens, gens.len() - 1, src_of(g, c, k));
        assert(r[gens.len() - 1] == gens[gens.len() - 1]);
        assert(in_gen(r, gens.len() - 1, src_of(g, c, k)));
    }
}

proof fn lemma_layered_extend(g: LayoutGraph, r: Seq<Vec<usize>>, r2: Seq<Vec<usize>>, gi: int, x: usize)
    requires
        layered(g, r, gi, x),
        0 <= gi <= r.len() <= r2.len(),
        forall|j: int| 0 <= j < r.len() ==> #[trigger] r2[j] == r[j],
    ensures
        layered(g, r2, gi, x),
{
    assert forall|k: int| 0 <= k < g.in_edges@[x as int]@.len() implies #[trigger] src_before(g, r2, gi, x, k) by {
        assert(src_before(g, r, gi, x, k));
        assert(g.edges@[g.in_edges@[x as int]@[k] as int].from_node == src_of(g, x, k));
        let gj = choose|gj: int| 0 <= gj < gi && #[trigger] in_gen(r, gj, src_of(g, x, k));
        assert(r2[gj] == r[gj]);
        assert(in_gen(r2, gj, src_of(g, x, k)));
    }
    if gi > 0 {
        let k = choose|k: int| 0 <= k < g.in_edges@[x as int]@.len() && #[trigger] in_gen(r, gi - 1, src_of(g, x, k));
        assert(r2[gi - 1] == r[gi - 1]);
        assert(in_gen(r2, gi - 1, src_of(g, x, k)));
    }
}

/// How many edges of `list` go to `w`.
pub open spec fn count_to(g: LayoutGraph, list: Seq<usize>, w: usize) -> nat {
    list.filter(|e: usize| g.edges@[e as int].to_node == w).len()
}

proof fn lemma_ready_after(g: LayoutGraph, gens0: Seq<Vec<usize>>, curv: Vec<usize>, da: Set<usize>, v: usize, w: usize)
    requires
        forall|k: int| 0 <= k < g.in_edges@[w as int]@.len() ==> da.insert(v).contains(#[trigger] src_of(g, w, k)),
        da.subset_of((flat(gens0) + curv@).to_set()),
        curv@.contains(v),
        exists|k: int| 0 <= k < g.in_edges@[w as int]@.len() && #[trigger] src_of(g, w, k) == v,
    ensures
        ready(g, gens0.push(curv), w),
{
    let gs = gens0.push(curv);
    assert(gs.drop_last() == gens0);
    assert(flat(gs) == flat(gens0) + curv@);
    assert forall|k: int| 0 <= k < g.in_edges@[w as int]@.len() implies #[trigger] covered(gs, src_of(g, w, k)) by {
        let y = src_of(g, w, k);
        assert(da.insert(v).contains(y));
        assert(flat(gs).contains(y)) by {
            if y == v {
                let j = choose|j: int| 0 <= j < curv@.len() && curv@[j] == v;
                assert(flat(gs)[flat(gens0).len() + j] == v);
            } else {
                assert((flat(gens0) + curv@).to_set().contains(y));
            }
        }
        lemma_flat_contains(gs, y);
    }
    let k = choose|k: int| 0 <= k < g.in_edges@[w as int]@.len() && #[trigger] src_of(g, w, k) == v;
    assert(gs[gs.len() - 1] == curv);
    assert(in_gen(gs, gs.len() - 1, src_of(g, w, k)));
}

proof fn lemma_generation_done(
    g: LayoutGraph,
    gens0: Seq<Vec<usize>>,
    gens: Seq<Vec<usize>>,
    cur: Seq<usize>,
    next: Seq<usize>,
    zero0: Seq<usize>,
)
    requires
        gens.len() == gens0.len() + 1,
        gens.drop_last() == gens0,
        gens.last()@ == cur,
        cur.len() > 0,
        (flat(gens0) + cur).no_duplicates(),
        forall|gi: int| 0 <= gi < gens0.len() ==> (#[trigger] gens0[gi])@.len() > 0,
        forall|gi: int, k: int| 0 <= gi < gens0.len() && 0 <= k < gens0[gi]@.len() ==> layered(g, gens0, gi, #[trigger] gens0[gi]@[k]),
        forall|k: int| 0 <= k < cur.len() ==> ready(g, gens0, #[trigger] cur[k]),
        gens0.len() > 0 ==> gens0[0]@ == zero0,
        gens0.len() == 0 ==> cur == zero0,
        next.no_duplicates(),
        forall|k: int| 0 <= k < next.len() ==> !(flat(gens0) + cur).contains(#[trigger] next[k]),
    ensures
        flat(gens) == flat(gens0) + cur,
        (flat(gens) + next).no_duplicates(),
        forall|gi: int| 0 <= gi < gens.len() ==> (#[trigger] gens[gi])@.len() > 0,
        forall|gi: int, k: int| 0 <= gi < gens.len() && 0 <= k < gens[gi]@.len() ==> layered(g, gens, gi, #[trigger] gens[gi]@[k]),
        gens[0]@ == zero0,
{
    assert(flat(gens) == flat(gens0) + cur);
    let f = flat(gens);
    assert forall|i: int, j: int| 0 <= i < f.len() && 0 <= j < next.len() implies f[i] != next[j] by {
        assert(f.contains(f[i]));
    }
    vstd::seq_lib::lemma_no_dup_in_concat(f, next);
    let m = gens0.len() as int;
    assert forall|j: int| 0 <= j < m implies #[trigger] gens[j] == gens0[j] by {
        assert(gens.drop_last()[j] == gens[j]);
    }
    assert forall|gi: int| 0 <= gi < gens.len() implies (#[trigger] gens[gi])@.len() > 0 by {
        if gi < m {
            assert(gens[gi] == gens0[gi]);
        }
    }
    assert forall|gi: int, k: int| 0 <= gi < gens.len() && 0 <= k < gens[gi]@.len() implies layered(g, gens, gi, #[trigger] gens[gi]@[k]) by {
        if gi < m {
            assert(gens[gi] == gens0[gi]);
            lemma_layered_extend(g, gens0, gens, gi, gens0[gi]@[k]);
        } else {
            assert(gens[gi]@ == cur);
            assert(gens == gens0.push(gens[gi]));
            lemma_ready_layered(g, gens0, gens[gi], cur[k]);
        }
    }
    if m > 0 {
        assert(gens[0] == gens0[0]);
    }
}

proof fn lemma_flat_entry(r: Seq<Vec<usize>>, c: int, k: int)
    requires
        0 <= c < r.len(),
        0 <= k < r[c]@.len(),
    ensures
        flat(r).contains(r[c]@[k]),
{
    assert(covered(r, r[c]@[k]));
    lemma_flat_contains(r, r[c]@[k]);
}

proof fn lemma_flat_take_bound(r: Seq<Vec<usize>>, gidx: int, n: usize)
    requires
        0 <= gidx < r.len(),
        forall|k: int| 0 <= k < flat(r).len() ==> #[trigger] flat(r)[k] < n,
    ensures
        forall|q: int| 0 <= q < r[gidx]@.len() ==> #[trigger] r[gidx]@[q] < n,
{
    assert forall|q: int| 0 <= q < r[gidx]@.len() implies #[trigger] r[gidx]@[q] < n by {
        lemma_flat_entry(r, gidx, q);
        let j = choose|j: int| 0 <= j < flat(r).len() && flat(r)[j] == r[gidx]@[q];
    }
}

proof fn lemma_flat_distinct(r: Seq<Vec<usize>>)
    requires
        flat(r).no_duplicates(),
    ensures
        forall|c: int, k: int, d: int, m: int| 0 <= c < r.len() && 0 <= k < r[c]@.len() && 0 <= d < r.len() && 0 <= m < r[d]@.len()
            && (c != d || k != m) ==> #[trigger] r[c]@[k] != #[trigger] r[d]@[m],
    decreases r.len(),
{
    if r.len() > 0 {
        let t = r.drop_last();
        let a = flat(t);
        let b = r.last()@;
        assert(flat(r) == a + b);
        assert(a.no_duplicates()) by {
            assert forall|i: int, j: int| 0 <= i < a.len() && 0 <= j < a.len() && i != j implies a[i] != a[j] by {
                assert((a + b)[i] == a[i] && (a + b)[j] == a[j]);
            }
        }
        lemma_flat_distinct(t);
        assert forall|c: int, k: int, d: int, m: int| 0 <= c < r.len() && 0 <= k < r[c]@.len() && 0 <= d < r.len() && 0 <= m < r[d]@.len()
            && (c != d || k != m) implies #[trigger] r[c]@[k] != #[trigger] r[d]@[m] by {
            let last = r.len() - 1;
            if c < last && d < last {
                assert(r[c] == t[c] && r[d] == t[d]);
            } else if c == last && d == last {
                assert((a + b)[a.len() + k] == b[k]);
                assert((a + b)[a.len() + m] == b[m]);
            } else if c == last {
                assert(r[d] == t[d]);
                lemma_flat_entry(t, d, m);
                let j = choose|j: int| 0 <= j < a.len() && a[j] == t[d]@[m];
                assert((a + b)[j] == a[j]);
                assert((a + b)[a.len() + k] == b[k]);
            } else {
                assert(r[c] == t[c]);
                lemma_flat_entry(t, c, k);
                let j = choose|j: int| 0 <= j < a.len() && a[j] == t[c]@[k];
                assert((a + b)[j] == a[j]);
                assert((a + b)[a.len() + m] == b[m]);
            }
        }
    }
}

proof fn lemma_generations_result(g: LayoutGraph, kahn: Seq<Vec<usize>>, rem: Vec<usize>, zero0: Seq<usize>, indeg: Seq<usize>)
    requires
        g.well_formed(),
        indeg.len() == g.n(),
        forall|w: usize| w < g.n() ==> #[trigger] indeg[w as int] == pending(g, w as int, flat(kahn).to_set()),
        flat(kahn).no_duplicates(),
        forall|k: int| 0 <= k < flat(kahn).len() ==> #[trigger] flat(kahn)[k] < g.n(),
        forall|gi: int| 0 <= gi < kahn.len() ==> (#[trigger] kahn[gi])@.len() > 0,
        forall|gi: int, k: int| 0 <= gi < kahn.len() && 0 <= k < kahn[gi]@.len() ==> layered(g, kahn, gi, #[trigger] kahn[gi]@[k]),
        kahn.len() > 0 ==> kahn[0]@ == zero0,
        kahn.len() == 0 ==> zero0.len() == 0,
        increasing(zero0),
        forall|x: usize| x < g.n() ==> (g.in_edges@[x as int]@.len() == 0 <==> #[trigger] zero0.contains(x)),
        forall|w: usize| w < g.n() && #[trigger] indeg[w as int] == 0 ==> flat(kahn).contains(w),
        increasing(rem@),
        forall|k: int| 0 <= k < rem@.len() ==> #[trigger] rem@[k] < g.n(),
        forall|x: usize| x < g.n() ==> (!flat(kahn).contains(x) <==> #[trigger] rem@.contains(x)),
    ensures
        rem@.len() > 0 ==> partitions_nodes(g, kahn.push(rem)) && generations_split(g, kahn.push(rem), kahn.len() as int),
        rem@.len() == 0 ==> partitions_nodes(g, kahn) && generations_split(g, kahn, kahn.len() as int),
{
    let n = g.n();
    let m = kahn.len() as int;
    let r = if rem@.len() > 0 { kahn.push(rem) } else { kahn };
    assert forall|j: int| 0 <= j < m implies #[trigger] r[j] == kahn[j] by {}
    lemma_flat_distinct(kahn);
    // every node is in a list
    assert forall|x: usize| 0 <= x < n implies covered(r, x) by {
        lemma_flat_contains(kahn, x);
        if flat(kahn).contains(x) {
            let (c, k) = choose|c: int, k: int| 0 <= c < kahn.len() && 0 <= k < kahn[c]@.len() && #[trigger] kahn[c]@[k] == x;
            assert(r[c] == kahn[c]);
            assert(r[c]@[k] == x);
        } else {
            assert(rem@.contains(x));
            let k = choose|k: int| 0 <= k < rem@.len() && rem@[k] == x;
            assert(r[m] == rem);
            assert(r[m]@[k] == x);
        }
    }
    assert forall|c: int, k: int| 0 <= c < r.len() && 0 <= k < r[c]@.len() implies #[trigger] r[c]@[k] < n by {
        if c < m {
            assert(r[c] == kahn[c]);
            lemma_flat_entry(kahn, c, k);
            let j = choose|j: int| 0 <= j < flat(kahn).len() && flat(kahn)[j] == kahn[c]@[k];
        } else {
            assert(r[c] == rem);
        }
    }
    assert forall|c: int, k: int, d: int, q: int| 0 <= c < r.len() && 0 <= k < r[c]@.len() && 0 <= d < r.len() && 0 <= q < r[d]@.len()
        && (c != d || k != q) implies #[trigger] r[c]@[k] != #[trigger] r[d]@[q] by {
        if c < m && d < m {
            assert(r[c] == kahn[c] && r[d] == kahn[d]);
        } else if c == m && d == m {
            assert(r[c] == rem);
            if k < q {
                assert(rem@[k] < rem@[q]);
            } else {
                assert(rem@[q] < rem@[k]);
            }
        } else if c == m {
            assert(r[c] == rem && r[d] == kahn[d]);
            lemma_flat_entry(kahn, d, q);
            assert(rem@.contains(rem@[k]));
        } else {
            assert(r[d] == rem && r[c] == kahn[c]);
            lemma_flat_entry(kahn, c, k);
            assert(rem@.contains(rem@[q]));
        }
    }
    assert forall|gi: int| 0 <= gi < r.len() implies (#[trigger] r[gi])@.len() > 0 by {
        if gi < m {
            assert(r[gi] == kahn[gi]);
        }
    }
    assert forall|gi: int, k: int| 0 <= gi < m && 0 <= k < r[gi]@.len() implies layered(g, r, gi, #[trigger] r[gi]@[k]) by {
        assert(r[gi] == kahn[gi]);
        lemma_layered_extend(g, kahn, r, gi, kahn[gi]@[k]);
    }
    if m > 0 {
        assert(r[0] == kahn[0]);
    }
    if m < r.len() {
        assert(r[m] == rem);
        assert forall|k: int| 0 <= k < r[m]@.len() implies source_in(g, r, m, #[trigger] r[m]@[k]) by {
            let x = rem@[k];
            assert(rem@.contains(x));
            assert(!flat(kahn).contains(x));
            assert(indeg[x as int] != 0);
            lemma_pending_positive(g, x, flat(kahn).to_set());
            let q = choose|q: int| 0 <= q < g.in_edges@[x as int]@.len() && !flat(kahn).to_set().contains(#[trigger] src_of(g, x, q));
            let y = src_of(g, x, q);
            assert(g.in_edges@[x as int]@[q] < g.edges@.len());
            assert(y < n);
            assert(rem@.contains(y));
            assert(in_gen(r, m, y));
        }
        assert(generations_split(g, r, m));
    }
    assert(partitions_nodes(g, r));
    assert(generations_split(g, r, m));
}

impl LayoutGraph {
    /// The generations of the graph (see [`generations_split`]): the nodes
    /// without entering edges first, then the nodes all of whose sources
    /// came before, generation by generation; the nodes never reached (on
    /// or after a cycle) form a last list, in index order.
    pub fn topological_generations(&self) -> (r: Vec<Vec<usize>>)
        requires
            self.well_formed(),
            lists_consistent(*self),
            self.n() < usize::MAX,
        ensures
            partitions_nodes(*self, r@),
            exists|m: int| generations_split(*self, r@, m),
    {
        let n = self.nodes.len();
        let mut in_degree: Vec<usize> = Vec::new();
        let mut i: usize = 0;
        while i < n
            invariant
                n == self.n(),
                self.well_formed(),
                0 <= i <= n,
                in_degree@.len() == i,
                forall|x: int| 0 <= x < i ==> #[trigger] in_degree@[x] == self.in_edges@[x]@.len(),
            decreases n - i,
        {
            in_degree.push(self.in_edges[i].len());
            i = i + 1;
        }
        let mut current: Vec<usize> = Vec::new();
        i = 0;
        while i < n
            invariant
                n == self.n(),
                0 <= i <= n,
                in_degree@.len() == n,
                forall|x: int| 0 <= x < n ==> #[trigger] in_degree@[x] == self.in_edges@[x]@.len(),
                increasing(current@),
                forall|k: int| 0 <= k < current@.len() ==> #[trigger] current@[k] < i,
                forall|x: usize| x < i ==> (in_degree@[x as int] == 0 <==> #[trigger] current@.contains(x)),
            decreases n - i,
        {
            let ghost c0 = current@;
            if in_degree[i] == 0 {
                current.push(i);
            }
            proof {
                assert forall|x: usize| x < i + 1 implies (in_degree@[x as int] == 0 <==> #[trigger] current@.contains(x)) by {
                    lemma_push_contains(c0, i, x);
                    if x < i {
                        assert(current@.contains(x) <==> c0.contains(x));
                    } else {
                        assert(x == i);
                        if in_degree@[x as int] == 0 {
                            assert(current@[current@.len() - 1] == x);
                        } else {
                            assert(current@ == c0);
                            if c0.contains(x) {
                                let j = choose|j: int| 0 <= j < c0.len() && c0[j] == x;
                            }
                        }
                    }
                }
            }
            i = i + 1;
        }
        let ghost zero0 = current@;
        proof {
            assert forall|k: int| 0 <= k < current@.len() implies ready(*self, Seq::<Vec<usize>>::empty(), #[trigger] current@[k]) by {
                assert(current@.contains(current@[k]));
            }
            assert forall|k: int| 0 <= k < current@.len() implies #[trigger] in_degree@[current@[k] as int] == 0 by {
                assert(current@.contains(current@[k]));
            }
            assert forall|w: usize| w < n implies #[trigger] in_degree@[w as int] == pending(*self, w as int, flat(Seq::<Vec<usize>>::empty()).to_set()) by {
                lemma_pending_none_done(*self, w);
                assert(flat(Seq::<Vec<usize>>::empty()).to_set() =~= Set::<usize>::empty());
            }
        }
        let mut generations: Vec<Vec<usize>> = Vec::new();
        while current.len() > 0
            invariant
                self.well_formed(),
                lists_consistent(*self),
                n == self.n(),
                n < usize::MAX,
                in_degree@.len() == n,
                forall|w: usize| w < n ==> #[trigger] in_degree@[w as int] == pending(*self, w as int, flat(generations@).to_set()),
                (flat(generations@) + current@).no_duplicates(),
                forall|k: int| 0 <= k < (flat(generations@) + current@).len() ==> #[trigger] (flat(generations@) + current@)[k] < n,
                forall|gi: int| 0 <= gi < generations@.len() ==> (#[trigger] generations@[gi])@.len() > 0,
                forall|gi: int, k: int| 0 <= gi < generations@.len() && 0 <= k < generations@[gi]@.len()
                    ==> layered(*self, generations@, gi, #[trigger] generations@[gi]@[k]),
                generations@.len() > 0 ==> generations@[0]@ == zero0,
                generations@.len() == 0 ==> current@ == zero0,
                increasing(zero0),
                forall|x: usize| x < n ==> (self.in_edges@[x as int]@.len() == 0 <==> #[trigger] zero0.contains(x)),
                forall|k: int| 0 <= k < current@.len() ==> ready(*self, generations@, #[trigger] current@[k]),
                forall|k: int| 0 <= k < current@.len() ==> #[trigger] in_degree@[current@[k] as int] == 0,
                forall|x: usize| #[trigger] flat(generations@).contains(x) ==> in_degree@[x as int] == 0,
                forall|w: usize| w < n && #[trigger] in_degree@[w as int] == 0 ==> flat(generations@).contains(w) || current@.contains(w),
            decreases n - flat(generations@).len(),
        {
            let ghost gens0 = generations@;
            let ghost fl0 = flat(gens0);
            let ghost cur = current@;
            proof {
                lemma_distinct_bounded(fl0 + cur, n);
                assert forall|x: usize| #[trigger] (fl0 + cur).contains(x) implies in_degree@[x as int] == 0 by {
                    if !fl0.contains(x) {
                        let k = choose|k: int| 0 <= k < cur.len() && cur[k] == x;
                        assert(in_degree@[current@[k] as int] == 0);
                    }
                }
                assert forall|w: usize| w < n && #[trigger] in_degree@[w as int] == 0 implies (fl0 + cur).contains(w) || Seq::<usize>::empty().contains(w) by {
                    lemma_concat_contains(fl0, cur, w);
                }
            }
            generations.push(current);
            let gi = generations.len() - 1;
            proof {
                assert(generations@.drop_last() == gens0);
                assert(flat(generations@) == fl0 + cur);
            }
            let mut next: Vec<usize> = Vec::new();
            let mut a: usize = 0;
            while a < generations[gi].len()
                invariant
                    self.well_formed(),
                    lists_consistent(*self),
                    n == self.n(),
                    n < usize::MAX,
                    gi == gens0.len(),
                    generations@ == gens0.push(generations@[gi as int]),
                    generations@[gi as int]@ == cur,
                    fl0 == flat(gens0),
                    (fl0 + cur).no_duplicates(),
                    forall|k: int| 0 <= k < (fl0 + cur).len() ==> #[trigger] (fl0 + cur)[k] < n,
                    0 <= a <= cur.len(),
                    in_degree@.len() == n,
                    forall|w: usize| w < n ==> #[trigger] in_degree@[w as int] == pending(*self, w as int, (fl0 + cur.take(a as int)).to_set()),
                    forall|x: usize| #[trigger] (fl0 + cur).contains(x) ==> in_degree@[x as int] == 0,
                    next@.no_duplicates(),
                    forall|k: int| 0 <= k < next@.len() ==> #[trigger] next@[k] < n,
                    forall|k: int| 0 <= k < next@.len() ==> !(fl0 + cur).contains(#[trigger] next@[k]),
                    forall|k: int| 0 <= k < next@.len() ==> #[trigger] in_degree@[next@[k] as int] == 0,
                    forall|k: int| 0 <= k < next@.len() ==> ready(*self, generations@, #[trigger] next@[k]),
                    forall|w: usize| w < n && #[trigger] in_degree@[w as int] == 0 ==> (fl0 + cur).contains(w) || next@.contains(w),
                decreases cur.len() - a,
            {
                let v = generations[gi][a];
                let ghost da = (fl0 + cur.take(a as int)).to_set();
                proof {
                    assert forall|y: usize| da.contains(y) implies (fl0 + cur).to_set().contains(y) by {
                        let j = choose|j: int| 0 <= j < (fl0 + cur.take(a as int)).len() && (fl0 + cur.take(a as int))[j] == y;
                        assert((fl0 + cur)[j] == y);
                    }
                    assert(cur[a as int] == v);
                    assert((fl0 + cur)[fl0.len() + a] == v);
                    assert(!da.contains(v)) by {
                        if da.contains(v) {
                            let j = choose|j: int| 0 <= j < (fl0 + cur.take(a as int)).len() && (fl0 + cur.take(a as int))[j] == v;
                            assert((fl0 + cur)[j] == v);
                        }
                    }
                }
                let outs = &self.out_edges[v];
                let mut k: usize = 0;
                while k < outs.len()
                    invariant
                        self.well_formed(),
                        lists_consistent(*self),
                        n == self.n(),
                        v < n,
                        outs@ == self.out_edges@[v as int]@,
                        0 <= k <= outs@.len(),
                        !da.contains(v),
                        cur.contains(v),
                        gi == gens0.len(),
                        generations@ == gens0.push(generations@[gi as int]),
                        generations@[gi as int]@ == cur,
                        fl0 == flat(gens0),
                        forall|q: int| 0 <= q < (fl0 + cur).len() ==> #[trigger] (fl0 + cur)[q] < n,
                        da.subset_of((fl0 + cur).to_set()),
                        in_degree@.len() == n,
                        forall|w: usize| w < n ==> #[trigger] in_degree@[w as int] + count_to(*self, outs@.take(k as int), w) == pending(*self, w as int, da),
                        forall|w: usize| w < n ==> #[trigger] count_to(*self, outs@.take(k as int), w) <= to_count(*self, v as int, w),
                        forall|x: usize| #[trigger] (fl0 + cur).contains(x) ==> in_degree@[x as int] == 0,
                        next@.no_duplicates(),
                        forall|q: int| 0 <= q < next@.len() ==> #[trigger] next@[q] < n,
                        forall|q: int| 0 <= q < next@.len() ==> !(fl0 + cur).contains(#[trigger] next@[q]),
                        forall|q: int| 0 <= q < next@.len() ==> #[trigger] in_degree@[next@[q] as int] == 0,
                        forall|q: int| 0 <= q < next@.len() ==> ready(*self, generations@, #[trigger] next@[q]),
                        forall|w: usize| w < n && #[trigger] in_degree@[w as int] == 0 ==> (fl0 + cur).contains(w) || next@.contains(w),
                    decreases outs@.len() - k,
                {
                    let e = outs[k];
                    let w = self.edges[e].to_node;
                    let ghost t0 = outs@.take(k as int);
                    let ghost t1 = outs@.take(k + 1);
                    proof {
                        assert(t1 == t0.push(e));
                        t0.lemma_filter_len_push(|x: usize| self.edges@[x as int].to_node == w, e);
                        assert forall|w2: usize| w2 != w implies count_to(*self, t1, w2) == count_to(*self, t0, w2) by {
                            t0.lemma_filter_len_push(|x: usize| self.edges@[x as int].to_node == w2, e);
                        }
                        outs@.lemma_filter_take_len(|x: usize| self.edges@[x as int].to_node == w, k + 1);
                        lemma_from_to_count(*self, v, w);
                        lemma_split_count(self.in_edges@[w as int]@, self.edges@, da, v);
                        assert(count_to(*self, t1, w) <= to_count(*self, v as int, w));
                        assert(in_degree@[w as int] >= 1);
                    }
                    let d = in_degree[w];
                    let ghost deg0 = in_degree@;
                    let ghost next0 = next@;
                    if d > 0 {
                        proof {
                            assert(!(fl0 + cur).contains(w));
                        }
                        in_degree[w] = d - 1;
                        if d - 1 == 0 {
                            proof {
                                assert(!(fl0 + cur).contains(w));
                                assert(!next@.contains(w));
                                assert(pending(*self, w as int, da.insert(v)) == 0);
                                lemma_pending_zero(*self, w, da.insert(v));
                                assert(from_count(*self, w as int, v) > 0);
                                lemma_from_count_positive(*self, w, v);
                                lemma_ready_after(*self, gens0, generations@[gi as int], da, v, w);
                            }
                            next.push(w);
                        }
                    }
                    proof {
                        assert forall|x: usize| #[trigger] (fl0 + cur).contains(x) implies in_degree@[x as int] == 0 by {
                            let j = choose|j: int| 0 <= j < (fl0 + cur).len() && (fl0 + cur)[j] == x;
                            assert((fl0 + cur)[j] < n);
                            assert(deg0[x as int] == 0);
                            if x == w {
                                assert(d == 0);
                            }
                        }
                        assert forall|w2: usize| w2 < n && #[trigger] in_degree@[w2 as int] == 0 implies (fl0 + cur).contains(w2) || next@.contains(w2) by {
                            if w2 == w && d > 0 && d - 1 == 0 {
                                assert(next@[next@.len() - 1] == w);
                            } else {
                                assert(deg0[w2 as int] == 0);
                                if next0.contains(w2) {
                                    let j = choose|j: int| 0 <= j < next0.len() && next0[j] == w2;
                                    assert(next@[j] == w2);
                                }
                            }
                        }
                        assert forall|w2: usize| w2 < n implies #[trigger] in_degree@[w2 as int] + count_to(*self, outs@.take(k + 1), w2) == pending(*self, w2 as int, da) by {
                            if w2 != w {
                                assert(count_to(*self, t1, w2) == count_to(*self, t0, w2));
                            }
                        }
                        assert forall|w2: usize| w2 < n implies #[trigger] count_to(*self, outs@.take(k + 1), w2) <= to_count(*self, v as int, w2) by {
                            outs@.lemma_filter_take_len(|x: usize| self.edges@[x as int].to_node == w2, k + 1);
                        }
                    }
                    k = k + 1;
                }
                proof {
                    assert(outs@.take(outs@.len() as int) == outs@);
                    let da1 = (fl0 + cur.take(a + 1)).to_set();
                    assert(da1 =~= da.insert(v)) by {
                        assert(fl0 + cur.take(a + 1) == (fl0 + cur.take(a as int)).push(v));
                        (fl0 + cur.take(a as int)).lemma_push_to_set_commute(v);
                    }
                    assert forall|w: usize| w < n implies #[trigger] in_degree@[w as int] == pending(*self, w as int, da1) by {
                        lemma_from_to_count(*self, v, w);
                        lemma_split_count(self.in_edges@[w as int]@, self.edges@, da, v);
                    }
                }
                a = a + 1;
            }
            proof {
                assert(cur.take(cur.len() as int) == cur);
                lemma_generation_done(*self, gens0, generations@, cur, next@, zero0);
            }
            current = next;
        }
        let ghost kahn = generations@;
        let mut visited: Vec<bool> = Vec::new();
        i = 0;
        while i < n
            invariant
                0 <= i <= n,
                visited@.len() == i,
                forall|x: int| 0 <= x < i ==> !(#[trigger] visited@[x]),
            decreases n - i,
        {
            visited.push(false);
            i = i + 1;
        }
        let mut gidx: usize = 0;
        while gidx < generations.len()
            invariant
                generations@ == kahn,
                n == self.n(),
                visited@.len() == n,
                forall|k: int| 0 <= k < flat(kahn).len() ==> #[trigger] flat(kahn)[k] < n,
                0 <= gidx <= kahn.len(),
                forall|x: usize| x < n ==> (#[trigger] visited@[x as int] <==> flat(kahn.take(gidx as int)).contains(x)),
            decreases kahn.len() - gidx,
        {
            let mut k: usize = 0;
            let ghost before = visited@;
            proof {
                lemma_flat_take_bound(kahn, gidx as int, n);
            }
            while k < generations[gidx].len()
                invariant
                    generations@ == kahn,
                    gidx < kahn.len(),
                    n == self.n(),
                    visited@.len() == n,
                    forall|q: int| 0 <= q < kahn[gidx as int]@.len() ==> #[trigger] kahn[gidx as int]@[q] < n,
                    0 <= k <= kahn[gidx as int]@.len(),
                    forall|x: usize| x < n ==> (#[trigger] visited@[x as int] <==> (before[x as int] || kahn[gidx as int]@.take(k as int).contains(x))),
                decreases kahn[gidx as int]@.len() - k,
            {
                let x = generations[gidx][k];
                visited[x] = true;
                proof {
                    let t = kahn[gidx as int]@.take(k + 1);
                    assert(t == kahn[gidx as int]@.take(k as int).push(x));
                    assert forall|y: usize| y < n implies (#[trigger] visited@[y as int] <==> (before[y as int] || t.contains(y))) by {
                        if kahn[gidx as int]@.take(k as int).contains(y) {
                            let j = choose|j: int| 0 <= j < k && kahn[gidx as int]@.take(k as int)[j] == y;
                            assert(t[j] == y);
                        }
                        if t.contains(y) && y != x {
                            let j = choose|j: int| 0 <= j < k + 1 && t[j] == y;
                            assert(j < k);
                            assert(kahn[gidx as int]@.take(k as int)[j] == y);
                        }
                        if y == x {
                            assert(t[k as int] == x);
                        }
                    }
                }
                k = k + 1;
            }
            proof {
                let g2 = kahn.take(gidx + 1);
                assert(g2.drop_last() == kahn.take(gidx as int));
                assert(g2.last() == kahn[gidx as int]);
                assert(kahn[gidx as int]@.take(kahn[gidx as int]@.len() as int) == kahn[gidx as int]@);
                assert forall|x: usize| x < n implies (#[trigger] visited@[x as int] <==> flat(kahn.take(gidx + 1)).contains(x)) by {
                    assert(flat(g2) == flat(kahn.take(gidx as int)) + kahn[gidx as int]@);
                    if flat(g2).contains(x) {
                        let j = choose|j: int| 0 <= j < flat(g2).len() && flat(g2)[j] == x;
                        if j < flat(kahn.take(gidx as int)).len() {
                            assert(flat(kahn.take(gidx as int))[j] == x);
                        } else {
                            assert(kahn[gidx as int]@[j - flat(kahn.take(gidx as int)).len()] == x);
                        }
                    }
                    if flat(kahn.take(gidx as int)).contains(x) {
                        let j = choose|j: int| 0 <= j < flat(kahn.take(gidx as int)).len() && flat(kahn.take(gidx as int))[j] == x;
                        assert(flat(g2)[j] == x);
                    }
                    if kahn[gidx as int]@.contains(x) {
                        let j = choose|j: int| 0 <= j < kahn[gidx as int]@.len() && kahn[gidx as int]@[j] == x;
                        assert(flat(g2)[flat(kahn.take(gidx as int)).len() + j] == x);
                    }
                }
            }
            gidx = gidx + 1;
        }
        proof {
            assert(kahn.take(kahn.len() as int) == kahn);
        }
        let mut remaining: Vec<usize> = Vec::new();
        i = 0;
        while i < n
            invariant
                n == self.n(),
                0 <= i <= n,
                visited@.len() == n,
                forall|x: usize| x < n ==> (#[trigger] visited@[x as int] <==> flat(kahn).contains(x)),
                increasing(remaining@),
                forall|k: int| 0 <= k < remaining@.len() ==> #[trigger] remaining@[k] < i,
                forall|x: usize| x < i ==> (!flat(kahn).contains(x) <==> #[trigger] remaining@.contains(x)),
            decreases n - i,
        {
            let ghost r0 = remaining@;
            if !visited[i] {
                remaining.push(i);
            }
            proof {
                assert forall|x: usize| x < i + 1 implies (!flat(kahn).contains(x) <==> #[trigger] remaining@.contains(x)) by {
                    lemma_push_contains(r0, i, x);
                    if x < i {
                        assert(remaining@.contains(x) <==> r0.contains(x));
                    } else {
                        if !visited@[x as int] {
                            assert(remaining@[remaining@.len() - 1] == x);
                        } else {
                            assert(remaining@ == r0);
                            if r0.contains(x) {
                                let j = choose|j: int| 0 <= j < r0.len() && r0[j] == x;
                            }
                        }
                    }
                }
            }
            i = i + 1;
        }
        proof {
            lemma_generations_result(*self, kahn, remaining, zero0, in_degree@);
        }
        if remaining.len() > 0 {
            generations.push(remaining);
        }
        proof {
            assert(generations_split(*self, generations@, kahn.len() as int));
        }
        generations
    }
}

/// Every source of an edge entering `x` is in `s`.
pub open spec fn sources_within(g: LayoutGraph, s: Seq<usize>, x: usize) -> bool {
    forall|k: int| 0 <= k < g.in_edges@[x as int]@.len() ==> s.contains(#[trigger] src_of(g, x, k))
}

/// `r` lists every node of `g` once.
pub open spec fn node_permutation(g: LayoutGraph, r: Seq<usize>) -> bool {
    &&& r.len() == g.n()
    &&& r.no_duplicates()
    &&& forall|k: int| 0 <= k < r.len() ==> #[trigger] r[k] < g.n()
}

/// The first `m` nodes of `r` are in topological order (each has every
/// source before it) and the rest, in index order, are the nodes that each
/// have a source outside the first `m` (they lie on or after a cycle).
pub open spec fn sort_split(g: LayoutGraph, r: Seq<usize>, m: int) -> bool {
    &&& 0 <= m <= r.len()
    &&& forall|p: int| 0 <= p < m ==> sources_within(g, r.take(p), #[trigger] r[p])
    &&& forall|p: int, q: int| m <= p < q < r.len() ==> #[trigger] r[p] < #[trigger] r[q]
    &&& forall|p: int| m <= p < r.len() ==> !sources_within(g, r.take(m), #[trigger] r[p])
}

proof fn lemma_pending_le(g: LayoutGraph, w: usize, done: Set<usize>, v: usize)
    requires
        !done.contains(v),
    ensures
        pending(g, w as int, done.insert(v)) <= pending(g, w as int, done),
{
    lemma_split_count(g.in_edges@[w as int]@, g.edges@, done, v);
}

proof fn lemma_push_no_dup(s: Seq<usize>, v: usize)
    requires
        s.no_duplicates(),
        !s.contains(v),
    ensures
        s.push(v).no_duplicates(),
{
    let t = s.push(v);
    assert forall|a: int, b: int| 0 <= a < t.len() && 0 <= b < t.len() && a != b implies t[a] != t[b] by {
        if a == s.len() {
            assert(s.contains(s[b]));
        } else if b == s.len() {
            assert(s.contains(s[a]));
        } else {
            assert(t[a] == s[a] && t[b] == s[b]);
        }
    }
}

proof fn lemma_sort_result(g: LayoutGraph, n: usize, sorted: Seq<usize>, r: Seq<usize>, indeg: Seq<usize>)
    requires
        g.well_formed(),
        n == g.n(),
        indeg.len() == n,
        forall|w: usize| w < n ==> #[trigger] indeg[w as int] == pending(g, w as int, sorted.to_set()),
        sorted.no_duplicates(),
        forall|x: usize| #[trigger] sorted.contains(x) ==> x < n,
        forall|w: usize| w < n && #[trigger] indeg[w as int] == 0 ==> sorted.contains(w),
        forall|p: int| 0 <= p < sorted.len() ==> sources_within(g, sorted.take(p), #[trigger] sorted[p]),
        r.len() >= sorted.len(),
        r.take(sorted.len() as int) == sorted,
        forall|p: int, q: int| sorted.len() <= p < q < r.len() ==> #[trigger] r[p] < #[trigger] r[q],
        forall|p: int| sorted.len() <= p < r.len() ==> #[trigger] r[p] < n,
        forall|x: usize| x < n ==> (!sorted.contains(x) <==> #[trigger] r.skip(sorted.len() as int).contains(x)),
    ensures
        node_permutation(g, r),
        sort_split(g, r, sorted.len() as int),
{
    let m = sorted.len() as int;
    let tail = r.skip(m);
    assert(r == sorted + tail);
    assert forall|x: usize| #[trigger] tail.contains(x) implies x < n && !sorted.contains(x) by {
        let j = choose|j: int| 0 <= j < tail.len() && tail[j] == x;
        assert(r[m + j] == x);
    }
    assert(tail.no_duplicates()) by {
        assert forall|a: int, b: int| 0 <= a < tail.len() && 0 <= b < tail.len() && a != b implies tail[a] != tail[b] by {
            assert(tail[a] == r[m + a] && tail[b] == r[m + b]);
            if a < b {
                assert(r[m + a] < r[m + b]);
            } else {
                assert(r[m + b] < r[m + a]);
            }
        }
    }
    assert forall|i: int, j: int| 0 <= i < sorted.len() && 0 <= j < tail.len() implies sorted[i] != tail[j] by {
        assert(tail.contains(tail[j]));
        assert(sorted.contains(sorted[i]));
    }
    vstd::seq_lib::lemma_no_dup_in_concat(sorted, tail);
    assert forall|k: int| 0 <= k < r.len() implies #[trigger] r[k] < n by {
        if k < m {
            assert(r[k] == sorted[k]);
            assert(sorted.contains(sorted[k]));
        }
    }
    let range = Set::new(|x: usize| x < n);
    assert(r.to_set() =~= range) by {
        assert forall|x: usize| r.to_set().contains(x) <==> range.contains(x) by {
            lemma_concat_contains(sorted, tail, x);
            if x < n {
                assert(sorted.contains(x) || tail.contains(x));
            }
        }
    }
    r.unique_seq_to_set();
    lemma_usize_range_finite(n);
    assert forall|p: int| 0 <= p < m implies sources_within(g, r.take(p), #[trigger] r[p]) by {
        assert(r[p] == sorted[p]);
        assert(r.take(p) == sorted.take(p));
    }
    assert forall|p: int| m <= p < r.len() implies !sources_within(g, r.take(m), #[trigger] r[p]) by {
        let x = r[p];
        assert(tail[p - m] == x);
        assert(tail.contains(x));
        assert(!sorted.contains(x));
        assert(indeg[x as int] != 0);
        lemma_pending_positive(g, x, sorted.to_set());
        let k = choose|k: int| 0 <= k < g.in_edges@[x as int]@.len() && !sorted.to_set().contains(#[trigger] src_of(g, x, k));
        assert(!sorted.contains(src_of(g, x, k)));
    }
}

impl LayoutGraph {
    /// The nodes in topological order (see [`sort_split`]): from the nodes
    /// without entering edges, the node made ready last is placed next and
    /// frees the targets whose sources are all placed; the nodes never
    /// reached (on or after a cycle) follow in index order.
    pub fn topological_sort(&self) -> (r: Vec<usize>)
        requires
            self.well_formed(),
            lists_consistent(*self),
        ensures
            node_permutation(*self, r@),
            exists|m: int| sort_split(*self, r@, m),
    {
        let n = self.nodes.len();
        let mut in_degree: Vec<usize> = Vec::new();
        let mut i: usize = 0;
        while i < n
            invariant
                n == self.n(),
                self.well_formed(),
                0 <= i <= n,
                in_degree@.len() == i,
                forall|x: int| 0 <= x < i ==> #[trigger] in_degree@[x] == self.in_edges@[x]@.len(),
            decreases n - i,
        {
            in_degree.push(self.in_edges[i].len());
            i = i + 1;
        }
        let mut queue: Vec<usize> = Vec::new();
        i = 0;
        while i < n
            invariant
                n == self.n(),
                0 <= i <= n,
                in_degree@.len() == n,
                queue@.no_duplicates(),
                forall|x: usize| #[trigger] queue@.contains(x) <==> (x < i && in_degree@[x as int] == 0),
            decreases n - i,
        {
            let ghost q0 = queue@;
            if in_degree[i] == 0 {
                queue.push(i);
                proof {
                    lemma_push_no_dup(q0, i);
                }
            }
            proof {
                assert forall|x: usize| #[trigger] queue@.contains(x) <==> (x < i + 1 && in_degree@[x as int] == 0) by {
                    lemma_push_contains(q0, i, x);
                }
            }
            i = i + 1;
        }
        proof {
            assert forall|w: usize| w < n implies #[trigger] in_degree@[w as int] == pending(*self, w as int, Seq::<usize>::empty().to_set()) by {
                lemma_pending_none_done(*self, w);
                assert(Seq::<usize>::empty().to_set() =~= Set::<usize>::empty());
            }
        }
        let mut result: Vec<usize> = Vec::new();
        while queue.len() > 0
            invariant
                self.well_formed(),
                lists_consistent(*self),
                n == self.n(),
                in_degree@.len() == n,
                forall|w: usize| w < n ==> #[trigger] in_degree@[w as int] == pending(*self, w as int, result@.to_set()),
                result@.no_duplicates(),
                queue@.no_duplicates(),
                forall|x: usize| #[trigger] result@.contains(x) ==> !queue@.contains(x),
                forall|x: usize| #[trigger] result@.contains(x) ==> x < n && in_degree@[x as int] == 0,
                forall|x: usize| #[trigger] queue@.contains(x) ==> x < n && in_degree@[x as int] == 0,
                forall|w: usize| w < n && #[trigger] in_degree@[w as int] == 0 ==> result@.contains(w) || queue@.contains(w),
                forall|p: int| 0 <= p < result@.len() ==> sources_within(*self, result@.take(p), #[trigger] result@[p]),
            decreases n - result@.len(),
        {
            let ghost res0 = result@;
            let ghost q_old = queue@;
            let ghost deg_old = in_degree@;
            proof {
                assert forall|j: int| 0 <= j < res0.len() implies #[trigger] res0[j] < n by {
                    assert(res0.contains(res0[j]));
                }
                lemma_distinct_bounded(res0, n);
            }
            let last = queue.len() - 1;
            let v = queue[last];
            queue.pop();
            let ghost qp = queue@;
            proof {
                assert(q_old.contains(v)) by {
                    assert(q_old[last as int] == v);
                }
                assert(qp == q_old.take(last as int));
                assert(!res0.contains(v));
                lemma_pending_zero(*self, v, res0.to_set());
            }
            result.push(v);
            proof {
                res0.lemma_push_to_set_commute(v);
                assert(result@.to_set() == res0.to_set().insert(v));
            }
            self.release_targets(v, &mut in_degree, &mut queue, Ghost(res0.to_set()));
            proof {
                let res1 = result@;
                let q1 = queue@;
                let added = q1.skip(qp.len() as int);
                assert(q1 == qp + added);
                lemma_push_no_dup(res0, v);
                assert forall|x: usize| #[trigger] qp.contains(x) implies q_old.contains(x) && x != v by {
                    let j = choose|j: int| 0 <= j < qp.len() && qp[j] == x;
                    assert(q_old[j] == x);
                    assert(q_old[last as int] == v);
                }
                assert(qp.no_duplicates()) by {
                    assert forall|a: int, b: int| 0 <= a < qp.len() && 0 <= b < qp.len() && a != b implies qp[a] != qp[b] by {
                        assert(qp[a] == q_old[a] && qp[b] == q_old[b]);
                    }
                }
                assert forall|a: int, b: int| 0 <= a < qp.len() && 0 <= b < added.len() implies qp[a] != added[b] by {
                    assert(qp.contains(qp[a]));
                    assert(added.contains(added[b]));
                }
                vstd::seq_lib::lemma_no_dup_in_concat(qp, added);
                assert forall|x: usize| #[trigger] q1.contains(x) <==> (qp.contains(x) || added.contains(x)) by {
                    lemma_concat_contains(qp, added, x);
                }
                assert forall|x: usize| #[trigger] res1.contains(x) <==> (res0.contains(x) || x == v) by {
                    lemma_push_contains(res0, v, x);
                }
                assert forall|x: usize| #[trigger] res1.contains(x) implies !q1.contains(x) by {
                    assert(res0.contains(x) || x == v);
                }
                assert forall|x: usize| #[trigger] res1.contains(x) implies x < n && in_degree@[x as int] == 0 by {
                    lemma_pending_le(*self, x, res0.to_set(), v);
                }
                assert forall|x: usize| #[trigger] q1.contains(x) implies x < n && in_degree@[x as int] == 0 by {
                    if qp.contains(x) {
                        lemma_pending_le(*self, x, res0.to_set(), v);
                    }
                }
                assert forall|w: usize| w < n && #[trigger] in_degree@[w as int] == 0 implies res1.contains(w) || q1.contains(w) by {
                    if deg_old[w as int] == 0 {
                        if q_old.contains(w) && w != v {
                            let j = choose|j: int| 0 <= j < q_old.len() && q_old[j] == w;
                            assert(j != last);
                            assert(qp[j] == w);
                        }
                    }
                }
                assert forall|p: int| 0 <= p < res1.len() implies sources_within(*self, res1.take(p), #[trigger] res1[p]) by {
                    if p < res0.len() {
                        assert(res1.take(p) == res0.take(p));
                        assert(res1[p] == res0[p]);
                    } else {
                        assert(res1.take(p) == res0);
                        assert(res1[p] == v);
                    }
                }
                assert forall|j: int| 0 <= j < res1.len() implies #[trigger] res1[j] < n by {
                    assert(res1.contains(res1[j]));
                }
                lemma_distinct_bounded(res1, n);
            }
        }
        let ghost sorted = result@;
        let mut visited: Vec<bool> = Vec::new();
        i = 0;
        while i < n
            invariant
                0 <= i <= n,
                visited@.len() == i,
                forall|x: int| 0 <= x < i ==> !(#[trigger] visited@[x]),
            decreases n - i,
        {
            visited.push(false);
            i = i + 1;
        }
        let mut k: usize = 0;
        while k < result.len()
            invariant
                result@ == sorted,
                visited@.len() == n,
                forall|x: usize| #[trigger] sorted.contains(x) ==> x < n,
                0 <= k <= sorted.len(),
                forall|x: usize| x < n ==> (#[trigger] visited@[x as int] <==> sorted.take(k as int).contains(x)),
            decreases sorted.len() - k,
        {
            let x = result[k];
            proof {
                assert(sorted.contains(x));
            }
            visited[x] = true;
            proof {
                assert(sorted.take(k + 1) == sorted.take(k as int).push(x));
                assert forall|y: usize| y < n implies (#[trigger] visited@[y as int] <==> sorted.take(k + 1).contains(y)) by {
                    lemma_push_contains(sorted.take(k as int), x, y);
                }
            }
            k = k + 1;
        }
        proof {
            assert(sorted.take(sorted.len() as int) == sorted);
        }
        let ghost m = sorted.len() as int;
        i = 0;
        while i < n
            invariant
                n == self.n(),
                0 <= i <= n,
                visited@.len() == n,
                forall|x: usize| x < n ==> (#[trigger] visited@[x as int] <==> sorted.contains(x)),
                m == sorted.len(),
                result@.len() >= m,
                result@.take(m) == sorted,
                forall|p: int, q: int| m <= p < q < result@.len() ==> #[trigger] result@[p] < #[trigger] result@[q],
                forall|p: int| m <= p < result@.len() ==> #[trigger] result@[p] < i,
                forall|x: usize| x < i ==> (!sorted.contains(x) <==> #[trigger] result@.skip(m).contains(x)),
            decreases n - i,
        {
            let ghost r0 = result@;
            if !visited[i] {
                result.push(i);
                proof {
                    assert(result@.skip(m) == r0.skip(m).push(i));
                }
            }
            proof {
                assert(result@.take(m) == r0.take(m));
                assert forall|x: usize| x < i + 1 implies (!sorted.contains(x) <==> #[trigger] result@.skip(m).contains(x)) by {
                    lemma_push_contains(r0.skip(m), i, x);
                    if x == i && visited@[i as int] {
                        assert(result@ == r0);
                        if r0.skip(m).contains(x) {
                            let j = choose|j: int| 0 <= j < r0.skip(m).len() && r0.skip(m)[j] == x;
                            assert(r0[m + j] == x);
                        }
                    }
                }
            }
            i = i + 1;
        }
        proof {
            lemma_sort_result(*self, n, sorted, result@, in_degree@);
        }
        result
    }

    /// Takes node `v` out of the graph for the count of pending sources:
    /// each edge leaving `v` lowers its target's count, and the targets
    /// whose count reaches zero are appended to `queue`, in edge order.
    fn release_targets(&self, v: usize, in_degree: &mut Vec<usize>, queue: &mut Vec<usize>, Ghost(done): Ghost<Set<usize>>)
        requires
            self.well_formed(),
            lists_consistent(*self),
            v < self.n(),
            !done.contains(v),
            old(in_degree)@.len() == self.n(),
            forall|w: usize| w < self.n() ==> #[trigger] old(in_degree)@[w as int] == pending(*self, w as int, done),
        ensures
            final(in_degree)@.len() == self.n(),
            forall|w: usize| w < self.n() ==> #[trigger] final(in_degree)@[w as int] == pending(*self, w as int, done.insert(v)),
            final(queue)@.len() >= old(queue)@.len(),
            final(queue)@.take(old(queue)@.len() as int) == old(queue)@,
            final(queue)@.skip(old(queue)@.len() as int).no_duplicates(),
            forall|w: usize| #[trigger] final(queue)@.skip(old(queue)@.len() as int).contains(w)
                <==> (w < self.n() && old(in_degree)@[w as int] > 0 && final(in_degree)@[w as int] == 0),
    {
        let n = self.nodes.len();
        let ghost q0 = queue@;
        let ghost deg_init = in_degree@;
        let outs = &self.out_edges[v];
        let mut k: usize = 0;
        while k < outs.len()
            invariant
                self.well_formed(),
                lists_consistent(*self),
                n == self.n(),
                v < n,
                !done.contains(v),
                outs@ == self.out_edges@[v as int]@,
                0 <= k <= outs@.len(),
                deg_init.len() == n,
                forall|w: usize| w < n ==> #[trigger] deg_init[w as int] == pending(*self, w as int, done),
                in_degree@.len() == n,
                forall|w: usize| w < n ==> #[trigger] in_degree@[w as int] + count_to(*self, outs@.take(k as int), w) == pending(*self, w as int, done),
                forall|w: usize| w < n ==> #[trigger] count_to(*self, outs@.take(k as int), w) <= to_count(*self, v as int, w),
                queue@.len() >= q0.len(),
                queue@.take(q0.len() as int) == q0,
                queue@.skip(q0.len() as int).no_duplicates(),
                forall|w: usize| #[trigger] queue@.skip(q0.len() as int).contains(w)
                    <==> (w < n && deg_init[w as int] > 0 && in_degree@[w as int] == 0),
            decreases outs@.len() - k,
        {
            let e = outs[k];
            let w = self.edges[e].to_node;
            let ghost t0 = outs@.take(k as int);
            let ghost t1 = outs@.take(k + 1);
            proof {
                assert(t1 == t0.push(e));
                t0.lemma_filter_len_push(|x: usize| self.edges@[x as int].to_node == w, e);
                assert forall|w2: usize| w2 != w implies count_to(*self, t1, w2) == count_to(*self, t0, w2) by {
                    t0.lemma_filter_len_push(|x: usize| self.edges@[x as int].to_node == w2, e);
                }
                outs@.lemma_filter_take_len(|x: usize| self.edges@[x as int].to_node == w, k + 1);
                lemma_from_to_count(*self, v, w);
                lemma_split_count(self.in_edges@[w as int]@, self.edges@, done, v);
                assert(count_to(*self, t1, w) <= to_count(*self, v as int, w));
                assert(in_degree@[w as int] >= 1);
            }
            let d = in_degree[w];
            let ghost deg0 = in_degree@;
            let ghost added0 = queue@.skip(q0.len() as int);
            in_degree[w] = d - 1;
            if d - 1 == 0 {
                proof {
                    assert(!added0.contains(w));
                }
                queue.push(w);
                proof {
                    assert(queue@.skip(q0.len() as int) == added0.push(w));
                    assert(queue@.take(q0.len() as int) == q0);
                }
            }
            proof {
                let added = queue@.skip(q0.len() as int);
                assert forall|w2: usize| #[trigger] added.contains(w2)
                    <==> (w2 < n && deg_init[w2 as int] > 0 && in_degree@[w2 as int] == 0) by {
                    if d - 1 == 0 {
                        lemma_push_contains(added0, w, w2);
                    } else {
                        assert(added == added0);
                    }
                    if w2 == w && w2 < n {
                        assert(deg_init[w as int] >= deg0[w as int]) by {
                            assert(deg0[w as int] + count_to(*self, t0, w) == deg_init[w as int]);
                        }
                    }
                }
                if d - 1 == 0 {
                    assert forall|a: int, b: int| 0 <= a < added.len() && 0 <= b < added.len() && a != b implies added[a] != added[b] by {
                        if a == added.len() - 1 {
                            assert(added0.contains(added0[b]));
                        } else if b == added.len() - 1 {
                            assert(added0.contains(added0[a]));
                        } else {
                            assert(added[a] == added0[a] && added[b] == added0[b]);
                        }
                    }
                }
                assert forall|w2: usize| w2 < n implies #[trigger] in_degree@[w2 as int] + count_to(*self, outs@.take(k + 1), w2) == pending(*self, w2 as int, done) by {
                    if w2 != w {
                        assert(count_to(*self, t1, w2) == count_to(*self, t0, w2));
                    }
                }
                assert forall|w2: usize| w2 < n implies #[trigger] count_to(*self, outs@.take(k + 1), w2) <= to_count(*self, v as int, w2) by {
                    outs@.lemma_filter_take_len(|x: usize| self.edges@[x as int].to_node == w2, k + 1);
                }
            }
            k = k + 1;
        }
        proof {
            assert(outs@.take(outs@.len() as int) == outs@);
            assert forall|w: usize| w < n implies #[trigger] in_degree@[w as int] == pending(*self, w as int, done.insert(v)) by {
                lemma_from_to_count(*self, v, w);
                lemma_split_count(self.in_edges@[w as int]@, self.edges@, done, v);
            }
        }
    }
}

} // verus!
