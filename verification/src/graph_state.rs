//! The current PipeWire graph: nodes, ports and links, each keyed by object id,
//! with a counter that moves on every change.
use vstd::prelude::*;
use vstd::string::StrSliceExecFns;
use crate::id_table::{
    id_table, ids_distinct, keep_values, lemma_id_table_absent, lemma_id_table_at,
    lemma_id_table_has, lemma_id_table_map, lemma_id_table_push, lemma_id_table_remove_at,
    lemma_id_table_update,
};
use crate::pipewire_types::{
    clone_opt_string, Link, MediaType, Node, NodeType, NodeView, ObjectId, Port, PortDirection,
    PortView,
};
use crate::port_order::{port_key, port_views, ports_in_order, sort_ports};
use crate::port_groups::{prefix_before, PortGroups};
use crate::text::{chars_of, str_eq};

verus! {

pub open spec fn node_key() -> spec_fn(NodeView) -> ObjectId {
    |n: NodeView| n.id
}

pub open spec fn link_key() -> spec_fn(Link) -> ObjectId {
    |l: Link| l.id
}

/// The views of a sequence of nodes.
pub open spec fn node_views(s: Seq<Node>) -> Seq<NodeView> {
    s.map_values(|n: Node| n@)
}

/// The change counter after one more change (it wraps at `u64::MAX`).
pub open spec fn bumped(c: u64) -> u64 {
    if c == u64::MAX {
        0
    } else {
        (c + 1) as u64
    }
}

/// A port, with `media_type` taken from its node when it has none itself.
pub open spec fn with_node_media(p: PortView, node_id: ObjectId, mt: MediaType) -> PortView {
    if p.node_id == node_id && p.media_type is None {
        PortView { media_type: Some(mt), ..p }
    } else {
        p
    }
}

/// The ports after node `n` is added or replaced: a node with a media type
/// passes it to those of its ports that have none.
pub open spec fn ports_after_node(ports: Map<ObjectId, PortView>, n: NodeView) -> Map<ObjectId, PortView> {
    match n.media_type {
        Some(mt) => Map::new(
            |k: ObjectId| ports.contains_key(k),
            |k: ObjectId| with_node_media(ports[k], n.id, mt),
        ),
        None => ports,
    }
}

/// Whether a link starts or ends at one of the given ports.
pub open spec fn link_touches(l: Link, ports: Seq<ObjectId>) -> bool {
    ports.contains(l.output_port_id) || ports.contains(l.input_port_id)
}

/// The mathematical value of the graph.
pub struct GraphView {
    pub nodes: Map<ObjectId, NodeView>,
    pub ports: Map<ObjectId, PortView>,
    pub links: Map<ObjectId, Link>,
    pub change_counter: u64,
}

/// The view of an owned node, if any.
pub open spec fn opt_node_view(r: Option<Node>) -> Option<NodeView> {
    match r {
        Some(n) => Some(n@),
        None => None,
    }
}

/// The view of an owned port, if any.
pub open spec fn opt_port_view(r: Option<Port>) -> Option<PortView> {
    match r {
        Some(p) => Some(p@),
        None => None,
    }
}

/// Whether a port belongs to `node_id` and passes the optional direction and group filters.
pub open spec fn port_selected(
    p: PortView,
    node_id: ObjectId,
    direction: Option<PortDirection>,
    group: Option<Seq<char>>,
) -> bool {
    &&& p.node_id == node_id
    &&& match direction {
        Some(d) => p.direction == d,
        None => true,
    }
    &&& match group {
        Some(g) => p.port_group == Some(g),
        None => true,
    }
}

/// Whether a link starts or ends at a port of `node_id`.
pub open spec fn link_touches_node(l: Link, ports: Map<ObjectId, PortView>, node_id: ObjectId) -> bool {
    (ports.contains_key(l.output_port_id) && ports[l.output_port_id].node_id == node_id) || (
    ports.contains_key(l.input_port_id) && ports[l.input_port_id].node_id == node_id)
}

/// The view of an optional string slice.
pub open spec fn opt_str_view(s: Option<&str>) -> Option<Seq<char>> {
    match s {
        Some(x) => Some(x@),
        None => None,
    }
}

/// Whether `id` is one of `ids`.
fn contains_id(ids: &Vec<ObjectId>, id: ObjectId) -> (r: bool)
    ensures
        r == ids@.contains(id),
{
    let mut i: usize = 0;
    while i < ids.len()
        invariant
            0 <= i <= ids@.len(),
            forall|k: int| 0 <= k < i ==> ids@[k] != id,
        decreases ids@.len() - i,
    {
        if ids[i] == id {
            return true;
        }
        i = i + 1;
    }
    false
}

/// The device name shown for a port group: the port's alias up to its first
/// ':', or the whole alias, or else the group name.
pub open spec fn group_device_name(p: PortView, group: Seq<char>) -> Seq<char> {
    match p.port_alias {
        Some(a) => prefix_before(a, ':'),
        None => group,
    }
}

/// `s` up to its first `:` (all of it if there is none).
fn before_colon(s: &str) -> (r: String)
    ensures
        r@ == prefix_before(s@, ':'),
{
    let cs = chars_of(s);
    let mut i: usize = 0;
    assert(s@.skip(0) =~= s@);
    assert(s@.take(0) + prefix_before(s@, ':') =~= prefix_before(s@, ':'));
    while i < cs.len() && cs[i] != ':'
        invariant
            cs@ == s@,
            0 <= i <= cs@.len(),
            forall|k: int| 0 <= k < i ==> cs@[k] != ':',
            prefix_before(s@, ':') == s@.take(i as int) + prefix_before(s@.skip(i as int), ':'),
        decreases cs@.len() - i,
    {
        proof {
            let t = s@.skip(i as int);
            assert(t[0] == s@[i as int]);
            assert(t.drop_first() =~= s@.skip(i + 1));
            assert(s@.take(i + 1) =~= s@.take(i as int) + seq![s@[i as int]]);
        }
        i = i + 1;
    }
    proof {
        let t = s@.skip(i as int);
        if i < cs.len() {
            assert(t[0] == ':');
        } else {
            assert(t.len() == 0);
        }
    }
    s.substring_char(0, i).to_owned()
}

/// The graph state shared by the PipeWire thread and the user interface.
#[derive(Debug)]
pub struct GraphState {
    nodes: Vec<Node>,
    ports: Vec<Port>,
    links: Vec<Link>,
    change_counter: u64,
}

impl View for GraphState {
    type V = GraphView;

    closed spec fn view(&self) -> GraphView {
        GraphView {
            nodes: id_table(node_views(self.nodes@), node_key()),
            ports: id_table(port_views(self.ports@), port_key()),
            links: id_table(self.links@, link_key()),
            change_counter: self.change_counter,
        }
    }
}

impl GraphState {
    /// No two nodes, ports or links share an id.
    pub closed spec fn wf(&self) -> bool {
        &&& ids_distinct(node_views(self.nodes@), node_key())
        &&& ids_distinct(port_views(self.ports@), port_key())
        &&& ids_distinct(self.links@, link_key())
    }

    /// An empty graph.
    pub fn new() -> (r: Self)
        ensures
            r.wf(),
            r@.nodes == Map::<ObjectId, NodeView>::empty(),
            r@.ports == Map::<ObjectId, PortView>::empty(),
            r@.links == Map::<ObjectId, Link>::empty(),
            r@.change_counter == 0,
    {
        let r = GraphState { nodes: Vec::new(), ports: Vec::new(), links: Vec::new(), change_counter: 0 };
        assert(r@.nodes =~= Map::<ObjectId, NodeView>::empty());
        assert(r@.ports =~= Map::<ObjectId, PortView>::empty());
        assert(r@.links =~= Map::<ObjectId, Link>::empty());
        r
    }

    fn mark_changed(&mut self)
        ensures
            final(self).nodes == old(self).nodes,
            final(self).ports == old(self).ports,
            final(self).links == old(self).links,
            final(self).change_counter == bumped(old(self).change_counter),
    {
        self.change_counter = self.change_counter.wrapping_add(1);
    }

    /// The number of changes so far (wrapping).
    pub fn change_counter(&self) -> (r: u64)
        ensures
            r == self@.change_counter,
    {
        self.change_counter
    }

    fn node_pos(&self, id: ObjectId) -> (r: Option<usize>)
        requires
            self.wf(),
        ensures
            match r {
                Some(i) => i < self.nodes@.len() && self.nodes@[i as int].id == id
                    && self@.nodes.contains_key(id) && self@.nodes[id] == self.nodes@[i as int]@,
                None => !self@.nodes.contains_key(id),
            },
    {
        let mut i: usize = 0;
        while i < self.nodes.len()
            invariant
                self.wf(),
                0 <= i <= self.nodes@.len(),
                forall|k: int| 0 <= k < i ==> self.nodes@[k].id != id,
            decreases self.nodes@.len() - i,
        {
            if self.nodes[i].id == id {
                proof {
                    lemma_id_table_at(node_views(self.nodes@), node_key(), i as int);
                }
                return Some(i);
            }
            i = i + 1;
        }
        proof {
            let s = node_views(self.nodes@);
            assert forall|k: int| 0 <= k < s.len() implies (node_key())(s[k]) != id by {
                assert(s[k] == self.nodes@[k]@);
            }
            lemma_id_table_absent(s, node_key(), id);
        }
        None
    }

    fn port_pos(&self, id: ObjectId) -> (r: Option<usize>)
        requires
            self.wf(),
        ensures
            match r {
                Some(i) => i < self.ports@.len() && self.ports@[i as int].id == id
                    && self@.ports.contains_key(id) && self@.ports[id] == self.ports@[i as int]@,
                None => !self@.ports.contains_key(id),
            },
    {
        let mut i: usize = 0;
        while i < self.ports.len()
            invariant
                self.wf(),
                0 <= i <= self.ports@.len(),
                forall|k: int| 0 <= k < i ==> self.ports@[k].id != id,
            decreases self.ports@.len() - i,
        {
            if self.ports[i].id == id {
                proof {
                    lemma_id_table_at(port_views(self.ports@), port_key(), i as int);
                }
                return Some(i);
            }
            i = i + 1;
        }
        proof {
            let s = port_views(self.ports@);
            assert forall|k: int| 0 <= k < s.len() implies (port_key())(s[k]) != id by {
                assert(s[k] == self.ports@[k]@);
            }
            lemma_id_table_absent(s, port_key(), id);
        }
        None
    }

    fn link_pos(&self, id: ObjectId) -> (r: Option<usize>)
        requires
            self.wf(),
        ensures
            match r {
                Some(i) => i < self.links@.len() && self.links@[i as int].id == id
                    && self@.links.contains_key(id) && self@.links[id] == self.links@[i as int],
                None => !self@.links.contains_key(id),
            },
    {
        let mut i: usize = 0;
        while i < self.links.len()
            invariant
                self.wf(),
                0 <= i <= self.links@.len(),
                forall|k: int| 0 <= k < i ==> self.links@[k].id != id,
            decreases self.links@.len() - i,
        {
            if self.links[i].id == id {
                proof {
                    lemma_id_table_at(self.links@, link_key(), i as int);
                }
                return Some(i);
            }
            i = i + 1;
        }
        proof {
            lemma_id_table_absent(self.links@, link_key(), id);
        }
        None
    }

    /// Add or replace the node with `node.id`. A node with a media type
    /// passes it to those of its ports that have none.
    pub fn insert_node(&mut self, node: Node)
        requires
            old(self).wf(),
        ensures
            final(self).wf(),
            final(self)@.nodes == old(self)@.nodes.insert(node@.id, node@),
            final(self)@.ports == ports_after_node(old(self)@.ports, node@),
            final(self)@.links == old(self)@.links,
            final(self)@.change_counter == bumped(old(self)@.change_counter),
    {
        let media_type = node.media_type;
        let node_id = node.id;
        let ghost nv = node@;
        let ghost old_nodes = node_views(self.nodes@);
        match self.node_pos(node_id) {
            Some(i) => {
                self.nodes.set(i, node);
                proof {
                    assert(node_views(self.nodes@) =~= old_nodes.update(i as int, nv));
                    lemma_id_table_update(old_nodes, node_key(), i as int, nv);
                }
            },
            None => {
                self.nodes.push(node);
                proof {
                    assert(node_views(self.nodes@) =~= old_nodes.push(nv));
                    lemma_id_table_push(old_nodes, node_key(), nv);
                }
            },
        }
        if let Some(mt) = media_type {
            let ghost old_ports = port_views(self.ports@);
            let ghost nodes_now = self.nodes@;
            let mut i: usize = 0;
            while i < self.ports.len()
                invariant
                    self.nodes@ == nodes_now,
                    ids_distinct(old_ports, port_key()),
                    self.links@ == old(self).links@,
                    self.change_counter == old(self).change_counter,
                    self.ports@.len() == old_ports.len(),
                    0 <= i <= self.ports@.len(),
                    forall|k: int| 0 <= k < i ==> #[trigger] self.ports@[k]@ == with_node_media(old_ports[k], node_id, mt),
                    forall|k: int| i <= k < self.ports@.len() ==> #[trigger] self.ports@[k]@ == old_ports[k],
                decreases self.ports@.len() - i,
            {
                let ghost before = self.ports@;
                assert(before[i as int]@ == old_ports[i as int]);
                if self.ports[i].node_id == node_id && self.ports[i].media_type.is_none() {
                    self.ports[i].media_type = Some(mt);
                    assert(self.ports@[i as int]@ == PortView { media_type: Some(mt), ..before[i as int]@ });
                }
                proof {
                    assert(self.ports@[i as int]@ == with_node_media(old_ports[i as int], node_id, mt));
                    assert forall|k: int| 0 <= k < self.ports@.len() && k != i implies self.ports@[k] == before[k] by {}
                }
                i = i + 1;
            }
            proof {
                let f = |p: PortView| with_node_media(p, node_id, mt);
                let nv2 = port_views(self.ports@);
                assert forall|k: int| 0 <= k < old_ports.len() implies nv2[k] == f(old_ports[k]) by {
                    assert(nv2[k] == self.ports@[k]@);
                }
                lemma_id_table_map(old_ports, nv2, port_key(), f);
                assert(id_table(nv2, port_key()) =~= Map::new(
                    |k: ObjectId| id_table(old_ports, port_key()).contains_key(k),
                    |k: ObjectId| with_node_media(id_table(old_ports, port_key())[k], node_id, mt),
                ));
            }
        }
        self.mark_changed();
    }

    /// Remove the node with this id, returning it if it was there; the
    /// counter moves only when a node was removed.
    pub fn remove_node(&mut self, id: ObjectId) -> (r: Option<Node>)
        requires
            old(self).wf(),
        ensures
            final(self).wf(),
            opt_node_view(r) == old(self)@.nodes.get(id),
            final(self)@.nodes == old(self)@.nodes.remove(id),
            final(self)@.ports == old(self)@.ports,
            final(self)@.links == old(self)@.links,
            final(self)@.change_counter == if r is Some {
                bumped(old(self)@.change_counter)
            } else {
                old(self)@.change_counter
            },
    {
        let ghost old_nodes = node_views(self.nodes@);
        match self.node_pos(id) {
            Some(i) => {
                let n = self.nodes.remove(i);
                proof {
                    assert(node_views(self.nodes@) =~= old_nodes.remove(i as int));
                    lemma_id_table_remove_at(old_nodes, node_key(), i as int);
                }
                self.mark_changed();
                Some(n)
            },
            None => {
                proof {
                    assert(id_table(old_nodes, node_key()).remove(id) =~= id_table(old_nodes, node_key()));
                }
                None
            },
        }
    }

    /// A copy of the node with this id, if any.
    pub fn get_node(&self, id: ObjectId) -> (r: Option<Node>)
        requires
            self.wf(),
        ensures
            opt_node_view(r) == self@.nodes.get(id),
    {
        match self.node_pos(id) {
            Some(i) => Some(self.nodes[i].clone()),
            None => None,
        }
    }

    /// Copies of all nodes, each once, in no particular order.
    /// The nodes in the order the graph keeps them.
    pub closed spec fn node_list(&self) -> Seq<NodeView> {
        node_views(self.nodes@)
    }

    pub fn get_all_nodes(&self) -> (r: Vec<Node>)
        requires
            self.wf(),
        ensures
            ids_distinct(node_views(r@), node_key()),
            id_table(node_views(r@), node_key()) == self@.nodes,
            node_views(r@) == self.node_list(),
    {
        let mut r: Vec<Node> = Vec::new();
        let mut i: usize = 0;
        while i < self.nodes.len()
            invariant
                0 <= i <= self.nodes@.len(),
                node_views(r@) == node_views(self.nodes@).take(i as int),
            decreases self.nodes@.len() - i,
        {
            let ghost before = r@;
            let n = self.nodes[i].clone();
            r.push(n);
            proof {
                assert(node_views(r@) =~= node_views(before).push(self.nodes@[i as int]@));
                assert(node_views(self.nodes@).take(i + 1) =~= node_views(self.nodes@).take(i as int).push(self.nodes@[i as int]@));
            }
            i = i + 1;
        }
        proof {
            assert(node_views(self.nodes@).take(self.nodes@.len() as int) =~= node_views(self.nodes@));
        }
        r
    }

    /// Set the type of the node with this id; the counter moves only if the type changed.
    pub fn set_node_type(&mut self, id: ObjectId, node_type: NodeType)
        requires
            old(self).wf(),
        ensures
            final(self).wf(),
            ({
                let changed = old(self)@.nodes.contains_key(id) && old(self)@.nodes[id].node_type
                    != Some(node_type);
                &&& final(self)@.nodes == if changed {
                    old(self)@.nodes.insert(id, NodeView { node_type: Some(node_type), ..old(self)@.nodes[id] })
                } else {
                    old(self)@.nodes
                }
                &&& final(self)@.change_counter == if changed {
                    bumped(old(self)@.change_counter)
                } else {
                    old(self)@.change_counter
                }
            }),
            final(self)@.ports == old(self)@.ports,
            final(self)@.links == old(self)@.links,
    {
        if let Some(i) = self.node_pos(id) {
            let same = match self.nodes[i].node_type {
                Some(t) => t == node_type,
                None => false,
            };
            if !same {
                let ghost old_nodes = node_views(self.nodes@);
                self.nodes[i].node_type = Some(node_type);
                proof {
                    let nv = NodeView { node_type: Some(node_type), ..old_nodes[i as int] };
                    assert(node_views(self.nodes@) =~= old_nodes.update(i as int, nv));
                    lemma_id_table_update(old_nodes, node_key(), i as int, nv);
                }
                self.mark_changed();
            }
        }
    }

    /// Set the description of the node with this id; the counter moves only
    /// if the description changed.
    pub fn set_node_description(&mut self, id: ObjectId, description: &str)
        requires
            old(self).wf(),
        ensures
            final(self).wf(),
            ({
                let changed = old(self)@.nodes.contains_key(id) && old(self)@.nodes[id].description
                    != description@;
                &&& final(self)@.nodes == if changed {
                    old(self)@.nodes.insert(id, NodeView { description: description@, ..old(self)@.nodes[id] })
                } else {
                    old(self)@.nodes
                }
                &&& final(self)@.change_counter == if changed {
                    bumped(old(self)@.change_counter)
                } else {
                    old(self)@.change_counter
                }
            }),
            final(self)@.ports == old(self)@.ports,
            final(self)@.links == old(self)@.links,
    {
        if let Some(i) = self.node_pos(id) {
            if !str_eq(self.nodes[i].description.as_str(), description) {
                let ghost old_nodes = node_views(self.nodes@);
                self.nodes[i].description = description.to_owned();
                proof {
                    let nv = NodeView { description: description@, ..old_nodes[i as int] };
                    assert(node_views(self.nodes@) =~= old_nodes.update(i as int, nv));
                    lemma_id_table_update(old_nodes, node_key(), i as int, nv);
                }
                self.mark_changed();
            }
        }
    }

    /// Add or replace the port with `port.id`.
    pub fn insert_port(&mut self, port: Port)
        requires
            old(self).wf(),
        ensures
            final(self).wf(),
            final(self)@.ports == old(self)@.ports.insert(port@.id, port@),
            final(self)@.nodes == old(self)@.nodes,
            final(self)@.links == old(self)@.links,
            final(self)@.change_counter == bumped(old(self)@.change_counter),
    {
        let ghost pv = port@;
        let ghost old_ports = port_views(self.ports@);
        match self.port_pos(port.id) {
            Some(i) => {
                self.ports.set(i, port);
                proof {
                    assert(port_views(self.ports@) =~= old_ports.update(i as int, pv));
                    lemma_id_table_update(old_ports, port_key(), i as int, pv);
                }
            },
            None => {
                self.ports.push(port);
                proof {
                    assert(port_views(self.ports@) =~= old_ports.push(pv));
                    lemma_id_table_push(old_ports, port_key(), pv);
                }
            },
        }
        self.mark_changed();
    }

    /// Remove the port with this id, returning it if it was there; the counter
    /// moves only when a port was removed.
    pub fn remove_port(&mut self, id: ObjectId) -> (r: Option<Port>)
        requires
            old(self).wf(),
        ensures
            final(self).wf(),
            opt_port_view(r) == old(self)@.ports.get(id),
            final(self)@.ports == old(self)@.ports.remove(id),
            final(self)@.nodes == old(self)@.nodes,
            final(self)@.links == old(self)@.links,
            final(self)@.change_counter == if r is Some {
                bumped(old(self)@.change_counter)
            } else {
                old(self)@.change_counter
            },
    {
        let ghost old_ports = port_views(self.ports@);
        match self.port_pos(id) {
            Some(i) => {
                let p = self.ports.remove(i);
                proof {
                    assert(port_views(self.ports@) =~= old_ports.remove(i as int));
                    lemma_id_table_remove_at(old_ports, port_key(), i as int);
                }
                self.mark_changed();
                Some(p)
            },
            None => {
                proof {
                    assert(id_table(old_ports, port_key()).remove(id) =~= id_table(old_ports, port_key()));
                }
                None
            },
        }
    }

    /// A copy of the port with this id, if any.
    pub fn get_port(&self, id: ObjectId) -> (r: Option<Port>)
        requires
            self.wf(),
        ensures
            opt_port_view(r) == self@.ports.get(id),
    {
        match self.port_pos(id) {
            Some(i) => Some(self.ports[i].clone()),
            None => None,
        }
    }

    /// Copies of the ports of `node_id` that pass the direction and group filters.
    fn collect_ports(&self, node_id: ObjectId, direction: Option<PortDirection>, group: Option<&str>) -> (r: Vec<Port>)
        requires
            self.wf(),
        ensures
            ids_distinct(port_views(r@), port_key()),
            id_table(port_views(r@), port_key()) == keep_values(
                self@.ports,
                |p: PortView| port_selected(p, node_id, direction, opt_str_view(group)),
            ),
    {
        let ghost keep = |p: PortView| port_selected(p, node_id, direction, opt_str_view(group));
        let ghost all = port_views(self.ports@);
        let mut r: Vec<Port> = Vec::new();
        let mut i: usize = 0;
        proof {
            assert(id_table(all.take(0), port_key()) =~= Map::empty());
            assert(id_table(port_views(r@), port_key()) =~= Map::empty());
            assert(keep_values(Map::<ObjectId, PortView>::empty(), keep) =~= Map::empty());
        }
        while i < self.ports.len()
            invariant
                self.wf(),
                all == port_views(self.ports@),
                0 <= i <= self.ports@.len(),
                forall|p: PortView| #[trigger] keep(p) == port_selected(p, node_id, direction, opt_str_view(group)),
                ids_distinct(port_views(r@), port_key()),
                id_table(port_views(r@), port_key()) == keep_values(id_table(all.take(i as int), port_key()), keep),
            decreases self.ports@.len() - i,
        {
            let ghost pv = self.ports@[i as int]@;
            proof {
                let pre = all.take(i as int);
                assert(all.take(i + 1) =~= pre.push(pv));
                assert forall|a: int, b: int| 0 <= a < pre.len() && 0 <= b < pre.len() && a != b implies (port_key())(pre[a]) != (port_key())(pre[b]) by {
                    assert(pre[a] == all[a] && pre[b] == all[b]);
                }
                assert forall|a: int| 0 <= a < pre.len() implies (port_key())(pre[a]) != pv.id by {
                    assert(pre[a] == all[a]);
                    assert(pv == all[i as int]);
                }
                lemma_id_table_absent(pre, port_key(), pv.id);
                lemma_id_table_push(pre, port_key(), pv);
            }
            let p = &self.ports[i];
            let dir_ok = match direction {
                Some(d) => p.direction == d,
                None => true,
            };
            let group_ok = match group {
                Some(g) => match &p.port_group {
                    Some(pg) => str_eq(pg.as_str(), g),
                    None => false,
                },
                None => true,
            };
            if p.node_id == node_id && dir_ok && group_ok {
                assert(keep(pv));
                let ghost before = port_views(r@);
                r.push(p.clone());
                proof {
                    assert(port_views(r@) =~= before.push(pv));
                    lemma_id_table_push(before, port_key(), pv);
                    let pre = all.take(i as int);
                    assert(keep_values(id_table(pre, port_key()).insert(pv.id, pv), keep) =~= keep_values(id_table(pre, port_key()), keep).insert(pv.id, pv));
                }
            } else {
                assert(!keep(pv));
                proof {
                    let pre = all.take(i as int);
                    assert(keep_values(id_table(pre, port_key()).insert(pv.id, pv), keep) =~= keep_values(id_table(pre, port_key()), keep));
                }
            }
            i = i + 1;
        }
        proof {
            assert(all.take(self.ports@.len() as int) =~= all);
        }
        r
    }

    /// The ports of `node_id`: inputs before outputs, MIDI ports first within
    /// each direction, then in natural order of their names.
    pub fn get_ports_for_node(&self, node_id: ObjectId) -> (r: Vec<Port>)
        requires
            self.wf(),
        ensures
            ids_distinct(port_views(r@), port_key()),
            id_table(port_views(r@), port_key()) == keep_values(self@.ports, |p: PortView| p.node_id == node_id),
            ports_in_order(port_views(r@), true, true),
    {
        let v = self.collect_ports(node_id, None, None);
        let r = sort_ports(v, true, true);
        assert(keep_values(self@.ports, |p: PortView| port_selected(p, node_id, None, opt_str_view(None))) =~= keep_values(self@.ports, |p: PortView| p.node_id == node_id));
        r
    }

    /// The input ports of `node_id`: MIDI ports first, then in natural order of their names.
    pub fn get_input_ports(&self, node_id: ObjectId) -> (r: Vec<Port>)
        requires
            self.wf(),
        ensures
            ids_distinct(port_views(r@), port_key()),
            id_table(port_views(r@), port_key()) == keep_values(self@.ports, |p: PortView| p.node_id == node_id && p.direction == PortDirection::Input),
            ports_in_order(port_views(r@), false, true),
    {
        let v = self.collect_ports(node_id, Some(PortDirection::Input), None);
        let r = sort_ports(v, false, true);
        assert(keep_values(self@.ports, |p: PortView| port_selected(p, node_id, Some(PortDirection::Input), opt_str_view(None))) =~= keep_values(self@.ports, |p: PortView| p.node_id == node_id && p.direction == PortDirection::Input));
        r
    }

    /// The output ports of `node_id`: MIDI ports first, then in natural order of their names.
    pub fn get_output_ports(&self, node_id: ObjectId) -> (r: Vec<Port>)
        requires
            self.wf(),
        ensures
            ids_distinct(port_views(r@), port_key()),
            id_table(port_views(r@), port_key()) == keep_values(self@.ports, |p: PortView| p.node_id == node_id && p.direction == PortDirection::Output),
            ports_in_order(port_views(r@), false, true),
    {
        let v = self.collect_ports(node_id, Some(PortDirection::Output), None);
        let r = sort_ports(v, false, true);
        assert(keep_values(self@.ports, |p: PortView| port_selected(p, node_id, Some(PortDirection::Output), opt_str_view(None))) =~= keep_values(self@.ports, |p: PortView| p.node_id == node_id && p.direction == PortDirection::Output));
        r
    }

    /// The ports of bridge node `node_id` in port group `group`: inputs
    /// before outputs, then in natural order of their names.
    pub fn get_ports_for_bridge_group(&self, node_id: ObjectId, group: &str) -> (r: Vec<Port>)
        requires
            self.wf(),
        ensures
            ids_distinct(port_views(r@), port_key()),
            id_table(port_views(r@), port_key()) == keep_values(self@.ports, |p: PortView| p.node_id == node_id && p.port_group == Some(group@)),
            ports_in_order(port_views(r@), true, false),
    {
        let v = self.collect_ports(node_id, None, Some(group));
        let r = sort_ports(v, true, false);
        assert(keep_values(self@.ports, |p: PortView| port_selected(p, node_id, None, opt_str_view(Some(group)))) =~= keep_values(self@.ports, |p: PortView| p.node_id == node_id && p.port_group == Some(group@)));
        r
    }

    /// Add or replace the link with `link.id`.
    pub fn insert_link(&mut self, link: Link)
        requires
            old(self).wf(),
        ensures
            final(self).wf(),
            final(self)@.links == old(self)@.links.insert(link.id, link),
            final(self)@.nodes == old(self)@.nodes,
            final(self)@.ports == old(self)@.ports,
            final(self)@.change_counter == bumped(old(self)@.change_counter),
    {
        let ghost old_links = self.links@;
        match self.link_pos(link.id) {
            Some(i) => {
                self.links.set(i, link);
                proof {
                    lemma_id_table_update(old_links, link_key(), i as int, link);
                }
            },
            None => {
                self.links.push(link);
                proof {
                    lemma_id_table_push(old_links, link_key(), link);
                }
            },
        }
        self.mark_changed();
    }

    /// Remove the link with this id, returning it if it was there; the counter
    /// moves only when a link was removed.
    pub fn remove_link(&mut self, id: ObjectId) -> (r: Option<Link>)
        requires
            old(self).wf(),
        ensures
            final(self).wf(),
            r == old(self)@.links.get(id),
            final(self)@.links == old(self)@.links.remove(id),
            final(self)@.nodes == old(self)@.nodes,
            final(self)@.ports == old(self)@.ports,
            final(self)@.change_counter == if r is Some {
                bumped(old(self)@.change_counter)
            } else {
                old(self)@.change_counter
            },
    {
        let ghost old_links = self.links@;
        match self.link_pos(id) {
            Some(i) => {
                let l = self.links.remove(i);
                proof {
                    lemma_id_table_remove_at(old_links, link_key(), i as int);
                }
                self.mark_changed();
                Some(l)
            },
            None => {
                proof {
                    assert(id_table(old_links, link_key()).remove(id) =~= id_table(old_links, link_key()));
                }
                None
            },
        }
    }

    /// The link with this id, if any.
    pub fn get_link(&self, id: ObjectId) -> (r: Option<Link>)
        requires
            self.wf(),
        ensures
            r == self@.links.get(id),
    {
        match self.link_pos(id) {
            Some(i) => Some(self.links[i]),
            None => None,
        }
    }

    /// All links, each once, in no particular order.
    pub fn get_all_links(&self) -> (r: Vec<Link>)
        requires
            self.wf(),
        ensures
            ids_distinct(r@, link_key()),
            id_table(r@, link_key()) == self@.links,
    {
        let mut r: Vec<Link> = Vec::new();
        let mut i: usize = 0;
        while i < self.links.len()
            invariant
                0 <= i <= self.links@.len(),
                r@ == self.links@.take(i as int),
            decreases self.links@.len() - i,
        {
            r.push(self.links[i]);
            i = i + 1;
            proof {
                assert(r@ =~= self.links@.take(i as int));
            }
        }
        proof {
            assert(self.links@.take(self.links@.len() as int) =~= self.links@);
        }
        r
    }

    /// A link from port `output_port_id` to port `input_port_id`, if there is one.
    pub fn find_link(&self, output_port_id: ObjectId, input_port_id: ObjectId) -> (r: Option<Link>)
        requires
            self.wf(),
        ensures
            match r {
                Some(l) => self@.links.contains_key(l.id) && self@.links[l.id] == l
                    && l.output_port_id == output_port_id && l.input_port_id == input_port_id,
                None => forall|id: ObjectId| #[trigger] self@.links.contains_key(id) ==> !(
                self@.links[id].output_port_id == output_port_id
                    && self@.links[id].input_port_id == input_port_id),
            },
    {
        let mut i: usize = 0;
        while i < self.links.len()
            invariant
                self.wf(),
                0 <= i <= self.links@.len(),
                forall|k: int| 0 <= k < i ==> !(#[trigger] self.links@[k].output_port_id == output_port_id
                    && self.links@[k].input_port_id == input_port_id),
            decreases self.links@.len() - i,
        {
            let l = self.links[i];
            if l.output_port_id == output_port_id && l.input_port_id == input_port_id {
                proof {
                    lemma_id_table_at(self.links@, link_key(), i as int);
                }
                return Some(l);
            }
            i = i + 1;
        }
        proof {
            assert forall|id: ObjectId| #[trigger] self@.links.contains_key(id) implies !(
                self@.links[id].output_port_id == output_port_id
                    && self@.links[id].input_port_id == input_port_id) by {
                let j = lemma_id_table_has(self.links@, link_key(), id);
            }
        }
        None
    }

    /// Remove the links that start or end at one of `port_ids`, returning their ids.
    fn retain_links_away_from(&mut self, port_ids: &Vec<ObjectId>) -> (removed: Vec<ObjectId>)
        requires
            old(self).wf(),
        ensures
            final(self).wf(),
            final(self)@.links == keep_values(old(self)@.links, |l: Link| !link_touches(l, port_ids@)),
            forall|id: ObjectId| #[trigger] removed@.contains(id) <==> (old(self)@.links.contains_key(id)
                && link_touches(old(self)@.links[id], port_ids@)),
            removed@.no_duplicates(),
            final(self)@.nodes == old(self)@.nodes,
            final(self)@.ports == old(self)@.ports,
            final(self)@.change_counter == old(self)@.change_counter,
    {
        let ghost keep = |l: Link| !link_touches(l, port_ids@);
        let mut rest: Vec<Link> = Vec::new();
        std::mem::swap(&mut rest, &mut self.links);
        let ghost all = rest@;
        let n = rest.len();
        let mut kept: Vec<Link> = Vec::new();
        let mut removed: Vec<ObjectId> = Vec::new();
        let mut i: usize = 0;
        proof {
            assert(id_table(all.take(0), link_key()) =~= Map::empty());
            assert(id_table(kept@, link_key()) =~= Map::empty());
            assert(keep_values(Map::<ObjectId, Link>::empty(), keep) =~= Map::empty());
        }
        while i < n
            invariant
                n == all.len(),
                ids_distinct(all, link_key()),
                0 <= i <= n,
                rest@ == all.subrange(i as int, n as int),
                forall|l: Link| #[trigger] keep(l) == !link_touches(l, port_ids@),
                ids_distinct(kept@, link_key()),
                id_table(kept@, link_key()) == keep_values(id_table(all.take(i as int), link_key()), keep),
                forall|id: ObjectId| #[trigger] removed@.contains(id) <==> (id_table(all.take(i as int), link_key()).contains_key(id)
                    && !keep(id_table(all.take(i as int), link_key())[id])),
                removed@.no_duplicates(),
                self.nodes == old(self).nodes,
                self.ports == old(self).ports,
                self.change_counter == old(self).change_counter,
            decreases n - i,
        {
            let l = rest.remove(0);
            let ghost pre = all.take(i as int);
            proof {
                assert(l == all[i as int]);
                assert(all.take(i + 1) =~= pre.push(l));
                assert forall|a: int, b: int| 0 <= a < pre.len() && 0 <= b < pre.len() && a != b implies (link_key())(pre[a]) != (link_key())(pre[b]) by {
                    assert(pre[a] == all[a] && pre[b] == all[b]);
                }
                assert forall|a: int| 0 <= a < pre.len() implies (link_key())(pre[a]) != l.id by {
                    assert(pre[a] == all[a]);
                }
                lemma_id_table_absent(pre, link_key(), l.id);
                lemma_id_table_push(pre, link_key(), l);
            }
            let touches = contains_id(port_ids, l.output_port_id) || contains_id(port_ids, l.input_port_id);
            assert(touches == !keep(l));
            if !touches {
                let ghost before = kept@;
                kept.push(l);
                proof {
                    lemma_id_table_push(before, link_key(), l);
                    assert(keep_values(id_table(pre, link_key()).insert(l.id, l), keep) =~= keep_values(id_table(pre, link_key()), keep).insert(l.id, l));
                    assert forall|id: ObjectId| #[trigger] removed@.contains(id) <==> (id_table(all.take(i + 1), link_key()).contains_key(id)
                        && !keep(id_table(all.take(i + 1), link_key())[id])) by {
                        if id == l.id {
                            assert(!id_table(pre, link_key()).contains_key(id));
                        }
                    }
                }
            } else {
                let ghost before = removed@;
                proof {
                    if before.contains(l.id) {
                        assert(id_table(pre, link_key()).contains_key(l.id));
                    }
                    assert(!before.contains(l.id));
                }
                removed.push(l.id);
                proof {
                    assert forall|a: int, b: int| 0 <= a < removed@.len() && 0 <= b < removed@.len() && a != b implies removed@[a] != removed@[b] by {
                        if a == before.len() {
                            assert(removed@[b] == before[b]);
                            assert(before.contains(before[b]));
                        } else if b == before.len() {
                            assert(removed@[a] == before[a]);
                            assert(before.contains(before[a]));
                        } else {
                            assert(removed@[a] == before[a] && removed@[b] == before[b]);
                        }
                    }
                    assert(keep_values(id_table(pre, link_key()).insert(l.id, l), keep) =~= keep_values(id_table(pre, link_key()), keep));
                    assert forall|id: ObjectId| #[trigger] removed@.contains(id) <==> (id_table(all.take(i + 1), link_key()).contains_key(id)
                        && !keep(id_table(all.take(i + 1), link_key())[id])) by {
                        if id != l.id {
                            if removed@.contains(id) {
                                let k = choose|k: int| 0 <= k < removed@.len() && removed@[k] == id;
                                assert(k < before.len());
                                assert(before.contains(id));
                            }
                            if before.contains(id) {
                                let k = choose|k: int| 0 <= k < before.len() && before[k] == id;
                                assert(removed@[k] == id);
                            }
                        } else {
                            assert(removed@[before.len() as int] == id);
                        }
                    }
                }
            }
            i = i + 1;
            proof {
                assert(rest@ =~= all.subrange(i as int, n as int));
            }
        }
        proof {
            assert(all.take(n as int) =~= all);
        }
        self.links = kept;
        removed
    }

    /// Remove the links that start or end at port `port_id` and return their
    /// ids; the counter moves only if some link was removed.
    pub fn cleanup_port(&mut self, port_id: ObjectId) -> (r: Vec<ObjectId>)
        requires
            old(self).wf(),
        ensures
            final(self).wf(),
            final(self)@.links == keep_values(old(self)@.links, |l: Link| l.output_port_id != port_id && l.input_port_id != port_id),
            forall|id: ObjectId| #[trigger] r@.contains(id) <==> (old(self)@.links.contains_key(id)
                && (old(self)@.links[id].output_port_id == port_id || old(self)@.links[id].input_port_id == port_id)),
            r@.no_duplicates(),
            final(self)@.nodes == old(self)@.nodes,
            final(self)@.ports == old(self)@.ports,
            final(self)@.change_counter == if r@.len() > 0 {
                bumped(old(self)@.change_counter)
            } else {
                old(self)@.change_counter
            },
    {
        let mut ids: Vec<ObjectId> = Vec::new();
        ids.push(port_id);
        proof {
            assert forall|x: ObjectId| #[trigger] ids@.contains(x) <==> x == port_id by {
                if x == port_id {
                    assert(ids@[0] == x);
                }
            }
        }
        let removed = self.retain_links_away_from(&ids);
        assert(keep_values(old(self)@.links, |l: Link| !link_touches(l, ids@)) =~= keep_values(old(self)@.links, |l: Link| l.output_port_id != port_id && l.input_port_id != port_id));
        if removed.len() > 0 {
            self.mark_changed();
        }
        removed
    }

    /// Remove the ports of `node_id` and every link that starts or ends at one
    /// of them; returns the ids of the removed links. The counter moves.
    pub fn cleanup_node(&mut self, node_id: ObjectId) -> (r: Vec<ObjectId>)
        requires
            old(self).wf(),
        ensures
            final(self).wf(),
            final(self)@.ports == keep_values(old(self)@.ports, |p: PortView| p.node_id != node_id),
            final(self)@.links == keep_values(old(self)@.links, |l: Link| !link_touches_node(l, old(self)@.ports, node_id)),
            forall|id: ObjectId| #[trigger] r@.contains(id) <==> (old(self)@.links.contains_key(id)
                && link_touches_node(old(self)@.links[id], old(self)@.ports, node_id)),
            r@.no_duplicates(),
            final(self)@.nodes == old(self)@.nodes,
            final(self)@.change_counter == bumped(old(self)@.change_counter),
    {
        let ports = self.collect_ports(node_id, None, None);
        let mut port_ids: Vec<ObjectId> = Vec::new();
        let mut i: usize = 0;
        while i < ports.len()
            invariant
                0 <= i <= ports@.len(),
                port_ids@ == port_views(ports@).take(i as int).map_values(|p: PortView| p.id),
            decreases ports@.len() - i,
        {
            port_ids.push(ports[i].id);
            i = i + 1;
            proof {
                assert(port_ids@ =~= port_views(ports@).take(i as int).map_values(|p: PortView| p.id));
            }
        }
        let ghost old_ports = old(self)@.ports;
        proof {
            let pv = port_views(ports@);
            assert(pv.take(ports@.len() as int) =~= pv);
            assert forall|x: ObjectId| #[trigger] port_ids@.contains(x) <==> (old_ports.contains_key(x) && old_ports[x].node_id == node_id) by {
                let sel = keep_values(old_ports, |p: PortView| port_selected(p, node_id, None, opt_str_view(None)));
                if port_ids@.contains(x) {
                    let k = choose|k: int| 0 <= k < port_ids@.len() && port_ids@[k] == x;
                    assert(pv[k].id == x);
                    lemma_id_table_at(pv, port_key(), k);
                }
                if old_ports.contains_key(x) && old_ports[x].node_id == node_id {
                    assert(sel.contains_key(x));
                    let k = lemma_id_table_has(pv, port_key(), x);
                    assert(port_ids@[k] == x);
                }
            }
        }
        let removed = self.retain_links_away_from(&port_ids);
        proof {
            assert forall|l: Link| #[trigger] link_touches(l, port_ids@) == link_touches_node(l, old_ports, node_id) by {}
            assert(keep_values(old(self)@.links, |l: Link| !link_touches(l, port_ids@)) =~= keep_values(old(self)@.links, |l: Link| !link_touches_node(l, old_ports, node_id)));
        }
        self.retain_ports_not_of(node_id);
        self.mark_changed();
        removed
    }

    /// Remove the ports of `node_id`.
    fn retain_ports_not_of(&mut self, node_id: ObjectId)
        requires
            old(self).wf(),
        ensures
            final(self).wf(),
            final(self)@.ports == keep_values(old(self)@.ports, |p: PortView| p.node_id != node_id),
            final(self)@.nodes == old(self)@.nodes,
            final(self)@.links == old(self)@.links,
            final(self)@.change_counter == old(self)@.change_counter,
    {
        let ghost keep = |p: PortView| p.node_id != node_id;
        let mut rest: Vec<Port> = Vec::new();
        std::mem::swap(&mut rest, &mut self.ports);
        let ghost all = port_views(rest@);
        let ghost orig = rest@;
        let n = rest.len();
        let mut kept: Vec<Port> = Vec::new();
        let mut i: usize = 0;
        proof {
            assert(id_table(all.take(0), port_key()) =~= Map::empty());
            assert(id_table(port_views(kept@), port_key()) =~= Map::empty());
            assert(keep_values(Map::<ObjectId, PortView>::empty(), keep) =~= Map::empty());
        }
        while i < n
            invariant
                n == orig.len(),
                all == port_views(orig),
                ids_distinct(all, port_key()),
                0 <= i <= n,
                rest@ == orig.subrange(i as int, n as int),
                forall|p: PortView| #[trigger] keep(p) == (p.node_id != node_id),
                ids_distinct(port_views(kept@), port_key()),
                id_table(port_views(kept@), port_key()) == keep_values(id_table(all.take(i as int), port_key()), keep),
                self.nodes == old(self).nodes,
                self.links == old(self).links,
                self.change_counter == old(self).change_counter,
            decreases n - i,
        {
            let p = rest.remove(0);
            let ghost pv = p@;
            let ghost pre = all.take(i as int);
            proof {
                assert(p == orig[i as int]);
                assert(pv == all[i as int]);
                assert(all.take(i + 1) =~= pre.push(pv));
                assert forall|a: int, b: int| 0 <= a < pre.len() && 0 <= b < pre.len() && a != b implies (port_key())(pre[a]) != (port_key())(pre[b]) by {
                    assert(pre[a] == all[a] && pre[b] == all[b]);
                }
                assert forall|a: int| 0 <= a < pre.len() implies (port_key())(pre[a]) != pv.id by {
                    assert(pre[a] == all[a]);
                }
                lemma_id_table_absent(pre, port_key(), pv.id);
                lemma_id_table_push(pre, port_key(), pv);
            }
            if p.node_id != node_id {
                let ghost before = port_views(kept@);
                kept.push(p);
                proof {
                    assert(port_views(kept@) =~= before.push(pv));
                    lemma_id_table_push(before, port_key(), pv);
                    assert(keep_values(id_table(pre, port_key()).insert(pv.id, pv), keep) =~= keep_values(id_table(pre, port_key()), keep).insert(pv.id, pv));
                }
            } else {
                proof {
                    assert(keep_values(id_table(pre, port_key()).insert(pv.id, pv), keep) =~= keep_values(id_table(pre, port_key()), keep));
                }
            }
            i = i + 1;
            proof {
                assert(rest@ =~= orig.subrange(i as int, n as int));
            }
        }
        proof {
            assert(all.take(n as int) =~= all);
        }
        self.ports = kept;
    }

    /// The port groups of bridge node `node_id`: each group of one of its
    /// ports, with the device name derived from a port of that group (the
    /// port's alias up to its first ':', or the group name without alias).
    pub fn get_bridge_port_groups(&self, node_id: ObjectId) -> (r: PortGroups)
        requires
            self.wf(),
        ensures
            r.wf(),
            forall|g: Seq<char>| #[trigger] r@.contains_key(g) <==> exists|id: ObjectId| #[trigger] self@.ports.contains_key(id)
                && self@.ports[id].node_id == node_id && self@.ports[id].port_group == Some(g),
            forall|g: Seq<char>| #[trigger] r@.contains_key(g) ==> exists|id: ObjectId| #[trigger] self@.ports.contains_key(id)
                && self@.ports[id].node_id == node_id && self@.ports[id].port_group == Some(g)
                && r@[g] == group_device_name(self@.ports[id], g),
    {
        let ghost pv = port_views(self.ports@);
        let mut groups = PortGroups::new();
        let mut i: usize = 0;
        while i < self.ports.len()
            invariant
                self.wf(),
                pv == port_views(self.ports@),
                0 <= i <= pv.len(),
                groups.wf(),
                forall|g: Seq<char>| #[trigger] groups@.contains_key(g) <==> exists|k: int| 0 <= k < i && #[trigger] pv[k].node_id == node_id && pv[k].port_group == Some(g),
                forall|g: Seq<char>| #[trigger] groups@.contains_key(g) ==> exists|k: int| 0 <= k < i && #[trigger] pv[k].node_id == node_id && pv[k].port_group == Some(g) && groups@[g] == group_device_name(pv[k], g),
            decreases pv.len() - i,
        {
            let port = &self.ports[i];
            assert(port@ == pv[i as int]);
            if port.node_id == node_id {
                if let Some(group) = &port.port_group {
                    let device = match &port.port_alias {
                        Some(alias) => before_colon(alias.as_str()),
                        None => group.clone(),
                    };
                    let ghost g = group@;
                    assert(device@ == group_device_name(pv[i as int], g));
                    let ghost before = groups@;
                    groups.insert_if_absent(group.clone(), device);
                    proof {
                        assert forall|h: Seq<char>| #[trigger] groups@.contains_key(h) <==> exists|k: int| 0 <= k < i + 1 && #[trigger] pv[k].node_id == node_id && pv[k].port_group == Some(h) by {
                            if h == g {
                                assert(pv[i as int].node_id == node_id && pv[i as int].port_group == Some(h));
                            } else if exists|k: int| 0 <= k < i + 1 && #[trigger] pv[k].node_id == node_id && pv[k].port_group == Some(h) {
                                let k = choose|k: int| 0 <= k < i + 1 && #[trigger] pv[k].node_id == node_id && pv[k].port_group == Some(h);
                                assert(k < i);
                            }
                        }
                        assert forall|h: Seq<char>| #[trigger] groups@.contains_key(h) implies exists|k: int| 0 <= k < i + 1 && #[trigger] pv[k].node_id == node_id && pv[k].port_group == Some(h) && groups@[h] == group_device_name(pv[k], h) by {
                            if before.contains_key(h) {
                                let k = choose|k: int| 0 <= k < i && #[trigger] pv[k].node_id == node_id && pv[k].port_group == Some(h) && before[h] == group_device_name(pv[k], h);
                                assert(groups@[h] == before[h]);
                            } else {
                                assert(h == g);
                                assert(pv[i as int].node_id == node_id && pv[i as int].port_group == Some(h) && groups@[h] == group_device_name(pv[i as int], h));
                            }
                        }
                    }
                } else {
                    proof {
                        assert forall|h: Seq<char>| #[trigger] groups@.contains_key(h) <==> exists|k: int| 0 <= k < i + 1 && #[trigger] pv[k].node_id == node_id && pv[k].port_group == Some(h) by {
                            if exists|k: int| 0 <= k < i + 1 && #[trigger] pv[k].node_id == node_id && pv[k].port_group == Some(h) {
                                let k = choose|k: int| 0 <= k < i + 1 && #[trigger] pv[k].node_id == node_id && pv[k].port_group == Some(h);
                                assert(k < i);
                            }
                        }
                    }
                }
            } else {
                proof {
                    assert forall|h: Seq<char>| #[trigger] groups@.contains_key(h) <==> exists|k: int| 0 <= k < i + 1 && #[trigger] pv[k].node_id == node_id && pv[k].port_group == Some(h) by {
                        if exists|k: int| 0 <= k < i + 1 && #[trigger] pv[k].node_id == node_id && pv[k].port_group == Some(h) {
                            let k = choose|k: int| 0 <= k < i + 1 && #[trigger] pv[k].node_id == node_id && pv[k].port_group == Some(h);
                            assert(k < i);
                        }
                    }
                }
            }
            i = i + 1;
        }
        proof {
            assert forall|g: Seq<char>| #[trigger] groups@.contains_key(g) <==> exists|id: ObjectId| #[trigger] self@.ports.contains_key(id)
                && self@.ports[id].node_id == node_id && self@.ports[id].port_group == Some(g) by {
                if groups@.contains_key(g) {
                    let k = choose|k: int| 0 <= k < pv.len() && #[trigger] pv[k].node_id == node_id && pv[k].port_group == Some(g);
                    lemma_id_table_at(pv, port_key(), k);
                    assert(self@.ports.contains_key(pv[k].id));
                }
                if exists|id: ObjectId| #[trigger] self@.ports.contains_key(id) && self@.ports[id].node_id == node_id && self@.ports[id].port_group == Some(g) {
                    let id = choose|id: ObjectId| #[trigger] self@.ports.contains_key(id) && self@.ports[id].node_id == node_id && self@.ports[id].port_group == Some(g);
                    let k = lemma_id_table_has(pv, port_key(), id);
                    assert(pv[k].node_id == node_id && pv[k].port_group == Some(g));
                }
            }
            assert forall|g: Seq<char>| #[trigger] groups@.contains_key(g) implies exists|id: ObjectId| #[trigger] self@.ports.contains_key(id)
                && self@.ports[id].node_id == node_id && self@.ports[id].port_group == Some(g)
                && groups@[g] == group_device_name(self@.ports[id], g) by {
                let k = choose|k: int| 0 <= k < pv.len() && #[trigger] pv[k].node_id == node_id && pv[k].port_group == Some(g) && groups@[g] == group_device_name(pv[k], g);
                lemma_id_table_at(pv, port_key(), k);
                assert(self@.ports.contains_key(pv[k].id));
            }
        }
        groups
    }

    /// Every node, port and link is stored under its own id.
    pub proof fn lemma_keys_are_ids(&self)
        requires
            self.wf(),
        ensures
            forall|id: ObjectId| #[trigger] self@.nodes.contains_key(id) ==> self@.nodes[id].id == id,
            forall|id: ObjectId| #[trigger] self@.ports.contains_key(id) ==> self@.ports[id].id == id,
            forall|id: ObjectId| #[trigger] self@.links.contains_key(id) ==> self@.links[id].id == id,
    {
        assert forall|id: ObjectId| #[trigger] self@.nodes.contains_key(id) implies self@.nodes[id].id == id by {
            let k = lemma_id_table_has(node_views(self.nodes@), node_key(), id);
        }
        assert forall|id: ObjectId| #[trigger] self@.ports.contains_key(id) implies self@.ports[id].id == id by {
            let k = lemma_id_table_has(port_views(self.ports@), port_key(), id);
        }
        assert forall|id: ObjectId| #[trigger] self@.links.contains_key(id) implies self@.links[id].id == id by {
            let k = lemma_id_table_has(self.links@, link_key(), id);
        }
    }
}

/// Cleaning up after a node detaches it: none of the ports left belongs to
/// it, and none of the links left touches one of its ports.
pub proof fn law_cleanup_node_detaches(ports: Map<ObjectId, PortView>, links: Map<ObjectId, Link>, node_id: ObjectId)
    ensures
        ({
            let ports2 = keep_values(ports, |p: PortView| p.node_id != node_id);
            let links2 = keep_values(links, |l: Link| !link_touches_node(l, ports, node_id));
            &&& forall|k: ObjectId| #[trigger] ports2.contains_key(k) ==> ports2[k].node_id != node_id
            &&& forall|k: ObjectId| #[trigger] links2.contains_key(k) ==> !link_touches_node(links2[k], ports, node_id)
            &&& forall|k: ObjectId| #[trigger] ports.contains_key(k) && ports[k].node_id != node_id ==> ports2.contains_key(k) && ports2[k] == ports[k]
        }),
{
}

} // verus!
