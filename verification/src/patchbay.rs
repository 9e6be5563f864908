//! The patchbay: applies auto-connect rules to the graph, and learns rules
//! from the links the user makes and removes.
use vstd::prelude::*;
use crate::graph_state::{link_key, node_key, node_views, GraphState, GraphView};
use crate::id_table::{id_table, ids_distinct, keep_values, lemma_id_table_at, lemma_id_table_has};
use crate::pipewire_types::{
    node_display_name, node_type_has_inputs, node_type_has_outputs, Link, MediaType, Node,
    NodeType, NodeView, ObjectId, Port, PortDirection, PortView, PwCommand,
};
use crate::port_order::{port_key, port_views};
use crate::glob::{law_pattern_matches_itself, pattern_matches, pattern_matches_spec};
use crate::rules::{type_filter_passes, 
    port_mapping_views, rule_matches_source, rule_matches_target, AutoConnectRule, PortMapping,
    RuleView,
};
use crate::search::{first_index, lemma_first_index_at, lemma_first_index_none, lemma_first_index_props};
use crate::text::str_eq;

verus! {

/// The views of a sequence of rules.
pub open spec fn rule_views(s: Seq<AutoConnectRule>) -> Seq<RuleView> {
    s.map_values(|r: AutoConnectRule| r@)
}

/// Video nodes are never routed by the patchbay.
pub open spec fn is_routable(n: NodeView) -> bool {
    n.media_type != Some(MediaType::Video)
}

pub open spec fn opt_has_inputs(t: Option<NodeType>) -> bool {
    match t {
        Some(x) => node_type_has_inputs(x),
        None => false,
    }
}

pub open spec fn opt_has_outputs(t: Option<NodeType>) -> bool {
    match t {
        Some(x) => node_type_has_outputs(x),
        None => false,
    }
}

pub open spec fn index_or_zero(x: Option<u32>) -> u32 {
    match x {
        Some(v) => v,
        None => 0,
    }
}

pub open spec fn same_channel(c: Option<Seq<char>>) -> spec_fn(PortView) -> bool {
    |p: PortView| p.channel == c
}

pub open spec fn same_port_name(name: Seq<char>) -> spec_fn(PortView) -> bool {
    |p: PortView| p.name == name
}

pub open spec fn same_physical_index(i: u32) -> spec_fn(PortView) -> bool {
    |p: PortView| index_or_zero(p.physical_index) == i
}

pub open spec fn ready_node_with_id(id: ObjectId) -> spec_fn(NodeView) -> bool {
    |n: NodeView| n.id == id && n.ready
}

/// Whether a node can be the target a rule connects a source (other than `exclude`) to.
pub open spec fn candidate_target(r: RuleView, exclude: ObjectId) -> spec_fn(NodeView) -> bool {
    |n: NodeView|
        n.id != exclude && n.ready && opt_has_inputs(n.node_type) && rule_matches_target(
            r,
            node_display_name(n),
            n.node_type,
            n.id,
        )
}

/// The target port that a source port is wired to without explicit port
/// mappings: the first with the same channel, else the first with the same
/// name, else the first with the same physical index (absent counts as 0),
/// else the first port.
pub open spec fn matching_port_index(src: PortView, ts: Seq<PortView>) -> Option<int> {
    let by_channel = if src.channel is Some {
        first_index(ts, same_channel(src.channel))
    } else {
        None
    };
    let by_name = first_index(ts, same_port_name(src.name));
    let by_index = first_index(ts, same_physical_index(index_or_zero(src.physical_index)));
    if by_channel is Some {
        by_channel
    } else if by_name is Some {
        by_name
    } else if by_index is Some {
        by_index
    } else if ts.len() > 0 {
        Some(0)
    } else {
        None
    }
}

/// The node a rule's source is connected to: the rule's target node if it
/// is present, ready, accepts input and is not the source; else the first
/// other ready node with inputs that the rule's target matches.
pub open spec fn matching_target_index(r: RuleView, ns: Seq<NodeView>, exclude: ObjectId) -> Option<int> {
    let by_id = target_by_id(r, ns, exclude);
    if by_id is Some {
        by_id
    } else {
        first_index(ns, candidate_target(r, exclude))
    }
}

/// The rule's target node, if it is present, ready, accepts input and is not `exclude`.
pub open spec fn target_by_id(r: RuleView, ns: Seq<NodeView>, exclude: ObjectId) -> Option<int> {
    match r.target_node_id {
        Some(tid) => if tid != exclude {
            match first_index(ns, ready_node_with_id(tid)) {
                Some(i) => if opt_has_inputs(ns[i].node_type) {
                    Some(i)
                } else {
                    None
                },
                None => None,
            }
        } else {
            None
        },
        None => None,
    }
}

/// Whether a rule allows a link between these nodes and ports: it is enabled,
/// matches both nodes, and has either no port mappings or this port pair.
pub open spec fn link_authorized_by(
    r: RuleView,
    src: NodeView,
    tgt: NodeView,
    out_port: Option<PortView>,
    in_port: Option<PortView>,
) -> bool {
    &&& r.enabled
    &&& rule_matches_source(r, node_display_name(src), src.node_type)
    &&& rule_matches_target(r, node_display_name(tgt), tgt.node_type, tgt.id)
    &&& (r.port_mappings.len() == 0 || match (out_port, in_port) {
        (Some(o), Some(i)) => r.port_mappings.contains((o.name, i.name)),
        _ => false,
    })
}

/// Whether the patchbay disconnects a link: both its nodes are known and
/// routable, some enabled rule claims its source or its target, and no rule
/// authorizes it.
pub open spec fn should_remove(rules: Seq<RuleView>, g: GraphView, l: Link) -> bool {
    &&& g.nodes.contains_key(l.output_node_id)
    &&& g.nodes.contains_key(l.input_node_id)
    &&& {
        let src = g.nodes[l.output_node_id];
        let tgt = g.nodes[l.input_node_id];
        let out_port = g.ports.get(l.output_port_id);
        let in_port = g.ports.get(l.input_port_id);
        &&& is_routable(src)
        &&& is_routable(tgt)
        &&& ((exists|i: int| 0 <= i < rules.len() && rules[i].enabled && rule_matches_source(#[trigger] rules[i], node_display_name(src), src.node_type))
            || (exists|i: int| 0 <= i < rules.len() && rules[i].enabled && rule_matches_target(#[trigger] rules[i], node_display_name(tgt), tgt.node_type, tgt.id)))
        &&& !(exists|i: int| 0 <= i < rules.len() && link_authorized_by(#[trigger] rules[i], src, tgt, out_port, in_port))
    }
}


/// A rule that lists port pairs allows only those: it authorizes a link
/// only if both its ports are known and their names form a listed pair.
pub proof fn law_mapped_rule_allows_listed_pairs(
    r: RuleView,
    src: NodeView,
    tgt: NodeView,
    out_port: Option<PortView>,
    in_port: Option<PortView>,
)
    requires
        r.port_mappings.len() > 0,
        link_authorized_by(r, src, tgt, out_port, in_port),
    ensures
        out_port is Some,
        in_port is Some,
        r.port_mappings.contains((out_port->0.name, in_port->0.name)),
{
}

/// A link between two known routable nodes, the source of which an enabled
/// rule claims, is disconnected when every rule lists port pairs and none
/// lists the link's pair of port names.
pub proof fn law_unlisted_pair_removed(rules: Seq<RuleView>, g: GraphView, l: Link, k: int)
    requires
        g.nodes.contains_key(l.output_node_id),
        g.nodes.contains_key(l.input_node_id),
        g.ports.contains_key(l.output_port_id),
        g.ports.contains_key(l.input_port_id),
        is_routable(g.nodes[l.output_node_id]),
        is_routable(g.nodes[l.input_node_id]),
        0 <= k < rules.len(),
        rules[k].enabled,
        rule_matches_source(rules[k], node_display_name(g.nodes[l.output_node_id]), g.nodes[l.output_node_id].node_type),
        forall|i: int| 0 <= i < rules.len() ==> (#[trigger] rules[i]).port_mappings.len() > 0
            && !rules[i].port_mappings.contains((g.ports[l.output_port_id].name, g.ports[l.input_port_id].name)),
    ensures
        should_remove(rules, g, l),
{
    let src = g.nodes[l.output_node_id];
    let tgt = g.nodes[l.input_node_id];
    let out_port = g.ports.get(l.output_port_id);
    let in_port = g.ports.get(l.input_port_id);
    assert(rules[k].enabled && rule_matches_source(rules[k], node_display_name(src), src.node_type));
    assert forall|i: int| 0 <= i < rules.len() implies !link_authorized_by(#[trigger] rules[i], src, tgt, out_port, in_port) by {
        if link_authorized_by(rules[i], src, tgt, out_port, in_port) {
            law_mapped_rule_allows_listed_pairs(rules[i], src, tgt, out_port, in_port);
        }
    }
}

/// An enabled rule that matches both nodes of a link and lists no port
/// pairs allows the link, whatever its ports: it is never disconnected.
pub proof fn law_unmapped_rule_keeps_link(rules: Seq<RuleView>, g: GraphView, l: Link, k: int)
    requires
        g.nodes.contains_key(l.output_node_id),
        g.nodes.contains_key(l.input_node_id),
        0 <= k < rules.len(),
        rules[k].enabled,
        rules[k].port_mappings.len() == 0,
        rule_matches_source(rules[k], node_display_name(g.nodes[l.output_node_id]), g.nodes[l.output_node_id].node_type),
        rule_matches_target(
            rules[k],
            node_display_name(g.nodes[l.input_node_id]),
            g.nodes[l.input_node_id].node_type,
            g.nodes[l.input_node_id].id,
        ),
    ensures
        !should_remove(rules, g, l),
{
    assert(link_authorized_by(
        rules[k],
        g.nodes[l.output_node_id],
        g.nodes[l.input_node_id],
        g.ports.get(l.output_port_id),
        g.ports.get(l.input_port_id),
    ));
}

/// Whether the port-mapping list of a rule holds the pair.
fn rule_has_pair(rule: &AutoConnectRule, out_name: &String, in_name: &String) -> (r: bool)
    ensures
        r == rule@.port_mappings.contains((out_name@, in_name@)),
{
    let mut i: usize = 0;
    while i < rule.port_mappings.len()
        invariant
            0 <= i <= rule.port_mappings@.len(),
            forall|k: int| 0 <= k < i ==> rule.port_mappings@[k]@ != (out_name@, in_name@),
        decreases rule.port_mappings@.len() - i,
    {
        if rule.port_mappings[i].output_port_name == *out_name && rule.port_mappings[i].input_port_name == *in_name {
            assert(rule@.port_mappings[i as int] == (out_name@, in_name@));
            return true;
        }
        i = i + 1;
    }
    proof {
        if rule@.port_mappings.contains((out_name@, in_name@)) {
            let k = choose|k: int| 0 <= k < rule@.port_mappings.len() && rule@.port_mappings[k] == (out_name@, in_name@);
            assert(rule@.port_mappings[k] == rule.port_mappings@[k]@);
        }
    }
    false
}

pub open spec fn opt_port(r: Option<Port>) -> Option<PortView> {
    match r {
        Some(p) => Some(p@),
        None => None,
    }
}

fn authorizes(rule: &AutoConnectRule, src: &Node, tgt: &Node, out_port: &Option<Port>, in_port: &Option<Port>) -> (r: bool)
    ensures
        r == link_authorized_by(rule@, src@, tgt@, opt_port(*out_port), opt_port(*in_port)),
{
    if !rule.enabled {
        return false;
    }
    if !rule.matches_source(src.display_name(), src.node_type) {
        return false;
    }
    if !rule.matches_target(tgt.display_name(), tgt.node_type, tgt.id) {
        return false;
    }
    if rule.port_mappings.len() == 0 {
        return true;
    }
    match (out_port, in_port) {
        (Some(o), Some(i)) => rule_has_pair(rule, &o.name, &i.name),
        _ => false,
    }
}


pub open spec fn rule_has_id(id: Seq<char>) -> spec_fn(RuleView) -> bool {
    |r: RuleView| r.id == id
}

/// A rule that `learn_from_link` extends: same source pattern as the source's
/// name, and the target node is one of its targets.
pub open spec fn learn_match(src_name: Seq<char>, tgt: NodeView) -> spec_fn(RuleView) -> bool {
    |r: RuleView| r.source_pattern == src_name && rule_matches_target(r, node_display_name(tgt), tgt.node_type, tgt.id)
}

/// The rules `after` are `rs` having learned the port pair `pair` of a link
/// from `src` to `tgt`: the first rule whose source pattern is the source's
/// name and which targets `tgt` gains the pair; where there is none, a new
/// enabled rule for exactly these two nodes, with only this pair, is added
/// at the end.
pub open spec fn learned_from(rs: Seq<RuleView>, src: NodeView, tgt: NodeView, pair: (Seq<char>, Seq<char>), after: Seq<RuleView>) -> bool {
    match first_index(rs, learn_match(node_display_name(src), tgt)) {
        Some(i) => after == rs.update(i, with_pair(rs[i], pair)),
        None => {
            let nr = after.last();
            &&& after.len() == rs.len() + 1
            &&& after.drop_last() == rs
            &&& nr.source_pattern == node_display_name(src)
            &&& nr.source_node_type == src.node_type
            &&& nr.target_pattern == node_display_name(tgt)
            &&& nr.target_node_type == tgt.node_type
            &&& nr.target_node_id == Some(tgt.id)
            &&& nr.port_mappings == seq![pair]
            &&& nr.enabled
        },
    }
}

/// A rule with one more port pair, unless it already has it.
pub open spec fn with_pair(r: RuleView, pair: (Seq<char>, Seq<char>)) -> RuleView {
    if r.port_mappings.contains(pair) {
        r
    } else {
        RuleView { port_mappings: r.port_mappings.push(pair), ..r }
    }
}

/// A rule without a port pair, when the rule matches both nodes.
pub open spec fn unlearned(r: RuleView, src: NodeView, tgt: NodeView, pair: (Seq<char>, Seq<char>)) -> RuleView {
    if rule_matches_source(r, node_display_name(src), src.node_type) && rule_matches_target(
        r,
        node_display_name(tgt),
        tgt.node_type,
        tgt.id,
    ) {
        RuleView { port_mappings: r.port_mappings.filter(other_than(pair)), ..r }
    } else {
        r
    }
}

pub open spec fn other_than(pair: (Seq<char>, Seq<char>)) -> spec_fn((Seq<char>, Seq<char>)) -> bool {
    |m: (Seq<char>, Seq<char>)| m != pair
}

pub open spec fn has_mappings(r: RuleView) -> bool {
    r.port_mappings.len() > 0
}


/// The port mappings of a rule without the given pair.
fn mappings_without(list: Vec<PortMapping>, out_name: &String, in_name: &String) -> (r: Vec<PortMapping>)
    ensures
        port_mapping_views(r@) == port_mapping_views(list@).filter(other_than((out_name@, in_name@))),
{
    let ghost pair = (out_name@, in_name@);
    let ghost pred = other_than(pair);
    let ghost all = list@;
    let ghost alls = port_mapping_views(all);
    let n = list.len();
    let mut rest = list;
    let mut kept: Vec<PortMapping> = Vec::new();
    let mut i: usize = 0;
    proof {
        assert(port_mapping_views(kept@) =~= alls.take(0).filter(pred));
    }
    while i < n
        invariant
            n == all.len(),
            alls == port_mapping_views(all),
            0 <= i <= n,
            rest@ == all.subrange(i as int, n as int),
            port_mapping_views(kept@) == alls.take(i as int).filter(pred),
            pred == other_than(pair),
            pair == (out_name@, in_name@),
        decreases n - i,
    {
        let m = rest.remove(0);
        proof {
            assert(m == all[i as int]);
            assert(alls.take(i + 1) =~= alls.take(i as int).push(m@));
            alls.take(i as int).lemma_filter_push(m@, pred);
        }
        if !(m.output_port_name == *out_name && m.input_port_name == *in_name) {
            let ghost before = port_mapping_views(kept@);
            let ghost mv = m@;
            kept.push(m);
            assert(port_mapping_views(kept@) =~= before.push(mv));
        }
        i = i + 1;
        proof {
            assert(rest@ =~= all.subrange(i as int, n as int));
        }
    }
    proof {
        assert(alls.take(n as int) =~= alls);
    }
    kept
}


/// Whether a link from port `o` to port `i` exists.
pub open spec fn link_exists(links: Map<ObjectId, Link>, o: ObjectId, i: ObjectId) -> bool {
    exists|id: ObjectId| #[trigger] links.contains_key(id) && links[id].output_port_id == o && links[id].input_port_id == i
}

/// Whether connecting port `o` to port `i` is what the rule at index `j` asks
/// for: the rule is enabled and matches the ready, routable source node
/// (which has outputs) owning output port `o`, and the ready target node
/// (which has inputs, and is another node) owning input port `i`; the two
/// ports are not linked yet; and the rule either has no port pairs or has
/// the pair of their names.
pub open spec fn connect_by_rule(rules: Seq<RuleView>, g: GraphView, j: int, o: ObjectId, i: ObjectId) -> bool {
    &&& 0 <= j < rules.len()
    &&& g.ports.contains_key(o)
    &&& g.ports.contains_key(i)
    &&& {
        let r = rules[j];
        let op = g.ports[o];
        let ip = g.ports[i];
        &&& r.enabled
        &&& op.direction == PortDirection::Output
        &&& ip.direction == PortDirection::Input
        &&& g.nodes.contains_key(op.node_id)
        &&& g.nodes.contains_key(ip.node_id)
        &&& op.node_id != ip.node_id
        &&& {
            let src = g.nodes[op.node_id];
            let tgt = g.nodes[ip.node_id];
            &&& src.ready
            &&& is_routable(src)
            &&& opt_has_outputs(src.node_type)
            &&& rule_matches_source(r, node_display_name(src), src.node_type)
            &&& tgt.ready
            &&& opt_has_inputs(tgt.node_type)
            &&& rule_matches_target(r, node_display_name(tgt), tgt.node_type, tgt.id)
        }
        &&& !link_exists(g.links, o, i)
        &&& (r.port_mappings.len() == 0 || r.port_mappings.contains((op.name, ip.name)))
    }
}

/// Whether some rule calls for connecting port `o` to port `i`.
pub open spec fn connect_called_for(rules: Seq<RuleView>, g: GraphView, o: ObjectId, i: ObjectId) -> bool {
    exists|j: int| #[trigger] connect_by_rule(rules, g, j, o, i)
}

/// Whether a command is one that the rules call for.
pub open spec fn command_called_for(rules: Seq<RuleView>, g: GraphView, c: PwCommand) -> bool {
    match c {
        PwCommand::Connect { output_port_id, input_port_id } => connect_called_for(rules, g, output_port_id, input_port_id),
        PwCommand::Disconnect { link_id } => g.links.contains_key(link_id) && should_remove(rules, g, g.links[link_id]),
        _ => false,
    }
}


/// A port that can be the output side of a connection made by rule `j`.
pub open spec fn source_port_ok(rules: Seq<RuleView>, g: GraphView, j: int, p: PortView) -> bool {
    &&& 0 <= j < rules.len()
    &&& g.ports.contains_key(p.id)
    &&& g.ports[p.id] == p
    &&& p.direction == PortDirection::Output
    &&& g.nodes.contains_key(p.node_id)
    &&& {
        let src = g.nodes[p.node_id];
        &&& rules[j].enabled
        &&& src.ready
        &&& is_routable(src)
        &&& opt_has_outputs(src.node_type)
        &&& rule_matches_source(rules[j], node_display_name(src), src.node_type)
    }
}

/// A port that can be the input side of a connection made by rule `j` from node `s`.
pub open spec fn target_port_ok(rules: Seq<RuleView>, g: GraphView, j: int, p: PortView, s: ObjectId) -> bool {
    &&& 0 <= j < rules.len()
    &&& g.ports.contains_key(p.id)
    &&& g.ports[p.id] == p
    &&& p.direction == PortDirection::Input
    &&& g.nodes.contains_key(p.node_id)
    &&& p.node_id != s
    &&& {
        let tgt = g.nodes[p.node_id];
        &&& tgt.ready
        &&& opt_has_inputs(tgt.node_type)
        &&& rule_matches_target(rules[j], node_display_name(tgt), tgt.node_type, tgt.id)
    }
}

/// Every command of the sequence is called for by the rules.
pub open spec fn all_called_for(rules: Seq<RuleView>, g: GraphView, cs: Seq<PwCommand>) -> bool {
    forall|k: int| 0 <= k < cs.len() ==> command_called_for(rules, g, #[trigger] cs[k])
}


/// A node that a rule whose target went stale may be pointed at instead.
pub open spec fn refresh_candidate(r: RuleView) -> spec_fn(NodeView) -> bool {
    |n: NodeView|
        n.ready && opt_has_inputs(n.node_type) && pattern_matches_spec(r.target_pattern, node_display_name(n))
            && (r.target_node_type is None || n.node_type == r.target_node_type)
}

/// Whether the rule's target node id still names a ready node matching the target pattern.
pub open spec fn target_still_valid(r: RuleView, g: GraphView, id: ObjectId) -> bool {
    g.nodes.contains_key(id) && g.nodes[id].ready && pattern_matches_spec(r.target_pattern, node_display_name(g.nodes[id]))
}

/// `new` is `old` after refreshing its target id: a rule whose target id is
/// stale gets the id of some ready node with inputs that matches its target
/// pattern and type, or no id when there is none; other rules stay as they are.
pub open spec fn refreshed_rule(old: RuleView, new: RuleView, g: GraphView) -> bool {
    match old.target_node_id {
        Some(id) => if target_still_valid(old, g, id) {
            new == old
        } else {
            &&& new == RuleView { target_node_id: new.target_node_id, ..old }
            &&& match new.target_node_id {
                Some(nid) => g.nodes.contains_key(nid) && refresh_candidate(old)(g.nodes[nid]),
                None => forall|nid: ObjectId| #[trigger] g.nodes.contains_key(nid) ==> !refresh_candidate(old)(g.nodes[nid]),
            }
        },
        None => new == old,
    }
}

/// Every rule of `new` is the refreshed rule of `old` at the same place.
pub open spec fn refreshed(old: Seq<RuleView>, new: Seq<RuleView>, g: GraphView) -> bool {
    &&& new.len() == old.len()
    &&& forall|i: int| 0 <= i < old.len() ==> refreshed_rule(#[trigger] old[i], new[i], g)
}

/// Some rule's target id changed.
pub open spec fn some_target_changed(old: Seq<RuleView>, new: Seq<RuleView>) -> bool {
    exists|i: int| 0 <= i < old.len() && #[trigger] new[i].target_node_id != old[i].target_node_id
}


/// The node chosen as a rule's target is another ready node with inputs that the rule targets.
pub proof fn lemma_matching_target(r: RuleView, ns: Seq<NodeView>, exclude: ObjectId)
    ensures
        matching_target_index(r, ns, exclude) matches Some(i) ==> {
            &&& 0 <= i < ns.len()
            &&& ns[i].id != exclude
            &&& ns[i].ready
            &&& opt_has_inputs(ns[i].node_type)
            &&& rule_matches_target(r, node_display_name(ns[i]), ns[i].node_type, ns[i].id)
        },
{
    if let Some(tid) = r.target_node_id {
        lemma_first_index_props(ns, ready_node_with_id(tid));
    }
    lemma_first_index_props(ns, candidate_target(r, exclude));
}


/// A link that `snapshot_current_connections` turns into a rule: its two
/// nodes and two ports are known, the nodes differ and both are routable.
pub open spec fn link_qualifies(g: GraphView, l: Link) -> bool {
    &&& g.nodes.contains_key(l.output_node_id)
    &&& g.nodes.contains_key(l.input_node_id)
    &&& g.ports.contains_key(l.output_port_id)
    &&& g.ports.contains_key(l.input_port_id)
    &&& l.output_node_id != l.input_node_id
    &&& is_routable(g.nodes[l.output_node_id])
    &&& is_routable(g.nodes[l.input_node_id])
}

/// What identifies the rule learned from a link: source name, target name,
/// target type and target id.
pub open spec fn link_rule_key(g: GraphView, l: Link) -> (Seq<char>, Seq<char>, Option<NodeType>, Option<ObjectId>) {
    let src = g.nodes[l.output_node_id];
    let tgt = g.nodes[l.input_node_id];
    (node_display_name(src), node_display_name(tgt), tgt.node_type, Some(tgt.id))
}

/// The port-name pair of a link.
pub open spec fn link_pair(g: GraphView, l: Link) -> (Seq<char>, Seq<char>) {
    (g.ports[l.output_port_id].name, g.ports[l.input_port_id].name)
}

/// The same identification for a rule.
pub open spec fn rule_key(r: RuleView) -> (Seq<char>, Seq<char>, Option<NodeType>, Option<ObjectId>) {
    (r.source_pattern, r.target_pattern, r.target_node_type, r.target_node_id)
}

/// The rules are those learned from the qualifying links among `links`: one
/// enabled rule per key, whose source type is that of a link with the key,
/// and whose port pairs are exactly the pairs of the links with the key.
pub open spec fn snapshot_of(g: GraphView, links: Seq<Link>, rules: Seq<RuleView>) -> bool {
    snapshot_upto(g, links, links.len() as int, rules)
}

/// [`snapshot_of`] for the first `n` links.
pub open spec fn snapshot_upto(g: GraphView, links: Seq<Link>, n: int, rules: Seq<RuleView>) -> bool {
    &&& keys_distinct(rules)
    &&& all_enabled(rules)
    &&& rules_witnessed(g, links, n, rules)
    &&& pairs_witnessed(g, links, n, rules)
    &&& links_covered(g, links, n, rules)
}

/// No two rules share a key.
#[verifier::opaque]
pub open spec fn keys_distinct(rules: Seq<RuleView>) -> bool {
    forall|a: int, b: int| 0 <= a < rules.len() && 0 <= b < rules.len() && a != b ==> rule_key(#[trigger] rules[a]) != rule_key(#[trigger] rules[b])
}

/// Every rule is enabled.
#[verifier::opaque]
pub open spec fn all_enabled(rules: Seq<RuleView>) -> bool {
    forall|a: int| 0 <= a < rules.len() ==> (#[trigger] rules[a]).enabled
}

/// Link `k` qualifies and gives the key and the source type of rule `r`.
#[verifier::opaque]
pub open spec fn link_gives_rule(g: GraphView, l: Link, r: RuleView) -> bool {
    &&& link_qualifies(g, l)
    &&& link_rule_key(g, l) == rule_key(r)
    &&& r.source_node_type == g.nodes[l.output_node_id].node_type
}

/// Link `l` qualifies, has the key of `r`, and its port pair is `p`.
#[verifier::opaque]
pub open spec fn link_gives_pair(g: GraphView, l: Link, r: RuleView, p: (Seq<char>, Seq<char>)) -> bool {
    &&& link_qualifies(g, l)
    &&& link_rule_key(g, l) == rule_key(r)
    &&& link_pair(g, l) == p
}

/// One of the first `n` links gives the key and source type of `r`.
pub open spec fn rule_from_links(g: GraphView, links: Seq<Link>, n: int, r: RuleView) -> bool {
    exists|k: int| 0 <= k < n && #[trigger] link_gives_rule(g, links[k], r)
}

/// One of the first `n` links has the key of `r` and the port pair `p`.
pub open spec fn pair_from_links(g: GraphView, links: Seq<Link>, n: int, r: RuleView, p: (Seq<char>, Seq<char>)) -> bool {
    exists|k: int| 0 <= k < n && #[trigger] link_gives_pair(g, links[k], r, p)
}

/// Each rule comes from one of the first `n` links.
#[verifier::opaque]
pub open spec fn rules_witnessed(g: GraphView, links: Seq<Link>, n: int, rules: Seq<RuleView>) -> bool {
    forall|a: int| 0 <= a < rules.len() ==> #[trigger] rule_from_links(g, links, n, rules[a])
}

/// Each port pair of a rule comes from one of the first `n` links.
#[verifier::opaque]
pub open spec fn pairs_witnessed(g: GraphView, links: Seq<Link>, n: int, rules: Seq<RuleView>) -> bool {
    forall|a: int, m: int| 0 <= a < rules.len() && 0 <= m < rules[a].port_mappings.len()
        ==> #[trigger] pair_from_links(g, links, n, rules[a], rules[a].port_mappings[m])
}

/// Rule `r` has the key of link `l` and carries its port pair.
#[verifier::opaque]
pub open spec fn rule_covers(g: GraphView, r: RuleView, l: Link) -> bool {
    rule_key(r) == link_rule_key(g, l) && r.port_mappings.contains(link_pair(g, l))
}

/// Some rule carries link `l`.
pub open spec fn link_carried(g: GraphView, rules: Seq<RuleView>, l: Link) -> bool {
    exists|a: int| 0 <= a < rules.len() && #[trigger] rule_covers(g, rules[a], l)
}

/// Each qualifying link among the first `n` is carried by a rule.
#[verifier::opaque]
pub open spec fn links_covered(g: GraphView, links: Seq<Link>, n: int, rules: Seq<RuleView>) -> bool {
    forall|k: int| 0 <= k < n && link_qualifies(g, links[k]) ==> #[trigger] link_carried(g, rules, links[k])
}

/// What a snapshot's rules are, spelled out: no two share a key (source
/// name, target name, target type, target id); each is enabled; each has
/// the key and source type of a qualifying link, and each of its port pairs
/// is the pair of a qualifying link with its key; and each qualifying link
/// is carried, with its port pair, by the rule of its key.
pub proof fn law_snapshot_rules(g: GraphView, links: Seq<Link>, rules: Seq<RuleView>)
    requires
        snapshot_of(g, links, rules),
    ensures
        forall|a: int, b: int| 0 <= a < rules.len() && 0 <= b < rules.len() && a != b
            ==> rule_key(#[trigger] rules[a]) != rule_key(#[trigger] rules[b]),
        forall|a: int| 0 <= a < rules.len() ==> (#[trigger] rules[a]).enabled,
        forall|a: int| #![trigger rules[a]] 0 <= a < rules.len() ==> exists|k: int| 0 <= k < links.len() && {
            &&& link_qualifies(g, #[trigger] links[k])
            &&& link_rule_key(g, links[k]) == rule_key(rules[a])
            &&& rules[a].source_node_type == g.nodes[links[k].output_node_id].node_type
        },
        forall|a: int, m: int| #![trigger rules[a].port_mappings[m]] 0 <= a < rules.len() && 0 <= m < rules[a].port_mappings.len()
            ==> exists|k: int| 0 <= k < links.len() && {
            &&& link_qualifies(g, #[trigger] links[k])
            &&& link_rule_key(g, links[k]) == rule_key(rules[a])
            &&& link_pair(g, links[k]) == rules[a].port_mappings[m]
        },
        forall|k: int| 0 <= k < links.len() && link_qualifies(g, #[trigger] links[k]) ==> exists|a: int|
            0 <= a < rules.len() && rule_key(#[trigger] rules[a]) == link_rule_key(g, links[k])
                && rules[a].port_mappings.contains(link_pair(g, links[k])),
{
    reveal(keys_distinct);
    reveal(all_enabled);
    reveal(rules_witnessed);
    reveal(pairs_witnessed);
    reveal(links_covered);
    reveal(link_gives_rule);
    reveal(link_gives_pair);
    reveal(rule_covers);
    assert forall|a: int| #![trigger rules[a]] 0 <= a < rules.len() implies exists|k: int| 0 <= k < links.len() && {
        &&& link_qualifies(g, #[trigger] links[k])
        &&& link_rule_key(g, links[k]) == rule_key(rules[a])
        &&& rules[a].source_node_type == g.nodes[links[k].output_node_id].node_type
    } by {
        assert(rule_from_links(g, links, links.len() as int, rules[a]));
        let k = choose|k: int| 0 <= k < links.len() && #[trigger] link_gives_rule(g, links[k], rules[a]);
        assert(link_qualifies(g, links[k]));
    }
    assert forall|a: int, m: int| #![trigger rules[a].port_mappings[m]] 0 <= a < rules.len() && 0 <= m < rules[a].port_mappings.len()
        implies exists|k: int| 0 <= k < links.len() && {
        &&& link_qualifies(g, #[trigger] links[k])
        &&& link_rule_key(g, links[k]) == rule_key(rules[a])
        &&& link_pair(g, links[k]) == rules[a].port_mappings[m]
    } by {
        assert(pair_from_links(g, links, links.len() as int, rules[a], rules[a].port_mappings[m]));
        let k = choose|k: int| 0 <= k < links.len() && #[trigger] link_gives_pair(g, links[k], rules[a], rules[a].port_mappings[m]);
        assert(link_qualifies(g, links[k]));
    }
    assert forall|k: int| 0 <= k < links.len() && link_qualifies(g, #[trigger] links[k]) implies exists|a: int|
        0 <= a < rules.len() && rule_key(#[trigger] rules[a]) == link_rule_key(g, links[k])
            && rules[a].port_mappings.contains(link_pair(g, links[k])) by {
        assert(link_carried(g, rules, links[k]));
        let a = choose|a: int| 0 <= a < rules.len() && #[trigger] rule_covers(g, rules[a], links[k]);
        assert(rule_covers(g, rules[a], links[k]));
    }
}

proof fn lemma_snapshot_empty(g: GraphView, links: Seq<Link>)
    ensures
        snapshot_upto(g, links, 0, Seq::<RuleView>::empty()),
{
    reveal(keys_distinct);
    reveal(all_enabled);
    reveal(rules_witnessed);
    reveal(pairs_witnessed);
    reveal(links_covered);
}

proof fn lemma_snapshot_skip(g: GraphView, links: Seq<Link>, i: int, rules: Seq<RuleView>)
    requires
        0 <= i < links.len(),
        snapshot_upto(g, links, i, rules),
        !link_qualifies(g, links[i]),
    ensures
        snapshot_upto(g, links, i + 1, rules),
{
    reveal(rules_witnessed);
    reveal(pairs_witnessed);
    reveal(links_covered);
    assert forall|a: int| 0 <= a < rules.len() implies #[trigger] rule_from_links(g, links, i + 1, rules[a]) by {
        assert(rule_from_links(g, links, i, rules[a]));
    }
    assert forall|a: int, m: int| 0 <= a < rules.len() && 0 <= m < rules[a].port_mappings.len()
        implies #[trigger] pair_from_links(g, links, i + 1, rules[a], rules[a].port_mappings[m]) by {
        assert(pair_from_links(g, links, i, rules[a], rules[a].port_mappings[m]));
    }
}

proof fn lemma_snapshot_new_rule(g: GraphView, links: Seq<Link>, i: int, rules: Seq<RuleView>, nr: RuleView)
    requires
        0 <= i < links.len(),
        snapshot_upto(g, links, i, rules),
        link_qualifies(g, links[i]),
        forall|a: int| 0 <= a < rules.len() ==> rule_key(#[trigger] rules[a]) != link_rule_key(g, links[i]),
        rule_key(nr) == link_rule_key(g, links[i]),
        nr.enabled,
        nr.source_node_type == g.nodes[links[i].output_node_id].node_type,
        nr.port_mappings == seq![link_pair(g, links[i])],
    ensures
        snapshot_upto(g, links, i + 1, rules.push(nr)),
{
    let r2 = rules.push(nr);
    let n = rules.len() as int;
    assert(keys_distinct(r2)) by {
        reveal(keys_distinct);
        assert forall|a: int, b: int| 0 <= a < r2.len() && 0 <= b < r2.len() && a != b implies rule_key(#[trigger] r2[a]) != rule_key(#[trigger] r2[b]) by {
            if a < n && b < n {
                assert(r2[a] == rules[a] && r2[b] == rules[b]);
            } else if a == n {
                assert(r2[b] == rules[b]);
            } else {
                assert(r2[a] == rules[a]);
            }
        }
    }
    assert(all_enabled(r2)) by {
        reveal(all_enabled);
        assert forall|a: int| 0 <= a < r2.len() implies (#[trigger] r2[a]).enabled by {
            if a < n {
                assert(r2[a] == rules[a]);
            }
        }
    }
    assert(rules_witnessed(g, links, i + 1, r2)) by {
        reveal(rules_witnessed);
        assert forall|a: int| 0 <= a < r2.len() implies #[trigger] rule_from_links(g, links, i + 1, r2[a]) by {
            if a < n {
                assert(r2[a] == rules[a]);
                assert(rule_from_links(g, links, i, rules[a]));
            } else {
                assert(link_gives_rule(g, links[i], r2[a])) by {
                    reveal(link_gives_rule);
                }
            }
        }
    }
    assert(pairs_witnessed(g, links, i + 1, r2)) by {
        reveal(pairs_witnessed);
        assert forall|a: int, m: int| 0 <= a < r2.len() && 0 <= m < r2[a].port_mappings.len()
            implies #[trigger] pair_from_links(g, links, i + 1, r2[a], r2[a].port_mappings[m]) by {
            if a < n {
                assert(r2[a] == rules[a]);
                assert(pair_from_links(g, links, i, rules[a], rules[a].port_mappings[m]));
            } else {
                assert(link_gives_pair(g, links[i], r2[a], r2[a].port_mappings[m])) by {
                    reveal(link_gives_pair);
                }
            }
        }
    }
    assert(links_covered(g, links, i + 1, r2)) by {
        reveal(links_covered);
        assert forall|k: int| 0 <= k < i + 1 && link_qualifies(g, links[k]) implies #[trigger] link_carried(g, r2, links[k]) by {
            if k < i {
                assert(link_carried(g, rules, links[k]));
                let a = choose|a: int| 0 <= a < rules.len() && #[trigger] rule_covers(g, rules[a], links[k]);
                assert(r2[a] == rules[a]);
            } else {
                assert(r2[n] == nr);
                assert(nr.port_mappings[0] == link_pair(g, links[i]));
                assert(rule_covers(g, r2[n], links[k])) by {
                    reveal(rule_covers);
                }
            }
        }
    }
}

proof fn lemma_snapshot_add_pair(g: GraphView, links: Seq<Link>, i: int, rules: Seq<RuleView>, a0: int, nr: RuleView)
    requires
        0 <= i < links.len(),
        snapshot_upto(g, links, i, rules),
        link_qualifies(g, links[i]),
        0 <= a0 < rules.len(),
        rule_key(rules[a0]) == link_rule_key(g, links[i]),
        nr == with_pair(rules[a0], link_pair(g, links[i])),
    ensures
        snapshot_upto(g, links, i + 1, rules.update(a0, nr)),
{
    let pair = link_pair(g, links[i]);
    let r2 = rules.update(a0, nr);
    let old_pm = rules[a0].port_mappings;
    assert(nr.port_mappings.contains(pair)) by {
        if !old_pm.contains(pair) {
            assert(nr.port_mappings[old_pm.len() as int] == pair);
        }
    }
    assert(keys_distinct(r2)) by {
        reveal(keys_distinct);
        assert forall|a: int, b: int| 0 <= a < r2.len() && 0 <= b < r2.len() && a != b implies rule_key(#[trigger] r2[a]) != rule_key(#[trigger] r2[b]) by {
            assert(rule_key(r2[a]) == rule_key(rules[a]));
            assert(rule_key(r2[b]) == rule_key(rules[b]));
        }
    }
    assert(all_enabled(r2)) by {
        reveal(all_enabled);
        assert forall|a: int| 0 <= a < r2.len() implies (#[trigger] r2[a]).enabled by {
            assert(r2[a].enabled == rules[a].enabled);
        }
    }
    assert(rules_witnessed(g, links, i + 1, r2)) by {
        reveal(rules_witnessed);
        assert forall|a: int| 0 <= a < r2.len() implies #[trigger] rule_from_links(g, links, i + 1, r2[a]) by {
            assert(rule_from_links(g, links, i, rules[a]));
            let k = choose|k: int| 0 <= k < i && #[trigger] link_gives_rule(g, links[k], rules[a]);
            assert(link_gives_rule(g, links[k], r2[a])) by {
                reveal(link_gives_rule);
            }
        }
    }
    assert(pairs_witnessed(g, links, i + 1, r2)) by {
        reveal(pairs_witnessed);
        assert forall|a: int, m: int| 0 <= a < r2.len() && 0 <= m < r2[a].port_mappings.len()
            implies #[trigger] pair_from_links(g, links, i + 1, r2[a], r2[a].port_mappings[m]) by {
            if a != a0 || m < old_pm.len() {
                assert(r2[a].port_mappings[m] == rules[a].port_mappings[m]);
                assert(pair_from_links(g, links, i, rules[a], rules[a].port_mappings[m]));
                let k = choose|k: int| 0 <= k < i && #[trigger] link_gives_pair(g, links[k], rules[a], rules[a].port_mappings[m]);
                assert(link_gives_pair(g, links[k], r2[a], r2[a].port_mappings[m])) by {
                    reveal(link_gives_pair);
                }
            } else {
                assert(r2[a].port_mappings[m] == pair);
                assert(link_gives_pair(g, links[i], r2[a], r2[a].port_mappings[m])) by {
                    reveal(link_gives_pair);
                }
            }
        }
    }
    assert(links_covered(g, links, i + 1, r2)) by {
        reveal(links_covered);
        assert forall|k: int| 0 <= k < i + 1 && link_qualifies(g, links[k]) implies #[trigger] link_carried(g, r2, links[k]) by {
            if k < i {
                assert(link_carried(g, rules, links[k]));
                let a = choose|a: int| 0 <= a < rules.len() && #[trigger] rule_covers(g, rules[a], links[k]);
                if a == a0 {
                    assert(rule_covers(g, r2[a], links[k])) by {
                        reveal(rule_covers);
                        let m = choose|m: int| 0 <= m < old_pm.len() && old_pm[m] == link_pair(g, links[k]);
                        assert(r2[a].port_mappings[m] == old_pm[m]);
                    }
                } else {
                    assert(r2[a] == rules[a]);
                }
            } else {
                assert(r2[a0] == nr);
                assert(rule_covers(g, r2[a0], links[k])) by {
                    reveal(rule_covers);
                }
            }
        }
    }
}

/// A link the user made stays: once the rules have learned it, the patchbay
/// does not remove it. This holds where the rule that learning extends (the
/// first whose source pattern is the source's name and which targets the
/// target) is enabled and does not filter out the source's type, and
/// always where learning adds a new rule.
pub proof fn law_learned_link_is_kept(rs: Seq<RuleView>, after: Seq<RuleView>, g: GraphView, l: Link)
    requires
        link_qualifies(g, l),
        learned_from(rs, g.nodes[l.output_node_id], g.nodes[l.input_node_id], link_pair(g, l), after),
        first_index(rs, learn_match(node_display_name(g.nodes[l.output_node_id]), g.nodes[l.input_node_id])) matches Some(i)
            ==> rs[i].enabled && type_filter_passes(rs[i].source_node_type, g.nodes[l.output_node_id].node_type),
    ensures
        !should_remove(after, g, l),
{
    let src = g.nodes[l.output_node_id];
    let tgt = g.nodes[l.input_node_id];
    let pair = link_pair(g, l);
    let out_port = g.ports.get(l.output_port_id);
    let in_port = g.ports.get(l.input_port_id);
    let sn = node_display_name(src);
    law_pattern_matches_itself(sn);
    lemma_first_index_props(rs, learn_match(sn, tgt));
    match first_index(rs, learn_match(sn, tgt)) {
        Some(i) => {
            let r = after[i];
            assert(r == with_pair(rs[i], pair));
            assert(r.port_mappings.contains(pair)) by {
                if !rs[i].port_mappings.contains(pair) {
                    assert(r.port_mappings[rs[i].port_mappings.len() as int] == pair);
                }
            }
            assert(link_authorized_by(after[i], src, tgt, out_port, in_port));
        },
        None => {
            let k = after.len() - 1;
            assert(after[k].port_mappings[0] == pair);
            assert(link_authorized_by(after[k], src, tgt, out_port, in_port));
        },
    }
}

/// A link the user removed is forgotten: after unlearning, no remaining rule
/// that matches both of its nodes holds its port pair.
pub proof fn law_unlearned_pair_is_gone(rs: Seq<RuleView>, src: NodeView, tgt: NodeView, pair: (Seq<char>, Seq<char>))
    ensures
        ({
            let mid = rs.map_values(|x: RuleView| unlearned(x, src, tgt, pair));
            let after = mid.filter(|x: RuleView| has_mappings(x));
            forall|k: int| #![trigger after[k]] 0 <= k < after.len()
                && rule_matches_source(after[k], node_display_name(src), src.node_type)
                && rule_matches_target(after[k], node_display_name(tgt), tgt.node_type, tgt.id)
                ==> !after[k].port_mappings.contains(pair)
        }),
{
    let mid = rs.map_values(|x: RuleView| unlearned(x, src, tgt, pair));
    let f = |x: RuleView| has_mappings(x);
    let after = mid.filter(f);
    assert forall|k: int| #![trigger after[k]] 0 <= k < after.len()
        && rule_matches_source(after[k], node_display_name(src), src.node_type)
        && rule_matches_target(after[k], node_display_name(tgt), tgt.node_type, tgt.id)
        implies !after[k].port_mappings.contains(pair) by {
        assert(after.contains(after[k]));
        mid.lemma_filter_contains_rev(f, after[k]);
        let j = choose|j: int| 0 <= j < mid.len() && mid[j] == after[k];
        let r = rs[j];
        assert(mid[j] == unlearned(r, src, tgt, pair));
        if rule_matches_source(r, node_display_name(src), src.node_type) && rule_matches_target(r, node_display_name(tgt), tgt.node_type, tgt.id) {
            let pm = r.port_mappings.filter(other_than(pair));
            assert(mid[j].port_mappings == pm);
            if pm.contains(pair) {
                let m = choose|m: int| 0 <= m < pm.len() && pm[m] == pair;
                r.port_mappings.lemma_filter_pred(other_than(pair), m);
            }
        }
    }
}

/// Applies auto-connect rules to the graph.
#[derive(Debug)]
pub struct PatchbayManager {
    rules: Vec<AutoConnectRule>,
    pub enabled: bool,
    pub rules_dirty: bool,
}

fn is_routable_node(node: &Node) -> (r: bool)
    ensures
        r == is_routable(node@),
{
    match node.media_type {
        Some(MediaType::Video) => false,
        _ => true,
    }
}

fn node_has_inputs(t: Option<NodeType>) -> (r: bool)
    ensures
        r == opt_has_inputs(t),
{
    match t {
        Some(x) => x.has_inputs(),
        None => false,
    }
}

fn node_has_outputs(t: Option<NodeType>) -> (r: bool)
    ensures
        r == opt_has_outputs(t),
{
    match t {
        Some(x) => x.has_outputs(),
        None => false,
    }
}

fn same_opt_string(a: &Option<String>, b: &Option<String>) -> (r: bool)
    ensures
        r == (crate::pipewire_types::opt_string_view(*a) == crate::pipewire_types::opt_string_view(*b)),
{
    match (a, b) {
        (Some(x), Some(y)) => *x == *y,
        (None, None) => true,
        _ => false,
    }
}

fn opt_index_or_zero(x: Option<u32>) -> (r: u32)
    ensures
        r == index_or_zero(x),
{
    match x {
        Some(v) => v,
        None => 0,
    }
}

/// The target port a source port is wired to without port mappings (see [`matching_port_index`]).
pub fn find_matching_port(source: &Port, targets: &[Port]) -> (r: Option<usize>)
    ensures
        match r {
            Some(i) => matching_port_index(source@, port_views(targets@)) == Some(i as int),
            None => matching_port_index(source@, port_views(targets@)) is None,
        },
{
    let ghost ts = port_views(targets@);
    if source.channel.is_some() {
        let mut i: usize = 0;
        while i < targets.len()
            invariant
                ts == port_views(targets@),
                source.channel is Some,
                0 <= i <= targets@.len(),
                forall|k: int| 0 <= k < i ==> !same_channel(source@.channel)(#[trigger] ts[k]),
            decreases targets@.len() - i,
        {
            if same_opt_string(&targets[i].channel, &source.channel) {
                proof {
                    lemma_first_index_at(ts, same_channel(source@.channel), i as int);
                }
                return Some(i);
            }
            i = i + 1;
        }
        proof {
            lemma_first_index_none(ts, same_channel(source@.channel));
        }
    }
    let mut i: usize = 0;
    while i < targets.len()
        invariant
            ts == port_views(targets@),
            0 <= i <= targets@.len(),
            source@.channel is Some ==> first_index(ts, same_channel(source@.channel)) is None,
            forall|k: int| 0 <= k < i ==> !same_port_name(source@.name)(#[trigger] ts[k]),
        decreases targets@.len() - i,
    {
        if str_eq(targets[i].name.as_str(), source.name.as_str()) {
            proof {
                lemma_first_index_at(ts, same_port_name(source@.name), i as int);
            }
            return Some(i);
        }
        i = i + 1;
    }
    proof {
        lemma_first_index_none(ts, same_port_name(source@.name));
    }
    let source_index = opt_index_or_zero(source.physical_index);
    let mut i: usize = 0;
    while i < targets.len()
        invariant
            ts == port_views(targets@),
            source_index == index_or_zero(source@.physical_index),
            0 <= i <= targets@.len(),
            source@.channel is Some ==> first_index(ts, same_channel(source@.channel)) is None,
            first_index(ts, same_port_name(source@.name)) is None,
            forall|k: int| 0 <= k < i ==> !same_physical_index(index_or_zero(source@.physical_index))(#[trigger] ts[k]),
        decreases targets@.len() - i,
    {
        if opt_index_or_zero(targets[i].physical_index) == source_index {
            proof {
                lemma_first_index_at(ts, same_physical_index(index_or_zero(source@.physical_index)), i as int);
            }
            return Some(i);
        }
        i = i + 1;
    }
    proof {
        lemma_first_index_none(ts, same_physical_index(index_or_zero(source@.physical_index)));
    }
    if targets.len() > 0 {
        Some(0)
    } else {
        None
    }
}

/// The first ready node with this id.
fn first_ready_with_id(nodes: &[Node], id: ObjectId) -> (r: Option<usize>)
    ensures
        match r {
            Some(i) => first_index(node_views(nodes@), ready_node_with_id(id)) == Some(i as int) && i < nodes@.len(),
            None => first_index(node_views(nodes@), ready_node_with_id(id)) is None,
        },
{
    let ghost ns = node_views(nodes@);
    let mut i: usize = 0;
    while i < nodes.len()
        invariant
            ns == node_views(nodes@),
            0 <= i <= nodes@.len(),
            forall|k: int| 0 <= k < i ==> !ready_node_with_id(id)(#[trigger] ns[k]),
        decreases nodes@.len() - i,
    {
        if nodes[i].id == id && nodes[i].ready {
            proof {
                lemma_first_index_at(ns, ready_node_with_id(id), i as int);
            }
            return Some(i);
        }
        i = i + 1;
    }
    proof {
        lemma_first_index_none(ns, ready_node_with_id(id));
    }
    None
}

/// The node a rule's source is connected to (see [`matching_target_index`]).
pub fn find_matching_target(rule: &AutoConnectRule, nodes: &[Node], exclude_node_id: ObjectId) -> (r: Option<usize>)
    ensures
        match r {
            Some(i) => matching_target_index(rule@, node_views(nodes@), exclude_node_id) == Some(i as int),
            None => matching_target_index(rule@, node_views(nodes@), exclude_node_id) is None,
        },
{
    let ghost ns = node_views(nodes@);
    if let Some(target_id) = rule.target_node_id {
        if target_id != exclude_node_id {
            if let Some(i) = first_ready_with_id(nodes, target_id) {
                if node_has_inputs(nodes[i].node_type) {
                    assert(ns[i as int] == nodes@[i as int]@);
                    return Some(i);
                }
                assert(ns[i as int] == nodes@[i as int]@);
            }
        }
    }
    let ghost q = candidate_target(rule@, exclude_node_id);
    let mut i: usize = 0;
    while i < nodes.len()
        invariant
            ns == node_views(nodes@),
            target_by_id(rule@, ns, exclude_node_id) is None,
            0 <= i <= nodes@.len(),
            forall|k: int| 0 <= k < i ==> !q(#[trigger] ns[k]),
            q == candidate_target(rule@, exclude_node_id),
        decreases nodes@.len() - i,
    {
        let n = &nodes[i];
        if n.id != exclude_node_id && n.ready && node_has_inputs(n.node_type) && rule.matches_target(
            n.display_name(),
            n.node_type,
            n.id,
        ) {
            proof {
                assert(q(ns[i as int]));
                lemma_first_index_at(ns, q, i as int);
            }
            return Some(i);
        }
        proof {
            assert(!q(ns[i as int]));
        }
        i = i + 1;
    }
    proof {
        lemma_first_index_none(ns, q);
    }
    None
}


impl PatchbayManager {
    /// The rules, in order.
    pub closed spec fn rules_view(&self) -> Seq<RuleView> {
        rule_views(self.rules@)
    }

    /// Whether the patchbay applies its rules.
    pub closed spec fn enabled_flag(&self) -> bool {
        self.enabled
    }

    /// Whether the rules changed since they were last saved.
    pub closed spec fn dirty_flag(&self) -> bool {
        self.rules_dirty
    }

    /// Whether an enabled rule has this node as a source.
    fn any_source_rule(&self, n: &Node) -> (r: bool)
        ensures
            r == exists|i: int| 0 <= i < self.rules_view().len() && self.rules_view()[i].enabled
                && rule_matches_source(#[trigger] self.rules_view()[i], node_display_name(n@), n@.node_type),
    {
        let ghost rs = self.rules_view();
        let mut i: usize = 0;
        while i < self.rules.len()
            invariant
                rs == self.rules_view(),
                0 <= i <= rs.len(),
                forall|k: int| 0 <= k < i ==> !(rs[k].enabled && rule_matches_source(#[trigger] rs[k], node_display_name(n@), n@.node_type)),
            decreases rs.len() - i,
        {
            let r = &self.rules[i];
            assert(r@ == rs[i as int]);
            if r.enabled && r.matches_source(n.display_name(), n.node_type) {
                return true;
            }
            i = i + 1;
        }
        false
    }

    /// Whether an enabled rule has this node as a target.
    fn any_target_rule(&self, n: &Node) -> (r: bool)
        ensures
            r == exists|i: int| 0 <= i < self.rules_view().len() && self.rules_view()[i].enabled
                && rule_matches_target(#[trigger] self.rules_view()[i], node_display_name(n@), n@.node_type, n@.id),
    {
        let ghost rs = self.rules_view();
        let mut i: usize = 0;
        while i < self.rules.len()
            invariant
                rs == self.rules_view(),
                0 <= i <= rs.len(),
                forall|k: int| 0 <= k < i ==> !(rs[k].enabled && rule_matches_target(#[trigger] rs[k], node_display_name(n@), n@.node_type, n@.id)),
            decreases rs.len() - i,
        {
            let r = &self.rules[i];
            assert(r@ == rs[i as int]);
            if r.enabled && r.matches_target(n.display_name(), n.node_type, n.id) {
                return true;
            }
            i = i + 1;
        }
        false
    }

    /// Whether some rule authorizes a link between these nodes and ports.
    fn any_authorizing(&self, src: &Node, tgt: &Node, out_port: &Option<Port>, in_port: &Option<Port>) -> (r: bool)
        ensures
            r == exists|i: int| 0 <= i < self.rules_view().len()
                && link_authorized_by(#[trigger] self.rules_view()[i], src@, tgt@, opt_port(*out_port), opt_port(*in_port)),
    {
        let ghost rs = self.rules_view();
        let mut i: usize = 0;
        while i < self.rules.len()
            invariant
                rs == self.rules_view(),
                0 <= i <= rs.len(),
                forall|k: int| 0 <= k < i ==> !link_authorized_by(#[trigger] rs[k], src@, tgt@, opt_port(*out_port), opt_port(*in_port)),
            decreases rs.len() - i,
        {
            assert(self.rules@[i as int]@ == rs[i as int]);
            if authorizes(&self.rules[i], src, tgt, out_port, in_port) {
                return true;
            }
            i = i + 1;
        }
        false
    }

    /// Whether the rules call for removing this link (see [`should_remove`]).
    pub fn should_remove_link(&self, link: &Link, graph: &GraphState) -> (r: bool)
        requires
            graph.wf(),
        ensures
            r == should_remove(self.rules_view(), graph@, *link),
    {
        let source_node = match graph.get_node(link.output_node_id) {
            Some(n) => n,
            None => return false,
        };
        let target_node = match graph.get_node(link.input_node_id) {
            Some(n) => n,
            None => return false,
        };
        if !is_routable_node(&source_node) || !is_routable_node(&target_node) {
            return false;
        }
        let out_port = graph.get_port(link.output_port_id);
        let in_port = graph.get_port(link.input_port_id);
        assert(opt_port(out_port) == graph@.ports.get(link.output_port_id));
        assert(opt_port(in_port) == graph@.ports.get(link.input_port_id));
        let authorized = self.any_authorizing(&source_node, &target_node, &out_port, &in_port);
        if self.any_source_rule(&source_node) && !authorized {
            return true;
        }
        if self.any_target_rule(&target_node) && !authorized {
            return true;
        }
        false
    }
}


impl PatchbayManager {
    /// A manager with no rules, enabled and clean.
    pub fn new() -> (r: Self)
        ensures
            r.rules_view() == Seq::<RuleView>::empty(),
            r.enabled_flag(),
            !r.dirty_flag(),
    {
        let r = PatchbayManager { rules: Vec::new(), enabled: true, rules_dirty: false };
        assert(r.rules_view() =~= Seq::<RuleView>::empty());
        r
    }

    /// Replace all rules.
    pub fn set_rules(&mut self, rules: Vec<AutoConnectRule>)
        ensures
            final(self).rules_view() == rule_views(rules@),
            final(self).dirty_flag(),
            final(self).enabled_flag() == old(self).enabled_flag(),
    {
        self.rules = rules;
        self.rules_dirty = true;
    }

    /// Append a rule.
    pub fn add_rule(&mut self, rule: AutoConnectRule)
        ensures
            final(self).rules_view() == old(self).rules_view().push(rule@),
            final(self).dirty_flag(),
            final(self).enabled_flag() == old(self).enabled_flag(),
    {
        self.rules.push(rule);
        self.rules_dirty = true;
        assert(self.rules_view() =~= old(self).rules_view().push(self.rules@.last()@));
    }

    /// Remove every rule with this id.
    pub fn remove_rule(&mut self, id: &str)
        ensures
            final(self).rules_view() == old(self).rules_view().filter(|r: RuleView| r.id != id@),
            final(self).dirty_flag(),
            final(self).enabled_flag() == old(self).enabled_flag(),
    {
        let ghost pred = |r: RuleView| r.id != id@;
        let mut rest: Vec<AutoConnectRule> = Vec::new();
        std::mem::swap(&mut rest, &mut self.rules);
        let ghost all = rest@;
        let ghost alls = rule_views(all);
        let n = rest.len();
        let mut kept: Vec<AutoConnectRule> = Vec::new();
        let mut i: usize = 0;
        proof {
            assert(alls.take(0) =~= Seq::<RuleView>::empty());
            assert(rule_views(kept@) =~= alls.take(0).filter(pred));
        }
        while i < n
            invariant
                n == all.len(),
                alls == rule_views(all),
                0 <= i <= n,
                rest@ == all.subrange(i as int, n as int),
                rule_views(kept@) == alls.take(i as int).filter(pred),
                pred == (|r: RuleView| r.id != id@),
                self.enabled == old(self).enabled_flag(),
            decreases n - i,
        {
            let r = rest.remove(0);
            proof {
                assert(r == all[i as int]);
                assert(alls.take(i + 1) =~= alls.take(i as int).push(r@));
                alls.take(i as int).lemma_filter_push(r@, pred);
            }
            if !str_eq(r.id.as_str(), id) {
                let ghost before = rule_views(kept@);
                kept.push(r);
                assert(rule_views(kept@) =~= before.push(self_last_view(kept@)));
            }
            i = i + 1;
            proof {
                assert(rest@ =~= all.subrange(i as int, n as int));
            }
        }
        proof {
            assert(alls.take(n as int) =~= alls);
        }
        self.rules = kept;
        self.rules_dirty = true;
    }

    /// The rules, in order.
    pub fn rules(&self) -> (r: &[AutoConnectRule])
        ensures
            rule_views(r@) == self.rules_view(),
    {
        self.rules.as_slice()
    }

    /// Flip `enabled` on the first rule with this id and return its new value.
    pub fn toggle_rule(&mut self, id: &str) -> (r: Option<bool>)
        ensures
            match first_index(old(self).rules_view(), rule_has_id(id@)) {
                Some(i) => r == Some(!old(self).rules_view()[i].enabled)
                    && final(self).rules_view() == old(self).rules_view().update(
                    i,
                    RuleView { enabled: !old(self).rules_view()[i].enabled, ..old(self).rules_view()[i] },
                ) && final(self).dirty_flag(),
                None => r is None && final(self).rules_view() == old(self).rules_view()
                    && final(self).dirty_flag() == old(self).dirty_flag(),
            },
            final(self).enabled_flag() == old(self).enabled_flag(),
    {
        let ghost rs = self.rules_view();
        let mut i: usize = 0;
        while i < self.rules.len()
            invariant
                rs == self.rules_view(),
                rs == old(self).rules_view(),
                self.enabled == old(self).enabled,
                self.rules_dirty == old(self).rules_dirty,
                0 <= i <= rs.len(),
                forall|k: int| 0 <= k < i ==> !rule_has_id(id@)(#[trigger] rs[k]),
            decreases rs.len() - i,
        {
            assert(self.rules@[i as int]@ == rs[i as int]);
            if str_eq(self.rules[i].id.as_str(), id) {
                proof {
                    lemma_first_index_at(rs, rule_has_id(id@), i as int);
                }
                let now = !self.rules[i].enabled;
                self.rules[i].enabled = now;
                self.rules_dirty = true;
                proof {
                    let nv = RuleView { enabled: now, ..rs[i as int] };
                    assert(self.rules_view() =~= rs.update(i as int, nv));
                }
                return Some(now);
            }
            i = i + 1;
        }
        proof {
            lemma_first_index_none(rs, rule_has_id(id@));
        }
        None
    }
}

spec fn self_last_view(s: Seq<AutoConnectRule>) -> RuleView {
    s.last()@
}


impl PatchbayManager {
    /// Learn from a link the user made: extend the first rule whose source
    /// pattern is the source's name and which targets the target node with
    /// the port pair, or else add a rule for exactly these two nodes with
    /// this pair. Links within one node or with a video node teach nothing.
    /// Returns whether the rules changed.
    pub fn learn_from_link(&mut self, source_node: &Node, target_node: &Node, output_port: &Port, input_port: &Port) -> (r: bool)
        ensures
            final(self).enabled_flag() == old(self).enabled_flag(),
            ({
                let pair = (output_port@.name, input_port@.name);
                let sn = node_display_name(source_node@);
                let rs = old(self).rules_view();
                if source_node@.id == target_node@.id || !is_routable(source_node@) || !is_routable(target_node@) {
                    &&& !r
                    &&& final(self).rules_view() == rs
                    &&& final(self).dirty_flag() == old(self).dirty_flag()
                } else {
                    &&& learned_from(rs, source_node@, target_node@, pair, final(self).rules_view())
                    &&& r == match first_index(rs, learn_match(sn, target_node@)) {
                        Some(i) => !rs[i].port_mappings.contains(pair),
                        None => true,
                    }
                    &&& final(self).dirty_flag() == (old(self).dirty_flag() || r)
                }
            }),
    {
        if source_node.id == target_node.id {
            return false;
        }
        if !is_routable_node(source_node) || !is_routable_node(target_node) {
            return false;
        }
        let source_name = source_node.display_name();
        let ghost rs = self.rules_view();
        let ghost p = learn_match(source_name@, target_node@);
        let mut i: usize = 0;
        while i < self.rules.len()
            invariant
                rs == self.rules_view(),
                rs == old(self).rules_view(),
                self.enabled == old(self).enabled,
                self.rules_dirty == old(self).rules_dirty,
                p == learn_match(source_name@, target_node@),
                source_name@ == node_display_name(source_node@),
                source_node@.id != target_node@.id,
                is_routable(source_node@) && is_routable(target_node@),
                0 <= i <= rs.len(),
                forall|k: int| 0 <= k < i ==> !p(#[trigger] rs[k]),
            decreases rs.len() - i,
        {
            assert(self.rules@[i as int]@ == rs[i as int]);
            if str_eq(self.rules[i].source_pattern.as_str(), source_name) && self.rules[i].matches_target(
                target_node.display_name(),
                target_node.node_type,
                target_node.id,
            ) {
                proof {
                    lemma_first_index_at(rs, p, i as int);
                }
                let ghost before = self.rules@;
                let changed = self.rules[i].add_port_mapping(output_port.name.clone(), input_port.name.clone());
                proof {
                    assert(self.rules@.len() == before.len());
                    assert forall|k: int| 0 <= k < before.len() && k != i implies self.rules@[k] == before[k] by {}
                }
                if changed {
                    self.rules_dirty = true;
                }
                proof {
                    let pair = (output_port@.name, input_port@.name);
                    assert(first_index(rs, learn_match(node_display_name(source_node@), target_node@)) == Some(i as int));
                    assert(changed == !rs[i as int].port_mappings.contains(pair));
                    assert(self.rules@[i as int]@ == with_pair(rs[i as int], pair));
                    assert(self.rules_view() =~= rs.update(i as int, with_pair(rs[i as int], pair)));
                    assert(self.rules_dirty == (old(self).rules_dirty || changed));
                }
                return changed;
            }
            i = i + 1;
        }
        proof {
            lemma_first_index_none(rs, p);
        }
        let mut rule = AutoConnectRule::new(
            source_name,
            source_node.node_type,
            target_node.display_name(),
            target_node.node_type,
            Some(target_node.id),
        );
        rule.add_port_mapping(output_port.name.clone(), input_port.name.clone());
        let ghost rv = rule@;
        self.rules.push(rule);
        self.rules_dirty = true;
        proof {
            assert(self.rules_view() =~= rs.push(rv));
            assert(self.rules_view().drop_last() =~= rs);
            assert(rv.port_mappings =~= seq![(output_port@.name, input_port@.name)]);
        }
        true
    }

    /// Forget a link the user removed: every rule that matches both nodes
    /// loses this port pair, and then every rule left without port pairs is
    /// dropped. Returns whether the rules changed.
    pub fn unlearn_from_link(&mut self, source_node: &Node, target_node: &Node, output_port: &Port, input_port: &Port) -> (r: bool)
        ensures
            final(self).enabled_flag() == old(self).enabled_flag(),
            ({
                let pair = (output_port@.name, input_port@.name);
                let rs = old(self).rules_view();
                if !is_routable(source_node@) || !is_routable(target_node@) {
                    &&& !r
                    &&& final(self).rules_view() == rs
                    &&& final(self).dirty_flag() == old(self).dirty_flag()
                } else {
                    let mid = rs.map_values(|x: RuleView| unlearned(x, source_node@, target_node@, pair));
                    let after = mid.filter(|x: RuleView| has_mappings(x));
                    &&& final(self).rules_view() == after
                    &&& r == ((exists|k: int| 0 <= k < rs.len() && #[trigger] mid[k].port_mappings.len() != rs[k].port_mappings.len())
                        || after.len() != rs.len())
                    &&& final(self).dirty_flag() == (old(self).dirty_flag() || r)
                }
            }),
    {
        if !is_routable_node(source_node) || !is_routable_node(target_node) {
            return false;
        }
        let ghost pair = (output_port@.name, input_port@.name);
        let ghost rs = self.rules_view();
        let ghost f = |x: RuleView| unlearned(x, source_node@, target_node@, pair);
        let ghost mid = rs.map_values(f);
        let source_name = source_node.display_name();
        let target_name = target_node.display_name();
        let mut changed = false;
        let mut i: usize = 0;
        while i < self.rules.len()
            invariant
                self.rules@.len() == rs.len(),
                rs == old(self).rules_view(),
                mid == rs.map_values(f),
                f == (|x: RuleView| unlearned(x, source_node@, target_node@, pair)),
                pair == (output_port@.name, input_port@.name),
                source_name@ == node_display_name(source_node@),
                target_name@ == node_display_name(target_node@),
                self.enabled == old(self).enabled,
                self.rules_dirty == old(self).rules_dirty,
                0 <= i <= rs.len(),
                forall|k: int| 0 <= k < i ==> #[trigger] self.rules@[k]@ == mid[k],
                forall|k: int| i <= k < rs.len() ==> #[trigger] self.rules@[k]@ == rs[k],
                changed == exists|k: int| 0 <= k < i && #[trigger] mid[k].port_mappings.len() != rs[k].port_mappings.len(),
            decreases rs.len() - i,
        {
            let ghost before = self.rules@;
            if self.rules[i].matches_source(source_name, source_node.node_type) && self.rules[i].matches_target(
                target_name,
                target_node.node_type,
                target_node.id,
            ) {
                let before_len = self.rules[i].port_mappings.len();
                let mut list: Vec<PortMapping> = Vec::new();
                std::mem::swap(&mut list, &mut self.rules[i].port_mappings);
                let kept = mappings_without(list, &output_port.name, &input_port.name);
                self.rules[i].port_mappings = kept;
                if self.rules[i].port_mappings.len() != before_len {
                    changed = true;
                }
                proof {
                    assert(self.rules@[i as int]@ == mid[i as int]);
                }
            } else {
                proof {
                    assert(self.rules@[i as int]@ == mid[i as int]);
                }
            }
            proof {
                assert forall|k: int| 0 <= k < self.rules@.len() && k != i implies self.rules@[k] == before[k] by {}
                if !changed {
                    assert forall|k: int| 0 <= k < i + 1 implies !(#[trigger] mid[k].port_mappings.len() != rs[k].port_mappings.len()) by {
                        if k == i {
                            assert(self.rules@[i as int]@ == mid[i as int]);
                        }
                    }
                } else {
                    if mid[i as int].port_mappings.len() != rs[i as int].port_mappings.len() {
                    } else {
                        let k = choose|k: int| 0 <= k < i && #[trigger] mid[k].port_mappings.len() != rs[k].port_mappings.len();
                    }
                }
            }
            i = i + 1;
        }
        let before_count = self.rules.len();
        proof {
            assert(rule_views(self.rules@) =~= mid) by {
                assert forall|k: int| 0 <= k < rs.len() implies rule_views(self.rules@)[k] == mid[k] by {
                    assert(self.rules@[k]@ == mid[k]);
                }
            }
        }
        self.retain_rules_with_mappings();
        if self.rules.len() != before_count {
            changed = true;
        }
        if changed {
            self.rules_dirty = true;
        }
        changed
    }

    /// Drop the rules without port pairs.
    fn retain_rules_with_mappings(&mut self)
        ensures
            final(self).rules_view() == old(self).rules_view().filter(|x: RuleView| has_mappings(x)),
            final(self).enabled == old(self).enabled,
            final(self).rules_dirty == old(self).rules_dirty,
    {
        let ghost pred = |x: RuleView| has_mappings(x);
        let mut rest: Vec<AutoConnectRule> = Vec::new();
        std::mem::swap(&mut rest, &mut self.rules);
        let ghost all = rest@;
        let ghost alls = rule_views(all);
        let n = rest.len();
        let mut kept: Vec<AutoConnectRule> = Vec::new();
        let mut i: usize = 0;
        proof {
            assert(rule_views(kept@) =~= alls.take(0).filter(pred));
        }
        while i < n
            invariant
                n == all.len(),
                alls == rule_views(all),
                0 <= i <= n,
                rest@ == all.subrange(i as int, n as int),
                rule_views(kept@) == alls.take(i as int).filter(pred),
                pred == (|x: RuleView| has_mappings(x)),
                self.enabled == old(self).enabled,
                self.rules_dirty == old(self).rules_dirty,
            decreases n - i,
        {
            let r = rest.remove(0);
            proof {
                assert(r == all[i as int]);
                assert(alls.take(i + 1) =~= alls.take(i as int).push(r@));
                alls.take(i as int).lemma_filter_push(r@, pred);
            }
            if r.port_mappings.len() > 0 {
                let ghost before = rule_views(kept@);
                let ghost rv = r@;
                kept.push(r);
                assert(rule_views(kept@) =~= before.push(rv));
            }
            i = i + 1;
            proof {
                assert(rest@ =~= all.subrange(i as int, n as int));
            }
        }
        proof {
            assert(alls.take(n as int) =~= alls);
        }
        self.rules = kept;
    }
}


/// The connect command for `o` to `i` where they are not linked yet.
pub open spec fn connect_if_unlinked(g: GraphView, o: ObjectId, i: ObjectId, rest: Seq<PwCommand>) -> Seq<PwCommand> {
    if link_exists(g.links, o, i) {
        rest
    } else {
        rest.push(PwCommand::Connect { output_port_id: o, input_port_id: i })
    }
}

/// The commands that wire each source port (in turn) to its matching target
/// port (see [`matching_port_index`]), where they are not linked yet.
pub open spec fn matching_commands(srcs: Seq<PortView>, tgts: Seq<PortView>, g: GraphView) -> Seq<PwCommand>
    decreases srcs.len(),
{
    if srcs.len() == 0 {
        Seq::empty()
    } else {
        let rest = matching_commands(srcs.drop_last(), tgts, g);
        let sp = srcs.last();
        match matching_port_index(sp, tgts) {
            Some(ti) => connect_if_unlinked(g, sp.id, tgts[ti].id, rest),
            None => rest,
        }
    }
}

/// The commands that wire, for each port pair (in turn), the first source
/// port with the pair's output name to the first target port with its input
/// name, where both exist and are not linked yet.
pub open spec fn mapped_commands(ms: Seq<(Seq<char>, Seq<char>)>, srcs: Seq<PortView>, tgts: Seq<PortView>, g: GraphView) -> Seq<PwCommand>
    decreases ms.len(),
{
    if ms.len() == 0 {
        Seq::empty()
    } else {
        let rest = mapped_commands(ms.drop_last(), srcs, tgts, g);
        let m = ms.last();
        match (first_index(srcs, same_port_name(m.0)), first_index(tgts, same_port_name(m.1))) {
            (Some(oi), Some(ii)) => connect_if_unlinked(g, srcs[oi].id, tgts[ii].id, rest),
            _ => rest,
        }
    }
}

/// The commands a rule makes from the source ports to the target ports: by
/// its port pairs where it has any, else by matching ports.
pub open spec fn rule_commands(rule: RuleView, srcs: Seq<PortView>, tgts: Seq<PortView>, g: GraphView) -> Seq<PwCommand> {
    if rule.port_mappings.len() == 0 {
        matching_commands(srcs, tgts, g)
    } else {
        mapped_commands(rule.port_mappings, srcs, tgts, g)
    }
}

/// Port `id` is a port of node `n` in direction `d`.
pub open spec fn port_on(g: GraphView, id: ObjectId, n: ObjectId, d: PortDirection) -> bool {
    g.ports.contains_key(id) && g.ports[id].node_id == n && g.ports[id].direction == d
}

/// Input port `id` of node `t` shares its channel with source port `sp`.
pub open spec fn by_channel(g: GraphView, sp: PortView, t: ObjectId, id: ObjectId) -> bool {
    port_on(g, id, t, PortDirection::Input) && sp.channel is Some && g.ports[id].channel == sp.channel
}

/// Input port `id` of node `t` has the name of source port `sp`.
pub open spec fn by_name(g: GraphView, sp: PortView, t: ObjectId, id: ObjectId) -> bool {
    port_on(g, id, t, PortDirection::Input) && g.ports[id].name == sp.name
}

/// Input port `id` of node `t` has the physical index of source port `sp`.
pub open spec fn by_index(g: GraphView, sp: PortView, t: ObjectId, id: ObjectId) -> bool {
    port_on(g, id, t, PortDirection::Input) && index_or_zero(g.ports[id].physical_index)
        == index_or_zero(sp.physical_index)
}

/// Input port `id` of node `t` is among the best matches of source port
/// `sp` without port pairs: those of its channel where there are any, else
/// those of its name, else those of its physical index, else any input port.
pub open spec fn best_match(g: GraphView, sp: PortView, t: ObjectId, id: ObjectId) -> bool {
    if exists|x: ObjectId| #[trigger] by_channel(g, sp, t, x) {
        by_channel(g, sp, t, id)
    } else if exists|x: ObjectId| #[trigger] by_name(g, sp, t, x) {
        by_name(g, sp, t, id)
    } else if exists|x: ObjectId| #[trigger] by_index(g, sp, t, x) {
        by_index(g, sp, t, id)
    } else {
        port_on(g, id, t, PortDirection::Input)
    }
}

/// Ports `o` and `i` are linked or `cs` connects them.
pub open spec fn in_place(g: GraphView, o: ObjectId, i: ObjectId, cs: Seq<PwCommand>) -> bool {
    link_exists(g.links, o, i) || cs.contains(PwCommand::Connect { output_port_id: o, input_port_id: i })
}

/// Port `id` is an output of `s` named `name`.
pub open spec fn named_out(g: GraphView, s: ObjectId, id: ObjectId, name: Seq<char>) -> bool {
    port_on(g, id, s, PortDirection::Output) && g.ports[id].name == name
}

/// Port `id` is an input of `t` named `name`.
pub open spec fn named_in(g: GraphView, t: ObjectId, id: ObjectId, name: Seq<char>) -> bool {
    port_on(g, id, t, PortDirection::Input) && g.ports[id].name == name
}

/// The connections rule `r` makes from node `s` to node `t` are in place
/// or asked for by `cs`: without port pairs, each output port of `s` is
/// wired to one of its best matches among the inputs of `t` (where `t` has
/// inputs); with port pairs, for each pair whose two names occur, an output
/// of `s` and an input of `t` with those names are wired.
pub open spec fn rule_restored(r: RuleView, g: GraphView, s: ObjectId, t: ObjectId, cs: Seq<PwCommand>) -> bool {
    if r.port_mappings.len() == 0 {
        forall|o: ObjectId|
            #[trigger] port_on(g, o, s, PortDirection::Output) && (exists|x: ObjectId| #[trigger] port_on(g, x, t, PortDirection::Input))
                ==> exists|i: ObjectId| #[trigger] best_match(g, g.ports[o], t, i) && in_place(g, o, i, cs)
    } else {
        forall|k: int| #![trigger r.port_mappings[k]]
            0 <= k < r.port_mappings.len() && (exists|o: ObjectId| #[trigger] named_out(g, s, o, r.port_mappings[k].0))
                && (exists|i: ObjectId| #[trigger] named_in(g, t, i, r.port_mappings[k].1))
                ==> exists|o: ObjectId, i: ObjectId| #[trigger] named_out(g, s, o, r.port_mappings[k].0)
                    && #[trigger] named_in(g, t, i, r.port_mappings[k].1) && in_place(g, o, i, cs)
    }
}

/// Rule `r` applies to node `n` as a source: it is enabled and matches the
/// ready, routable node, which has an output port.
pub open spec fn source_applies(r: RuleView, g: GraphView, n: NodeView) -> bool {
    &&& r.enabled
    &&& n.ready
    &&& is_routable(n)
    &&& opt_has_outputs(n.node_type)
    &&& rule_matches_source(r, node_display_name(n), n.node_type)
    &&& exists|o: ObjectId| #[trigger] port_on(g, o, n.id, PortDirection::Output)
}

/// Where rule `j` applies to node `k` of the list as a source and finds a
/// target there, its connections are in place or asked for by `cs`.
pub open spec fn rule_node_done(rules: Seq<RuleView>, g: GraphView, nodes: Seq<NodeView>, j: int, k: int, cs: Seq<PwCommand>) -> bool {
    source_applies(rules[j], g, nodes[k]) ==> match matching_target_index(rules[j], nodes, nodes[k].id) {
        Some(ti) => rule_restored(rules[j], g, nodes[k].id, nodes[ti].id, cs),
        None => true,
    }
}

/// Every rule that applies to a node of the list as a source has the
/// connections it calls for in place or asked for by `cs`.
pub open spec fn rules_restored(rules: Seq<RuleView>, g: GraphView, nodes: Seq<NodeView>, cs: Seq<PwCommand>) -> bool {
    forall|j: int, k: int| 0 <= j < rules.len() && 0 <= k < nodes.len() ==> #[trigger] rule_node_done(rules, g, nodes, j, k, cs)
}

proof fn lemma_restored_grows(r: RuleView, g: GraphView, s: ObjectId, t: ObjectId, cs: Seq<PwCommand>, cs2: Seq<PwCommand>)
    requires
        rule_restored(r, g, s, t, cs),
        forall|c: PwCommand| cs.contains(c) ==> #[trigger] cs2.contains(c),
    ensures
        rule_restored(r, g, s, t, cs2),
{
    if r.port_mappings.len() == 0 {
        assert forall|o: ObjectId|
            #[trigger] port_on(g, o, s, PortDirection::Output) && (exists|x: ObjectId| #[trigger] port_on(g, x, t, PortDirection::Input))
                implies exists|i: ObjectId| #[trigger] best_match(g, g.ports[o], t, i) && in_place(g, o, i, cs2) by {
            let i = choose|i: ObjectId| #[trigger] best_match(g, g.ports[o], t, i) && in_place(g, o, i, cs);
            assert(in_place(g, o, i, cs2));
        }
    } else {
        assert forall|k: int| #![trigger r.port_mappings[k]]
            0 <= k < r.port_mappings.len() && (exists|o: ObjectId| #[trigger] named_out(g, s, o, r.port_mappings[k].0))
                && (exists|i: ObjectId| #[trigger] named_in(g, t, i, r.port_mappings[k].1))
                implies exists|o: ObjectId, i: ObjectId| #[trigger] named_out(g, s, o, r.port_mappings[k].0)
                    && #[trigger] named_in(g, t, i, r.port_mappings[k].1) && in_place(g, o, i, cs2) by {
            let (o, i) = choose|o: ObjectId, i: ObjectId| #[trigger] named_out(g, s, o, r.port_mappings[k].0)
                && #[trigger] named_in(g, t, i, r.port_mappings[k].1) && in_place(g, o, i, cs);
            assert(in_place(g, o, i, cs2));
        }
    }
}

proof fn lemma_done_grows(rules: Seq<RuleView>, g: GraphView, nodes: Seq<NodeView>, j: int, k: int, cs: Seq<PwCommand>, cs2: Seq<PwCommand>)
    requires
        rule_node_done(rules, g, nodes, j, k, cs),
        forall|c: PwCommand| cs.contains(c) ==> #[trigger] cs2.contains(c),
    ensures
        rule_node_done(rules, g, nodes, j, k, cs2),
{
    if source_applies(rules[j], g, nodes[k]) {
        if let Some(ti) = matching_target_index(rules[j], nodes, nodes[k].id) {
            lemma_restored_grows(rules[j], g, nodes[k].id, nodes[ti].id, cs, cs2);
        }
    }
}

/// For each source port, the command toward its matching target port is
/// among the matching commands unless the two are linked.
proof fn lemma_matching_commands_has(srcs: Seq<PortView>, tgts: Seq<PortView>, g: GraphView, k: int)
    requires
        0 <= k < srcs.len(),
        matching_port_index(srcs[k], tgts) is Some,
    ensures
        ({
            let ti = matching_port_index(srcs[k], tgts)->0;
            in_place(g, srcs[k].id, tgts[ti].id, matching_commands(srcs, tgts, g))
        }),
    decreases srcs.len(),
{
    let rest = matching_commands(srcs.drop_last(), tgts, g);
    let all = matching_commands(srcs, tgts, g);
    assert forall|c: PwCommand| rest.contains(c) implies #[trigger] all.contains(c) by {
        let m = choose|m: int| 0 <= m < rest.len() && rest[m] == c;
        match matching_port_index(srcs.last(), tgts) {
            Some(ti) => {
                if !link_exists(g.links, srcs.last().id, tgts[ti].id) {
                    assert(all[m] == c);
                }
            },
            None => {},
        }
    }
    if k < srcs.len() - 1 {
        assert(srcs.drop_last()[k] == srcs[k]);
        lemma_matching_commands_has(srcs.drop_last(), tgts, g, k);
    } else {
        let ti = matching_port_index(srcs[k], tgts)->0;
        if !link_exists(g.links, srcs[k].id, tgts[ti].id) {
            assert(all.last() == PwCommand::Connect { output_port_id: srcs[k].id, input_port_id: tgts[ti].id });
            assert(all[all.len() - 1] == all.last());
        }
    }
}

/// For each port pair whose names both occur, the command joining the
/// first such ports is among the mapped commands unless they are linked.
proof fn lemma_mapped_commands_has(ms: Seq<(Seq<char>, Seq<char>)>, srcs: Seq<PortView>, tgts: Seq<PortView>, g: GraphView, k: int)
    requires
        0 <= k < ms.len(),
        first_index(srcs, same_port_name(ms[k].0)) is Some,
        first_index(tgts, same_port_name(ms[k].1)) is Some,
    ensures
        ({
            let oi = first_index(srcs, same_port_name(ms[k].0))->0;
            let ii = first_index(tgts, same_port_name(ms[k].1))->0;
            in_place(g, srcs[oi].id, tgts[ii].id, mapped_commands(ms, srcs, tgts, g))
        }),
    decreases ms.len(),
{
    let rest = mapped_commands(ms.drop_last(), srcs, tgts, g);
    let all = mapped_commands(ms, srcs, tgts, g);
    let m = ms.last();
    assert forall|c: PwCommand| rest.contains(c) implies #[trigger] all.contains(c) by {
        let q = choose|q: int| 0 <= q < rest.len() && rest[q] == c;
        match (first_index(srcs, same_port_name(m.0)), first_index(tgts, same_port_name(m.1))) {
            (Some(oi), Some(ii)) => {
                if !link_exists(g.links, srcs[oi].id, tgts[ii].id) {
                    assert(all[q] == c);
                }
            },
            _ => {},
        }
    }
    if k < ms.len() - 1 {
        assert(ms.drop_last()[k] == ms[k]);
        lemma_mapped_commands_has(ms.drop_last(), srcs, tgts, g, k);
    } else {
        let oi = first_index(srcs, same_port_name(ms[k].0))->0;
        let ii = first_index(tgts, same_port_name(ms[k].1))->0;
        if !link_exists(g.links, srcs[oi].id, tgts[ii].id) {
            assert(all[all.len() - 1] == PwCommand::Connect { output_port_id: srcs[oi].id, input_port_id: tgts[ii].id });
        }
    }
}

/// The ports of `ps` are exactly the ports of node `n` in direction `d`.
pub open spec fn lists_ports_of(ps: Seq<PortView>, g: GraphView, n: ObjectId, d: PortDirection) -> bool {
    &&& ids_distinct(ps, port_key())
    &&& id_table(ps, port_key()) == keep_values(g.ports, |p: PortView| p.node_id == n && p.direction == d)
}

proof fn lemma_listed_port(ps: Seq<PortView>, g: GraphView, n: ObjectId, d: PortDirection, k: int)
    requires
        lists_ports_of(ps, g, n, d),
        0 <= k < ps.len(),
    ensures
        port_on(g, ps[k].id, n, d),
        g.ports[ps[k].id] == ps[k],
{
    lemma_id_table_at(ps, port_key(), k);
}

proof fn lemma_port_listed(ps: Seq<PortView>, g: GraphView, n: ObjectId, d: PortDirection, id: ObjectId) -> (k: int)
    requires
        lists_ports_of(ps, g, n, d),
        port_on(g, id, n, d),
    ensures
        0 <= k < ps.len(),
        ps[k].id == id,
        ps[k] == g.ports[id],
{
    let tab = keep_values(g.ports, |p: PortView| p.node_id == n && p.direction == d);
    assert(tab.contains_key(id));
    let k = lemma_id_table_has(ps, port_key(), id);
    lemma_id_table_at(ps, port_key(), k);
    k
}

/// The port that `matching_port_index` picks among the inputs of `t` is one
/// of the best matches.
proof fn lemma_best_match(sp: PortView, tgts: Seq<PortView>, g: GraphView, t: ObjectId)
    requires
        lists_ports_of(tgts, g, t, PortDirection::Input),
        matching_port_index(sp, tgts) is Some,
    ensures
        ({
            let ti = matching_port_index(sp, tgts)->0;
            0 <= ti < tgts.len() && best_match(g, sp, t, tgts[ti].id)
        }),
{
    let pc = same_channel(sp.channel);
    let pn = same_port_name(sp.name);
    let pi = same_physical_index(index_or_zero(sp.physical_index));
    lemma_first_index_props(tgts, pc);
    lemma_first_index_props(tgts, pn);
    lemma_first_index_props(tgts, pi);
    let ti = matching_port_index(sp, tgts)->0;
    let fc = if sp.channel is Some { first_index(tgts, pc) } else { None };
    if fc is None {
        assert forall|x: ObjectId| !by_channel(g, sp, t, x) by {
            if by_channel(g, sp, t, x) {
                let k = lemma_port_listed(tgts, g, t, PortDirection::Input, x);
                assert(pc(tgts[k]));
            }
        }
        if first_index(tgts, pn) is None {
            assert forall|x: ObjectId| !by_name(g, sp, t, x) by {
                if by_name(g, sp, t, x) {
                    let k = lemma_port_listed(tgts, g, t, PortDirection::Input, x);
                    assert(pn(tgts[k]));
                }
            }
            if first_index(tgts, pi) is None {
                assert forall|x: ObjectId| !by_index(g, sp, t, x) by {
                    if by_index(g, sp, t, x) {
                        let k = lemma_port_listed(tgts, g, t, PortDirection::Input, x);
                        assert(pi(tgts[k]));
                    }
                }
            }
        }
    }
    lemma_listed_port(tgts, g, t, PortDirection::Input, ti);
    if fc is Some {
        assert(by_channel(g, sp, t, tgts[ti].id));
    } else if first_index(tgts, pn) is Some {
        assert(by_name(g, sp, t, tgts[ti].id));
    } else if first_index(tgts, pi) is Some {
        assert(by_index(g, sp, t, tgts[ti].id));
    }
}

/// The commands a rule makes from the listed outputs of `s` to the listed
/// inputs of `t` leave its connections in place or asked for.
proof fn lemma_rule_commands_restore(r: RuleView, srcs: Seq<PortView>, tgts: Seq<PortView>, g: GraphView, s: ObjectId, t: ObjectId)
    requires
        lists_ports_of(srcs, g, s, PortDirection::Output),
        lists_ports_of(tgts, g, t, PortDirection::Input),
    ensures
        rule_restored(r, g, s, t, rule_commands(r, srcs, tgts, g)),
{
    let cs = rule_commands(r, srcs, tgts, g);
    if r.port_mappings.len() == 0 {
        assert forall|o: ObjectId|
            #[trigger] port_on(g, o, s, PortDirection::Output) && (exists|x: ObjectId| #[trigger] port_on(g, x, t, PortDirection::Input))
                implies exists|i: ObjectId| #[trigger] best_match(g, g.ports[o], t, i) && in_place(g, o, i, cs) by {
            let k = lemma_port_listed(srcs, g, s, PortDirection::Output, o);
            let x = choose|x: ObjectId| #[trigger] port_on(g, x, t, PortDirection::Input);
            let _ = lemma_port_listed(tgts, g, t, PortDirection::Input, x);
            assert(tgts.len() > 0);
            lemma_best_match(srcs[k], tgts, g, t);
            lemma_matching_commands_has(srcs, tgts, g, k);
            let ti = matching_port_index(srcs[k], tgts)->0;
            assert(best_match(g, g.ports[o], t, tgts[ti].id) && in_place(g, o, tgts[ti].id, cs));
        }
    } else {
        let ms = r.port_mappings;
        assert forall|k: int| #![trigger ms[k]]
            0 <= k < ms.len() && (exists|o: ObjectId| #[trigger] named_out(g, s, o, ms[k].0))
                && (exists|i: ObjectId| #[trigger] named_in(g, t, i, ms[k].1))
                implies exists|o: ObjectId, i: ObjectId| #[trigger] named_out(g, s, o, ms[k].0)
                    && #[trigger] named_in(g, t, i, ms[k].1) && in_place(g, o, i, cs) by {
            let o0 = choose|o: ObjectId| #[trigger] named_out(g, s, o, ms[k].0);
            let i0 = choose|i: ObjectId| #[trigger] named_in(g, t, i, ms[k].1);
            let ko = lemma_port_listed(srcs, g, s, PortDirection::Output, o0);
            let ki = lemma_port_listed(tgts, g, t, PortDirection::Input, i0);
            lemma_first_index_props(srcs, same_port_name(ms[k].0));
            lemma_first_index_props(tgts, same_port_name(ms[k].1));
            assert(same_port_name(ms[k].0)(srcs[ko]));
            assert(same_port_name(ms[k].1)(tgts[ki]));
            let oi = first_index(srcs, same_port_name(ms[k].0))->0;
            let ii = first_index(tgts, same_port_name(ms[k].1))->0;
            lemma_listed_port(srcs, g, s, PortDirection::Output, oi);
            lemma_listed_port(tgts, g, t, PortDirection::Input, ii);
            lemma_mapped_commands_has(ms, srcs, tgts, g, k);
            assert(named_out(g, s, srcs[oi].id, ms[k].0));
            assert(named_in(g, t, tgts[ii].id, ms[k].1));
        }
    }
}

impl PatchbayManager {
    /// The first port of the list with this name.
    fn port_named(ports: &Vec<Port>, name: &String) -> (r: Option<usize>)
        ensures
            match r {
                Some(k) => k < ports@.len() && ports@[k as int].name@ == name@
                    && first_index(port_views(ports@), same_port_name(name@)) == Some(k as int),
                None => first_index(port_views(ports@), same_port_name(name@)) is None,
            },
    {
        let ghost pv = port_views(ports@);
        let mut k: usize = 0;
        while k < ports.len()
            invariant
                0 <= k <= ports@.len(),
                pv == port_views(ports@),
                forall|m: int| 0 <= m < k ==> !same_port_name(name@)(#[trigger] pv[m]),
            decreases ports@.len() - k,
        {
            if ports[k].name == *name {
                proof {
                    assert(pv[k as int] == ports@[k as int]@);
                    lemma_first_index_at(pv, same_port_name(name@), k as int);
                }
                return Some(k);
            }
            proof {
                assert(pv[k as int] == ports@[k as int]@);
            }
            k = k + 1;
        }
        proof {
            lemma_first_index_none(pv, same_port_name(name@));
        }
        None
    }

    /// The connections rule `j` makes from the source ports to the target
    /// ports: by port pair when the rule has pairs, else each source port to
    /// its matching target port; only pairs not linked yet.
    fn generate_connections(
        &self,
        rule: &AutoConnectRule,
        Ghost(j): Ghost<int>,
        Ghost(s): Ghost<ObjectId>,
        Ghost(t): Ghost<ObjectId>,
        source_ports: &Vec<Port>,
        target_ports: &Vec<Port>,
        graph: &GraphState,
    ) -> (r: Vec<PwCommand>)
        requires
            graph.wf(),
            lists_ports_of(port_views(source_ports@), graph@, s, PortDirection::Output),
            lists_ports_of(port_views(target_ports@), graph@, t, PortDirection::Input),
            0 <= j < self.rules_view().len(),
            self.rules_view()[j] == rule@,
            forall|k: int| 0 <= k < source_ports@.len() ==> #[trigger] source_ports@[k]@.node_id == s
                && source_port_ok(self.rules_view(), graph@, j, source_ports@[k]@),
            forall|k: int| 0 <= k < target_ports@.len() ==> target_port_ok(self.rules_view(), graph@, j, #[trigger] target_ports@[k]@, s),
        ensures
            all_called_for(self.rules_view(), graph@, r@),
            r@ == rule_commands(rule@, port_views(source_ports@), port_views(target_ports@), graph@),
            rule_restored(rule@, graph@, s, t, r@),
    {
        let ghost rs = self.rules_view();
        let ghost g = graph@;
        let ghost sv = port_views(source_ports@);
        let ghost tv = port_views(target_ports@);
        let mut commands: Vec<PwCommand> = Vec::new();
        if rule.port_mappings.len() == 0 {
            let mut k: usize = 0;
            while k < source_ports.len()
                invariant
                    graph.wf(),
                    rs == self.rules_view(),
                    g == graph@,
                    0 <= j < rs.len(),
                    rs[j] == rule@,
                    rule@.port_mappings.len() == 0,
                    forall|k: int| 0 <= k < source_ports@.len() ==> #[trigger] source_ports@[k]@.node_id == s
                        && source_port_ok(rs, g, j, source_ports@[k]@),
                    forall|k: int| 0 <= k < target_ports@.len() ==> target_port_ok(rs, g, j, #[trigger] target_ports@[k]@, s),
                    0 <= k <= source_ports@.len(),
                    all_called_for(rs, g, commands@),
                    sv == port_views(source_ports@),
                    tv == port_views(target_ports@),
                    commands@ == matching_commands(sv.take(k as int), tv, g),
                decreases source_ports@.len() - k,
            {
                let sp = &source_ports[k];
                proof {
                    let t = sv.take(k + 1);
                    assert(t.drop_last() =~= sv.take(k as int));
                    assert(t.last() == sp@);
                }
                if let Some(ti) = find_matching_port(sp, target_ports.as_slice()) {
                    proof {
                        lemma_first_index_props(port_views(target_ports@), same_channel(sp@.channel));
                        lemma_first_index_props(port_views(target_ports@), same_port_name(sp@.name));
                        lemma_first_index_props(port_views(target_ports@), same_physical_index(index_or_zero(sp@.physical_index)));
                    }
                    assert(ti < target_ports@.len());
                    let tp = &target_ports[ti];
                    let fl = graph.find_link(sp.id, tp.id);
                    proof {
                        assert(tv[ti as int] == tp@);
                        if fl is Some {
                            assert(g.links.contains_key(fl->0.id));
                        }
                    }
                    if fl.is_none() {
                        let ghost before = commands@;
                        commands.push(PwCommand::Connect { output_port_id: sp.id, input_port_id: tp.id });
                        proof {
                            assert(target_port_ok(rs, g, j, target_ports@[ti as int]@, s));
                            assert(source_ports@[k as int]@.node_id == s);
                            assert(connect_by_rule(rs, g, j, sp.id, tp.id));
                            assert forall|m: int| 0 <= m < commands@.len() implies command_called_for(rs, g, #[trigger] commands@[m]) by {
                                if m < before.len() {
                                    assert(commands@[m] == before[m]);
                                    assert(command_called_for(rs, g, before[m]));
                                } else {
                                    assert(commands@[m] == PwCommand::Connect { output_port_id: sp.id, input_port_id: tp.id });
                                    assert(connect_by_rule(rs, g, j, sp.id, tp.id));
                                    assert(connect_called_for(rs, g, sp.id, tp.id));
                                    assert(command_called_for(rs, g, PwCommand::Connect { output_port_id: sp.id, input_port_id: tp.id }));
                                }
                            }
                        }
                    }
                }
                k = k + 1;
            }
            assert(sv.take(sv.len() as int) =~= sv);
        } else {
            let mut k: usize = 0;
            while k < rule.port_mappings.len()
                invariant
                    graph.wf(),
                    rs == self.rules_view(),
                    g == graph@,
                    0 <= j < rs.len(),
                    rs[j] == rule@,
                    forall|k: int| 0 <= k < source_ports@.len() ==> #[trigger] source_ports@[k]@.node_id == s
                        && source_port_ok(rs, g, j, source_ports@[k]@),
                    forall|k: int| 0 <= k < target_ports@.len() ==> target_port_ok(rs, g, j, #[trigger] target_ports@[k]@, s),
                    0 <= k <= rule.port_mappings@.len(),
                    all_called_for(rs, g, commands@),
                    sv == port_views(source_ports@),
                    tv == port_views(target_ports@),
                    commands@ == mapped_commands(rule@.port_mappings.take(k as int), sv, tv, g),
                decreases rule.port_mappings@.len() - k,
            {
                let m = &rule.port_mappings[k];
                proof {
                    let t = rule@.port_mappings.take(k + 1);
                    assert(t.drop_last() =~= rule@.port_mappings.take(k as int));
                    assert(t.last() == m@);
                }
                let out_i = Self::port_named(source_ports, &m.output_port_name);
                let in_i = Self::port_named(target_ports, &m.input_port_name);
                if let (Some(oi), Some(ii)) = (out_i, in_i) {
                    let op = &source_ports[oi];
                    let ip = &target_ports[ii];
                    let fl = graph.find_link(op.id, ip.id);
                    proof {
                        assert(sv[oi as int] == op@);
                        assert(tv[ii as int] == ip@);
                        if fl is Some {
                            assert(g.links.contains_key(fl->0.id));
                        }
                    }
                    if fl.is_none() {
                        let ghost before = commands@;
                        commands.push(PwCommand::Connect { output_port_id: op.id, input_port_id: ip.id });
                        proof {
                            assert(target_port_ok(rs, g, j, target_ports@[ii as int]@, s));
                            assert(source_ports@[oi as int]@.node_id == s);
                            assert(rule@.port_mappings[k as int] == m@);
                            assert(rule@.port_mappings.contains((op@.name, ip@.name)));
                            assert(connect_by_rule(rs, g, j, op.id, ip.id));
                            assert forall|x: int| 0 <= x < commands@.len() implies command_called_for(rs, g, #[trigger] commands@[x]) by {
                                if x < before.len() {
                                    assert(commands@[x] == before[x]);
                                } else {
                                    assert(commands@[x] == PwCommand::Connect { output_port_id: op.id, input_port_id: ip.id });
                                    assert(connect_by_rule(rs, g, j, op.id, ip.id));
                                }
                            }
                        }
                    }
                }
                k = k + 1;
            }
            assert(rule@.port_mappings.take(rule@.port_mappings.len() as int) =~= rule@.port_mappings);
        }
        proof {
            lemma_rule_commands_restore(rule@, sv, tv, g, s, t);
        }
        commands
    }
}


/// Whether some node of the list has id `id`, is ready, and matches `pattern`.
fn any_valid_target(nodes: &Vec<Node>, id: ObjectId, pattern: &String) -> (r: bool)
    ensures
        r == exists|k: int| 0 <= k < nodes@.len() && #[trigger] nodes@[k].id == id && nodes@[k].ready
            && pattern_matches_spec(pattern@, node_display_name(nodes@[k]@)),
{
    let mut k: usize = 0;
    while k < nodes.len()
        invariant
            0 <= k <= nodes@.len(),
            forall|m: int| 0 <= m < k ==> !(#[trigger] nodes@[m].id == id && nodes@[m].ready
                && pattern_matches_spec(pattern@, node_display_name(nodes@[m]@))),
        decreases nodes@.len() - k,
    {
        let n = &nodes[k];
        if n.id == id && n.ready && pattern_matches(pattern.as_str(), n.display_name()) {
            return true;
        }
        k = k + 1;
    }
    false
}

/// The first node of the list that can replace a stale target of `rule`.
fn first_refresh_candidate(rule: &AutoConnectRule, nodes: &Vec<Node>) -> (r: Option<usize>)
    ensures
        match r {
            Some(k) => k < nodes@.len() && refresh_candidate(rule@)(nodes@[k as int]@),
            None => forall|k: int| 0 <= k < nodes@.len() ==> !refresh_candidate(rule@)(#[trigger] nodes@[k]@),
        },
{
    let mut k: usize = 0;
    while k < nodes.len()
        invariant
            0 <= k <= nodes@.len(),
            forall|m: int| 0 <= m < k ==> !refresh_candidate(rule@)(#[trigger] nodes@[m]@),
        decreases nodes@.len() - k,
    {
        let n = &nodes[k];
        let type_ok = match rule.target_node_type {
            None => true,
            Some(t) => match n.node_type {
                Some(u) => u == t,
                None => false,
            },
        };
        if n.ready && node_has_inputs(n.node_type) && pattern_matches(rule.target_pattern.as_str(), n.display_name()) && type_ok {
            return Some(k);
        }
        k = k + 1;
    }
    None
}

impl PatchbayManager {
    /// Re-point rules whose target id is stale (no longer a ready node
    /// matching the target pattern) at a ready node with inputs that matches
    /// the target pattern and type, or at none.
    pub fn refresh_target_ids(&mut self, graph: &GraphState)
        requires
            graph.wf(),
        ensures
            refreshed(old(self).rules_view(), final(self).rules_view(), graph@),
            final(self).dirty_flag() == (old(self).dirty_flag() || some_target_changed(old(self).rules_view(), final(self).rules_view())),
            final(self).enabled_flag() == old(self).enabled_flag(),
    {
        let nodes = graph.get_all_nodes();
        let ghost g = graph@;
        let ghost rs = self.rules_view();
        let mut dirty = false;
        let mut i: usize = 0;
        while i < self.rules.len()
            invariant
                ids_distinct(node_views(nodes@), node_key()),
                id_table(node_views(nodes@), node_key()) == g.nodes,
                g == graph@,
                rs == old(self).rules_view(),
                self.rules@.len() == rs.len(),
                self.enabled == old(self).enabled,
                self.rules_dirty == old(self).rules_dirty,
                0 <= i <= rs.len(),
                forall|k: int| 0 <= k < i ==> refreshed_rule(#[trigger] rs[k], self.rules@[k]@, g),
                forall|k: int| i <= k < rs.len() ==> #[trigger] self.rules@[k]@ == rs[k],
                dirty == exists|k: int| 0 <= k < i && #[trigger] self.rules@[k]@.target_node_id != rs[k].target_node_id,
            decreases rs.len() - i,
        {
            let ghost before = self.rules@;
            let ghost rv = rs[i as int];
            assert(self.rules@[i as int]@ == rv);
            if let Some(old_id) = self.rules[i].target_node_id {
                let valid = any_valid_target(&nodes, old_id, &self.rules[i].target_pattern);
                proof {
                    let nv = node_views(nodes@);
                    if valid {
                        let k = choose|k: int| 0 <= k < nodes@.len() && #[trigger] nodes@[k].id == old_id && nodes@[k].ready
                            && pattern_matches_spec(rv.target_pattern, node_display_name(nodes@[k]@));
                        assert(nv[k] == nodes@[k]@);
                        lemma_id_table_at(nv, node_key(), k);
                    } else if target_still_valid(rv, g, old_id) {
                        let k = lemma_id_table_has(nv, node_key(), old_id);
                        assert(nv[k] == nodes@[k]@);
                    }
                    assert(valid == target_still_valid(rv, g, old_id));
                }
                if !valid {
                    let new_id = match first_refresh_candidate(&self.rules[i], &nodes) {
                        Some(k) => Some(nodes[k].id),
                        None => None,
                    };
                    proof {
                        let nv = node_views(nodes@);
                        match new_id {
                            Some(nid) => {
                                let k = choose|k: int| 0 <= k < nodes@.len() && nodes@[k].id == nid && refresh_candidate(rv)(nodes@[k]@);
                                assert(nv[k] == nodes@[k]@);
                                lemma_id_table_at(nv, node_key(), k);
                            },
                            None => {
                                assert forall|nid: ObjectId| #[trigger] g.nodes.contains_key(nid) implies !refresh_candidate(rv)(g.nodes[nid]) by {
                                    let k = lemma_id_table_has(nv, node_key(), nid);
                                    assert(nv[k] == nodes@[k]@);
                                }
                            },
                        }
                    }
                    let same = match (self.rules[i].target_node_id, new_id) {
                        (Some(a), Some(b)) => a == b,
                        (None, None) => true,
                        _ => false,
                    };
                    if !same {
                        self.rules[i].target_node_id = new_id;
                        dirty = true;
                    }
                    proof {
                        assert(self.rules@[i as int]@ == RuleView { target_node_id: new_id, ..rv });
                    }
                }
            }
            proof {
                assert forall|k: int| 0 <= k < self.rules@.len() && k != i implies self.rules@[k] == before[k] by {}
                assert(refreshed_rule(rv, self.rules@[i as int]@, g));
                if dirty {
                    if self.rules@[i as int]@.target_node_id == rv.target_node_id {
                        let k = choose|k: int| 0 <= k < i && #[trigger] before[k]@.target_node_id != rs[k].target_node_id;
                        assert(self.rules@[k] == before[k]);
                    }
                } else {
                    assert forall|k: int| 0 <= k < i + 1 implies !(#[trigger] self.rules@[k]@.target_node_id != rs[k].target_node_id) by {
                        if k < i {
                            assert(self.rules@[k] == before[k]);
                        }
                    }
                }
            }
            i = i + 1;
        }
        if dirty {
            self.rules_dirty = true;
        }
        proof {
            let nr = self.rules_view();
            assert forall|k: int| 0 <= k < rs.len() implies refreshed_rule(#[trigger] rs[k], nr[k], g) by {
                assert(nr[k] == self.rules@[k]@);
            }
            if dirty {
                let k = choose|k: int| 0 <= k < rs.len() && #[trigger] self.rules@[k]@.target_node_id != rs[k].target_node_id;
                assert(nr[k] == self.rules@[k]@);
            } else {
                assert forall|k: int| 0 <= k < rs.len() implies !(#[trigger] nr[k].target_node_id != rs[k].target_node_id) by {
                    assert(nr[k] == self.rules@[k]@);
                }
            }
        }
    }
}


impl PatchbayManager {
    /// One pass of the patchbay: refresh stale rule targets, then connect
    /// what the rules ask for and disconnect what they forbid. Does nothing
    /// when disabled or without rules.
    pub fn scan(&mut self, graph: &GraphState) -> (r: Vec<PwCommand>)
        requires
            graph.wf(),
        ensures
            final(self).enabled_flag() == old(self).enabled_flag(),
            if !old(self).enabled_flag() || old(self).rules_view().len() == 0 {
                &&& r@.len() == 0
                &&& final(self).rules_view() == old(self).rules_view()
                &&& final(self).dirty_flag() == old(self).dirty_flag()
            } else {
                &&& refreshed(old(self).rules_view(), final(self).rules_view(), graph@)
                &&& final(self).dirty_flag() == (old(self).dirty_flag() || some_target_changed(old(self).rules_view(), final(self).rules_view()))
                &&& all_called_for(final(self).rules_view(), graph@, r@)
                &&& forall|id: ObjectId| #[trigger] graph@.links.contains_key(id) && should_remove(final(self).rules_view(), graph@, graph@.links[id])
                    ==> r@.contains(PwCommand::Disconnect { link_id: id })
                &&& rules_restored(final(self).rules_view(), graph@, graph.node_list(), r@)
            },
    {
        if !self.enabled || self.rules.len() == 0 {
            return Vec::new();
        }
        self.refresh_target_ids(graph);
        let ghost g = graph@;
        let ghost rs = self.rules_view();
        let mut commands: Vec<PwCommand> = Vec::new();
        let nodes = graph.get_all_nodes();
        let ghost nv = node_views(nodes@);
        let mut ni: usize = 0;
        while ni < nodes.len()
            invariant
                graph.wf(),
                g == graph@,
                rs == self.rules_view(),
                nv == node_views(nodes@),
                ids_distinct(nv, node_key()),
                id_table(nv, node_key()) == g.nodes,
                0 <= ni <= nodes@.len(),
                all_called_for(rs, g, commands@),
                forall|j: int, k: int| 0 <= j < rs.len() && 0 <= k < ni ==> #[trigger] rule_node_done(rs, g, nv, j, k, commands@),
            decreases nodes@.len() - ni,
        {
            let node = &nodes[ni];
            proof {
                assert(nv[ni as int] == node@);
                lemma_id_table_at(nv, node_key(), ni as int);
            }
            if node.ready && is_routable_node(node) && node_has_outputs(node.node_type) {
                let output_ports = graph.get_output_ports(node.id);
                if output_ports.len() > 0 {
                    let mut ri: usize = 0;
                    while ri < self.rules.len()
                        invariant
                            graph.wf(),
                            g == graph@,
                            rs == self.rules_view(),
                            nv == node_views(nodes@),
                            ids_distinct(nv, node_key()),
                            id_table(nv, node_key()) == g.nodes,
                            ni < nodes@.len(),
                            node@ == nv[ni as int],
                            g.nodes.contains_key(node@.id),
                            g.nodes[node@.id] == node@,
                            node@.ready && is_routable(node@) && opt_has_outputs(node@.node_type),
                            ids_distinct(port_views(output_ports@), port_key()),
                            id_table(port_views(output_ports@), port_key()) == keep_values(g.ports, |p: PortView| p.node_id == node@.id && p.direction == PortDirection::Output),
                            0 <= ri <= rs.len(),
                            all_called_for(rs, g, commands@),
                            forall|j: int, k: int| 0 <= j < rs.len() && 0 <= k < ni ==> #[trigger] rule_node_done(rs, g, nv, j, k, commands@),
                            forall|j: int| 0 <= j < ri ==> #[trigger] rule_node_done(rs, g, nv, j, ni as int, commands@),
                        decreases rs.len() - ri,
                    {
                        let rule = &self.rules[ri];
                        assert(rule@ == rs[ri as int]);
                        if rule.enabled && rule.matches_source(node.display_name(), node.node_type) {
                            if let Some(ti) = find_matching_target(rule, nodes.as_slice(), node.id) {
                                proof {
                                    lemma_matching_target(rule@, nv, node@.id);
                                }
                                let target = &nodes[ti];
                                let target_ports = graph.get_input_ports(target.id);
                                proof {
                                    assert(nv[ti as int] == target@);
                                    lemma_id_table_at(nv, node_key(), ti as int);
                                    let opv = port_views(output_ports@);
                                    assert forall|k: int| 0 <= k < output_ports@.len() implies #[trigger] output_ports@[k]@.node_id == node@.id
                                        && source_port_ok(rs, g, ri as int, output_ports@[k]@) by {
                                        assert(opv[k] == output_ports@[k]@);
                                        lemma_id_table_at(opv, port_key(), k);
                                    }
                                    let tpv = port_views(target_ports@);
                                    assert forall|k: int| 0 <= k < target_ports@.len() implies target_port_ok(rs, g, ri as int, #[trigger] target_ports@[k]@, node@.id) by {
                                        assert(tpv[k] == target_ports@[k]@);
                                        lemma_id_table_at(tpv, port_key(), k);
                                    }
                                }
                                proof {
                                    assert(keep_values(g.ports, |p: PortView| p.node_id == node@.id && p.direction == PortDirection::Output)
                                        =~= keep_values(g.ports, |p: PortView| p.node_id == node@.id && p.direction == PortDirection::Output));
                                    assert(lists_ports_of(port_views(target_ports@), g, target@.id, PortDirection::Input));
                                    assert(lists_ports_of(port_views(output_ports@), g, node@.id, PortDirection::Output));
                                }
                                let mut cs = self.generate_connections(rule, Ghost(ri as int), Ghost(node.id), Ghost(target.id), &output_ports, &target_ports, graph);
                                let ghost before = commands@;
                                let ghost added = cs@;
                                commands.append(&mut cs);
                                proof {
                                    assert(commands@ =~= before + added);
                                    assert forall|c: PwCommand| before.contains(c) implies #[trigger] commands@.contains(c) by {
                                        let m = choose|m: int| 0 <= m < before.len() && before[m] == c;
                                        assert(commands@[m] == c);
                                    }
                                    assert forall|c: PwCommand| added.contains(c) implies #[trigger] commands@.contains(c) by {
                                        let m = choose|m: int| 0 <= m < added.len() && added[m] == c;
                                        assert(commands@[before.len() + m] == c);
                                    }
                                    assert forall|j: int, k: int| 0 <= j < rs.len() && 0 <= k < ni implies #[trigger] rule_node_done(rs, g, nv, j, k, commands@) by {
                                        lemma_done_grows(rs, g, nv, j, k, before, commands@);
                                    }
                                    assert forall|j: int| 0 <= j < ri implies #[trigger] rule_node_done(rs, g, nv, j, ni as int, commands@) by {
                                        lemma_done_grows(rs, g, nv, j, ni as int, before, commands@);
                                    }
                                    lemma_restored_grows(rule@, g, node@.id, target@.id, added, commands@);
                                    assert(nv[ti as int].id == target@.id);
                                    assert(rule_node_done(rs, g, nv, ri as int, ni as int, commands@));
                                    assert forall|k: int| 0 <= k < commands@.len() implies command_called_for(rs, g, #[trigger] commands@[k]) by {
                                        if k < before.len() {
                                            assert(commands@[k] == before[k]);
                                        } else {
                                            assert(commands@[k] == added[k - before.len()]);
                                        }
                                    }
                                }
                            }
                        }
                        ri = ri + 1;
                    }
                } else {
                    proof {
                        assert forall|j: int| 0 <= j < rs.len() implies #[trigger] rule_node_done(rs, g, nv, j, ni as int, commands@) by {
                            if exists|o: ObjectId| #[trigger] port_on(g, o, node@.id, PortDirection::Output) {
                                let o = choose|o: ObjectId| #[trigger] port_on(g, o, node@.id, PortDirection::Output);
                                assert(keep_values(g.ports, |p: PortView| p.node_id == node@.id && p.direction == PortDirection::Output)
                                    =~= keep_values(g.ports, |p: PortView| p.node_id == node@.id && p.direction == PortDirection::Output));
                                let _ = lemma_port_listed(port_views(output_ports@), g, node@.id, PortDirection::Output, o);
                            }
                        }
                    }
                }
            }
            proof {
                assert forall|j: int, k: int| 0 <= j < rs.len() && 0 <= k < ni + 1 implies #[trigger] rule_node_done(rs, g, nv, j, k, commands@) by {
                    if k == ni {
                        assert(nv[ni as int] == node@);
                    }
                }
            }
            ni = ni + 1;
        }
        let links = graph.get_all_links();
        let mut li: usize = 0;
        while li < links.len()
            invariant
                graph.wf(),
                g == graph@,
                rs == self.rules_view(),
                ids_distinct(links@, link_key()),
                id_table(links@, link_key()) == g.links,
                0 <= li <= links@.len(),
                all_called_for(rs, g, commands@),
                forall|k: int| 0 <= k < li && should_remove(rs, g, #[trigger] links@[k]) ==> commands@.contains(PwCommand::Disconnect { link_id: links@[k].id }),
                nv == node_views(nodes@),
                rules_restored(rs, g, nv, commands@),
            decreases links@.len() - li,
        {
            let link = &links[li];
            proof {
                lemma_id_table_at(links@, link_key(), li as int);
            }
            if self.should_remove_link(link, graph) {
                let ghost before = commands@;
                commands.push(PwCommand::Disconnect { link_id: link.id });
                proof {
                    assert forall|c: PwCommand| before.contains(c) implies #[trigger] commands@.contains(c) by {
                        let m = choose|m: int| 0 <= m < before.len() && before[m] == c;
                        assert(commands@[m] == c);
                    }
                    assert forall|j: int, k: int| 0 <= j < rs.len() && 0 <= k < nv.len() implies #[trigger] rule_node_done(rs, g, nv, j, k, commands@) by {
                        lemma_done_grows(rs, g, nv, j, k, before, commands@);
                    }
                    assert(commands@.last() == PwCommand::Disconnect { link_id: link.id });
                    assert forall|k: int| 0 <= k < commands@.len() implies command_called_for(rs, g, #[trigger] commands@[k]) by {
                        if k < before.len() {
                            assert(commands@[k] == before[k]);
                        }
                    }
                    assert forall|k: int| 0 <= k < li + 1 && should_remove(rs, g, #[trigger] links@[k]) implies commands@.contains(PwCommand::Disconnect { link_id: links@[k].id }) by {
                        if k < li {
                            let m = choose|m: int| 0 <= m < before.len() && before[m] == PwCommand::Disconnect { link_id: links@[k].id };
                            assert(commands@[m] == before[m]);
                        } else {
                            assert(commands@[before.len() as int] == PwCommand::Disconnect { link_id: links@[k].id });
                        }
                    }
                }
            }
            li = li + 1;
        }
        proof {
            assert forall|id: ObjectId| #[trigger] g.links.contains_key(id) && should_remove(rs, g, g.links[id])
                implies commands@.contains(PwCommand::Disconnect { link_id: id }) by {
                let k = lemma_id_table_has(links@, link_key(), id);
            }
        }
        commands
    }
}


impl PatchbayManager {
    /// The first rule with this key.
    fn rule_with_key(rules: &Vec<AutoConnectRule>, src: &str, tgt: &str, tgt_type: Option<NodeType>, tgt_id: ObjectId) -> (r: Option<usize>)
        ensures
            match r {
                Some(a) => a < rules@.len() && rule_key(rules@[a as int]@) == (src@, tgt@, tgt_type, Some(tgt_id)),
                None => forall|a: int| 0 <= a < rules@.len() ==> rule_key(#[trigger] rules@[a]@) != (src@, tgt@, tgt_type, Some(tgt_id)),
            },
    {
        let mut a: usize = 0;
        while a < rules.len()
            invariant
                0 <= a <= rules@.len(),
                forall|b: int| 0 <= b < a ==> rule_key(#[trigger] rules@[b]@) != (src@, tgt@, tgt_type, Some(tgt_id)),
            decreases rules@.len() - a,
        {
            let r = &rules[a];
            let same_type = match (r.target_node_type, tgt_type) {
                (Some(x), Some(y)) => x == y,
                (None, None) => true,
                _ => false,
            };
            let same_id = match r.target_node_id {
                Some(x) => x == tgt_id,
                None => false,
            };
            if str_eq(r.source_pattern.as_str(), src) && str_eq(r.target_pattern.as_str(), tgt) && same_type && same_id {
                return Some(a);
            }
            a = a + 1;
        }
        None
    }

    /// Replace the rules by those learned from the graph's current links:
    /// one rule per (source name, target name, target type, target id),
    /// carrying the port pairs of its links.
    pub fn snapshot_current_connections(&mut self, graph: &GraphState)
        requires
            graph.wf(),
        ensures
            exists|links: Seq<Link>| ids_distinct(links, link_key()) && id_table(links, link_key()) == graph@.links
                && #[trigger] snapshot_of(graph@, links, final(self).rules_view()),
            final(self).dirty_flag(),
            final(self).enabled_flag() == old(self).enabled_flag(),
    {
        let links = graph.get_all_links();
        let ghost g = graph@;
        proof {
            graph.lemma_keys_are_ids();
        }
        let mut out: Vec<AutoConnectRule> = Vec::new();
        proof {
            lemma_snapshot_empty(g, links@);
            assert(rule_views(out@) =~= Seq::<RuleView>::empty());
        }
        let mut i: usize = 0;
        while i < links.len()
            invariant
                graph.wf(),
                g == graph@,
                forall|id: ObjectId| #[trigger] g.nodes.contains_key(id) ==> g.nodes[id].id == id,
                0 <= i <= links@.len(),
                snapshot_upto(g, links@, i as int, rule_views(out@)),
                self.enabled == old(self).enabled,
            decreases links@.len() - i,
        {
            let link = &links[i];
            let ghost rv0 = rule_views(out@);
            let source = graph.get_node(link.output_node_id);
            let target = graph.get_node(link.input_node_id);
            let out_port = graph.get_port(link.output_port_id);
            let in_port = graph.get_port(link.input_port_id);
            let mut learned = false;
            let ghost out0 = out@;
            if let (Some(source), Some(target), Some(out_port), Some(in_port)) = (source, target, out_port, in_port) {
                if source.id != target.id && is_routable_node(&source) && is_routable_node(&target) {
                    learned = true;
                    let sname = source.display_name();
                    let tname = target.display_name();
                    let ghost key = link_rule_key(g, *link);
                    let ghost pair = link_pair(g, *link);
                    assert(link_qualifies(g, links@[i as int]));
                    match Self::rule_with_key(&out, sname, tname, target.node_type, target.id) {
                        Some(a) => {
                            let ghost before = out@;
                            out[a].add_port_mapping(out_port.name.clone(), in_port.name.clone());
                            proof {
                                let rv = rule_views(out@);
                                assert(rv0[a as int] == before[a as int]@);
                                assert(rv[a as int] == with_pair(rv0[a as int], pair));
                                assert(rv =~= rv0.update(a as int, with_pair(rv0[a as int], pair)));
                                lemma_snapshot_add_pair(g, links@, i as int, rv0, a as int, with_pair(rv0[a as int], pair));
                            }
                        },
                        None => {
                            let mut r = AutoConnectRule::new(sname, source.node_type, tname, target.node_type, Some(target.id));
                            r.add_port_mapping(out_port.name.clone(), in_port.name.clone());
                            let ghost nr = r@;
                            out.push(r);
                            proof {
                                assert(nr.port_mappings =~= seq![pair]);
                                assert(rule_views(out@) =~= rv0.push(nr));
                                assert forall|b: int| 0 <= b < rv0.len() implies rule_key(#[trigger] rv0[b]) != link_rule_key(g, links@[i as int]) by {
                                    assert(rv0[b] == out@[b]@);
                                }
                                lemma_snapshot_new_rule(g, links@, i as int, rv0, nr);
                            }
                        },
                    }
                }
            }
            proof {
                if !learned {
                    assert(!link_qualifies(g, links@[i as int]));
                    lemma_snapshot_skip(g, links@, i as int, rv0);
                }
            }
            i = i + 1;
        }
        let ghost rv = rule_views(out@);
        self.rules = out;
        self.rules_dirty = true;
        proof {
            assert(self.rules_view() == rv);
            assert(snapshot_of(graph@, links@, self.rules_view()));
        }
    }
}

} // verus!
