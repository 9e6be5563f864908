//! What the PipeWire thread does when the registry announces or withdraws
//! an object: how the graph changes, and what it reports.
use vstd::prelude::*;

use crate::graph_state::{bumped, link_touches_node, ports_after_node, GraphState, GraphView};
use crate::id_table::keep_values;
use crate::pipewire_types::{
    node_display_name, Link, Lv2Event, NodeType, NodeView, ObjectId, PortView, PwEvent,
};
use crate::pw_props::{
    link_from_props, node_from_props, parse_link_from_props, parse_node, parse_port, parse_u64,
    port_from_props, prop_get, prop_of, u64_text,
};

verus! {

/// The kind of a registry object, as far as the graph goes.
#[derive(Debug, Clone, Copy, PartialEq, Eq, Structural)]
pub enum GlobalKind {
    Node,
    Port,
    Link,
    Other,
}

/// The plugin instance that a node's properties name, if they name one.
pub open spec fn plugin_instance_prop(props: Seq<(String, String)>) -> Option<u64> {
    match prop_of(props, "zestbay.plugin.instance_id"@) {
        Some(v) => u64_text(v),
        None => None,
    }
}

/// The plugin instance that a newly announced node stands for: a plugin
/// node whose properties name its instance.
pub open spec fn announced_plugin(n: NodeView, props: Seq<(String, String)>) -> Option<u64> {
    if n.node_type == Some(NodeType::Plugin) {
        plugin_instance_prop(props)
    } else {
        None
    }
}

/// `e` reports node `n` as changed.
pub open spec fn reports_node(e: PwEvent, n: NodeView) -> bool {
    e matches PwEvent::NodeChanged(x) && x@ == n
}

/// `e` reports port `p` as changed.
pub open spec fn reports_port(e: PwEvent, p: PortView) -> bool {
    e matches PwEvent::PortChanged(x) && x@ == p
}

/// `e` reports that plugin `instance_id` came up as node `n`.
pub open spec fn reports_plugin(e: PwEvent, instance_id: u64, n: NodeView) -> bool {
    &&& e matches PwEvent::Lv2(Lv2Event::PluginAdded { instance_id: i, pw_node_id, display_name })
    &&& i == instance_id
    &&& pw_node_id == n.id
    &&& display_name@ == node_display_name(n)
}

/// The graph with one more change counted.
pub open spec fn counted(g: GraphView) -> GraphView {
    GraphView { change_counter: bumped(g.change_counter), ..g }
}

/// Record an object that the registry announces and report it. A node, port
/// or link whose properties describe one replaces any other with its id; a
/// plugin node whose properties name its instance is first reported as an
/// added plugin. Anything else leaves the graph as it was and reports nothing.
pub fn handle_global(
    graph: &mut GraphState,
    kind: GlobalKind,
    id: ObjectId,
    props: Option<&Vec<(String, String)>>,
) -> (r: Vec<PwEvent>)
    requires
        old(graph).wf(),
    ensures
        final(graph).wf(),
        props is None ==> r@.len() == 0 && final(graph)@ == old(graph)@,
        props matches Some(p) ==> match kind {
            GlobalKind::Node => {
                let n = node_from_props(id, p@);
                &&& final(graph)@ == counted(
                    (GraphView {
                        nodes: old(graph)@.nodes.insert(id, n),
                        ports: ports_after_node(old(graph)@.ports, n),
                        ..old(graph)@
                    }),
                )
                &&& match announced_plugin(n, p@) {
                    Some(instance_id) => r@.len() == 2 && reports_plugin(r@[0], instance_id, n)
                        && reports_node(r@[1], n),
                    None => r@.len() == 1 && reports_node(r@[0], n),
                }
            },
            GlobalKind::Port => match port_from_props(id, p@, old(graph)@.nodes) {
                Some(pv) => final(graph)@ == counted(
                    (GraphView { ports: old(graph)@.ports.insert(id, pv), ..old(graph)@ }),
                ) && r@.len() == 1 && reports_port(r@[0], pv),
                None => r@.len() == 0 && final(graph)@ == old(graph)@,
            },
            GlobalKind::Link => match link_from_props(id, p@) {
                Some(l) => final(graph)@ == counted(
                    (GraphView { links: old(graph)@.links.insert(id, l), ..old(graph)@ }),
                ) && r@ == seq![PwEvent::LinkChanged(l)],
                None => r@.len() == 0 && final(graph)@ == old(graph)@,
            },
            GlobalKind::Other => r@.len() == 0 && final(graph)@ == old(graph)@,
        },
{
    let mut events: Vec<PwEvent> = Vec::new();
    let p = match props {
        Some(p) => p,
        None => return events,
    };
    match kind {
        GlobalKind::Node => {
            let node = match parse_node(id, Some(p)) {
                Some(n) => n,
                None => return events,
            };
            let is_plugin = match node.node_type {
                Some(NodeType::Plugin) => true,
                _ => false,
            };
            if is_plugin {
                if let Some(v) = prop_get(p, "zestbay.plugin.instance_id") {
                    if let Some(instance_id) = parse_u64(v) {
                        events.push(
                            PwEvent::Lv2(
                                Lv2Event::PluginAdded {
                                    instance_id,
                                    pw_node_id: id,
                                    display_name: node.display_name().to_string(),
                                },
                            ),
                        );
                    }
                }
            }
            let copy = node.clone();
            graph.insert_node(copy);
            events.push(PwEvent::NodeChanged(node));
        },
        GlobalKind::Port => {
            if let Some(port) = parse_port(id, Some(p), graph) {
                let copy = port.clone();
                graph.insert_port(copy);
                events.push(PwEvent::PortChanged(port));
            }
        },
        GlobalKind::Link => {
            if let Some(link) = parse_link_from_props(id, Some(p)) {
                graph.insert_link(link);
                events.push(PwEvent::LinkChanged(link));
            }
        },
        GlobalKind::Other => {},
    }
    events
}

/// Withdraw the object with this id and report it. A node takes its ports
/// and every link that starts or ends at one of them along; a port or a link
/// goes alone. An id that names nothing in the graph changes nothing and
/// reports nothing.
pub fn handle_global_remove(graph: &mut GraphState, id: ObjectId) -> (r: Option<PwEvent>)
    requires
        old(graph).wf(),
    ensures
        final(graph).wf(),
        old(graph)@.nodes.contains_key(id) ==> {
            &&& r matches Some(PwEvent::NodeRemoved(x)) && x == id
            &&& final(graph)@ == counted(
                counted(
                    (GraphView {
                        nodes: old(graph)@.nodes.remove(id),
                        ports: keep_values(old(graph)@.ports, |p: PortView| p.node_id != id),
                        links: keep_values(
                            old(graph)@.links,
                            |l: Link| !link_touches_node(l, old(graph)@.ports, id),
                        ),
                        ..old(graph)@
                    }),
                ),
            )
        },
        !old(graph)@.nodes.contains_key(id) && old(graph)@.ports.contains_key(id) ==> {
            &&& r matches Some(PwEvent::PortRemoved { port_id, node_id }) && port_id == id
                && node_id == old(graph)@.ports[id].node_id
            &&& final(graph)@ == counted(
                (GraphView { ports: old(graph)@.ports.remove(id), ..old(graph)@ }),
            )
        },
        !old(graph)@.nodes.contains_key(id) && !old(graph)@.ports.contains_key(id)
            && old(graph)@.links.contains_key(id) ==> {
            &&& r matches Some(PwEvent::LinkRemoved(x)) && x == id
            &&& final(graph)@ == counted(
                (GraphView { links: old(graph)@.links.remove(id), ..old(graph)@ }),
            )
        },
        !old(graph)@.nodes.contains_key(id) && !old(graph)@.ports.contains_key(id)
            && !old(graph)@.links.contains_key(id) ==> r is None && final(graph)@ == old(graph)@,
{
    if graph.remove_node(id).is_some() {
        graph.cleanup_node(id);
        return Some(PwEvent::NodeRemoved(id));
    }
    assert(graph@.nodes =~= old(graph)@.nodes);
    if let Some(port) = graph.remove_port(id) {
        return Some(PwEvent::PortRemoved { port_id: id, node_id: port.node_id });
    }
    assert(graph@.ports =~= old(graph)@.ports);
    if graph.remove_link(id).is_some() {
        return Some(PwEvent::LinkRemoved(id));
    }
    assert(graph@.links =~= old(graph)@.links);
    None
}

/// The sample rate and quantum that the core's properties announce: each
/// replaces the one before where its value reads as a number.
pub fn update_clock(props: &Vec<(String, String)>, sample_rate: &mut u32, quantum: &mut u32)
    ensures
        *final(sample_rate) == match prop_of(props@, "default.clock.rate"@) {
            Some(t) => match crate::pw_props::u32_text(t) {
                Some(v) => v,
                None => *old(sample_rate),
            },
            None => *old(sample_rate),
        },
        *final(quantum) == match prop_of(props@, "default.clock.quantum"@) {
            Some(t) => match crate::pw_props::u32_text(t) {
                Some(v) => v,
                None => *old(quantum),
            },
            None => *old(quantum),
        },
{
    if let Some(t) = prop_get(props, "default.clock.rate") {
        if let Some(v) = crate::pw_props::parse_u32(t) {
            *sample_rate = v;
        }
    }
    if let Some(t) = prop_get(props, "default.clock.quantum") {
        if let Some(v) = crate::pw_props::parse_u32(t) {
            *quantum = v;
        }
    }
}

} // verus!
