//! The PipeWire graph as the library sees it: nodes, ports and links.
use vstd::prelude::*;

verus! {

/// Identifier of a PipeWire object (node, port or link).
pub type ObjectId = u32;

#[derive(Debug, Clone, Copy, PartialEq, Eq, Hash, Structural)]
pub enum MediaType {
    Audio,
    Video,
    Midi,
}

#[derive(Debug, Clone, Copy, PartialEq, Eq, Hash, Structural)]
pub enum NodeType {
    Sink,
    Source,
    StreamOutput,
    StreamInput,
    Duplex,
    Plugin,
}

#[derive(Debug, Clone, Copy, PartialEq, Eq, PartialOrd, Ord, Hash, Structural)]
pub enum PortDirection {
    Input,
    Output,
}

pub open spec fn node_type_has_outputs(t: NodeType) -> bool {
    match t {
        NodeType::Source | NodeType::StreamOutput | NodeType::Duplex | NodeType::Plugin => true,
        _ => false,
    }
}

pub open spec fn node_type_has_inputs(t: NodeType) -> bool {
    match t {
        NodeType::Sink | NodeType::StreamInput | NodeType::Duplex | NodeType::Plugin => true,
        _ => false,
    }
}

impl NodeType {
    /// Whether nodes of this kind produce output (sources, app outputs, duplex, plugins).
    pub fn has_outputs(&self) -> (r: bool)
        ensures
            r == node_type_has_outputs(*self),
    {
        match self {
            NodeType::Source | NodeType::StreamOutput | NodeType::Duplex | NodeType::Plugin => true,
            _ => false,
        }
    }

    /// Whether nodes of this kind accept input (sinks, app inputs, duplex, plugins).
    pub fn has_inputs(&self) -> (r: bool)
        ensures
            r == node_type_has_inputs(*self),
    {
        match self {
            NodeType::Sink | NodeType::StreamInput | NodeType::Duplex | NodeType::Plugin => true,
            _ => false,
        }
    }
}

/// A node of the graph.
#[derive(Debug)]
pub struct Node {
    pub id: ObjectId,
    pub name: String,
    pub description: String,
    pub media_type: Option<MediaType>,
    pub node_type: Option<NodeType>,
    pub is_virtual: bool,
    pub is_jack: bool,
    pub is_bridge: bool,
    pub ready: bool,
}

/// The mathematical value of a [`Node`].
pub struct NodeView {
    pub id: ObjectId,
    pub name: Seq<char>,
    pub description: Seq<char>,
    pub media_type: Option<MediaType>,
    pub node_type: Option<NodeType>,
    pub is_virtual: bool,
    pub is_jack: bool,
    pub is_bridge: bool,
    pub ready: bool,
}

impl View for Node {
    type V = NodeView;

    open spec fn view(&self) -> NodeView {
        NodeView {
            id: self.id,
            name: self.name@,
            description: self.description@,
            media_type: self.media_type,
            node_type: self.node_type,
            is_virtual: self.is_virtual,
            is_jack: self.is_jack,
            is_bridge: self.is_bridge,
            ready: self.ready,
        }
    }
}

/// The name shown for a node: its description, else its name, else "Unknown".
pub open spec fn node_display_name(n: NodeView) -> Seq<char> {
    if n.description.len() > 0 {
        n.description
    } else if n.name.len() > 0 {
        n.name
    } else {
        "Unknown"@
    }
}

impl Node {
    /// The name shown for this node: its description, else its name, else "Unknown".
    pub fn display_name(&self) -> (r: &str)
        ensures
            r@ == node_display_name(self@),
    {
        if !self.description.as_str().is_empty() {
            self.description.as_str()
        } else if !self.name.as_str().is_empty() {
            self.name.as_str()
        } else {
            "Unknown"
        }
    }
}

impl Clone for Node {
    fn clone(&self) -> (r: Self)
        ensures
            r@ == self@,
    {
        Node {
            id: self.id,
            name: self.name.clone(),
            description: self.description.clone(),
            media_type: self.media_type,
            node_type: self.node_type,
            is_virtual: self.is_virtual,
            is_jack: self.is_jack,
            is_bridge: self.is_bridge,
            ready: self.ready,
        }
    }
}

/// A port of a node.
#[derive(Debug)]
pub struct Port {
    pub id: ObjectId,
    pub node_id: ObjectId,
    pub name: String,
    pub direction: PortDirection,
    pub media_type: Option<MediaType>,
    pub channel: Option<String>,
    pub physical_index: Option<u32>,
    pub port_group: Option<String>,
    pub port_alias: Option<String>,
}

/// The mathematical value of a [`Port`].
pub struct PortView {
    pub id: ObjectId,
    pub node_id: ObjectId,
    pub name: Seq<char>,
    pub direction: PortDirection,
    pub media_type: Option<MediaType>,
    pub channel: Option<Seq<char>>,
    pub physical_index: Option<u32>,
    pub port_group: Option<Seq<char>>,
    pub port_alias: Option<Seq<char>>,
}

pub open spec fn opt_string_view(s: Option<String>) -> Option<Seq<char>> {
    match s {
        Some(x) => Some(x@),
        None => None,
    }
}

impl View for Port {
    type V = PortView;

    open spec fn view(&self) -> PortView {
        PortView {
            id: self.id,
            node_id: self.node_id,
            name: self.name@,
            direction: self.direction,
            media_type: self.media_type,
            channel: opt_string_view(self.channel),
            physical_index: self.physical_index,
            port_group: opt_string_view(self.port_group),
            port_alias: opt_string_view(self.port_alias),
        }
    }
}

/// The name shown for a port: its channel, else its name, else "port".
pub open spec fn port_display_name(p: PortView) -> Seq<char> {
    match p.channel {
        Some(c) => c,
        None => if p.name.len() > 0 {
            p.name
        } else {
            "port"@
        },
    }
}

/// A copy of an optional string.
pub fn clone_opt_string(s: &Option<String>) -> (r: Option<String>)
    ensures
        opt_string_view(r) == opt_string_view(*s),
{
    match s {
        Some(x) => Some(x.clone()),
        None => None,
    }
}

impl Port {
    /// The name shown for this port: its channel, else its name, else "port".
    pub fn display_name(&self) -> (r: &str)
        ensures
            r@ == port_display_name(self@),
    {
        match &self.channel {
            Some(channel) => channel.as_str(),
            None => if !self.name.as_str().is_empty() {
                self.name.as_str()
            } else {
                "port"
            },
        }
    }
}

impl Clone for Port {
    fn clone(&self) -> (r: Self)
        ensures
            r@ == self@,
    {
        Port {
            id: self.id,
            node_id: self.node_id,
            name: self.name.clone(),
            direction: self.direction,
            media_type: self.media_type,
            channel: clone_opt_string(&self.channel),
            physical_index: self.physical_index,
            port_group: clone_opt_string(&self.port_group),
            port_alias: clone_opt_string(&self.port_alias),
        }
    }
}

/// A link from an output port to an input port.
#[derive(Debug, Clone, Copy, PartialEq, Eq)]
pub struct Link {
    pub id: ObjectId,
    pub output_node_id: ObjectId,
    pub output_port_id: ObjectId,
    pub input_node_id: ObjectId,
    pub input_port_id: ObjectId,
    pub active: bool,
}

/// A request to the PipeWire thread. A parameter value travels as the bit
/// pattern of its `f32`.
#[derive(Debug, Clone, PartialEq, Eq)]
pub enum PwCommand {
    Connect { output_port_id: ObjectId, input_port_id: ObjectId },
    Disconnect { link_id: ObjectId },
    AddPlugin { plugin_uri: String, instance_id: u64, display_name: String },
    RemovePlugin { instance_id: u64 },
    SetPluginParameter { instance_id: u64, port_index: usize, value_bits: u32 },
    SetPluginBypass { instance_id: u64, bypassed: bool },
    OpenPluginUI { instance_id: u64 },
    ClosePluginUI { instance_id: u64 },
}

/// What the PipeWire thread reports about its plugins. A parameter value
/// travels as the bit pattern of its `f32`.
#[derive(Debug, Clone, PartialEq, Eq)]
pub enum Lv2Event {
    PluginAdded { instance_id: u64, pw_node_id: ObjectId, display_name: String },
    PluginRemoved { instance_id: u64 },
    ParameterChanged { instance_id: u64, port_index: usize, value_bits: u32 },
    PluginUiOpened { instance_id: u64 },
    PluginUiClosed { instance_id: u64 },
    PluginError { instance_id: Option<u64>, message: String },
}

/// What the PipeWire thread reports.
#[derive(Debug)]
pub enum PwEvent {
    NodeChanged(Node),
    NodeRemoved(ObjectId),
    PortChanged(Port),
    PortRemoved { port_id: ObjectId, node_id: ObjectId },
    LinkChanged(Link),
    LinkRemoved(ObjectId),
    Error(String),
    BatchComplete,
    Lv2(Lv2Event),
}

} // verus!
