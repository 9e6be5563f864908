//! Auto-connect rules: which source nodes get wired to which target node.
use vstd::prelude::*;
use crate::digits::{digits_of, push_digits};
use crate::glob::{pattern_matches, pattern_matches_spec};
use crate::pipewire_types::{NodeType, ObjectId};

verus! {

/// A pair of port names that a rule connects.
#[derive(Debug, PartialEq, Eq, Hash)]
pub struct PortMapping {
    pub output_port_name: String,
    pub input_port_name: String,
}

impl View for PortMapping {
    type V = (Seq<char>, Seq<char>);

    open spec fn view(&self) -> (Seq<char>, Seq<char>) {
        (self.output_port_name@, self.input_port_name@)
    }
}

impl Clone for PortMapping {
    fn clone(&self) -> (r: Self)
        ensures
            r@ == self@,
    {
        PortMapping {
            output_port_name: self.output_port_name.clone(),
            input_port_name: self.input_port_name.clone(),
        }
    }
}

/// The views of a sequence of port mappings.
pub open spec fn port_mapping_views(s: Seq<PortMapping>) -> Seq<(Seq<char>, Seq<char>)> {
    s.map_values(|m: PortMapping| m@)
}

/// A rule: connect nodes whose name matches `source_pattern` (and whose type
/// is `source_node_type`, if given) to the node with id `target_node_id`, or
/// else to a node matching `target_pattern` and `target_node_type`.
#[derive(Debug)]
pub struct AutoConnectRule {
    pub id: String,
    pub source_pattern: String,
    pub source_node_type: Option<NodeType>,
    pub target_pattern: String,
    pub target_node_type: Option<NodeType>,
    pub target_node_id: Option<ObjectId>,
    pub port_mappings: Vec<PortMapping>,
    pub enabled: bool,
}

/// The mathematical value of a rule.
pub struct RuleView {
    pub id: Seq<char>,
    pub source_pattern: Seq<char>,
    pub source_node_type: Option<NodeType>,
    pub target_pattern: Seq<char>,
    pub target_node_type: Option<NodeType>,
    pub target_node_id: Option<ObjectId>,
    pub port_mappings: Seq<(Seq<char>, Seq<char>)>,
    pub enabled: bool,
}

impl View for AutoConnectRule {
    type V = RuleView;

    open spec fn view(&self) -> RuleView {
        RuleView {
            id: self.id@,
            source_pattern: self.source_pattern@,
            source_node_type: self.source_node_type,
            target_pattern: self.target_pattern@,
            target_node_type: self.target_node_type,
            target_node_id: self.target_node_id,
            port_mappings: port_mapping_views(self.port_mappings@),
            enabled: self.enabled,
        }
    }
}

/// Whether a node of type `node_type` passes the rule's type filter `expected`.
pub open spec fn type_filter_passes(expected: Option<NodeType>, node_type: Option<NodeType>) -> bool {
    match expected {
        Some(e) => node_type == Some(e),
        None => true,
    }
}

/// Whether a node is a source of the rule.
pub open spec fn rule_matches_source(r: RuleView, display_name: Seq<char>, node_type: Option<NodeType>) -> bool {
    type_filter_passes(r.source_node_type, node_type) && pattern_matches_spec(r.source_pattern, display_name)
}

/// Whether a node is a target of the rule: it is the rule's target node, or
/// it passes the type filter and its name matches the target pattern.
pub open spec fn rule_matches_target(
    r: RuleView,
    display_name: Seq<char>,
    node_type: Option<NodeType>,
    node_id: ObjectId,
) -> bool {
    r.target_node_id == Some(node_id) || (type_filter_passes(r.target_node_type, node_type)
        && pattern_matches_spec(r.target_pattern, display_name))
}

/// The short label of a node type.
pub open spec fn node_type_label_spec(nt: NodeType) -> Seq<char> {
    match nt {
        NodeType::Sink => "Sink"@,
        NodeType::Source => "Source"@,
        NodeType::StreamOutput => "App Out"@,
        NodeType::StreamInput => "App In"@,
        NodeType::Duplex => "Duplex"@,
        NodeType::Plugin => "Plugin"@,
    }
}

/// The short label of a node type.
pub fn node_type_label(nt: NodeType) -> (r: &'static str)
    ensures
        r@ == node_type_label_spec(nt),
{
    match nt {
        NodeType::Sink => "Sink",
        NodeType::Source => "Source",
        NodeType::StreamOutput => "App Out",
        NodeType::StreamInput => "App In",
        NodeType::Duplex => "Duplex",
        NodeType::Plugin => "Plugin",
    }
}

/// The suffix naming a type filter: " [label]", or nothing without a filter.
pub open spec fn type_suffix(t: Option<NodeType>) -> Seq<char> {
    match t {
        Some(nt) => " ["@ + node_type_label_spec(nt) + "]"@,
        None => Seq::empty(),
    }
}

/// The label shown for a rule's target.
pub open spec fn target_label_spec(r: RuleView) -> Seq<char> {
    r.target_pattern + type_suffix(r.target_node_type) + if r.port_mappings.len() == 0 {
        Seq::empty()
    } else {
        " ("@ + digits_of(r.port_mappings.len(), 10) + " ports)"@
    }
}

/// The label shown for a rule's source.
pub open spec fn source_label_spec(r: RuleView) -> Seq<char> {
    r.source_pattern + type_suffix(r.source_node_type)
}

fn push_type_suffix(s: &mut String, t: Option<NodeType>)
    ensures
        final(s)@ == old(s)@ + type_suffix(t),
{
    match t {
        Some(nt) => {
            let ghost s0 = s@;
            s.append(" [");
            s.append(node_type_label(nt));
            s.append("]");
            assert(s@ =~= s0 + type_suffix(t));
        },
        None => {
            assert(s@ =~= old(s)@ + type_suffix(t));
        },
    }
}

/// The current time since the Unix epoch, as whole seconds and the
/// nanoseconds past them.
#[verifier::external_body]
fn unix_time_now() -> (r: (u64, u32))
    ensures
        r.1 < 1_000_000_000,
{
    let d = std::time::SystemTime::now().duration_since(std::time::UNIX_EPOCH).unwrap_or_default();
    (d.as_secs(), d.subsec_nanos())
}

/// Whether `s` is the id that `uuid_simple` makes at time `secs`, `nanos`:
/// both numbers in lower-case hexadecimal, one after the other.
pub open spec fn is_time_id(s: Seq<char>, secs: u64, nanos: u32) -> bool {
    s == digits_of(secs as nat, 16) + digits_of(nanos as nat, 16)
}

/// The id for the time `secs` seconds and `nanos` nanoseconds past the Unix
/// epoch: both numbers in lower-case hexadecimal, one after the other.
pub fn time_id(secs: u64, nanos: u32) -> (r: String)
    ensures
        is_time_id(r@, secs, nanos),
{
    let mut s = String::new();
    push_digits(&mut s, secs, 16);
    push_digits(&mut s, nanos as u64, 16);
    s
}

/// A rule id made from the current time: the seconds and then the
/// nanoseconds since the Unix epoch, both in lower-case hexadecimal.
pub fn uuid_simple() -> (r: String)
    ensures
        exists|secs: u64, nanos: u32| nanos < 1_000_000_000 && #[trigger] is_time_id(r@, secs, nanos),
{
    let (secs, nanos) = unix_time_now();
    time_id(secs, nanos)
}

/// Whether the port-mapping list holds the pair `(out, inp)`.
fn has_port_mapping(list: &Vec<PortMapping>, out: &String, inp: &String) -> (r: bool)
    ensures
        r == port_mapping_views(list@).contains((out@, inp@)),
{
    let mut i: usize = 0;
    while i < list.len()
        invariant
            0 <= i <= list@.len(),
            forall|k: int| 0 <= k < i ==> list@[k]@ != (out@, inp@),
        decreases list@.len() - i,
    {
        if list[i].output_port_name == *out && list[i].input_port_name == *inp {
            proof {
                assert(port_mapping_views(list@)[i as int] == (out@, inp@));
            }
            return true;
        }
        i = i + 1;
    }
    proof {
        let v = port_mapping_views(list@);
        if v.contains((out@, inp@)) {
            let k = choose|k: int| 0 <= k < v.len() && v[k] == (out@, inp@);
            assert(v[k] == list@[k]@);
        }
    }
    false
}

impl AutoConnectRule {
    /// A new enabled rule with no port mappings and a fresh time-based id.
    pub fn new(
        source_pattern: &str,
        source_node_type: Option<NodeType>,
        target_pattern: &str,
        target_node_type: Option<NodeType>,
        target_node_id: Option<ObjectId>,
    ) -> (r: Self)
        ensures
            r@.source_pattern == source_pattern@,
            r@.source_node_type == source_node_type,
            r@.target_pattern == target_pattern@,
            r@.target_node_type == target_node_type,
            r@.target_node_id == target_node_id,
            r@.port_mappings == Seq::<(Seq<char>, Seq<char>)>::empty(),
            r@.enabled,
            exists|secs: u64, nanos: u32| nanos < 1_000_000_000 && #[trigger] is_time_id(r@.id, secs, nanos),
    {
        let id = uuid_simple();
        let ghost (secs, nanos) = choose|secs: u64, nanos: u32| nanos < 1_000_000_000 && #[trigger] is_time_id(id@, secs, nanos);
        let r = AutoConnectRule {
            id,
            source_pattern: source_pattern.to_owned(),
            source_node_type,
            target_pattern: target_pattern.to_owned(),
            target_node_type,
            target_node_id,
            port_mappings: Vec::new(),
            enabled: true,
        };
        assert(r@.port_mappings =~= Seq::<(Seq<char>, Seq<char>)>::empty());
        assert(is_time_id(r@.id, secs, nanos));
        r
    }

    /// Add the port pair unless the rule already has it; returns whether it was added.
    pub fn add_port_mapping(&mut self, output_port_name: String, input_port_name: String) -> (r: bool)
        ensures
            r == !old(self)@.port_mappings.contains((output_port_name@, input_port_name@)),
            final(self)@.port_mappings == if r {
                old(self)@.port_mappings.push((output_port_name@, input_port_name@))
            } else {
                old(self)@.port_mappings
            },
            final(self)@.id == old(self)@.id,
            final(self)@.source_pattern == old(self)@.source_pattern,
            final(self)@.source_node_type == old(self)@.source_node_type,
            final(self)@.target_pattern == old(self)@.target_pattern,
            final(self)@.target_node_type == old(self)@.target_node_type,
            final(self)@.target_node_id == old(self)@.target_node_id,
            final(self)@.enabled == old(self)@.enabled,
    {
        if has_port_mapping(&self.port_mappings, &output_port_name, &input_port_name) {
            false
        } else {
            let ghost before = self.port_mappings@;
            self.port_mappings.push(PortMapping { output_port_name, input_port_name });
            assert(port_mapping_views(self.port_mappings@) =~= port_mapping_views(before).push(
                self.port_mappings@.last()@,
            ));
            true
        }
    }

    /// Whether a node with this display name and type is a source of the rule.
    pub fn matches_source(&self, display_name: &str, node_type: Option<NodeType>) -> (r: bool)
        ensures
            r == rule_matches_source(self@, display_name@, node_type),
    {
        if let Some(expected) = self.source_node_type {
            let same = match node_type {
                Some(t) => t == expected,
                None => false,
            };
            if !same {
                return false;
            }
        }
        pattern_matches(self.source_pattern.as_str(), display_name)
    }

    /// Whether a node is a target of the rule: the rule's target node id, or
    /// a node that passes the type filter and matches the target pattern.
    pub fn matches_target(&self, display_name: &str, node_type: Option<NodeType>, node_id: ObjectId) -> (r: bool)
        ensures
            r == rule_matches_target(self@, display_name@, node_type, node_id),
    {
        if let Some(expected_id) = self.target_node_id {
            if node_id == expected_id {
                return true;
            }
        }
        if let Some(expected) = self.target_node_type {
            let same = match node_type {
                Some(t) => t == expected,
                None => false,
            };
            if !same {
                return false;
            }
        }
        pattern_matches(self.target_pattern.as_str(), display_name)
    }

    /// The label of the rule's target: the pattern, " [type]" if filtered by
    /// type, and " (n ports)" when it has n port mappings.
    pub fn target_label(&self) -> (r: String)
        ensures
            r@ == target_label_spec(self@),
    {
        let mut s = String::new();
        s.append(self.target_pattern.as_str());
        push_type_suffix(&mut s, self.target_node_type);
        let n = self.port_mappings.len();
        if n != 0 {
            let ghost s0 = s@;
            s.append(" (");
            push_digits(&mut s, n as u64, 10);
            s.append(" ports)");
            assert(s@ =~= s0 + (" ("@ + digits_of(n as nat, 10) + " ports)"@));
        }
        assert(s@ =~= target_label_spec(self@));
        s
    }

    /// The label of the rule's source: the pattern, and " [type]" if filtered by type.
    pub fn source_label(&self) -> (r: String)
        ensures
            r@ == source_label_spec(self@),
    {
        let mut s = String::new();
        s.append(self.source_pattern.as_str());
        push_type_suffix(&mut s, self.source_node_type);
        assert(s@ =~= source_label_spec(self@));
        s
    }
}

impl Clone for AutoConnectRule {
    fn clone(&self) -> (r: Self)
        ensures
            r@ == self@,
    {
        let mut maps: Vec<PortMapping> = Vec::new();
        let mut i: usize = 0;
        while i < self.port_mappings.len()
            invariant
                0 <= i <= self.port_mappings@.len(),
                port_mapping_views(maps@) == port_mapping_views(self.port_mappings@).take(i as int),
            decreases self.port_mappings@.len() - i,
        {
            let ghost before = maps@;
            maps.push(self.port_mappings[i].clone());
            proof {
                assert(port_mapping_views(maps@) =~= port_mapping_views(before).push(self.port_mappings@[i as int]@));
                assert(port_mapping_views(self.port_mappings@).take(i + 1) =~= port_mapping_views(self.port_mappings@).take(i as int).push(self.port_mappings@[i as int]@));
            }
            i = i + 1;
        }
        assert(port_mapping_views(self.port_mappings@).take(self.port_mappings@.len() as int) =~= port_mapping_views(self.port_mappings@));
        AutoConnectRule {
            id: self.id.clone(),
            source_pattern: self.source_pattern.clone(),
            source_node_type: self.source_node_type,
            target_pattern: self.target_pattern.clone(),
            target_node_type: self.target_node_type,
            target_node_id: self.target_node_id,
            port_mappings: maps,
            enabled: self.enabled,
        }
    }
}

} // verus!
