//! Reading PipeWire objects from the key/value properties that PipeWire
//! reports for them: a node's name, class and kind, a port's node,
//! direction and media, and a link's ends.
use vstd::prelude::*;
use vstd::string::StringExecFns;
use crate::graph_state::GraphState;
use crate::pipewire_types::{Link, MediaType, Node, NodeType, NodeView, ObjectId, Port, PortDirection, PortView};
use crate::text::{has_infix, str_contains, str_eq};

verus! {

broadcast use vstd::string::group_string_axioms;

/// The value of the first of the first `k` entries whose key is `key`.
pub open spec fn prop_in(props: Seq<(String, String)>, key: Seq<char>, k: int) -> Option<Seq<char>>
    decreases k,
{
    if k <= 0 {
        None
    } else {
        match prop_in(props, key, k - 1) {
            Some(v) => Some(v),
            None => if props[k - 1].0@ == key {
                Some(props[k - 1].1@)
            } else {
                None
            },
        }
    }
}

/// The value of the first entry whose key is `key`, as a dictionary
/// lookup gives it.
pub open spec fn prop_of(props: Seq<(String, String)>, key: Seq<char>) -> Option<Seq<char>> {
    prop_in(props, key, props.len() as int)
}

/// The value for `key`, or the empty string.
pub open spec fn prop_or_empty(props: Seq<(String, String)>, key: Seq<char>) -> Seq<char> {
    match prop_of(props, key) {
        Some(v) => v,
        None => Seq::empty(),
    }
}

proof fn lemma_prop_in_found(props: Seq<(String, String)>, key: Seq<char>, k: int, j: int)
    requires
        0 <= k <= j <= props.len(),
        prop_in(props, key, k) is Some,
    ensures
        prop_in(props, key, j) == prop_in(props, key, k),
    decreases j - k,
{
    if j > k {
        lemma_prop_in_found(props, key, k, j - 1);
    }
}

/// The value of the first entry of `props` whose key is `key`.
pub fn prop_get<'a>(props: &'a Vec<(String, String)>, key: &str) -> (r: Option<&'a str>)
    ensures
        match r {
            Some(v) => prop_of(props@, key@) == Some(v@),
            None => prop_of(props@, key@) is None,
        },
{
    let mut i: usize = 0;
    while i < props.len()
        invariant
            0 <= i <= props@.len(),
            prop_in(props@, key@, i as int) is None,
        decreases props@.len() - i,
    {
        if str_eq(props[i].0.as_str(), key) {
            proof {
                lemma_prop_in_found(props@, key@, i + 1, props@.len() as int);
            }
            return Some(props[i].1.as_str());
        }
        i = i + 1;
    }
    None
}

/// The value for `key` as a new string, or the empty string.
fn prop_string(props: &Vec<(String, String)>, key: &str) -> (r: String)
    ensures
        r@ == prop_or_empty(props@, key@),
{
    match prop_get(props, key) {
        Some(v) => v.to_string(),
        None => String::new(),
    }
}

/// The value for `key` as a new string, where there is one.
fn prop_opt_string(props: &Vec<(String, String)>, key: &str) -> (r: Option<String>)
    ensures
        crate::pipewire_types::opt_string_view(r) == prop_of(props@, key@),
{
    match prop_get(props, key) {
        Some(v) => Some(v.to_string()),
        None => None,
    }
}

/// The value of a decimal digit character.
pub open spec fn digit_value(c: char) -> int {
    c as int - '0' as int
}

/// Every character is an ASCII digit.
pub open spec fn all_digits(s: Seq<char>) -> bool {
    forall|i: int| 0 <= i < s.len() ==> '0' <= #[trigger] s[i] <= '9'
}

/// The number that a run of decimal digits writes.
pub open spec fn decimal_value(s: Seq<char>) -> nat
    decreases s.len(),
{
    if s.len() == 0 {
        0
    } else {
        (decimal_value(s.drop_last()) * 10 + digit_value(s.last())) as nat
    }
}

/// The text of an unsigned 32-bit number as `str::parse` reads it: an
/// optional `+`, then one or more decimal digits, of value at most
/// `u32::MAX`.
pub open spec fn u32_text(s: Seq<char>) -> Option<u32> {
    let body = if s.len() > 0 && s[0] == '+' { s.skip(1) } else { s };
    if body.len() > 0 && all_digits(body) && decimal_value(body) <= u32::MAX {
        Some(decimal_value(body) as u32)
    } else {
        None
    }
}

/// The value of the text of an unsigned number of at most `max`, read as
/// `str::parse` reads it: an optional `+`, then one or more decimal digits.
pub open spec fn decimal_text(s: Seq<char>, max: nat) -> Option<nat> {
    let body = if s.len() > 0 && s[0] == '+' { s.skip(1) } else { s };
    if body.len() > 0 && all_digits(body) && decimal_value(body) <= max {
        Some(decimal_value(body))
    } else {
        None
    }
}

/// The text of an unsigned 64-bit number as `str::parse` reads it.
pub open spec fn u64_text(s: Seq<char>) -> Option<u64> {
    match decimal_text(s, u64::MAX as nat) {
        Some(v) => Some(v as u64),
        None => None,
    }
}

/// Reads an unsigned number of at most `max` (see [`decimal_text`]).
fn parse_bounded(s: &str, max: u64) -> (r: Option<u64>)
    ensures
        match decimal_text(s@, max as nat) {
            Some(v) => r == Some(v as u64),
            None => r is None,
        },
{
    let cs = crate::text::chars_of(s);
    let start: usize = if cs.len() > 0 && cs[0] == '+' { 1 } else { 0 };
    let ghost body = if s@.len() > 0 && s@[0] == '+' { s@.skip(1) } else { s@ };
    proof {
        assert(body == cs@.skip(start as int));
    }
    if start >= cs.len() {
        return None;
    }
    let mut acc: u128 = 0;
    let mut i: usize = start;
    while i < cs.len()
        invariant
            cs@ == s@,
            body == cs@.skip(start as int),
            body == (if s@.len() > 0 && s@[0] == '+' { s@.skip(1) } else { s@ }),
            start < cs@.len(),
            start <= i <= cs@.len(),
            all_digits(cs@.subrange(start as int, i as int)),
            acc == decimal_value(cs@.subrange(start as int, i as int)),
            acc <= max,
        decreases cs@.len() - i,
    {
        let c = cs[i];
        let ghost t = cs@.subrange(start as int, i + 1);
        proof {
            assert(t.drop_last() == cs@.subrange(start as int, i as int));
            assert(t.last() == c);
        }
        if c < '0' || c > '9' {
            proof {
                assert(body[i - start] == c);
                assert(!all_digits(body));
            }
            return None;
        }
        let d = (c as u32 - '0' as u32) as u128;
        acc = acc * 10 + d;
        proof {
            assert(digit_value(c) == d);
            assert(decimal_value(t) == decimal_value(t.drop_last()) * 10 + digit_value(t.last()));
        }
        if acc > max as u128 {
            proof {
                if all_digits(body) {
                    lemma_decimal_prefix_le(body, (i + 1 - start) as int);
                    assert(body.take((i + 1 - start) as int) == t);
                }
            }
            return None;
        }
        i = i + 1;
    }
    proof {
        assert(cs@.subrange(start as int, cs@.len() as int) == body);
    }
    Some(acc as u64)
}

/// Reads an unsigned 32-bit number (see [`u32_text`]).
pub fn parse_u32(s: &str) -> (r: Option<u32>)
    ensures
        r == u32_text(s@),
{
    match parse_bounded(s, 0xffff_ffff) {
        Some(v) => Some(v as u32),
        None => None,
    }
}

/// Reads an unsigned 64-bit number (see [`u64_text`]).
pub fn parse_u64(s: &str) -> (r: Option<u64>)
    ensures
        r == u64_text(s@),
{
    parse_bounded(s, 0xffff_ffff_ffff_ffff)
}

proof fn lemma_decimal_prefix_le(s: Seq<char>, k: int)
    requires
        0 <= k <= s.len(),
        all_digits(s),
    ensures
        decimal_value(s.take(k)) <= decimal_value(s),
    decreases s.len() - k,
{
    if k < s.len() {
        lemma_decimal_prefix_le(s, k + 1);
        let t = s.take(k + 1);
        assert(t.drop_last() == s.take(k));
        assert(t.last() == s[k]);
        assert('0' <= s[k] <= '9');
        assert(decimal_value(t) == decimal_value(s.take(k)) * 10 + digit_value(s[k]));
    } else {
        assert(s.take(k) == s);
    }
}

/// `p` begins `s`.
pub open spec fn has_prefix(s: Seq<char>, p: Seq<char>) -> bool {
    p.len() <= s.len() && s.take(p.len() as int) == p
}

/// Whether `s` starts with `p`.
pub fn str_starts_with(s: &str, p: &str) -> (r: bool)
    ensures
        r == has_prefix(s@, p@),
{
    let sc = crate::text::chars_of(s);
    let pc = crate::text::chars_of(p);
    if pc.len() > sc.len() {
        return false;
    }
    let mut i: usize = 0;
    while i < pc.len()
        invariant
            sc@ == s@,
            pc@ == p@,
            pc@.len() <= sc@.len(),
            0 <= i <= pc@.len(),
            forall|j: int| 0 <= j < i ==> sc@[j] == pc@[j],
        decreases pc@.len() - i,
    {
        if sc[i] != pc[i] {
            proof {
                assert(s@.take(p@.len() as int)[i as int] != p@[i as int]);
            }
            return false;
        }
        i = i + 1;
    }
    proof {
        assert(s@.take(p@.len() as int) =~= p@);
    }
    true
}

/// The code of a character with ASCII capitals taken to small letters.
pub open spec fn ascii_lower_code(c: char) -> u32 {
    if 'A' <= c <= 'Z' { (c as u32 + 32) as u32 } else { c as u32 }
}

/// The two strings are equal but for the case of ASCII letters.
pub open spec fn eq_ignoring_ascii_case(a: Seq<char>, b: Seq<char>) -> bool {
    a.len() == b.len() && forall|i: int| 0 <= i < a.len() ==> ascii_lower_code(#[trigger] a[i]) == ascii_lower_code(b[i])
}

/// Whether the strings are equal but for the case of ASCII letters.
pub fn eq_ignore_ascii_case(a: &str, b: &str) -> (r: bool)
    ensures
        r == eq_ignoring_ascii_case(a@, b@),
{
    let ac = crate::text::chars_of(a);
    let bc = crate::text::chars_of(b);
    if ac.len() != bc.len() {
        return false;
    }
    let mut i: usize = 0;
    while i < ac.len()
        invariant
            ac@ == a@,
            bc@ == b@,
            ac@.len() == bc@.len(),
            0 <= i <= ac@.len(),
            forall|j: int| 0 <= j < i ==> ascii_lower_code(#[trigger] ac@[j]) == ascii_lower_code(bc@[j]),
        decreases ac@.len() - i,
    {
        let x = ac[i];
        let y = bc[i];
        let xl: u32 = if 'A' <= x && x <= 'Z' { x as u32 + 32 } else { x as u32 };
        let yl: u32 = if 'A' <= y && y <= 'Z' { y as u32 + 32 } else { y as u32 };
        if xl != yl {
            return false;
        }
        i = i + 1;
    }
    true
}

/// The class of a node: its `media.class`, else `media.type/media.category`
/// where either of those is set, else empty.
pub open spec fn effective_class(props: Seq<(String, String)>) -> Seq<char> {
    let mc = prop_or_empty(props, "media.class"@);
    if mc.len() > 0 {
        mc
    } else {
        let mt = prop_or_empty(props, "media.type"@);
        let cat = prop_or_empty(props, "media.category"@);
        if mt.len() > 0 || cat.len() > 0 {
            mt + "/"@ + cat
        } else {
            Seq::empty()
        }
    }
}

/// The media a node class names: audio, else video, else MIDI.
pub open spec fn class_media(cls: Seq<char>) -> Option<MediaType> {
    if has_infix(cls, "Audio"@) {
        Some(MediaType::Audio)
    } else if has_infix(cls, "Video"@) {
        Some(MediaType::Video)
    } else if has_infix(cls, "Midi"@) {
        Some(MediaType::Midi)
    } else {
        None
    }
}

/// The kind of a node: a plugin where it carries a plugin instance id,
/// else the first kind that its class names.
pub open spec fn class_node_type(is_plugin: bool, cls: Seq<char>) -> Option<NodeType> {
    if is_plugin {
        Some(NodeType::Plugin)
    } else if has_infix(cls, "Sink"@) {
        Some(NodeType::Sink)
    } else if has_infix(cls, "Source"@) && !has_infix(cls, "Stream"@) {
        Some(NodeType::Source)
    } else if has_infix(cls, "Stream/Output"@) || has_infix(cls, "Playback"@) {
        Some(NodeType::StreamOutput)
    } else if has_infix(cls, "Stream/Input"@) || has_infix(cls, "Record"@) {
        Some(NodeType::StreamInput)
    } else if has_infix(cls, "Duplex"@) || has_infix(cls, "Bridge"@) {
        Some(NodeType::Duplex)
    } else {
        None
    }
}

/// The node that the properties of object `id` describe.
pub open spec fn node_from_props(id: ObjectId, props: Seq<(String, String)>) -> NodeView {
    let cls = effective_class(props);
    NodeView {
        id,
        name: prop_or_empty(props, "node.name"@),
        description: match prop_of(props, "node.description"@) {
            Some(d) => d,
            None => prop_or_empty(props, "node.nick"@),
        },
        media_type: class_media(cls),
        node_type: class_node_type(prop_of(props, "zestbay.plugin.instance_id"@) is Some, cls),
        is_virtual: match prop_of(props, "node.virtual"@) {
            Some(v) => eq_ignoring_ascii_case(v, "true"@),
            None => false,
        },
        is_jack: prop_of(props, "client.api"@) == Some("jack"@),
        is_bridge: has_infix(cls, "Bridge"@),
        ready: true,
    }
}

/// The class of the node that `props` describe (see [`effective_class`]).
fn node_class(props: &Vec<(String, String)>) -> (r: String)
    ensures
        r@ == effective_class(props@),
{
    proof {
        reveal_strlit("");
    }
    let media_class = prop_string(props, "media.class");
    if !media_class.as_str().is_empty() {
        return media_class;
    }
    let mt = match prop_get(props, "media.type") {
        Some(v) => v,
        None => "",
    };
    let mc = match prop_get(props, "media.category") {
        Some(v) => v,
        None => "",
    };
    if !mt.is_empty() || !mc.is_empty() {
        let mut s = mt.to_string();
        s.append("/");
        s.append(mc);
        s
    } else {
        String::new()
    }
}

/// The node that the properties of object `id` describe; none where the
/// object carries no properties.
pub fn parse_node(id: ObjectId, props: Option<&Vec<(String, String)>>) -> (r: Option<Node>)
    ensures
        match props {
            Some(p) => r matches Some(n) && n@ == node_from_props(id, p@),
            None => r is None,
        },
{
    let props = match props {
        Some(p) => p,
        None => return None,
    };
    let name = prop_string(props, "node.name");
    let description = match prop_get(props, "node.description") {
        Some(d) => d.to_string(),
        None => prop_string(props, "node.nick"),
    };
    let cls = node_class(props);
    let c = cls.as_str();
    let media_type = if str_contains(c, "Audio") {
        Some(MediaType::Audio)
    } else if str_contains(c, "Video") {
        Some(MediaType::Video)
    } else if str_contains(c, "Midi") {
        Some(MediaType::Midi)
    } else {
        None
    };
    let is_plugin = prop_get(props, "zestbay.plugin.instance_id").is_some();
    let node_type = if is_plugin {
        Some(NodeType::Plugin)
    } else if str_contains(c, "Sink") {
        Some(NodeType::Sink)
    } else if str_contains(c, "Source") && !str_contains(c, "Stream") {
        Some(NodeType::Source)
    } else if str_contains(c, "Stream/Output") || str_contains(c, "Playback") {
        Some(NodeType::StreamOutput)
    } else if str_contains(c, "Stream/Input") || str_contains(c, "Record") {
        Some(NodeType::StreamInput)
    } else if str_contains(c, "Duplex") || str_contains(c, "Bridge") {
        Some(NodeType::Duplex)
    } else {
        None
    };
    let is_virtual = match prop_get(props, "node.virtual") {
        Some(v) => eq_ignore_ascii_case(v, "true"),
        None => false,
    };
    let is_jack = match prop_get(props, "client.api") {
        Some(v) => str_eq(v, "jack"),
        None => false,
    };
    let is_bridge = str_contains(c, "Bridge");
    Some(Node { id, name, description, media_type, node_type, is_virtual, is_jack, is_bridge, ready: true })
}

/// The direction a port's properties give: its `port.direction` where set
/// (none for a value other than `in` and `out`), else as its name begins.
pub open spec fn port_direction_of(props: Seq<(String, String)>, name: Seq<char>) -> Option<PortDirection> {
    match prop_of(props, "port.direction"@) {
        Some(d) => if d == "in"@ {
            Some(PortDirection::Input)
        } else if d == "out"@ {
            Some(PortDirection::Output)
        } else {
            None
        },
        None => if has_prefix(name, "input"@) || has_prefix(name, "playback"@) {
            Some(PortDirection::Input)
        } else if has_prefix(name, "output"@) || has_prefix(name, "capture"@) || has_prefix(name, "monitor"@) {
            Some(PortDirection::Output)
        } else {
            None
        },
    }
}

/// The port that the properties of object `id` describe, given the nodes
/// known so far (whose media a port takes where nothing marks it MIDI);
/// none without a readable `node.id` or a direction.
pub open spec fn port_from_props(id: ObjectId, props: Seq<(String, String)>, nodes: Map<ObjectId, NodeView>) -> Option<PortView> {
    match prop_of(props, "node.id"@) {
        None => None,
        Some(t) => match u32_text(t) {
            None => None,
            Some(node_id) => {
                let name = prop_or_empty(props, "port.name"@);
                match port_direction_of(props, name) {
                    None => None,
                    Some(direction) => Some(PortView {
                        id,
                        node_id,
                        name,
                        direction,
                        media_type: if (match prop_of(props, "format.dsp"@) {
                            Some(f) => has_infix(f, "midi"@),
                            None => false,
                        }) {
                            Some(MediaType::Midi)
                        } else if has_prefix(name, "midi_"@) {
                            Some(MediaType::Midi)
                        } else {
                            match nodes.get(node_id) {
                                Some(nv) => nv.media_type,
                                None => None,
                            }
                        },
                        channel: prop_of(props, "audio.channel"@),
                        physical_index: match prop_of(props, "port.physical"@) {
                            Some(p) => u32_text(p),
                            None => None,
                        },
                        port_group: prop_of(props, "port.group"@),
                        port_alias: prop_of(props, "port.alias"@),
                    }),
                }
            },
        },
    }
}

/// The port that the properties of object `id` describe (see
/// [`port_from_props`]); none where the object carries no properties.
pub fn parse_port(id: ObjectId, props: Option<&Vec<(String, String)>>, graph: &GraphState) -> (r: Option<Port>)
    requires
        graph.wf(),
    ensures
        match props {
            Some(p) => crate::graph_state::opt_port_view(r) == port_from_props(id, p@, graph@.nodes),
            None => r is None,
        },
{
    let props = match props {
        Some(p) => p,
        None => return None,
    };
    let node_id = match prop_get(props, "node.id") {
        Some(v) => match parse_u32(v) {
            Some(n) => n,
            None => return None,
        },
        None => return None,
    };
    let name = prop_string(props, "port.name");
    let channel = prop_opt_string(props, "audio.channel");
    let physical_index = match prop_get(props, "port.physical") {
        Some(v) => parse_u32(v),
        None => None,
    };
    let direction = match prop_get(props, "port.direction") {
        Some(d) => if str_eq(d, "in") {
            PortDirection::Input
        } else if str_eq(d, "out") {
            PortDirection::Output
        } else {
            return None;
        },
        None => if str_starts_with(name.as_str(), "input") || str_starts_with(name.as_str(), "playback") {
            PortDirection::Input
        } else if str_starts_with(name.as_str(), "output") || str_starts_with(name.as_str(), "capture")
            || str_starts_with(name.as_str(), "monitor") {
            PortDirection::Output
        } else {
            return None;
        },
    };
    let dsp_midi = match prop_get(props, "format.dsp") {
        Some(f) => str_contains(f, "midi"),
        None => false,
    };
    let media_type = if dsp_midi {
        Some(MediaType::Midi)
    } else if str_starts_with(name.as_str(), "midi_") {
        Some(MediaType::Midi)
    } else {
        match graph.get_node(node_id) {
            Some(n) => n.media_type,
            None => None,
        }
    };
    let port_group = prop_opt_string(props, "port.group");
    let port_alias = prop_opt_string(props, "port.alias");
    Some(Port { id, node_id, name, direction, media_type, channel, physical_index, port_group, port_alias })
}

/// The link that the properties of object `id` describe: each of its four
/// ends must be present and a number; a new link is not yet active.
pub open spec fn link_from_props(id: ObjectId, props: Seq<(String, String)>) -> Option<Link> {
    match (
        prop_of(props, "link.output.node"@),
        prop_of(props, "link.output.port"@),
        prop_of(props, "link.input.node"@),
        prop_of(props, "link.input.port"@),
    ) {
        (Some(a), Some(b), Some(c), Some(d)) => match (u32_text(a), u32_text(b), u32_text(c), u32_text(d)) {
            (Some(on), Some(op), Some(inn), Some(ip)) => Some(Link {
                id,
                output_node_id: on,
                output_port_id: op,
                input_node_id: inn,
                input_port_id: ip,
                active: false,
            }),
            _ => None,
        },
        _ => None,
    }
}

/// A number read from the value for `key`, where there is one.
fn prop_u32(props: &Vec<(String, String)>, key: &str) -> (r: Option<u32>)
    ensures
        r == match prop_of(props@, key@) {
            Some(t) => u32_text(t),
            None => None,
        },
{
    match prop_get(props, key) {
        Some(v) => parse_u32(v),
        None => None,
    }
}

/// The link that the properties of object `id` describe (see
/// [`link_from_props`]); none where the object carries no properties.
pub fn parse_link_from_props(id: ObjectId, props: Option<&Vec<(String, String)>>) -> (r: Option<Link>)
    ensures
        match props {
            Some(p) => r == link_from_props(id, p@),
            None => r is None,
        },
{
    let props = match props {
        Some(p) => p,
        None => return None,
    };
    let output_node_id = prop_u32(props, "link.output.node")?;
    let output_port_id = prop_u32(props, "link.output.port")?;
    let input_node_id = prop_u32(props, "link.input.node")?;
    let input_port_id = prop_u32(props, "link.input.port")?;
    Some(Link { id, output_node_id, output_port_id, input_node_id, input_port_id, active: false })
}

} // verus!
