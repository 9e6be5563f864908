use zestbay::graph_state::GraphState;
use zestbay::midi_processing::{mapped_action, resolve_mapping, MappedAction};
use zestbay::midi_types::{MappingMode, MidiCcSource, MidiMessageType};
use zestbay::pipewire_types::{MediaType, Node, NodeType, PortDirection};
use zestbay::pw_props::{
    eq_ignore_ascii_case, parse_link_from_props, parse_node, parse_port, parse_u32, prop_get, str_starts_with,
};

fn props(pairs: &[(&str, &str)]) -> Vec<(String, String)> {
    pairs.iter().map(|(k, v)| (k.to_string(), v.to_string())).collect()
}

#[test]
fn props_lookup_takes_first_entry() {
    let p = props(&[("a", "1"), ("b", "2"), ("a", "3")]);
    assert_eq!(prop_get(&p, "a"), Some("1"));
    assert_eq!(prop_get(&p, "b"), Some("2"));
    assert_eq!(prop_get(&p, "c"), None);
}

#[test]
fn props_parse_u32_follows_str_parse() {
    for s in ["0", "7", "007", "+12", "4294967295", "", "+", "-1", " 1", "1a", "4294967296", "99999999999"] {
        assert_eq!(parse_u32(s), s.parse::<u32>().ok(), "{:?}", s);
    }
    assert_eq!(parse_u32("+42"), Some(42));
    assert_eq!(parse_u32("4294967296"), None);
}

#[test]
fn props_prefix_and_case() {
    assert!(str_starts_with("playback_FL", "playback"));
    assert!(!str_starts_with("play", "playback"));
    assert!(str_starts_with("x", ""));
    assert!(eq_ignore_ascii_case("TRUE", "true"));
    assert!(eq_ignore_ascii_case("tRuE", "TrUe"));
    assert!(!eq_ignore_ascii_case("true", "truee"));
    assert!(!eq_ignore_ascii_case("trüe", "true"));
}

#[test]
fn props_parse_node_audio_sink() {
    let p = props(&[
        ("node.name", "alsa_output.pci"),
        ("node.description", "Speakers"),
        ("media.class", "Audio/Sink"),
    ]);
    let n = parse_node(31, Some(&p)).unwrap();
    assert_eq!(n.id, 31);
    assert_eq!(n.name, "alsa_output.pci");
    assert_eq!(n.description, "Speakers");
    assert_eq!(n.media_type, Some(MediaType::Audio));
    assert_eq!(n.node_type, Some(NodeType::Sink));
    assert!(!n.is_virtual && !n.is_jack && !n.is_bridge);
    assert!(n.ready);
}

#[test]
fn props_parse_node_class_from_type_and_category() {
    let p = props(&[("node.nick", "Firefox"), ("media.type", "Audio"), ("media.category", "Playback")]);
    let n = parse_node(5, Some(&p)).unwrap();
    assert_eq!(n.name, "");
    assert_eq!(n.description, "Firefox");
    assert_eq!(n.media_type, Some(MediaType::Audio));
    assert_eq!(n.node_type, Some(NodeType::StreamOutput));
    let empty = parse_node(6, Some(&props(&[]))).unwrap();
    assert_eq!(empty.media_type, None);
    assert_eq!(empty.node_type, None);
    assert!(parse_node(7, None).is_none());
}

#[test]
fn props_parse_node_kinds() {
    let kind = |class: &str| parse_node(1, Some(&props(&[("media.class", class)]))).unwrap().node_type;
    assert_eq!(kind("Audio/Source"), Some(NodeType::Source));
    assert_eq!(kind("Stream/Output/Audio"), Some(NodeType::StreamOutput));
    assert_eq!(kind("Stream/Input/Audio"), Some(NodeType::StreamInput));
    assert_eq!(kind("Audio/Duplex"), Some(NodeType::Duplex));
    assert_eq!(kind("Audio/Source/Virtual"), Some(NodeType::Source));
    assert_eq!(kind("Midi/Bridge"), Some(NodeType::Duplex));
    assert_eq!(kind("Video/Source"), Some(NodeType::Source));
    let bridge = parse_node(1, Some(&props(&[("media.class", "Midi/Bridge")]))).unwrap();
    assert!(bridge.is_bridge);
    assert_eq!(bridge.media_type, Some(MediaType::Midi));
}

#[test]
fn props_parse_node_flags() {
    let p = props(&[
        ("media.class", "Audio/Sink"),
        ("node.virtual", "TRUE"),
        ("client.api", "jack"),
        ("zestbay.plugin.instance_id", "12"),
    ]);
    let n = parse_node(2, Some(&p)).unwrap();
    assert!(n.is_virtual);
    assert!(n.is_jack);
    assert_eq!(n.node_type, Some(NodeType::Plugin));
    let q = props(&[("node.virtual", "yes"), ("client.api", "JACK")]);
    let m = parse_node(3, Some(&q)).unwrap();
    assert!(!m.is_virtual);
    assert!(!m.is_jack);
}

#[test]
fn props_parse_port_fields() {
    let mut g = GraphState::new();
    g.insert_node(Node {
        id: 42,
        name: "card".to_string(),
        description: String::new(),
        media_type: Some(MediaType::Audio),
        node_type: Some(NodeType::Sink),
        is_virtual: false,
        is_jack: false,
        is_bridge: false,
        ready: true,
    });
    let p = props(&[
        ("node.id", "42"),
        ("port.name", "playback_FL"),
        ("port.direction", "in"),
        ("audio.channel", "FL"),
        ("port.physical", "1"),
        ("port.group", "stream.0"),
        ("port.alias", "card:playback_1"),
    ]);
    let port = parse_port(77, Some(&p), &g).unwrap();
    assert_eq!(port.id, 77);
    assert_eq!(port.node_id, 42);
    assert_eq!(port.name, "playback_FL");
    assert_eq!(port.direction, PortDirection::Input);
    assert_eq!(port.media_type, Some(MediaType::Audio));
    assert_eq!(port.channel, Some("FL".to_string()));
    assert_eq!(port.physical_index, Some(1));
    assert_eq!(port.port_group, Some("stream.0".to_string()));
    assert_eq!(port.port_alias, Some("card:playback_1".to_string()));
}

#[test]
fn props_parse_port_direction_and_media() {
    let g = GraphState::new();
    let dir = |pairs: &[(&str, &str)]| parse_port(1, Some(&props(pairs)), &g).map(|p| p.direction);
    assert_eq!(dir(&[("node.id", "3"), ("port.name", "capture_1")]), Some(PortDirection::Output));
    assert_eq!(dir(&[("node.id", "3"), ("port.name", "monitor_FR")]), Some(PortDirection::Output));
    assert_eq!(dir(&[("node.id", "3"), ("port.name", "input_0")]), Some(PortDirection::Input));
    assert_eq!(dir(&[("node.id", "3"), ("port.name", "weird")]), None);
    assert_eq!(dir(&[("node.id", "3"), ("port.direction", "sideways")]), None);
    assert_eq!(dir(&[("node.id", "x"), ("port.direction", "out")]), None);
    assert_eq!(dir(&[("port.direction", "out")]), None);
    let midi = parse_port(1, Some(&props(&[("node.id", "3"), ("port.direction", "out"), ("format.dsp", "8 bit raw midi")])), &g)
        .unwrap();
    assert_eq!(midi.media_type, Some(MediaType::Midi));
    assert_eq!(midi.physical_index, None);
    let named = parse_port(1, Some(&props(&[("node.id", "3"), ("port.name", "midi_out")])), &g);
    assert!(named.is_none());
    let named = parse_port(1, Some(&props(&[("node.id", "3"), ("port.name", "midi_out"), ("port.direction", "out")])), &g)
        .unwrap();
    assert_eq!(named.media_type, Some(MediaType::Midi));
    let unknown = parse_port(1, Some(&props(&[("node.id", "3"), ("port.direction", "in")])), &g).unwrap();
    assert_eq!(unknown.media_type, None);
    assert!(parse_port(1, None, &g).is_none());
}

#[test]
fn props_parse_link() {
    let p = props(&[
        ("link.output.node", "10"),
        ("link.output.port", "11"),
        ("link.input.node", "+20"),
        ("link.input.port", "21"),
    ]);
    let l = parse_link_from_props(9, Some(&p)).unwrap();
    assert_eq!((l.id, l.output_node_id, l.output_port_id, l.input_node_id, l.input_port_id), (9, 10, 11, 20, 21));
    assert!(!l.active);
    let missing = props(&[("link.output.node", "10"), ("link.output.port", "11"), ("link.input.node", "20")]);
    assert!(parse_link_from_props(9, Some(&missing)).is_none());
    let bad = props(&[
        ("link.output.node", "10"),
        ("link.output.port", "eleven"),
        ("link.input.node", "20"),
        ("link.input.port", "21"),
    ]);
    assert!(parse_link_from_props(9, Some(&bad)).is_none());
    assert!(parse_link_from_props(9, None).is_none());
}

#[test]
fn midi_action_toggle_flips_on_each_press() {
    let mut prev = [false; 128];
    assert_eq!(mapped_action(MappingMode::Toggle, &mut prev, 7, 127), MappedAction::Flip);
    assert!(prev[7]);
    // holding does not flip again
    assert_eq!(mapped_action(MappingMode::Toggle, &mut prev, 7, 100), MappedAction::Keep);
    // release
    assert_eq!(mapped_action(MappingMode::Toggle, &mut prev, 7, 0), MappedAction::Keep);
    assert!(!prev[7]);
    // a second press flips again
    assert_eq!(mapped_action(MappingMode::Toggle, &mut prev, 7, 64), MappedAction::Flip);
    // at the threshold is not a press
    let mut other = [false; 128];
    assert_eq!(mapped_action(MappingMode::Toggle, &mut other, 1, 63), MappedAction::Keep);
}

#[test]
fn midi_action_momentary_and_continuous() {
    let mut prev = [false; 128];
    assert_eq!(mapped_action(MappingMode::Momentary, &mut prev, 1, 64), MappedAction::SetMax);
    assert_eq!(mapped_action(MappingMode::Momentary, &mut prev, 1, 63), MappedAction::SetMin);
    assert_eq!(mapped_action(MappingMode::Momentary, &mut prev, 1, 0), MappedAction::SetMin);
    assert_eq!(mapped_action(MappingMode::Continuous, &mut prev, 1, 99), MappedAction::Scale(99));
    assert_eq!(prev, [false; 128]);
}

fn source(device: &str, channel: Option<u8>, cc: u8, mt: MidiMessageType) -> MidiCcSource {
    MidiCcSource { device_name: device.to_string(), channel, cc, message_type: mt }
}

#[test]
fn midi_resolve_prefers_exact_channel() {
    let sources = vec![
        source("dev", None, 7, MidiMessageType::Cc),
        source("dev", Some(2), 7, MidiMessageType::Cc),
        source("other", Some(2), 7, MidiMessageType::Cc),
        source("dev", Some(2), 7, MidiMessageType::Note),
    ];
    assert_eq!(resolve_mapping(&sources, Some("dev"), 2, 7, MidiMessageType::Cc), Some(1));
    assert_eq!(resolve_mapping(&sources, Some("dev"), 5, 7, MidiMessageType::Cc), Some(0));
    assert_eq!(resolve_mapping(&sources, Some("dev"), 2, 7, MidiMessageType::Note), Some(3));
    assert_eq!(resolve_mapping(&sources, Some("dev"), 2, 8, MidiMessageType::Cc), None);
    assert_eq!(resolve_mapping(&sources, Some("nobody"), 2, 7, MidiMessageType::Cc), None);
    // without a device, the first exact match of any device
    assert_eq!(resolve_mapping(&sources, None, 2, 7, MidiMessageType::Cc), Some(1));
    assert_eq!(resolve_mapping(&sources, None, 9, 7, MidiMessageType::Cc), Some(0));
}
