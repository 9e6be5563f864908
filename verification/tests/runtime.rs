use zestbay::clap_timers::due_timers;
use zestbay::graph_state::GraphState;
use zestbay::host_types::{channel_layout, init_atom_sequence, sandbox_outcome, write_ui_event, SandboxResult, WaitResult};
use zestbay::lv2_state::{
    find_retrieved, retrieve_entries, store_entry, StateEntry, LV2_STATE_ERR_UNKNOWN,
    LV2_STATE_SUCCESS,
};
use zestbay::lv2_ui::{choose_ui, UiCandidate, UiKind};
use zestbay::midi_learn::{handle_add_midi_mapping, AddMappingOutcome};
use zestbay::midi_types::{
    MappingMode, MidiCcMapping, MidiCcSource, MidiCcTarget, MidiMappingTable, MidiMessageType,
};
use zestbay::pipewire_types::{Link, Lv2Event, NodeType, PwEvent};
use zestbay::plugin_types::{split_port_indices, PluginPortType};
use zestbay::pw_ops::{InternalOp, PendingOps};
use zestbay::pw_props::parse_u64;
use zestbay::pw_registry::{handle_global, handle_global_remove, update_clock, GlobalKind};
use zestbay::urid::UridMapper;

fn props(pairs: &[(&str, &str)]) -> Vec<(String, String)> {
    pairs.iter().map(|(k, v)| (k.to_string(), v.to_string())).collect()
}

fn add_plugin(id: u64) -> InternalOp {
    InternalOp::AddPlugin {
        plugin_uri: "urn:test".to_string(),
        instance_id: id,
        display_name: "Test".to_string(),
        format: "lv2".to_string(),
        lv2_state: Vec::new(),
    }
}

const SECOND: u64 = 1_000_000_000;

#[test]
fn ops_link_ops_go_out_first_and_one_plugin_op_per_cooldown() {
    let mut q = PendingOps::new();
    q.push(InternalOp::Connect { output_port_id: 1, input_port_id: 2 });
    q.push(add_plugin(7));
    q.push(InternalOp::Disconnect { link_id: 9 });
    q.push(InternalOp::RemovePlugin { instance_id: 7 });
    q.mark_changed();

    let t = q.tick(SECOND, 500);
    assert_eq!(t.sent.len(), 3);
    assert!(matches!(t.sent[0], InternalOp::Connect { output_port_id: 1, input_port_id: 2 }));
    assert!(matches!(t.sent[1], InternalOp::Disconnect { link_id: 9 }));
    assert!(matches!(t.sent[2], InternalOp::AddPlugin { instance_id: 7, .. }));
    assert!(t.batch_complete);
    assert_eq!(q.len(), 1);

    // Still cooling down: nothing goes out, no batch to announce.
    let t = q.tick(SECOND + 200_000_000, 500);
    assert!(t.sent.is_empty());
    assert!(!t.batch_complete);
    assert_eq!(q.len(), 1);

    // A link operation queued meanwhile does not wait.
    q.push(InternalOp::Connect { output_port_id: 3, input_port_id: 4 });
    let t = q.tick(SECOND + 300_000_000, 500);
    assert_eq!(t.sent.len(), 1);
    assert!(matches!(t.sent[0], InternalOp::Connect { output_port_id: 3, input_port_id: 4 }));

    let t = q.tick(SECOND + 500_000_000, 500);
    assert_eq!(t.sent.len(), 1);
    assert!(matches!(t.sent[0], InternalOp::RemovePlugin { instance_id: 7 }));
    assert_eq!(q.len(), 0);
}

#[test]
fn ops_first_plugin_op_waits_for_a_long_cooldown() {
    // The clock's origin lies one second before the queue was made.
    let mut q = PendingOps::new();
    q.push(InternalOp::OpenPluginUI { instance_id: 3 });
    let t = q.tick(SECOND, 2000);
    assert!(t.sent.is_empty());
    let t = q.tick(2 * SECOND, 2000);
    assert_eq!(t.sent.len(), 1);
    assert!(matches!(t.sent[0], InternalOp::OpenPluginUI { instance_id: 3 }));
}

#[test]
fn registry_node_port_link_and_removal() {
    let mut g = GraphState::new();
    let np = props(&[("node.name", "sink"), ("media.class", "Audio/Sink")]);
    let ev = handle_global(&mut g, GlobalKind::Node, 40, Some(&np));
    assert_eq!(ev.len(), 1);
    assert!(matches!(&ev[0], PwEvent::NodeChanged(n) if n.id == 40 && n.name == "sink"));
    assert!(g.get_node(40).is_some());

    let pp = props(&[("node.id", "40"), ("port.name", "playback_FL"), ("port.direction", "in")]);
    let ev = handle_global(&mut g, GlobalKind::Port, 41, Some(&pp));
    assert_eq!(ev.len(), 1);
    assert!(matches!(&ev[0], PwEvent::PortChanged(p) if p.id == 41 && p.node_id == 40));

    let lp = props(&[
        ("link.output.node", "50"),
        ("link.output.port", "51"),
        ("link.input.node", "40"),
        ("link.input.port", "41"),
    ]);
    let ev = handle_global(&mut g, GlobalKind::Link, 60, Some(&lp));
    let expected = Link {
        id: 60,
        output_node_id: 50,
        output_port_id: 51,
        input_node_id: 40,
        input_port_id: 41,
        active: false,
    };
    assert_eq!(ev.len(), 1);
    assert!(matches!(&ev[0], PwEvent::LinkChanged(l) if *l == expected));
    assert_eq!(g.get_link(60), Some(expected));

    // Nothing to record.
    assert!(handle_global(&mut g, GlobalKind::Other, 70, Some(&np)).is_empty());
    assert!(handle_global(&mut g, GlobalKind::Node, 71, None).is_empty());
    assert!(handle_global(&mut g, GlobalKind::Link, 72, Some(&np)).is_empty());

    // Removing the node takes its port and the link along.
    let before = g.change_counter();
    let ev = handle_global_remove(&mut g, 40);
    assert!(matches!(ev, Some(PwEvent::NodeRemoved(40))));
    assert!(g.get_node(40).is_none());
    assert!(g.get_port(41).is_none());
    assert!(g.get_link(60).is_none());
    assert_eq!(g.change_counter(), before + 2);

    assert!(handle_global_remove(&mut g, 40).is_none());
}

#[test]
fn registry_port_and_link_removal() {
    let mut g = GraphState::new();
    let pp = props(&[("node.id", "5"), ("port.name", "out"), ("port.direction", "out")]);
    handle_global(&mut g, GlobalKind::Port, 6, Some(&pp));
    let lp = props(&[
        ("link.output.node", "5"),
        ("link.output.port", "6"),
        ("link.input.node", "8"),
        ("link.input.port", "9"),
    ]);
    handle_global(&mut g, GlobalKind::Link, 7, Some(&lp));
    let ev = handle_global_remove(&mut g, 6);
    assert!(matches!(ev, Some(PwEvent::PortRemoved { port_id: 6, node_id: 5 })));
    // A port goes alone: its link stays until the registry withdraws it.
    assert!(g.get_link(7).is_some());
    let ev = handle_global_remove(&mut g, 7);
    assert!(matches!(ev, Some(PwEvent::LinkRemoved(7))));
    assert!(g.get_link(7).is_none());
}

#[test]
fn registry_plugin_node_is_announced_first() {
    let mut g = GraphState::new();
    let np = props(&[
        ("node.name", "zestbay_plugin_5"),
        ("node.description", "Reverb"),
        ("media.class", "Audio/Duplex"),
        ("zestbay.plugin.instance_id", "5"),
    ]);
    let ev = handle_global(&mut g, GlobalKind::Node, 90, Some(&np));
    assert_eq!(ev.len(), 2);
    match &ev[0] {
        PwEvent::Lv2(Lv2Event::PluginAdded { instance_id, pw_node_id, display_name }) => {
            assert_eq!(*instance_id, 5);
            assert_eq!(*pw_node_id, 90);
            assert_eq!(display_name, "Reverb");
        }
        other => panic!("unexpected {:?}", other),
    }
    assert!(matches!(&ev[1], PwEvent::NodeChanged(n) if n.node_type == Some(NodeType::Plugin)));

    // A plugin node whose instance id does not read as a number is only a node.
    let bad = props(&[("node.name", "p"), ("zestbay.plugin.instance_id", "x5")]);
    let ev = handle_global(&mut g, GlobalKind::Node, 91, Some(&bad));
    assert_eq!(ev.len(), 1);
    assert!(matches!(&ev[0], PwEvent::NodeChanged(n) if n.node_type == Some(NodeType::Plugin)));
}

#[test]
fn registry_clock_update() {
    let mut rate: u32 = 48000;
    let mut quantum: u32 = 1024;
    update_clock(&props(&[("default.clock.rate", "44100")]), &mut rate, &mut quantum);
    assert_eq!((rate, quantum), (44100, 1024));
    update_clock(
        &props(&[("default.clock.quantum", "256"), ("default.clock.rate", "fast")]),
        &mut rate,
        &mut quantum,
    );
    assert_eq!((rate, quantum), (44100, 256));
}

#[test]
fn parse_u64_follows_str_parse() {
    for s in ["0", "+5", "18446744073709551615", "18446744073709551616", "", "-1", "12a"] {
        assert_eq!(parse_u64(s), s.parse::<u64>().ok(), "{:?}", s);
    }
}

fn mapping(device: &str, cc: u8, instance: u64, port: usize, label: &str) -> MidiCcMapping {
    MidiCcMapping {
        source: MidiCcSource {
            device_name: device.to_string(),
            channel: Some(0),
            cc,
            message_type: MidiMessageType::Cc,
        },
        target: MidiCcTarget { instance_id: instance, port_index: port },
        mode: MappingMode::Continuous,
        label: label.to_string(),
    }
}

#[test]
fn learn_binds_replaces_and_reports_conflicts() {
    let mut t = MidiMappingTable::new();
    assert!(matches!(handle_add_midi_mapping(&mut t, mapping("kbd", 1, 1, 0, "Gain")), AddMappingOutcome::Added));
    // The same binding again changes nothing.
    assert!(matches!(
        handle_add_midi_mapping(&mut t, mapping("kbd", 1, 1, 0, "Gain")),
        AddMappingOutcome::Unchanged
    ));
    // The source already drives another parameter.
    match handle_add_midi_mapping(&mut t, mapping("kbd", 1, 2, 3, "Mix")) {
        AddMappingOutcome::Conflict { existing_label } => assert_eq!(existing_label, "Gain"),
        other => panic!("unexpected {:?}", other),
    }
    assert_eq!(t.all_mappings().len(), 1);
    // A new source for the same parameter takes over.
    assert!(matches!(handle_add_midi_mapping(&mut t, mapping("kbd", 2, 1, 0, "Gain")), AddMappingOutcome::Added));
    let all = t.all_mappings();
    assert_eq!(all.len(), 1);
    assert_eq!(all[0].source.cc, 2);
}

#[test]
fn urid_map_and_unmap() {
    let mut m = UridMapper::new();
    let a = m.map("http://example.org/a");
    let b = m.map("http://example.org/b");
    assert_eq!((a, b), (1, 2));
    assert_eq!(m.map("http://example.org/a"), 1);
    assert_eq!(m.unmap(a).as_deref(), Some("http://example.org/a"));
    assert_eq!(m.unmap(0).as_deref(), Some(""));
    assert_eq!(m.unmap(3), None);
    // The empty URI is not the reserved number.
    assert_eq!(m.map(""), 3);
}

#[test]
fn state_store_then_retrieve() {
    let mut m = UridMapper::new();
    let k = m.map("urn:gain");
    let ty = m.map("urn:float");
    let mut saved: Vec<StateEntry> = Vec::new();
    assert_eq!(store_entry(&m, &mut saved, k, &[1, 2, 3], ty, 4), LV2_STATE_SUCCESS);
    assert_eq!(store_entry(&m, &mut saved, 99, &[0], ty, 0), LV2_STATE_ERR_UNKNOWN);
    assert_eq!(saved.len(), 1);
    assert_eq!(saved[0].key_uri, "urn:gain");
    assert_eq!(saved[0].type_uri, "urn:float");
    assert_eq!(saved[0].value, vec![1, 2, 3]);
    assert_eq!(saved[0].flags, 4);

    // Restored in a fresh table: the keys get new numbers, and a lookup of
    // a key's number finds its value.
    saved.push(StateEntry::new_string("urn:name", "hi"));
    let mut fresh = UridMapper::new();
    let name_id = fresh.map("urn:name");
    let r = retrieve_entries(&mut fresh, &saved);
    assert_eq!(r.len(), 2);
    assert_eq!(r[1].key_urid, name_id);
    assert_eq!(fresh.unmap(r[0].key_urid).as_deref(), Some("urn:gain"));
    assert_eq!(find_retrieved(&r, name_id), Some(1));
    assert_eq!(find_retrieved(&r, r[0].key_urid), Some(0));
    assert_eq!(r[1].data, b"hi\0".to_vec());
    assert_eq!(find_retrieved(&r, 77), None);
}

#[test]
fn timers_fire_once_per_period() {
    let mut clock: Vec<(u32, u64)> = Vec::new();
    let timers = vec![(1u32, 100u32), (2u32, 30u32)];
    let ms = 1_000_000u64;
    // New timers fire at once.
    assert_eq!(due_timers(&mut clock, &timers, 1000 * ms), vec![1, 2]);
    assert_eq!(due_timers(&mut clock, &timers, 1020 * ms), Vec::<u32>::new());
    assert_eq!(due_timers(&mut clock, &timers, 1030 * ms), vec![2]);
    assert_eq!(due_timers(&mut clock, &timers, 1100 * ms), vec![1, 2]);
    // An unregistered timer is forgotten; registered again, it fires at once.
    let only2 = vec![(2u32, 30u32)];
    assert_eq!(due_timers(&mut clock, &only2, 1110 * ms), Vec::<u32>::new());
    assert_eq!(clock.len(), 1);
    assert_eq!(due_timers(&mut clock, &timers, 1120 * ms), vec![1]);
}

#[test]
fn sandbox_outcomes_are_described() {
    match sandbox_outcome(WaitResult::Exited(0), Ok::<u32, String>(7), "") {
        SandboxResult::Done(v) => assert_eq!(v, 7),
        other => panic!("unexpected {:?}", other),
    }
    match sandbox_outcome::<u32>(WaitResult::Exited(0), Err("eof".to_string()), "") {
        SandboxResult::Crashed { signal, description } => {
            assert_eq!(signal, None);
            assert_eq!(description, "child exited OK but output deserialization failed: eof");
        }
        other => panic!("unexpected {:?}", other),
    }
    match sandbox_outcome::<u32>(WaitResult::Exited(-1), Ok(1), "") {
        SandboxResult::Crashed { signal, description } => {
            assert_eq!(signal, None);
            assert_eq!(description, "child exited with code -1");
        }
        other => panic!("unexpected {:?}", other),
    }
    match sandbox_outcome::<u32>(WaitResult::Signaled(11), Ok(1), "SIGSEGV (segmentation fault)") {
        SandboxResult::Crashed { signal, description } => {
            assert_eq!(signal, Some(11));
            assert_eq!(description, "child killed by signal 11 (SIGSEGV (segmentation fault))");
        }
        other => panic!("unexpected {:?}", other),
    }
    assert!(matches!(sandbox_outcome::<u32>(WaitResult::Timeout, Ok(1), ""), SandboxResult::Timeout));
    match sandbox_outcome::<u32>(WaitResult::Error("EINVAL".to_string()), Ok(1), "") {
        SandboxResult::ForkFailed(m) => assert_eq!(m, "waitpid failed: EINVAL"),
        other => panic!("unexpected {:?}", other),
    }
}

#[test]
fn ui_event_goes_into_an_input_sequence() {
    let mut buf = vec![0xAAu8; 64];
    init_atom_sequence(&mut buf, 64, false, 5);
    let atom: Vec<u8> = (1..=12).collect();
    write_ui_event(&mut buf, &atom);
    // 8 bytes of event time plus 12 of atom, padded to 24, plus the 8-byte
    // sequence body header.
    assert_eq!(u32::from_ne_bytes([buf[0], buf[1], buf[2], buf[3]]), 32);
    assert_eq!(u32::from_ne_bytes([buf[4], buf[5], buf[6], buf[7]]), 5);
    assert!(buf[16..24].iter().all(|&b| b == 0));
    assert_eq!(&buf[24..36], &atom[..]);
    assert!(buf[36..].iter().all(|&b| b == 0));

    // Too short to be an atom, or too long to fit: nothing changes.
    let before = buf.clone();
    write_ui_event(&mut buf, &[1, 2, 3]);
    assert_eq!(buf, before);
    write_ui_event(&mut buf, &vec![7u8; 41]);
    assert_eq!(buf, before);
    // 40 bytes exactly fill the 64-byte buffer.
    write_ui_event(&mut buf, &vec![7u8; 40]);
    assert_eq!(u32::from_ne_bytes([buf[0], buf[1], buf[2], buf[3]]), 56);
    assert!(buf[24..64].iter().all(|&b| b == 7));
}

#[test]
fn ports_take_the_channels_in_turn() {
    let layout = channel_layout(&vec![2, 1, 2], 4);
    assert_eq!(layout, vec![vec![Some(0), Some(1)], vec![Some(2)], vec![Some(3), None]]);
    assert_eq!(channel_layout(&vec![], 3), Vec::<Vec<Option<usize>>>::new());
    assert_eq!(channel_layout(&vec![0, 1], 0), vec![vec![], vec![None]]);
}

#[test]
fn ports_are_split_by_kind_in_order() {
    let ports = vec![
        (0, PluginPortType::ControlInput),
        (1, PluginPortType::AudioInput),
        (2, PluginPortType::AudioOutput),
        (3, PluginPortType::AudioInput),
        (4, PluginPortType::AtomInput),
        (5, PluginPortType::ControlOutput),
        (6, PluginPortType::AtomOutput),
        (7, PluginPortType::ControlInput),
    ];
    let r = split_port_indices(&ports);
    assert_eq!(r.audio_inputs, vec![1, 3]);
    assert_eq!(r.audio_outputs, vec![2]);
    assert_eq!(r.control_inputs, vec![0, 7]);
    assert_eq!(r.control_outputs, vec![5]);
    assert_eq!(r.atom_inputs, vec![4]);
    assert_eq!(r.atom_outputs, vec![6]);
}

fn ui(uri: Option<&str>, binary: Option<&str>, kinds: [bool; 5]) -> UiCandidate {
    UiCandidate {
        uri: uri.map(|s| s.to_string()),
        bundle_path: Some("/usr/lib/lv2/p.lv2/".to_string()),
        binary_path: binary.map(|s| s.to_string()),
        gtk3: kinds[0],
        x11: kinds[1],
        qt5: kinds[2],
        gtk2: kinds[3],
        gtk4: kinds[4],
    }
}

#[test]
fn first_openable_ui_with_its_preferred_kind() {
    let uis = vec![
        ui(Some("urn:ui:qt"), None, [false, false, true, false, false]),
        ui(Some("urn:ui:other"), Some("o.so"), [false; 5]),
        ui(Some("urn:ui:x"), Some("x.so"), [false, true, false, true, false]),
        ui(Some("urn:ui:gtk3"), Some("g.so"), [true, false, false, false, false]),
    ];
    let (i, k) = choose_ui(&uis).unwrap();
    assert_eq!((i, k), (2, UiKind::X11));
    assert_eq!(k.class_uri(), "http://lv2plug.in/ns/extensions/ui#X11UI");
    assert_eq!(UiKind::Gtk2.class_uri(), "http://lv2plug.in/ns/extensions/ui#GtkUI");
    assert_eq!(choose_ui(&uis[..2].iter().map(|c| ui(c.uri.as_deref(), c.binary_path.as_deref(), [c.gtk3, c.x11, c.qt5, c.gtk2, c.gtk4])).collect()), None);
    assert_eq!(choose_ui(&vec![ui(None, Some("a.so"), [true; 5])]), None);
}
