use std::sync::atomic::Ordering;
use std::sync::Arc;
use zestbay::cpu_stats::{PluginCpuTracker, PluginTimingSlot};
use zestbay::host_types::{init_atom_sequence, SandboxResult};
use zestbay::layout::count_inversions;
use zestbay::lv2_state::{sanitize_uri, StateEntry};
use zestbay::plugin_manager::PluginInfo;
use zestbay::plugin_types::{
    category_from_features, default_lv2_format, lv2_compatible, lv2_port_type, AtomPortBuffer, PluginCategory, PluginFormat, PluginPortType,
};
use zestbay::tray::TrayState;

#[test]
fn plugin_format_as_str() {
    assert_eq!(PluginFormat::Lv2.as_str(), "LV2");
    assert_eq!(PluginFormat::Clap.as_str(), "CLAP");
    assert_eq!(PluginFormat::Vst3.as_str(), "VST3");
}

#[test]
fn plugin_format_display() {
    assert_eq!(format!("{}", PluginFormat::Lv2.as_str()), "LV2");
    assert_eq!(format!("{}", PluginFormat::Clap.as_str()), "CLAP");
    assert_eq!(format!("{}", PluginFormat::Vst3.as_str()), "VST3");
}

#[test]
fn port_type_predicates() {
    assert!(PluginPortType::AudioInput.is_audio());
    assert!(PluginPortType::AudioOutput.is_audio());
    assert!(!PluginPortType::ControlInput.is_audio());

    assert!(PluginPortType::ControlInput.is_control());
    assert!(PluginPortType::ControlOutput.is_control());
    assert!(!PluginPortType::AudioInput.is_control());

    assert!(PluginPortType::AudioInput.is_input());
    assert!(PluginPortType::ControlInput.is_input());
    assert!(PluginPortType::AtomInput.is_input());
    assert!(!PluginPortType::AudioOutput.is_input());

    assert!(PluginPortType::AudioOutput.is_output());
    assert!(PluginPortType::ControlOutput.is_output());
    assert!(PluginPortType::AtomOutput.is_output());
    assert!(!PluginPortType::AudioInput.is_output());
}

#[test]
fn category_from_class_label() {
    assert_eq!(PluginCategory::from_class_label("Amplifier"), PluginCategory::Amplifier);
    assert_eq!(PluginCategory::from_class_label("Analyser"), PluginCategory::Analyser);
    assert_eq!(PluginCategory::from_class_label("Analyzer"), PluginCategory::Analyser);
    assert_eq!(PluginCategory::from_class_label("Chorus"), PluginCategory::Chorus);
    assert_eq!(PluginCategory::from_class_label("Compressor"), PluginCategory::Compressor);
    assert_eq!(PluginCategory::from_class_label("Delay"), PluginCategory::Delay);
    assert_eq!(PluginCategory::from_class_label("Distortion"), PluginCategory::Distortion);
    assert_eq!(PluginCategory::from_class_label("Dynamics"), PluginCategory::Dynamics);
    assert_eq!(PluginCategory::from_class_label("Equaliser"), PluginCategory::Equaliser);
    assert_eq!(PluginCategory::from_class_label("Equalizer"), PluginCategory::Equaliser);
    assert_eq!(PluginCategory::from_class_label("EQ Plugin"), PluginCategory::Equaliser);
    assert_eq!(PluginCategory::from_class_label("Filter"), PluginCategory::Filter);
    assert_eq!(PluginCategory::from_class_label("Instrument"), PluginCategory::Instrument);
    assert_eq!(PluginCategory::from_class_label("Reverb"), PluginCategory::Reverb);
    assert_eq!(PluginCategory::from_class_label("Spatial"), PluginCategory::Spatial);
    assert_eq!(PluginCategory::from_class_label("Utility"), PluginCategory::Utility);
}

#[test]
fn category_from_class_label_unknown() {
    let cat = PluginCategory::from_class_label("SomethingWeird");
    assert!(matches!(cat, PluginCategory::Other(_)));
}

#[test]
fn category_display_name() {
    assert_eq!(PluginCategory::Reverb.display_name(), "Reverb");
    assert_eq!(PluginCategory::Instrument.display_name(), "Instrument");
    assert_eq!(PluginCategory::Other("Custom".to_string()).display_name(), "Custom");
}

#[test]
fn plugin_info_is_effect() {
    let info = PluginInfo {
        uri: String::new(), name: String::new(), format: PluginFormat::Vst3,
        category: PluginCategory::Reverb, author: None, ports: Vec::new(),
        audio_inputs: 2, audio_outputs: 2,
        control_inputs: 0, control_outputs: 0,
        required_features: Vec::new(), compatible: true, has_ui: false,
        library_path: String::new(),
    };
    assert!(info.is_effect());
    assert!(!info.is_instrument());
    assert!(!info.is_analyser());
}

#[test]
fn plugin_info_is_instrument() {
    let info = PluginInfo {
        uri: String::new(), name: String::new(), format: PluginFormat::Vst3,
        category: PluginCategory::Instrument, author: None, ports: Vec::new(),
        audio_inputs: 0, audio_outputs: 2,
        control_inputs: 0, control_outputs: 0,
        required_features: Vec::new(), compatible: true, has_ui: false,
        library_path: String::new(),
    };
    assert!(info.is_instrument());
    assert!(!info.is_effect());
    assert!(!info.is_analyser());
}

#[test]
fn plugin_info_is_analyser() {
    let info = PluginInfo {
        uri: String::new(), name: String::new(), format: PluginFormat::Vst3,
        category: PluginCategory::Analyser, author: None, ports: Vec::new(),
        audio_inputs: 2, audio_outputs: 0,
        control_inputs: 0, control_outputs: 0,
        required_features: Vec::new(), compatible: true, has_ui: false,
        library_path: String::new(),
    };
    assert!(info.is_analyser());
    assert!(!info.is_effect());
    assert!(!info.is_instrument());
}

#[test]
fn category_keeps_unknown_label_and_first_keyword_wins() {
    assert_eq!(PluginCategory::from_class_label("SomethingWeird"), PluginCategory::Other("SomethingWeird".to_string()));
    assert_eq!(PluginCategory::from_class_label("Reverb Delay"), PluginCategory::Delay);
    assert_eq!(PluginCategory::from_class_label("FREQUENCY shifter"), PluginCategory::Equaliser);
    assert_eq!(PluginCategory::from_class_label("noise GATE"), PluginCategory::Gate);
}

#[test]
fn clap_features_pick_category() {
    let f = |v: &[&str]| -> Vec<String> { v.iter().map(|s| s.to_string()).collect() };
    assert_eq!(category_from_features(&f(&["audio-effect", "Reverb"])), PluginCategory::Reverb);
    assert_eq!(category_from_features(&f(&["stereo", "Flanger"])), PluginCategory::Chorus);
    assert_eq!(category_from_features(&f(&["SYNTHESIZER"])), PluginCategory::Instrument);
    assert_eq!(category_from_features(&f(&["audio-effect", "stereo"])), PluginCategory::Filter);
    assert_eq!(category_from_features(&f(&["Audio-Effect"])), PluginCategory::Other("CLAP".to_string()));
    assert_eq!(category_from_features(&f(&[])), PluginCategory::Other("CLAP".to_string()));
}

#[test]
fn default_format_is_lv2() {
    assert_eq!(default_lv2_format(), "LV2");
}

#[test]
fn state_entry_string_round_trip() {
    let e = StateEntry::new_string("urn:key", "héllo");
    assert_eq!(e.key_uri, "urn:key");
    assert_eq!(e.type_uri, "http://lv2plug.in/ns/ext/atom#String");
    assert_eq!(e.value, b"h\xc3\xa9llo\0".to_vec());
    assert_eq!(e.flags, 0);
    assert_eq!(e.as_string(), Some("héllo"));
}

#[test]
fn state_entry_as_string_cases() {
    let plain = StateEntry { key_uri: String::new(), type_uri: "atom#String".to_string(), value: b"abc".to_vec(), flags: 0 };
    assert_eq!(plain.as_string(), Some("abc"));
    let two_nuls = StateEntry { key_uri: String::new(), type_uri: "atom#String".to_string(), value: b"ab\0\0".to_vec(), flags: 0 };
    assert_eq!(two_nuls.as_string(), Some("ab\0"));
    let bad = StateEntry { key_uri: String::new(), type_uri: "atom#String".to_string(), value: vec![0xff, 0], flags: 0 };
    assert_eq!(bad.as_string(), None);
    let not_string = StateEntry { key_uri: String::new(), type_uri: "atom#Int".to_string(), value: b"abc".to_vec(), flags: 0 };
    assert_eq!(not_string.as_string(), None);
    let empty = StateEntry { key_uri: String::new(), type_uri: "String".to_string(), value: Vec::new(), flags: 0 };
    assert_eq!(empty.as_string(), Some(""));
}

#[test]
fn sanitize_uri_replaces_punctuation() {
    assert_eq!(sanitize_uri("http://lv2plug.in/plugins/eg-amp"), "http___lv2plug_in_plugins_eg-amp");
    assert_eq!(sanitize_uri("a_b-c"), "a_b-c");
    assert_eq!(sanitize_uri("ünï cödé"), "ünï_cödé");
    assert_eq!(sanitize_uri(""), "");
}

#[test]
fn count_inversions_counts_crossings() {
    assert_eq!(count_inversions(&[], 3), 0);
    assert_eq!(count_inversions(&[(0, 0), (1, 1), (2, 2)], 3), 0);
    assert_eq!(count_inversions(&[(0, 2), (1, 1), (2, 0)], 3), 3);
    assert_eq!(count_inversions(&[(0, 1), (0, 3), (1, 0), (2, 2)], 4), 3);
    assert_eq!(count_inversions(&[(0, 1), (1, 1)], 2), 0);
}

#[test]
fn count_inversions_matches_pair_count() {
    let edges: Vec<(usize, usize)> = (0..40).map(|i| (i, (i * 17 + 5) % 23)).collect();
    let mut expected = 0;
    for i in 0..edges.len() {
        for j in (i + 1)..edges.len() {
            if edges[i].1 > edges[j].1 {
                expected += 1;
            }
        }
    }
    assert_eq!(count_inversions(&edges, 23), expected);
}

#[test]
fn cpu_tracker_register_and_unregister() {
    let mut t = PluginCpuTracker::new();
    let slot = t.register(7, "Reverb".to_string());
    slot.record(1000, 0, 256, 48000);
    assert_eq!(t.slots.len(), 1);
    assert_eq!(t.slots.get(&7).unwrap().0, "Reverb");
    assert!(Arc::ptr_eq(&slot, &t.slots.get(&7).unwrap().1));
    t.unregister(7);
    assert!(t.slots.is_empty());
}

#[test]
fn timing_slot_records_calls() {
    let s = PluginTimingSlot::new();
    s.record(100, 0, 128, 44100);
    s.record(300, 50, 256, 48000);
    assert_eq!(s.total_ns.load(Ordering::Relaxed), 400);
    assert_eq!(s.call_count.load(Ordering::Relaxed), 2);
    assert_eq!(s.last_ns.load(Ordering::Relaxed), 300);
    assert_eq!(s.last_quantum.load(Ordering::Relaxed), 256);
    assert_eq!(s.last_rate.load(Ordering::Relaxed), 48000);
    assert_eq!(s.worker_total_ns.load(Ordering::Relaxed), 50);
}

#[test]
fn tray_toggles_window() {
    let t = TrayState::new();
    assert!(t.window_visible.load(Ordering::Acquire));
    assert!(t.toggle_window());
    assert!(!t.window_visible.load(Ordering::Acquire));
    assert!(t.hide_requested.load(Ordering::Acquire));
    assert!(!t.toggle_window());
    assert!(t.show_requested.load(Ordering::Acquire));
    t.request_quit();
    assert!(t.quit_requested.load(Ordering::Acquire));
}

#[test]
fn atom_sequence_header() {
    let mut buf = vec![9u8; 40];
    init_atom_sequence(&mut buf, 32, true, 77);
    assert_eq!(&buf[0..4], &24u32.to_ne_bytes());
    assert_eq!(&buf[4..8], &77u32.to_ne_bytes());
    assert!(buf[8..32].iter().all(|b| *b == 0));
    assert!(buf[32..].iter().all(|b| *b == 9));
    init_atom_sequence(&mut buf, 16, false, 5);
    assert_eq!(&buf[0..4], &8u32.to_ne_bytes());
}

#[test]
fn sandbox_result_variants() {
    let r: SandboxResult<u32> = SandboxResult::Done(3);
    assert!(matches!(r, SandboxResult::Done(3)));
    let t: SandboxResult<u32> = SandboxResult::Timeout;
    assert!(matches!(t, SandboxResult::Timeout));
}

#[test]
fn atom_port_buffer_write_then_read() {
    let mut buf = AtomPortBuffer::new(0);
    buf.write(b"hello");
    let data = buf.read();
    assert_eq!(data, Some(b"hello".to_vec()));

    // Second read should be empty (consumed)
    let data2 = buf.read();
    assert_eq!(data2, None);
}

#[test]
fn atom_port_buffer_empty_read() {
    let mut buf = AtomPortBuffer::new(0);
    assert_eq!(buf.read(), None);
}

#[test]
fn atom_port_buffer_overwrite() {
    let mut buf = AtomPortBuffer::new(0);
    buf.write(b"first");
    buf.write(b"second");
    let data = buf.read();
    assert_eq!(data, Some(b"second".to_vec()));
}

#[test]
fn atom_port_buffer_alternates_and_keeps_port() {
    let mut buf = AtomPortBuffer::new(4);
    assert_eq!(buf.port_index, 4);
    buf.write(b"a");
    assert_eq!(buf.read(), Some(b"a".to_vec()));
    buf.write(b"b");
    buf.write(b"");
    assert_eq!(buf.read(), None);
    buf.write(b"c");
    assert_eq!(buf.read(), Some(b"c".to_vec()));
}

#[test]
fn lv2_port_classes_and_compatibility() {
    // (input, output, audio, control, atom)
    assert_eq!(lv2_port_type(true, false, true, false, false), Some(PluginPortType::AudioInput));
    assert_eq!(lv2_port_type(false, true, true, false, false), Some(PluginPortType::AudioOutput));
    assert_eq!(lv2_port_type(true, false, false, true, false), Some(PluginPortType::ControlInput));
    assert_eq!(lv2_port_type(false, true, false, true, false), Some(PluginPortType::ControlOutput));
    assert_eq!(lv2_port_type(true, false, false, false, true), Some(PluginPortType::AtomInput));
    assert_eq!(lv2_port_type(false, true, false, false, true), Some(PluginPortType::AtomOutput));
    // Audio wins over control; a port that is neither input nor output is skipped.
    assert_eq!(lv2_port_type(true, false, true, true, false), Some(PluginPortType::AudioInput));
    assert_eq!(lv2_port_type(false, false, true, false, false), None);
    assert_eq!(lv2_port_type(true, false, false, false, false), None);

    assert!(lv2_compatible(&[]));
    assert!(lv2_compatible(&["http://lv2plug.in/ns/ext/urid#map".to_string()]));
    assert!(!lv2_compatible(&[
        "http://lv2plug.in/ns/ext/urid#map".to_string(),
        "http://lv2plug.in/ns/ext/buf-size#boundedBlockLength".to_string(),
    ]));
}
