use zestbay::midi_processing::{decode_channel_message, learn_capture, ChannelMessage, RawMidiEvent};
use zestbay::midi_types::{
    MappingMode, MidiCcMapping, MidiCcSource, MidiCcTarget, MidiMappingTable, MidiMessageType,
};

fn make_source(device: &str, channel: Option<u8>, cc: u8) -> MidiCcSource {
    MidiCcSource {
        device_name: device.to_string(),
        channel,
        cc,
        message_type: MidiMessageType::Cc,
    }
}

fn make_mapping(device: &str, channel: Option<u8>, cc: u8, instance_id: u64, port_index: usize) -> MidiCcMapping {
    MidiCcMapping {
        source: make_source(device, channel, cc),
        target: MidiCcTarget { instance_id, port_index },
        mode: MappingMode::Continuous,
        label: format!("test-{}-{}", instance_id, port_index),
    }
}

#[test]
fn table_insert_and_get() {
    let mut table = MidiMappingTable::new();
    let m = make_mapping("device1", Some(0), 1, 100, 0);
    assert!(table.insert(m.clone()).is_none());

    let source = make_source("device1", Some(0), 1);
    let result = table.get(&source);
    assert!(result.is_some());
    assert_eq!(result.unwrap().target.instance_id, 100);
}

#[test]
fn table_insert_replaces_existing() {
    let mut table = MidiMappingTable::new();
    let m1 = make_mapping("device1", Some(0), 1, 100, 0);
    let m2 = make_mapping("device1", Some(0), 1, 200, 1);

    assert!(table.insert(m1).is_none());
    let old = table.insert(m2);
    assert!(old.is_some());
    assert_eq!(old.unwrap().target.instance_id, 100);

    let source = make_source("device1", Some(0), 1);
    assert_eq!(table.get(&source).unwrap().target.instance_id, 200);
}

#[test]
fn table_remove() {
    let mut table = MidiMappingTable::new();
    let m = make_mapping("device1", Some(0), 1, 100, 0);
    table.insert(m);

    let source = make_source("device1", Some(0), 1);
    let removed = table.remove(&source);
    assert!(removed.is_some());
    assert!(table.get(&source).is_none());
}

#[test]
fn table_remove_nonexistent() {
    let mut table = MidiMappingTable::new();
    let source = make_source("device1", Some(0), 1);
    assert!(table.remove(&source).is_none());
}

#[test]
fn table_remove_by_instance() {
    let mut table = MidiMappingTable::new();
    table.insert(make_mapping("d", Some(0), 1, 100, 0));
    table.insert(make_mapping("d", Some(0), 2, 100, 1));
    table.insert(make_mapping("d", Some(0), 3, 200, 0));

    table.remove_by_instance(100);

    assert_eq!(table.all_mappings().len(), 1);
    assert_eq!(table.all_mappings()[0].target.instance_id, 200);
}

#[test]
fn table_remove_by_device() {
    let mut table = MidiMappingTable::new();
    table.insert(make_mapping("device_a", Some(0), 1, 100, 0));
    table.insert(make_mapping("device_b", Some(0), 1, 200, 0));

    table.remove_by_device("device_a");

    assert_eq!(table.all_mappings().len(), 1);
    assert_eq!(table.all_mappings()[0].source.device_name, "device_b");
}

#[test]
fn table_get_with_wildcard_exact_match() {
    let mut table = MidiMappingTable::new();
    table.insert(make_mapping("dev", Some(5), 10, 100, 0));

    let result = table.get_with_wildcard("dev", 5, 10, MidiMessageType::Cc);
    assert!(result.is_some());
    assert_eq!(result.unwrap().target.instance_id, 100);
}

#[test]
fn table_get_with_wildcard_falls_back_to_any_channel() {
    let mut table = MidiMappingTable::new();
    table.insert(make_mapping("dev", None, 10, 100, 0));

    let result = table.get_with_wildcard("dev", 3, 10, MidiMessageType::Cc);
    assert!(result.is_some());
    assert_eq!(result.unwrap().target.instance_id, 100);
}

#[test]
fn table_get_with_wildcard_exact_preferred_over_wildcard() {
    let mut table = MidiMappingTable::new();
    table.insert(make_mapping("dev", None, 10, 100, 0));
    table.insert(make_mapping("dev", Some(5), 10, 200, 0));

    let result = table.get_with_wildcard("dev", 5, 10, MidiMessageType::Cc);
    assert_eq!(result.unwrap().target.instance_id, 200);
}

#[test]
fn table_get_with_wildcard_no_match() {
    let table = MidiMappingTable::new();
    assert!(table.get_with_wildcard("dev", 0, 1, MidiMessageType::Cc).is_none());
}

#[test]
fn table_find_by_target() {
    let mut table = MidiMappingTable::new();
    table.insert(make_mapping("d", Some(0), 1, 100, 5));

    let target = MidiCcTarget { instance_id: 100, port_index: 5 };
    let result = table.find_by_target(&target);
    assert!(result.is_some());

    let missing = MidiCcTarget { instance_id: 999, port_index: 0 };
    assert!(table.find_by_target(&missing).is_none());
}

#[test]
fn table_conflict_check() {
    let mut table = MidiMappingTable::new();
    table.insert(make_mapping("d", Some(0), 1, 100, 0));

    let source = make_source("d", Some(0), 1);
    assert!(table.conflict_check(&source).is_some());

    let source2 = make_source("d", Some(0), 99);
    assert!(table.conflict_check(&source2).is_none());
}

#[test]
fn table_from_mappings() {
    let mappings = vec![
        make_mapping("d", Some(0), 1, 100, 0),
        make_mapping("d", Some(0), 2, 200, 0),
    ];
    let table = MidiMappingTable::from_mappings(mappings);
    assert_eq!(table.all_mappings().len(), 2);
}

#[test]
fn mapping_mode_default_is_continuous() {
    assert_eq!(MappingMode::default(), MappingMode::Continuous);
}

#[test]
fn midi_message_type_default_is_cc() {
    assert_eq!(MidiMessageType::default(), MidiMessageType::Cc);
}

#[test]
fn raw_midi_event_copy() {
    let evt = RawMidiEvent {
        offset: 42,
        data: [0x90, 60, 100],
        size: 3,
    };
    let copy = evt;
    assert_eq!(copy.offset, 42);
    assert_eq!(copy.data, [0x90, 60, 100]);
    assert_eq!(copy.size, 3);
}

#[test]
fn table_get_after_remove_keeps_other_sources() {
    let mut table = MidiMappingTable::new();
    table.insert(make_mapping("d", Some(0), 1, 100, 0));
    table.insert(make_mapping("d", Some(0), 2, 200, 0));
    table.remove(&make_source("d", Some(0), 1));
    assert!(table.get(&make_source("d", Some(0), 1)).is_none());
    assert_eq!(table.get(&make_source("d", Some(0), 2)).unwrap().target.instance_id, 200);
}

#[test]
fn table_from_mappings_last_duplicate_wins() {
    let mappings = vec![
        make_mapping("d", Some(0), 1, 100, 0),
        make_mapping("d", Some(0), 1, 300, 0),
    ];
    let table = MidiMappingTable::from_mappings(mappings);
    assert_eq!(table.all_mappings().len(), 1);
    assert_eq!(table.get(&make_source("d", Some(0), 1)).unwrap().target.instance_id, 300);
}

#[test]
fn table_wildcard_needs_same_message_type() {
    let mut table = MidiMappingTable::new();
    table.insert(make_mapping("dev", None, 10, 100, 0));
    assert!(table.get_with_wildcard("dev", 3, 10, MidiMessageType::Note).is_none());
    assert!(table.get_with_wildcard("other", 3, 10, MidiMessageType::Cc).is_none());
}

#[test]
fn table_conflict_check_gives_label() {
    let mut table = MidiMappingTable::new();
    table.insert(make_mapping("d", Some(0), 1, 100, 7));
    assert_eq!(table.conflict_check(&make_source("d", Some(0), 1)), Some("test-100-7"));
}

#[test]
fn decode_control_change() {
    let m = decode_channel_message(0xB3, 7, 99).unwrap();
    assert_eq!(m, ChannelMessage { channel: 3, number: 7, value: 99, message_type: MidiMessageType::Cc });
}

#[test]
fn decode_note_on_and_off() {
    let on = decode_channel_message(0x9F, 60, 100).unwrap();
    assert_eq!(on, ChannelMessage { channel: 15, number: 60, value: 100, message_type: MidiMessageType::Note });
    let off = decode_channel_message(0x80, 60, 64).unwrap();
    assert_eq!(off, ChannelMessage { channel: 0, number: 60, value: 0, message_type: MidiMessageType::Note });
}

#[test]
fn decode_other_messages_are_ignored() {
    assert!(decode_channel_message(0xE0, 0, 64).is_none());
    assert!(decode_channel_message(0xC5, 1, 0).is_none());
    assert!(decode_channel_message(0x7F, 1, 1).is_none());
}

#[test]
fn learn_captures_cc_and_pressed_notes() {
    let cc = ChannelMessage { channel: 2, number: 11, value: 0, message_type: MidiMessageType::Cc };
    let c = learn_capture(&cc).unwrap();
    assert_eq!((c.channel, c.cc, c.message_type), (2, 11, MidiMessageType::Cc));

    let pressed = ChannelMessage { channel: 1, number: 60, value: 90, message_type: MidiMessageType::Note };
    let c = learn_capture(&pressed).unwrap();
    assert_eq!((c.channel, c.cc, c.message_type), (1, 60, MidiMessageType::Note));

    let released = ChannelMessage { channel: 1, number: 60, value: 0, message_type: MidiMessageType::Note };
    assert!(learn_capture(&released).is_none());
}
