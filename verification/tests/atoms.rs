use zestbay::host_types::{
    init_atom_sequence_in, native_little_endian, sequence_event_spans, write_ui_event_in,
};
use zestbay::lv2_ui::{changed_slots, F32_NAN_BITS};
use zestbay::midi_processing::{mapped_action, MappedAction};
use zestbay::midi_types::MappingMode;
use zestbay::rules::time_id;

fn le_word(v: u32) -> [u8; 4] {
    v.to_le_bytes()
}

/// A little-endian sequence: header, an event of a 2-byte atom, an event of
/// an empty atom.
fn two_event_sequence() -> Vec<u8> {
    let mut d: Vec<u8> = Vec::new();
    d.extend_from_slice(&le_word(48));
    d.extend_from_slice(&le_word(3));
    d.extend_from_slice(&le_word(0));
    d.extend_from_slice(&le_word(0));
    // first event: time, atom header (size 2, type 1), body, padding
    d.extend_from_slice(&[0u8; 8]);
    d.extend_from_slice(&le_word(2));
    d.extend_from_slice(&le_word(1));
    d.extend_from_slice(&[7u8, 8u8, 0, 0, 0, 0, 0, 0]);
    // second event: time, atom header (size 0, type 1)
    d.extend_from_slice(&[0u8; 8]);
    d.extend_from_slice(&le_word(0));
    d.extend_from_slice(&le_word(1));
    d
}

#[test]
fn event_spans_of_two_events() {
    let d = two_event_sequence();
    assert_eq!(d.len(), 56);
    assert_eq!(sequence_event_spans(&d, true), vec![(24, 10), (48, 8)]);
}

#[test]
fn event_spans_stop_at_end_of_data() {
    let d = two_event_sequence();
    assert_eq!(sequence_event_spans(&d[..50], true), vec![(24, 10)]);
}

#[test]
fn event_spans_stop_at_end_of_body() {
    let mut d = two_event_sequence();
    d[0..4].copy_from_slice(&le_word(32));
    assert_eq!(sequence_event_spans(&d, true), vec![(24, 10)]);
}

#[test]
fn event_spans_skip_oversized_event() {
    let mut d = two_event_sequence();
    d[24..28].copy_from_slice(&le_word(1000));
    assert_eq!(sequence_event_spans(&d, true), Vec::<(usize, usize)>::new());
}

#[test]
fn event_spans_of_short_data() {
    assert_eq!(sequence_event_spans(&[1u8, 2, 3], true), Vec::<(usize, usize)>::new());
    let empty_body = [8u8, 0, 0, 0, 3, 0, 0, 0, 0, 0, 0, 0, 0, 0, 0, 0];
    assert_eq!(sequence_event_spans(&empty_body, true), Vec::<(usize, usize)>::new());
}

#[test]
fn event_spans_big_endian() {
    let mut d = two_event_sequence();
    for at in [0usize, 4, 8, 12, 24, 28, 48, 52] {
        let w = u32::from_le_bytes([d[at], d[at + 1], d[at + 2], d[at + 3]]);
        d[at..at + 4].copy_from_slice(&w.to_be_bytes());
    }
    assert_eq!(sequence_event_spans(&d, false), vec![(24, 10), (48, 8)]);
}

#[test]
fn written_ui_event_is_found_again() {
    let little = native_little_endian();
    let mut buf = vec![5u8; 64];
    init_atom_sequence_in(&mut buf, 64, false, 7, little);
    let mut atom: Vec<u8> = Vec::new();
    atom.extend_from_slice(&4u32.to_ne_bytes());
    atom.extend_from_slice(&9u32.to_ne_bytes());
    atom.extend_from_slice(&[1, 2, 3, 4]);
    write_ui_event_in(&mut buf, &atom, little);
    assert_eq!(&buf[0..4], &32u32.to_ne_bytes());
    assert_eq!(&buf[4..8], &7u32.to_ne_bytes());
    assert_eq!(&buf[24..36], &atom[..]);
    assert_eq!(sequence_event_spans(&buf, little), vec![(24, 12)]);
}

#[test]
fn ui_event_too_short_or_too_long_is_dropped() {
    let mut buf = vec![0u8; 32];
    init_atom_sequence_in(&mut buf, 32, false, 7, true);
    let before = buf.clone();
    write_ui_event_in(&mut buf, &[1, 2, 3], true);
    assert_eq!(buf, before);
    write_ui_event_in(&mut buf, &[0u8; 16], true);
    assert_eq!(buf, before);
}

#[test]
fn big_endian_header() {
    let mut buf = vec![9u8; 24];
    init_atom_sequence_in(&mut buf, 20, true, 0x0102_0304, false);
    assert_eq!(&buf[0..4], &[0, 0, 0, 12]);
    assert_eq!(&buf[4..8], &[1, 2, 3, 4]);
    assert!(buf[8..20].iter().all(|b| *b == 0));
    assert!(buf[20..].iter().all(|b| *b == 9));
}

#[test]
fn native_byte_order_probe() {
    assert_eq!(native_little_endian(), 1u32.to_ne_bytes()[0] == 1);
}

#[test]
fn changed_slots_reports_and_caches() {
    let mut prev = vec![1.0f32.to_bits(), 2.0f32.to_bits()];
    let now = vec![1.0f32.to_bits(), 3.0f32.to_bits(), 5.0f32.to_bits()];
    let changed = changed_slots(&mut prev, &now);
    assert_eq!(changed, vec![1, 2]);
    assert_eq!(prev, vec![1.0f32.to_bits(), 3.0f32.to_bits()]);
    let again = changed_slots(&mut prev, &now);
    assert_eq!(again, vec![2]);
}

#[test]
fn missing_cache_counts_as_nan() {
    assert_eq!(F32_NAN_BITS, f32::NAN.to_bits());
    let mut prev: Vec<u32> = Vec::new();
    let now = vec![f32::NAN.to_bits(), 0.5f32.to_bits()];
    assert_eq!(changed_slots(&mut prev, &now), vec![1]);
    assert!(prev.is_empty());
}

#[test]
fn time_id_is_hex_seconds_then_nanos() {
    assert_eq!(time_id(255, 16), "ff10");
    assert_eq!(time_id(0, 0), "00");
    assert_eq!(time_id(0x6500_0000, 999_999_999), "650000003b9ac9ff");
}

#[test]
fn momentary_mapping_takes_any_controller() {
    let mut state = [false; 128];
    assert_eq!(mapped_action(MappingMode::Momentary, &mut state, 200, 64), MappedAction::SetMax);
    assert_eq!(mapped_action(MappingMode::Momentary, &mut state, 200, 63), MappedAction::SetMin);
    assert_eq!(mapped_action(MappingMode::Continuous, &mut state, 250, 10), MappedAction::Scale(10));
    assert!(state.iter().all(|b| !*b));
}

#[test]
fn toggle_mapping_flips_on_press() {
    let mut state = [false; 128];
    assert_eq!(mapped_action(MappingMode::Toggle, &mut state, 5, 100), MappedAction::Flip);
    assert!(state[5]);
    assert_eq!(mapped_action(MappingMode::Toggle, &mut state, 5, 100), MappedAction::Keep);
    assert_eq!(mapped_action(MappingMode::Toggle, &mut state, 5, 0), MappedAction::Keep);
    assert!(!state[5]);
}
