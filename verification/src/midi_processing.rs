//! Decoding of the MIDI channel messages that drive parameter mappings and
//! MIDI learn.
use vstd::prelude::*;
use crate::midi_types::{MappingMode, MidiCcSource, MidiMessageType};
use crate::text::str_eq;

verus! {

/// What learn mode captured from one MIDI message.
pub struct LearnCapture {
    pub channel: u8,
    pub cc: u8,
    pub message_type: MidiMessageType,
}

/// One raw MIDI event of a process cycle: its frame offset, up to three
/// bytes, and how many of them are used.
#[derive(Clone, Copy)]
pub struct RawMidiEvent {
    pub offset: u32,
    pub data: [u8; 3],
    pub size: u8,
}

/// The most MIDI events collected in one process cycle.
pub const MAX_MIDI_EVENTS: usize = 256;

/// A decoded channel message that mappings act on: a control change, or a
/// note (whose value is its velocity, 0 for note-off).
#[derive(Debug, Clone, Copy, PartialEq, Eq, Structural)]
pub struct ChannelMessage {
    pub channel: u8,
    pub number: u8,
    pub value: u8,
    pub message_type: MidiMessageType,
}

/// The message that a status byte and two data bytes encode: the status's
/// high nibble gives the kind (0xB control change, 0x9 note-on, 0x8
/// note-off, whose velocity counts as 0), its low nibble the channel; any
/// other kind is not decoded.
pub open spec fn decode_spec(status: u8, byte1: u8, byte2: u8) -> Option<ChannelMessage> {
    let kind = status / 16;
    let channel = (status % 16) as u8;
    if kind == 0xB {
        Some(ChannelMessage { channel, number: byte1, value: byte2, message_type: MidiMessageType::Cc })
    } else if kind == 0x9 {
        Some(ChannelMessage { channel, number: byte1, value: byte2, message_type: MidiMessageType::Note })
    } else if kind == 0x8 {
        Some(ChannelMessage { channel, number: byte1, value: 0, message_type: MidiMessageType::Note })
    } else {
        None
    }
}

/// Decodes a three-byte channel message (see [`decode_spec`]).
pub fn decode_channel_message(status: u8, byte1: u8, byte2: u8) -> (r: Option<ChannelMessage>)
    ensures
        r == decode_spec(status, byte1, byte2),
{
    let channel = status & 0x0F;
    let msg_type = status & 0xF0;
    assert(channel == status % 16 && msg_type == (status / 16) * 16) by (bit_vector)
        requires
            channel == status & 0x0F,
            msg_type == status & 0xF0,
    ;
    if msg_type == 0xB0 {
        Some(ChannelMessage { channel, number: byte1, value: byte2, message_type: MidiMessageType::Cc })
    } else if msg_type == 0x90 || msg_type == 0x80 {
        let velocity = if msg_type == 0x80 { 0 } else { byte2 };
        Some(ChannelMessage { channel, number: byte1, value: velocity, message_type: MidiMessageType::Note })
    } else {
        None
    }
}

/// What learn mode captures from a message: any control change, and a note
/// with a nonzero velocity.
pub fn learn_capture(msg: &ChannelMessage) -> (r: Option<LearnCapture>)
    ensures
        r is Some <==> (msg.message_type == MidiMessageType::Cc || msg.value > 0),
        r matches Some(c) ==> c.channel == msg.channel && c.cc == msg.number && c.message_type == msg.message_type,
{
    match msg.message_type {
        MidiMessageType::Cc => Some(LearnCapture { channel: msg.channel, cc: msg.number, message_type: MidiMessageType::Cc }),
        MidiMessageType::Note => if msg.value > 0 {
            Some(LearnCapture { channel: msg.channel, cc: msg.number, message_type: MidiMessageType::Note })
        } else {
            None
        },
    }
}

/// What a controller value asks of a mapped parameter, before the value is
/// put on the parameter's scale.
#[derive(Debug, Clone, Copy, PartialEq, Eq, Structural)]
pub enum MappedAction {
    /// Set the parameter to the given fraction (out of 127) of its range.
    Scale(u8),
    /// Set the parameter to its lowest value.
    SetMin,
    /// Set the parameter to its highest value.
    SetMax,
    /// Flip the parameter between its lowest and highest value.
    Flip,
    /// Leave the parameter as it is.
    Keep,
}

/// The action of controller `cc` with `value` under `mode`; a value above
/// 63 counts as pressed. Toggle mode flips on a press that follows a
/// release and remembers, per controller, whether it was pressed.
pub open spec fn mapped_action_spec(mode: MappingMode, was_pressed: bool, value: u8) -> MappedAction {
    match mode {
        MappingMode::Continuous => MappedAction::Scale(value),
        MappingMode::Toggle => if value > 63 && !was_pressed {
            MappedAction::Flip
        } else {
            MappedAction::Keep
        },
        MappingMode::Momentary => if value > 63 {
            MappedAction::SetMax
        } else {
            MappedAction::SetMin
        },
    }
}

/// The action of controller `cc` with `value` under `mode` (see
/// [`mapped_action_spec`]); in toggle mode the controller's pressed state
/// is updated, which there is for controllers below 128 only.
pub fn mapped_action(mode: MappingMode, toggle_prev: &mut [bool; 128], cc: u8, value: u8) -> (r: MappedAction)
    requires
        mode == MappingMode::Toggle ==> cc < 128,
    ensures
        r == mapped_action_spec(mode, old(toggle_prev)@[cc as int], value),
        final(toggle_prev)@ == match mode {
            MappingMode::Toggle => old(toggle_prev)@.update(cc as int, value > 63),
            _ => old(toggle_prev)@,
        },
{
    match mode {
        MappingMode::Continuous => MappedAction::Scale(value),
        MappingMode::Toggle => {
            let pressed = value > 63;
            let prev = toggle_prev[cc as usize];
            toggle_prev[cc as usize] = pressed;
            if pressed && !prev {
                MappedAction::Flip
            } else {
                MappedAction::Keep
            }
        },
        MappingMode::Momentary => if value > 63 {
            MappedAction::SetMax
        } else {
            MappedAction::SetMin
        },
    }
}

/// Source `s` listens to controller `cc` of kind `mt` on `channel` (on
/// exactly that channel when `exact`, else on any channel), from `device`
/// where one is given.
pub open spec fn source_hits(s: MidiCcSource, device: Option<Seq<char>>, channel: u8, cc: u8, mt: MidiMessageType, exact: bool) -> bool {
    &&& match device {
        Some(d) => s.device_name@ == d,
        None => true,
    }
    &&& if exact { s.channel == Some(channel) } else { s.channel is None }
    &&& s.cc == cc
    &&& s.message_type == mt
}

/// The first index among the first `k` sources that [`source_hits`].
pub open spec fn first_hit(sources: Seq<MidiCcSource>, device: Option<Seq<char>>, channel: u8, cc: u8, mt: MidiMessageType, exact: bool, k: int) -> Option<int>
    decreases k,
{
    if k <= 0 {
        None
    } else {
        match first_hit(sources, device, channel, cc, mt, exact, k - 1) {
            Some(i) => Some(i),
            None => if source_hits(sources[k - 1], device, channel, cc, mt, exact) {
                Some(k - 1)
            } else {
                None
            },
        }
    }
}

/// The mapping a message resolves to: the first source on its exact
/// channel, else the first that listens on any channel.
pub open spec fn resolved_index(sources: Seq<MidiCcSource>, device: Option<Seq<char>>, channel: u8, cc: u8, mt: MidiMessageType) -> Option<int> {
    match first_hit(sources, device, channel, cc, mt, true, sources.len() as int) {
        Some(i) => Some(i),
        None => first_hit(sources, device, channel, cc, mt, false, sources.len() as int),
    }
}

proof fn lemma_first_hit_found(sources: Seq<MidiCcSource>, device: Option<Seq<char>>, channel: u8, cc: u8, mt: MidiMessageType, exact: bool, k: int, j: int)
    requires
        0 <= k <= j,
        first_hit(sources, device, channel, cc, mt, exact, k) is Some,
    ensures
        first_hit(sources, device, channel, cc, mt, exact, j) == first_hit(sources, device, channel, cc, mt, exact, k),
    decreases j - k,
{
    if j > k {
        lemma_first_hit_found(sources, device, channel, cc, mt, exact, k, j - 1);
    }
}

/// The first index of `sources` that [`source_hits`].
fn first_hit_index(sources: &Vec<MidiCcSource>, device: Option<&str>, channel: u8, cc: u8, mt: MidiMessageType, exact: bool) -> (r: Option<usize>)
    ensures
        match r {
            Some(i) => first_hit(sources@, opt_chars(device), channel, cc, mt, exact, sources@.len() as int) == Some(i as int),
            None => first_hit(sources@, opt_chars(device), channel, cc, mt, exact, sources@.len() as int) is None,
        },
{
    let mut i: usize = 0;
    while i < sources.len()
        invariant
            0 <= i <= sources@.len(),
            first_hit(sources@, opt_chars(device), channel, cc, mt, exact, i as int) is None,
        decreases sources@.len() - i,
    {
        let s = &sources[i];
        let device_ok = match device {
            Some(d) => str_eq(s.device_name.as_str(), d),
            None => true,
        };
        let channel_ok = match s.channel {
            Some(c) => exact && c == channel,
            None => !exact,
        };
        if device_ok && channel_ok && s.cc == cc && s.message_type == mt {
            proof {
                lemma_first_hit_found(sources@, opt_chars(device), channel, cc, mt, exact, i + 1, sources@.len() as int);
            }
            return Some(i);
        }
        i = i + 1;
    }
    None
}

/// The characters of an optional string.
pub open spec fn opt_chars(s: Option<&str>) -> Option<Seq<char>> {
    match s {
        Some(x) => Some(x@),
        None => None,
    }
}

/// The index of the mapping that a message on `channel` for controller
/// `cc` of kind `mt` resolves to (see [`resolved_index`]), among mappings
/// of `device`, or of any device where none is given.
pub fn resolve_mapping(sources: &Vec<MidiCcSource>, device: Option<&str>, channel: u8, cc: u8, mt: MidiMessageType) -> (r: Option<usize>)
    ensures
        match r {
            Some(i) => resolved_index(sources@, opt_chars(device), channel, cc, mt) == Some(i as int),
            None => resolved_index(sources@, opt_chars(device), channel, cc, mt) is None,
        },
{
    match first_hit_index(sources, device, channel, cc, mt, true) {
        Some(i) => Some(i),
        None => first_hit_index(sources, device, channel, cc, mt, false),
    }
}

} // verus!
