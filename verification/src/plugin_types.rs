//! Plugin types shared by the LV2, CLAP and VST3 back ends: formats, port
//! types, categories and the saved form of plugin links.
use vstd::prelude::*;
use crate::text::{chars_of, chars_contain, has_infix, lowercase, str_eq, to_lowercase};

verus! {

/// Identifier of a running plugin instance.
pub type PluginInstanceId = u64;

/// A plugin format.
#[derive(Debug, Clone, Copy, PartialEq, Eq, Hash, Structural)]
pub enum PluginFormat {
    Lv2,
    Clap,
    Vst3,
}

/// The name of a format.
pub open spec fn format_label(f: PluginFormat) -> Seq<char> {
    match f {
        PluginFormat::Lv2 => "LV2"@,
        PluginFormat::Clap => "CLAP"@,
        PluginFormat::Vst3 => "VST3"@,
    }
}

impl PluginFormat {
    /// The format's name: `LV2`, `CLAP` or `VST3`.
    pub fn as_str(&self) -> (r: &'static str)
        ensures
            r@ == format_label(*self),
    {
        match self {
            PluginFormat::Lv2 => "LV2",
            PluginFormat::Clap => "CLAP",
            PluginFormat::Vst3 => "VST3",
        }
    }
}

/// A port type, the same for all formats.
#[derive(Debug, Clone, Copy, PartialEq, Eq, Hash, Structural)]
pub enum PluginPortType {
    AudioInput,
    AudioOutput,
    ControlInput,
    ControlOutput,
    /// LV2 atom ports (MIDI and other events).
    AtomInput,
    AtomOutput,
}

impl PluginPortType {
    /// An audio port.
    pub fn is_audio(&self) -> (r: bool)
        ensures
            r == (*self == PluginPortType::AudioInput || *self == PluginPortType::AudioOutput),
    {
        match self {
            PluginPortType::AudioInput | PluginPortType::AudioOutput => true,
            _ => false,
        }
    }

    /// A control port.
    pub fn is_control(&self) -> (r: bool)
        ensures
            r == (*self == PluginPortType::ControlInput || *self == PluginPortType::ControlOutput),
    {
        match self {
            PluginPortType::ControlInput | PluginPortType::ControlOutput => true,
            _ => false,
        }
    }

    /// An input port of any kind.
    pub fn is_input(&self) -> (r: bool)
        ensures
            r == (*self == PluginPortType::AudioInput || *self == PluginPortType::ControlInput
                || *self == PluginPortType::AtomInput),
    {
        match self {
            PluginPortType::AudioInput | PluginPortType::ControlInput | PluginPortType::AtomInput => true,
            _ => false,
        }
    }

    /// An output port of any kind.
    pub fn is_output(&self) -> (r: bool)
        ensures
            r == (*self == PluginPortType::AudioOutput || *self == PluginPortType::ControlOutput
                || *self == PluginPortType::AtomOutput),
    {
        match self {
            PluginPortType::AudioOutput | PluginPortType::ControlOutput | PluginPortType::AtomOutput => true,
            _ => false,
        }
    }
}

/// A plugin category; `Other` keeps a label that names none of the others.
#[derive(Debug, Clone, PartialEq, Eq, Hash)]
pub enum PluginCategory {
    Amplifier,
    Analyser,
    Chorus,
    Compressor,
    Delay,
    Distortion,
    Dynamics,
    Envelope,
    Equaliser,
    Expander,
    Filter,
    Flanger,
    Gate,
    Generator,
    Instrument,
    Limiter,
    Mixer,
    Modulator,
    Oscillator,
    Phaser,
    Reverb,
    Simulator,
    Spatial,
    Utility,
    Waveshaper,
    Other(String),
}

/// `c` is `k`, or, where `k` is `None`, `Other` with the text `other`.
pub open spec fn category_is(c: PluginCategory, k: Option<PluginCategory>, other: Seq<char>) -> bool {
    match k {
        Some(x) => c == x,
        None => c matches PluginCategory::Other(s) && s@ == other,
    }
}

/// The category that a lowercased class label names: the first keyword in
/// this list that occurs in it decides.
pub open spec fn keyword_category(lower: Seq<char>) -> Option<PluginCategory> {
    if has_infix(lower, "amplifier"@) {
        Some(PluginCategory::Amplifier)
    } else if has_infix(lower, "analyser"@) || has_infix(lower, "analyzer"@) {
        Some(PluginCategory::Analyser)
    } else if has_infix(lower, "chorus"@) {
        Some(PluginCategory::Chorus)
    } else if has_infix(lower, "compressor"@) {
        Some(PluginCategory::Compressor)
    } else if has_infix(lower, "delay"@) {
        Some(PluginCategory::Delay)
    } else if has_infix(lower, "distortion"@) {
        Some(PluginCategory::Distortion)
    } else if has_infix(lower, "dynamics"@) {
        Some(PluginCategory::Dynamics)
    } else if has_infix(lower, "envelope"@) {
        Some(PluginCategory::Envelope)
    } else if has_infix(lower, "equaliser"@) || has_infix(lower, "equalizer"@) || has_infix(lower, "eq"@) {
        Some(PluginCategory::Equaliser)
    } else if has_infix(lower, "expander"@) {
        Some(PluginCategory::Expander)
    } else if has_infix(lower, "filter"@) {
        Some(PluginCategory::Filter)
    } else if has_infix(lower, "flanger"@) {
        Some(PluginCategory::Flanger)
    } else if has_infix(lower, "gate"@) {
        Some(PluginCategory::Gate)
    } else if has_infix(lower, "generator"@) {
        Some(PluginCategory::Generator)
    } else if has_infix(lower, "instrument"@) {
        Some(PluginCategory::Instrument)
    } else if has_infix(lower, "limiter"@) {
        Some(PluginCategory::Limiter)
    } else if has_infix(lower, "mixer"@) {
        Some(PluginCategory::Mixer)
    } else if has_infix(lower, "modulator"@) {
        Some(PluginCategory::Modulator)
    } else if has_infix(lower, "oscillator"@) {
        Some(PluginCategory::Oscillator)
    } else if has_infix(lower, "phaser"@) {
        Some(PluginCategory::Phaser)
    } else if has_infix(lower, "reverb"@) {
        Some(PluginCategory::Reverb)
    } else if has_infix(lower, "simulator"@) {
        Some(PluginCategory::Simulator)
    } else if has_infix(lower, "spatial"@) {
        Some(PluginCategory::Spatial)
    } else if has_infix(lower, "utility"@) {
        Some(PluginCategory::Utility)
    } else if has_infix(lower, "waveshaper"@) {
        Some(PluginCategory::Waveshaper)
    } else {
        None
    }
}

/// The category's name; `Other` gives its own text.
pub open spec fn category_name(c: PluginCategory) -> Seq<char> {
    match c {
        PluginCategory::Amplifier => "Amplifier"@,
        PluginCategory::Analyser => "Analyser"@,
        PluginCategory::Chorus => "Chorus"@,
        PluginCategory::Compressor => "Compressor"@,
        PluginCategory::Delay => "Delay"@,
        PluginCategory::Distortion => "Distortion"@,
        PluginCategory::Dynamics => "Dynamics"@,
        PluginCategory::Envelope => "Envelope"@,
        PluginCategory::Equaliser => "Equaliser"@,
        PluginCategory::Expander => "Expander"@,
        PluginCategory::Filter => "Filter"@,
        PluginCategory::Flanger => "Flanger"@,
        PluginCategory::Gate => "Gate"@,
        PluginCategory::Generator => "Generator"@,
        PluginCategory::Instrument => "Instrument"@,
        PluginCategory::Limiter => "Limiter"@,
        PluginCategory::Mixer => "Mixer"@,
        PluginCategory::Modulator => "Modulator"@,
        PluginCategory::Oscillator => "Oscillator"@,
        PluginCategory::Phaser => "Phaser"@,
        PluginCategory::Reverb => "Reverb"@,
        PluginCategory::Simulator => "Simulator"@,
        PluginCategory::Spatial => "Spatial"@,
        PluginCategory::Utility => "Utility"@,
        PluginCategory::Waveshaper => "Waveshaper"@,
        PluginCategory::Other(s) => s@,
    }
}

/// Whether the word occurs in the characters.
fn mentions(lower: &Vec<char>, word: &str) -> (r: bool)
    ensures
        r == has_infix(lower@, word@),
{
    let w = chars_of(word);
    chars_contain(lower, &w)
}

/// The category that a class label names, given the label and its
/// lowercase form: the first keyword of [`keyword_category`] found in the
/// lowercase form, or `Other` with the label as it was given.
pub fn category_from_lowercase(lower: &str, label: &str) -> (r: PluginCategory)
    ensures
        category_is(r, keyword_category(lower@), label@),
{
    let l = chars_of(lower);
    if mentions(&l, "amplifier") {
        PluginCategory::Amplifier
    } else if mentions(&l, "analyser") || mentions(&l, "analyzer") {
        PluginCategory::Analyser
    } else if mentions(&l, "chorus") {
        PluginCategory::Chorus
    } else if mentions(&l, "compressor") {
        PluginCategory::Compressor
    } else if mentions(&l, "delay") {
        PluginCategory::Delay
    } else if mentions(&l, "distortion") {
        PluginCategory::Distortion
    } else if mentions(&l, "dynamics") {
        PluginCategory::Dynamics
    } else if mentions(&l, "envelope") {
        PluginCategory::Envelope
    } else if mentions(&l, "equaliser") || mentions(&l, "equalizer") || mentions(&l, "eq") {
        PluginCategory::Equaliser
    } else if mentions(&l, "expander") {
        PluginCategory::Expander
    } else if mentions(&l, "filter") {
        PluginCategory::Filter
    } else if mentions(&l, "flanger") {
        PluginCategory::Flanger
    } else if mentions(&l, "gate") {
        PluginCategory::Gate
    } else if mentions(&l, "generator") {
        PluginCategory::Generator
    } else if mentions(&l, "instrument") {
        PluginCategory::Instrument
    } else if mentions(&l, "limiter") {
        PluginCategory::Limiter
    } else if mentions(&l, "mixer") {
        PluginCategory::Mixer
    } else if mentions(&l, "modulator") {
        PluginCategory::Modulator
    } else if mentions(&l, "oscillator") {
        PluginCategory::Oscillator
    } else if mentions(&l, "phaser") {
        PluginCategory::Phaser
    } else if mentions(&l, "reverb") {
        PluginCategory::Reverb
    } else if mentions(&l, "simulator") {
        PluginCategory::Simulator
    } else if mentions(&l, "spatial") {
        PluginCategory::Spatial
    } else if mentions(&l, "utility") {
        PluginCategory::Utility
    } else if mentions(&l, "waveshaper") {
        PluginCategory::Waveshaper
    } else {
        PluginCategory::Other(label.to_owned())
    }
}

impl PluginCategory {
    /// The category that an LV2 class label names, matched without regard
    /// to case; a label that names none is kept as `Other`.
    pub fn from_class_label(label: &str) -> (r: Self)
        ensures
            category_is(r, keyword_category(lowercase(label@)), label@),
    {
        let lower = to_lowercase(label);
        category_from_lowercase(lower.as_str(), label)
    }

    /// The category's name.
    pub fn display_name(&self) -> (r: &str)
        ensures
            r@ == category_name(*self),
    {
        match self {
            PluginCategory::Amplifier => "Amplifier",
            PluginCategory::Analyser => "Analyser",
            PluginCategory::Chorus => "Chorus",
            PluginCategory::Compressor => "Compressor",
            PluginCategory::Delay => "Delay",
            PluginCategory::Distortion => "Distortion",
            PluginCategory::Dynamics => "Dynamics",
            PluginCategory::Envelope => "Envelope",
            PluginCategory::Equaliser => "Equaliser",
            PluginCategory::Expander => "Expander",
            PluginCategory::Filter => "Filter",
            PluginCategory::Flanger => "Flanger",
            PluginCategory::Gate => "Gate",
            PluginCategory::Generator => "Generator",
            PluginCategory::Instrument => "Instrument",
            PluginCategory::Limiter => "Limiter",
            PluginCategory::Mixer => "Mixer",
            PluginCategory::Modulator => "Modulator",
            PluginCategory::Oscillator => "Oscillator",
            PluginCategory::Phaser => "Phaser",
            PluginCategory::Reverb => "Reverb",
            PluginCategory::Simulator => "Simulator",
            PluginCategory::Spatial => "Spatial",
            PluginCategory::Utility => "Utility",
            PluginCategory::Waveshaper => "Waveshaper",
            PluginCategory::Other(s) => s.as_str(),
        }
    }
}

/// The category of a CLAP feature, lowercased, where it names one exactly.
pub open spec fn feature_category(lower: Seq<char>) -> Option<PluginCategory> {
    if lower == "reverb"@ {
        Some(PluginCategory::Reverb)
    } else if lower == "delay"@ {
        Some(PluginCategory::Delay)
    } else if lower == "distortion"@ {
        Some(PluginCategory::Distortion)
    } else if lower == "compressor"@ {
        Some(PluginCategory::Compressor)
    } else if lower == "limiter"@ {
        Some(PluginCategory::Limiter)
    } else if lower == "equalizer"@ || lower == "eq"@ {
        Some(PluginCategory::Equaliser)
    } else if lower == "filter"@ {
        Some(PluginCategory::Filter)
    } else if lower == "chorus"@ || lower == "flanger"@ || lower == "phaser"@ {
        Some(PluginCategory::Chorus)
    } else if lower == "amplifier"@ {
        Some(PluginCategory::Amplifier)
    } else if lower == "mixer"@ {
        Some(PluginCategory::Mixer)
    } else if lower == "instrument"@ || lower == "synthesizer"@ || lower == "sampler"@ {
        Some(PluginCategory::Instrument)
    } else if lower == "analyzer"@ {
        Some(PluginCategory::Analyser)
    } else if lower == "utility"@ {
        Some(PluginCategory::Utility)
    } else if lower == "spatial"@ || lower == "surround"@ {
        Some(PluginCategory::Spatial)
    } else if lower == "generator"@ {
        Some(PluginCategory::Generator)
    } else {
        None
    }
}

/// The category of the first feature in `fs` (from index `i` on) whose
/// lowercase form names one.
pub open spec fn first_feature_category(fs: Seq<Seq<char>>, i: int) -> Option<PluginCategory>
    decreases fs.len() - i,
{
    if i < 0 || i >= fs.len() {
        None
    } else {
        match feature_category(lowercase(fs[i])) {
            Some(c) => Some(c),
            None => first_feature_category(fs, i + 1),
        }
    }
}

/// The category of a CLAP plugin by its feature list: that of the first
/// feature naming one; else `Filter` for an audio effect, `Instrument` for
/// an instrument; else none (the plugin's category is `Other("CLAP")`).
pub open spec fn clap_category(fs: Seq<Seq<char>>) -> Option<PluginCategory> {
    match first_feature_category(fs, 0) {
        Some(c) => Some(c),
        None => if fs.contains("audio-effect"@) {
            Some(PluginCategory::Filter)
        } else if fs.contains("instrument"@) {
            Some(PluginCategory::Instrument)
        } else {
            None
        },
    }
}

/// The views of a list of strings.
pub open spec fn string_views(v: Seq<String>) -> Seq<Seq<char>> {
    v.map_values(|s: String| s@)
}

/// The category of one lowercased feature, where it names one exactly.
fn category_of_feature(lower: &str) -> (r: Option<PluginCategory>)
    ensures
        r == feature_category(lower@),
{
    if str_eq(lower, "reverb") {
        Some(PluginCategory::Reverb)
    } else if str_eq(lower, "delay") {
        Some(PluginCategory::Delay)
    } else if str_eq(lower, "distortion") {
        Some(PluginCategory::Distortion)
    } else if str_eq(lower, "compressor") {
        Some(PluginCategory::Compressor)
    } else if str_eq(lower, "limiter") {
        Some(PluginCategory::Limiter)
    } else if str_eq(lower, "equalizer") || str_eq(lower, "eq") {
        Some(PluginCategory::Equaliser)
    } else if str_eq(lower, "filter") {
        Some(PluginCategory::Filter)
    } else if str_eq(lower, "chorus") || str_eq(lower, "flanger") || str_eq(lower, "phaser") {
        Some(PluginCategory::Chorus)
    } else if str_eq(lower, "amplifier") {
        Some(PluginCategory::Amplifier)
    } else if str_eq(lower, "mixer") {
        Some(PluginCategory::Mixer)
    } else if str_eq(lower, "instrument") || str_eq(lower, "synthesizer") || str_eq(lower, "sampler") {
        Some(PluginCategory::Instrument)
    } else if str_eq(lower, "analyzer") {
        Some(PluginCategory::Analyser)
    } else if str_eq(lower, "utility") {
        Some(PluginCategory::Utility)
    } else if str_eq(lower, "spatial") || str_eq(lower, "surround") {
        Some(PluginCategory::Spatial)
    } else if str_eq(lower, "generator") {
        Some(PluginCategory::Generator)
    } else {
        None
    }
}

/// Whether some string of `v` equals `s`.
fn any_equals(v: &[String], s: &str) -> (r: bool)
    ensures
        r == string_views(v@).contains(s@),
{
    let mut i: usize = 0;
    while i < v.len()
        invariant
            0 <= i <= v@.len(),
            forall|k: int| 0 <= k < i ==> v@[k]@ != s@,
        decreases v@.len() - i,
    {
        if str_eq(v[i].as_str(), s) {
            assert(string_views(v@)[i as int] == s@);
            return true;
        }
        i = i + 1;
    }
    proof {
        if string_views(v@).contains(s@) {
            let k = choose|k: int| 0 <= k < string_views(v@).len() && string_views(v@)[k] == s@;
            assert(v@[k]@ == s@);
        }
    }
    false
}

/// The category of a CLAP plugin from its feature list (see [`clap_category`]).
pub fn category_from_features(features: &[String]) -> (r: PluginCategory)
    ensures
        category_is(r, clap_category(string_views(features@)), "CLAP"@),
{
    let ghost fs = string_views(features@);
    let mut i: usize = 0;
    while i < features.len()
        invariant
            0 <= i <= features@.len(),
            fs == string_views(features@),
            first_feature_category(fs, 0) == first_feature_category(fs, i as int),
        decreases features@.len() - i,
    {
        let lower = to_lowercase(features[i].as_str());
        proof {
            assert(fs[i as int] == features@[i as int]@);
        }
        match category_of_feature(lower.as_str()) {
            Some(c) => {
                return c;
            },
            None => {},
        }
        i = i + 1;
    }
    if any_equals(features, "audio-effect") {
        return PluginCategory::Filter;
    }
    if any_equals(features, "instrument") {
        return PluginCategory::Instrument;
    }
    PluginCategory::Other("CLAP".to_owned())
}

/// The audio and control port counts of a plugin, which decide its role.
#[derive(Debug, Clone, Copy, PartialEq, Eq, Structural)]
pub struct PluginIoCounts {
    pub audio_inputs: usize,
    pub audio_outputs: usize,
    pub control_inputs: usize,
    pub control_outputs: usize,
}

impl PluginIoCounts {
    /// An effect takes audio in and gives audio out.
    pub fn is_effect(&self) -> (r: bool)
        ensures
            r == (self.audio_inputs > 0 && self.audio_outputs > 0),
    {
        self.audio_inputs > 0 && self.audio_outputs > 0
    }

    /// An instrument gives audio out and takes none in.
    pub fn is_instrument(&self) -> (r: bool)
        ensures
            r == (self.audio_inputs == 0 && self.audio_outputs > 0),
    {
        self.audio_inputs == 0 && self.audio_outputs > 0
    }

    /// An analyser takes audio in and gives none out.
    pub fn is_analyser(&self) -> (r: bool)
        ensures
            r == (self.audio_inputs > 0 && self.audio_outputs == 0),
    {
        self.audio_inputs > 0 && self.audio_outputs == 0
    }
}

/// A saved link between two plugin ports, by node and port names.
#[derive(Debug, Clone)]
pub struct SavedPluginLink {
    pub output_node_name: String,
    pub output_port_name: String,
    pub input_node_name: String,
    pub input_port_name: String,
}

/// The format of a saved plugin instance that names none: `LV2`.
pub fn default_lv2_format() -> (r: String)
    ensures
        r@ == "LV2"@,
{
    "LV2".to_owned()
}


/// The indices of the ports of type `t`, in port order.
pub open spec fn indices_of(ports: Seq<(usize, PluginPortType)>, t: PluginPortType) -> Seq<usize>
    decreases ports.len(),
{
    if ports.len() == 0 {
        Seq::empty()
    } else if ports.last().1 == t {
        indices_of(ports.drop_last(), t).push(ports.last().0)
    } else {
        indices_of(ports.drop_last(), t)
    }
}

/// A plugin's port indices by kind of port, each list in port order.
#[derive(Debug)]
pub struct PortIndices {
    pub audio_inputs: Vec<usize>,
    pub audio_outputs: Vec<usize>,
    pub control_inputs: Vec<usize>,
    pub control_outputs: Vec<usize>,
    pub atom_inputs: Vec<usize>,
    pub atom_outputs: Vec<usize>,
}

/// Sorts a plugin's ports (index and type each) into the lists a host
/// instance keeps: every port goes to the list of its type, in port order.
pub fn split_port_indices(ports: &Vec<(usize, PluginPortType)>) -> (r: PortIndices)
    ensures
        r.audio_inputs@ == indices_of(ports@, PluginPortType::AudioInput),
        r.audio_outputs@ == indices_of(ports@, PluginPortType::AudioOutput),
        r.control_inputs@ == indices_of(ports@, PluginPortType::ControlInput),
        r.control_outputs@ == indices_of(ports@, PluginPortType::ControlOutput),
        r.atom_inputs@ == indices_of(ports@, PluginPortType::AtomInput),
        r.atom_outputs@ == indices_of(ports@, PluginPortType::AtomOutput),
{
    let mut r = PortIndices {
        audio_inputs: Vec::new(),
        audio_outputs: Vec::new(),
        control_inputs: Vec::new(),
        control_outputs: Vec::new(),
        atom_inputs: Vec::new(),
        atom_outputs: Vec::new(),
    };
    let mut i: usize = 0;
    while i < ports.len()
        invariant
            0 <= i <= ports@.len(),
            r.audio_inputs@ == indices_of(ports@.take(i as int), PluginPortType::AudioInput),
            r.audio_outputs@ == indices_of(ports@.take(i as int), PluginPortType::AudioOutput),
            r.control_inputs@ == indices_of(ports@.take(i as int), PluginPortType::ControlInput),
            r.control_outputs@ == indices_of(ports@.take(i as int), PluginPortType::ControlOutput),
            r.atom_inputs@ == indices_of(ports@.take(i as int), PluginPortType::AtomInput),
            r.atom_outputs@ == indices_of(ports@.take(i as int), PluginPortType::AtomOutput),
        decreases ports@.len() - i,
    {
        let (index, t) = ports[i];
        proof {
            let s = ports@.take(i + 1);
            assert(s.drop_last() =~= ports@.take(i as int));
            assert(s.last() == ports@[i as int]);
        }
        match t {
            PluginPortType::AudioInput => r.audio_inputs.push(index),
            PluginPortType::AudioOutput => r.audio_outputs.push(index),
            PluginPortType::ControlInput => r.control_inputs.push(index),
            PluginPortType::ControlOutput => r.control_outputs.push(index),
            PluginPortType::AtomInput => r.atom_inputs.push(index),
            PluginPortType::AtomOutput => r.atom_outputs.push(index),
        }
        i = i + 1;
    }
    assert(ports@.take(ports@.len() as int) =~= ports@);
    r
}


/// Every port lands in exactly one of the lists: their lengths add up to
/// the number of ports.
pub proof fn law_split_keeps_every_port(ports: Seq<(usize, PluginPortType)>)
    ensures
        indices_of(ports, PluginPortType::AudioInput).len() + indices_of(ports, PluginPortType::AudioOutput).len()
            + indices_of(ports, PluginPortType::ControlInput).len() + indices_of(ports, PluginPortType::ControlOutput).len()
            + indices_of(ports, PluginPortType::AtomInput).len() + indices_of(ports, PluginPortType::AtomOutput).len()
            == ports.len(),
    decreases ports.len(),
{
    if ports.len() > 0 {
        law_split_keeps_every_port(ports.drop_last());
    }
}


/// The latest atom message of one port, carried from the side that writes
/// it to the side that reads it in two buffers: a write fills the buffer
/// that is not the one to read and makes it the one to read; a read takes
/// what the buffer to read holds.
#[derive(Debug)]
pub struct AtomPortBuffer {
    pub port_index: usize,
    buf0: Vec<u8>,
    buf1: Vec<u8>,
    read_idx: u32,
}

impl AtomPortBuffer {
    /// The port the buffers belong to.
    pub closed spec fn port(&self) -> usize {
        self.port_index
    }

    /// What the next read finds: the contents of the buffer to read, empty
    /// where there is nothing to read.
    pub closed spec fn pending(&self) -> Seq<u8> {
        if self.read_idx == 0 {
            self.buf0@
        } else {
            self.buf1@
        }
    }

    /// The buffer pair of port `port_index`, with nothing to read.
    pub fn new(port_index: usize) -> (r: Self)
        ensures
            r.port() == port_index,
            r.pending() == Seq::<u8>::empty(),
    {
        AtomPortBuffer { port_index, buf0: Vec::new(), buf1: Vec::new(), read_idx: 0 }
    }

    /// Replace what there is to read with `data`.
    pub fn write(&mut self, data: &[u8])
        ensures
            final(self).port() == old(self).port(),
            final(self).pending() == data@,
    {
        let copy = vstd::slice::slice_to_vec(data);
        if self.read_idx == 0 {
            self.buf1 = copy;
            self.read_idx = 1;
        } else {
            self.buf0 = copy;
            self.read_idx = 0;
        }
    }

    /// Take what there is to read: none where there is nothing; afterwards
    /// there is nothing to read.
    pub fn read(&mut self) -> (r: Option<Vec<u8>>)
        ensures
            final(self).port() == old(self).port(),
            final(self).pending() == Seq::<u8>::empty(),
            match r {
                Some(v) => v@ == old(self).pending() && v@.len() > 0,
                None => old(self).pending().len() == 0,
            },
    {
        let mut taken: Vec<u8> = Vec::new();
        if self.read_idx == 0 {
            std::mem::swap(&mut taken, &mut self.buf0);
        } else {
            std::mem::swap(&mut taken, &mut self.buf1);
        }
        if taken.len() == 0 {
            None
        } else {
            Some(taken)
        }
    }
}


/// The type of an LV2 port from the classes it is of: audio, then control,
/// then atom, each as an input or an output; none for any other port.
pub open spec fn lv2_port_type_spec(
    is_input: bool,
    is_output: bool,
    is_audio: bool,
    is_control: bool,
    is_atom: bool,
) -> Option<PluginPortType> {
    if is_audio && is_input {
        Some(PluginPortType::AudioInput)
    } else if is_audio && is_output {
        Some(PluginPortType::AudioOutput)
    } else if is_control && is_input {
        Some(PluginPortType::ControlInput)
    } else if is_control && is_output {
        Some(PluginPortType::ControlOutput)
    } else if is_atom && is_input {
        Some(PluginPortType::AtomInput)
    } else if is_atom && is_output {
        Some(PluginPortType::AtomOutput)
    } else {
        None
    }
}

/// The type of an LV2 port from the classes it is of (see
/// [`lv2_port_type_spec`]).
pub fn lv2_port_type(is_input: bool, is_output: bool, is_audio: bool, is_control: bool, is_atom: bool) -> (r:
    Option<PluginPortType>)
    ensures
        r == lv2_port_type_spec(is_input, is_output, is_audio, is_control, is_atom),
{
    if is_audio && is_input {
        Some(PluginPortType::AudioInput)
    } else if is_audio && is_output {
        Some(PluginPortType::AudioOutput)
    } else if is_control && is_input {
        Some(PluginPortType::ControlInput)
    } else if is_control && is_output {
        Some(PluginPortType::ControlOutput)
    } else if is_atom && is_input {
        Some(PluginPortType::AtomInput)
    } else if is_atom && is_output {
        Some(PluginPortType::AtomOutput)
    } else {
        None
    }
}

/// The one LV2 feature that a plugin may require and the host provides at
/// scan time.
pub open spec fn lv2_provided_feature() -> Seq<char> {
    "http://lv2plug.in/ns/ext/urid#map"@
}

/// An LV2 plugin is compatible when the host provides every feature it
/// requires.
pub fn lv2_compatible(required_features: &[String]) -> (r: bool)
    ensures
        r == forall|i: int| 0 <= i < required_features@.len() ==> #[trigger] required_features@[i]@ == lv2_provided_feature(),
{
    let mut i: usize = 0;
    while i < required_features.len()
        invariant
            0 <= i <= required_features@.len(),
            forall|j: int| 0 <= j < i ==> #[trigger] required_features@[j]@ == lv2_provided_feature(),
        decreases required_features@.len() - i,
    {
        if !crate::text::str_eq(required_features[i].as_str(), "http://lv2plug.in/ns/ext/urid#map") {
            return false;
        }
        i = i + 1;
    }
    true
}

/// The character in ASCII lower case: `A`..`Z` become `a`..`z`, all
/// others stay.
pub open spec fn lower_char(c: char) -> char {
    if 'A' <= c <= 'Z' {
        ((c as int) + 32) as char
    } else {
        c
    }
}

/// The text in ASCII lower case.
pub open spec fn ascii_lower(s: Seq<char>) -> Seq<char> {
    s.map_values(|c: char| lower_char(c))
}


/// The lower-case name of each category but `Other`.
spec fn lower_name(c: PluginCategory) -> Seq<char> {
    match c {
        PluginCategory::Amplifier => "amplifier"@,
        PluginCategory::Analyser => "analyser"@,
        PluginCategory::Chorus => "chorus"@,
        PluginCategory::Compressor => "compressor"@,
        PluginCategory::Delay => "delay"@,
        PluginCategory::Distortion => "distortion"@,
        PluginCategory::Dynamics => "dynamics"@,
        PluginCategory::Envelope => "envelope"@,
        PluginCategory::Equaliser => "equaliser"@,
        PluginCategory::Expander => "expander"@,
        PluginCategory::Filter => "filter"@,
        PluginCategory::Flanger => "flanger"@,
        PluginCategory::Gate => "gate"@,
        PluginCategory::Generator => "generator"@,
        PluginCategory::Instrument => "instrument"@,
        PluginCategory::Limiter => "limiter"@,
        PluginCategory::Mixer => "mixer"@,
        PluginCategory::Modulator => "modulator"@,
        PluginCategory::Oscillator => "oscillator"@,
        PluginCategory::Phaser => "phaser"@,
        PluginCategory::Reverb => "reverb"@,
        PluginCategory::Simulator => "simulator"@,
        PluginCategory::Spatial => "spatial"@,
        PluginCategory::Utility => "utility"@,
        PluginCategory::Waveshaper => "waveshaper"@,
        PluginCategory::Other(s) => s@,
    }
}

proof fn lemma_lower_name(c: PluginCategory)
    ensures
        c !is Other ==> ascii_lower(category_name(c)) == lower_name(c),
{
    match c {
        PluginCategory::Amplifier => {
            reveal_strlit("Amplifier");
            reveal_strlit("amplifier");
            assert(ascii_lower("Amplifier"@) =~= "amplifier"@);
        },
        PluginCategory::Analyser => {
            reveal_strlit("Analyser");
            reveal_strlit("analyser");
            assert(ascii_lower("Analyser"@) =~= "analyser"@);
        },
        PluginCategory::Chorus => {
            reveal_strlit("Chorus");
            reveal_strlit("chorus");
            assert(ascii_lower("Chorus"@) =~= "chorus"@);
        },
        PluginCategory::Compressor => {
            reveal_strlit("Compressor");
            reveal_strlit("compressor");
            assert(ascii_lower("Compressor"@) =~= "compressor"@);
        },
        PluginCategory::Delay => {
            reveal_strlit("Delay");
            reveal_strlit("delay");
            assert(ascii_lower("Delay"@) =~= "delay"@);
        },
        PluginCategory::Distortion => {
            reveal_strlit("Distortion");
            reveal_strlit("distortion");
            assert(ascii_lower("Distortion"@) =~= "distortion"@);
        },
        PluginCategory::Dynamics => {
            reveal_strlit("Dynamics");
            reveal_strlit("dynamics");
            assert(ascii_lower("Dynamics"@) =~= "dynamics"@);
        },
        PluginCategory::Envelope => {
            reveal_strlit("Envelope");
            reveal_strlit("envelope");
            assert(ascii_lower("Envelope"@) =~= "envelope"@);
        },
        PluginCategory::Equaliser => {
            reveal_strlit("Equaliser");
            reveal_strlit("equaliser");
            assert(ascii_lower("Equaliser"@) =~= "equaliser"@);
        },
        PluginCategory::Expander => {
            reveal_strlit("Expander");
            reveal_strlit("expander");
            assert(ascii_lower("Expander"@) =~= "expander"@);
        },
        PluginCategory::Filter => {
            reveal_strlit("Filter");
            reveal_strlit("filter");
            assert(ascii_lower("Filter"@) =~= "filter"@);
        },
        PluginCategory::Flanger => {
            reveal_strlit("Flanger");
            reveal_strlit("flanger");
            assert(ascii_lower("Flanger"@) =~= "flanger"@);
        },
        PluginCategory::Gate => {
            reveal_strlit("Gate");
            reveal_strlit("gate");
            assert(ascii_lower("Gate"@) =~= "gate"@);
        },
        PluginCategory::Generator => {
            reveal_strlit("Generator");
            reveal_strlit("generator");
            assert(ascii_lower("Generator"@) =~= "generator"@);
        },
        PluginCategory::Instrument => {
            reveal_strlit("Instrument");
            reveal_strlit("instrument");
            assert(ascii_lower("Instrument"@) =~= "instrument"@);
        },
        PluginCategory::Limiter => {
            reveal_strlit("Limiter");
            reveal_strlit("limiter");
            assert(ascii_lower("Limiter"@) =~= "limiter"@);
        },
        PluginCategory::Mixer => {
            reveal_strlit("Mixer");
            reveal_strlit("mixer");
            assert(ascii_lower("Mixer"@) =~= "mixer"@);
        },
        PluginCategory::Modulator => {
            reveal_strlit("Modulator");
            reveal_strlit("modulator");
            assert(ascii_lower("Modulator"@) =~= "modulator"@);
        },
        PluginCategory::Oscillator => {
            reveal_strlit("Oscillator");
            reveal_strlit("oscillator");
            assert(ascii_lower("Oscillator"@) =~= "oscillator"@);
        },
        PluginCategory::Phaser => {
            reveal_strlit("Phaser");
            reveal_strlit("phaser");
            assert(ascii_lower("Phaser"@) =~= "phaser"@);
        },
        PluginCategory::Reverb => {
            reveal_strlit("Reverb");
            reveal_strlit("reverb");
            assert(ascii_lower("Reverb"@) =~= "reverb"@);
        },
        PluginCategory::Simulator => {
            reveal_strlit("Simulator");
            reveal_strlit("simulator");
            assert(ascii_lower("Simulator"@) =~= "simulator"@);
        },
        PluginCategory::Spatial => {
            reveal_strlit("Spatial");
            reveal_strlit("spatial");
            assert(ascii_lower("Spatial"@) =~= "spatial"@);
        },
        PluginCategory::Utility => {
            reveal_strlit("Utility");
            reveal_strlit("utility");
            assert(ascii_lower("Utility"@) =~= "utility"@);
        },
        PluginCategory::Waveshaper => {
            reveal_strlit("Waveshaper");
            reveal_strlit("waveshaper");
            assert(ascii_lower("Waveshaper"@) =~= "waveshaper"@);
        },
        PluginCategory::Other(_) => {},
    }
}

/// A CLAP feature that is a synonym the scanner knows for category `c`.
pub open spec fn feature_synonym(f: Seq<char>, c: PluginCategory) -> bool {
    ||| c == PluginCategory::Equaliser && (f == "equalizer"@ || f == "eq"@)
    ||| c == PluginCategory::Chorus && (f == "flanger"@ || f == "phaser"@)
    ||| c == PluginCategory::Instrument && (f == "synthesizer"@ || f == "sampler"@)
    ||| c == PluginCategory::Analyser && f == "analyzer"@
    ||| c == PluginCategory::Spatial && f == "surround"@
}

/// The categories whose own name is a CLAP feature.
pub open spec fn named_by_feature(c: PluginCategory) -> bool {
    c is Reverb || c is Delay || c is Distortion || c is Compressor || c is Limiter || c is Filter || c is Chorus || c is Amplifier || c is Mixer || c is Instrument || c is Utility || c is Spatial || c is Generator
}

/// A lowercased CLAP feature gives a category only when it is that
/// category's name in lower case, or one of its known synonyms.
pub proof fn law_feature_category_named(f: Seq<char>)
    ensures
        match feature_category(f) {
            Some(c) => f == ascii_lower(category_name(c)) || feature_synonym(f, c),
            None => true,
        },
{
    match feature_category(f) {
        Some(c) => lemma_lower_name(c),
        None => {},
    }
}

/// The feature that is a category's own name in lower case gives that
/// category: "delay" gives `Delay`, "limiter" `Limiter`, and so on.
pub proof fn law_feature_own_name(c: PluginCategory)
    requires
        named_by_feature(c),
    ensures
        feature_category(ascii_lower(category_name(c))) == Some(c),
{
    lemma_lower_name(c);
    reveal_strlit("reverb");
    reveal_strlit("delay");
    reveal_strlit("distortion");
    reveal_strlit("compressor");
    reveal_strlit("limiter");
    reveal_strlit("equalizer");
    reveal_strlit("eq");
    reveal_strlit("filter");
    reveal_strlit("chorus");
    reveal_strlit("flanger");
    reveal_strlit("phaser");
    reveal_strlit("amplifier");
    reveal_strlit("mixer");
    reveal_strlit("instrument");
    reveal_strlit("synthesizer");
    reveal_strlit("sampler");
    reveal_strlit("analyzer");
    reveal_strlit("utility");
    reveal_strlit("spatial");
    reveal_strlit("surround");
    reveal_strlit("generator");
    match c {
        PluginCategory::Reverb => {
            assert(lower_name(c) == "reverb"@);
            assert(feature_category("reverb"@) == Some(PluginCategory::Reverb));
        },
        PluginCategory::Delay => {
            assert(lower_name(c) == "delay"@);
            assert(feature_category("delay"@) == Some(PluginCategory::Delay));
        },
        PluginCategory::Distortion => {
            assert(lower_name(c) == "distortion"@);
            assert(feature_category("distortion"@) == Some(PluginCategory::Distortion));
        },
        PluginCategory::Compressor => {
            assert(lower_name(c) == "compressor"@);
            assert("compressor"@[0] != "distortion"@[0]);
            assert(feature_category("compressor"@) == Some(PluginCategory::Compressor));
        },
        PluginCategory::Limiter => {
            assert(lower_name(c) == "limiter"@);
            assert(feature_category("limiter"@) == Some(PluginCategory::Limiter));
        },
        PluginCategory::Filter => {
            assert(lower_name(c) == "filter"@);
            assert("filter"@[0] != "reverb"@[0]);
            assert(feature_category("filter"@) == Some(PluginCategory::Filter));
        },
        PluginCategory::Chorus => {
            assert(lower_name(c) == "chorus"@);
            assert("chorus"@[0] != "reverb"@[0]);
            assert("chorus"@[0] != "filter"@[0]);
            assert(feature_category("chorus"@) == Some(PluginCategory::Chorus));
        },
        PluginCategory::Amplifier => {
            assert(lower_name(c) == "amplifier"@);
            assert("amplifier"@[0] != "equalizer"@[0]);
            assert(feature_category("amplifier"@) == Some(PluginCategory::Amplifier));
        },
        PluginCategory::Mixer => {
            assert(lower_name(c) == "mixer"@);
            assert("mixer"@[0] != "delay"@[0]);
            assert(feature_category("mixer"@) == Some(PluginCategory::Mixer));
        },
        PluginCategory::Instrument => {
            assert(lower_name(c) == "instrument"@);
            assert("instrument"@[0] != "distortion"@[0]);
            assert("instrument"@[0] != "compressor"@[0]);
            assert(feature_category("instrument"@) == Some(PluginCategory::Instrument));
        },
        PluginCategory::Utility => {
            assert(lower_name(c) == "utility"@);
            assert("utility"@[0] != "limiter"@[0]);
            assert("utility"@[0] != "flanger"@[0]);
            assert("utility"@[0] != "sampler"@[0]);
            assert(feature_category("utility"@) == Some(PluginCategory::Utility));
        },
        PluginCategory::Spatial => {
            assert(lower_name(c) == "spatial"@);
            assert("spatial"@[0] != "limiter"@[0]);
            assert("spatial"@[0] != "flanger"@[0]);
            assert("spatial"@[1] != "sampler"@[1]);
            assert("spatial"@[0] != "utility"@[0]);
            assert(feature_category("spatial"@) == Some(PluginCategory::Spatial));
        },
        PluginCategory::Generator => {
            assert(lower_name(c) == "generator"@);
            assert("generator"@[0] != "equalizer"@[0]);
            assert("generator"@[0] != "amplifier"@[0]);
            assert(feature_category("generator"@) == Some(PluginCategory::Generator));
        },
        _ => {},
    }
}

/// The first feature that names a category decides: where the features
/// before it name none and its lower-case form is a category's own name,
/// the plugin has that category.
pub proof fn law_first_feature_decides(fs: Seq<Seq<char>>, k: int, c: PluginCategory)
    requires
        0 <= k < fs.len(),
        forall|i: int| 0 <= i < k ==> #[trigger] feature_category(lowercase(fs[i])) is None,
        named_by_feature(c),
        lowercase(fs[k]) == ascii_lower(category_name(c)),
    ensures
        clap_category(fs) == Some(c),
{
    law_feature_own_name(c);
    lemma_first_feature_from(fs, 0, k);
}

proof fn lemma_first_feature_from(fs: Seq<Seq<char>>, i: int, k: int)
    requires
        0 <= i <= k < fs.len(),
        forall|m: int| 0 <= m < k ==> #[trigger] feature_category(lowercase(fs[m])) is None,
    ensures
        first_feature_category(fs, i) == first_feature_category(fs, k),
    decreases k - i,
{
    if i < k {
        lemma_first_feature_from(fs, i + 1, k);
    }
}

/// The category a class label gives is one whose lower-case name occurs in
/// the lowercased label ("analyzer" also gives `Analyser`, "equalizer" and
/// "eq" also `Equaliser`); a label in which some category's name occurs
/// always gives a category.
pub proof fn law_label_category_named(lower: Seq<char>)
    ensures
        match keyword_category(lower) {
            Some(c) => has_infix(lower, ascii_lower(category_name(c)))
                || (c == PluginCategory::Analyser && has_infix(lower, "analyzer"@))
                || (c == PluginCategory::Equaliser && (has_infix(lower, "equalizer"@) || has_infix(lower, "eq"@))),
            None => forall|c: PluginCategory| c !is Other ==> !has_infix(lower, #[trigger] ascii_lower(category_name(c))),
        },
{
    match keyword_category(lower) {
        Some(c) => lemma_lower_name(c),
        None => {
            assert forall|c: PluginCategory| c !is Other implies !has_infix(lower, #[trigger] ascii_lower(category_name(c))) by {
                lemma_lower_name(c);
            }
        },
    }
}

} // verus!
