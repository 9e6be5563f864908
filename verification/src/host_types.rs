//! Data handed between the plugin hosts, their PipeWire filters and the
//! sandbox that probes plugins, and the header of an LV2 atom sequence.
use vstd::prelude::*;
use vstd::bytes::{spec_u32_from_le_bytes, spec_u32_to_le_bytes, u32_from_le_bytes, u32_to_le_bytes};
use crate::plugin_types::PluginInstanceId;
use crate::digits::{digits_of, push_digits};

verus! {

/// What a plugin filter node is created with.
pub struct FilterConfig {
    pub instance_id: PluginInstanceId,
    pub display_name: String,
    pub audio_inputs: usize,
    pub audio_outputs: usize,
    pub sample_rate: u32,
}

/// Bytes for one atom port.
pub struct AtomBuf {
    pub port_index: usize,
    pub data: Vec<u8>,
}

/// How an operation in a forked child ended.
#[derive(Debug)]
pub enum SandboxResult<T> {
    /// The child completed and returned its data.
    Done(T),
    /// The child crashed (a signal, an abort).
    Crashed { signal: Option<i32>, description: String },
    /// The child ran out of time and was killed.
    Timeout,
    /// The fork or its pipe could not be set up.
    ForkFailed(String),
}

/// How waiting for a forked child ended.
#[derive(Debug)]
pub enum WaitResult {
    /// The child exited with this code.
    Exited(i32),
    /// A signal with this number killed the child.
    Signaled(i32),
    /// The deadline passed first.
    Timeout,
    /// Waiting failed, for this reason.
    Error(String),
}

/// The decimal text of `v`, with a `-` in front of a negative number.
pub open spec fn int_text(v: int) -> Seq<char> {
    if v < 0 {
        seq!['-'] + digits_of((-v) as nat, 10)
    } else {
        digits_of(v as nat, 10)
    }
}

/// Append the decimal text of `v` to `s`.
fn push_i32(s: &mut String, v: i32)
    ensures
        final(s)@ == old(s)@ + int_text(v as int),
{
    if v < 0 {
        s.append("-");
        proof {
            reveal_strlit("-");
        }
        let m: u64 = (0 - (v as i64)) as u64;
        push_digits(s, m, 10);
        assert(final(s)@ =~= old(s)@ + int_text(v as int));
    } else {
        push_digits(s, v as u64, 10);
    }
}

/// The result of an operation run in a forked child, from how the child
/// ended and what its output decoded to: the decoded value where it exited
/// with code 0, else a crash, a timeout or a failure, each described as the
/// sandbox reports it. `signal_name` names the signal where one killed it.
pub fn sandbox_outcome<T>(wait: WaitResult, decoded: Result<T, String>, signal_name: &str) -> (r:
    SandboxResult<T>)
    ensures
        match wait {
            WaitResult::Exited(code) => if code == 0 {
                match decoded {
                    Ok(v) => r == SandboxResult::Done(v),
                    Err(e) => r matches SandboxResult::Crashed { signal, description } && signal
                        is None && description@
                        == "child exited OK but output deserialization failed: "@ + e@,
                }
            } else {
                r matches SandboxResult::Crashed { signal, description } && signal is None
                    && description@ == "child exited with code "@ + int_text(code as int)
            },
            WaitResult::Signaled(sig) => r matches SandboxResult::Crashed {
                signal,
                description,
            } && signal == Some(sig) && description@ == "child killed by signal "@ + int_text(
                sig as int,
            ) + " ("@ + signal_name@ + ")"@,
            WaitResult::Timeout => r is Timeout,
            WaitResult::Error(e) => r matches SandboxResult::ForkFailed(m) && m@
                == "waitpid failed: "@ + e@,
        },
{
    match wait {
        WaitResult::Exited(code) => {
            if code == 0 {
                match decoded {
                    Ok(v) => SandboxResult::Done(v),
                    Err(e) => {
                        let mut d = "child exited OK but output deserialization failed: ".to_owned();
                        d.append(e.as_str());
                        SandboxResult::Crashed { signal: None, description: d }
                    },
                }
            } else {
                let mut d = "child exited with code ".to_owned();
                push_i32(&mut d, code);
                SandboxResult::Crashed { signal: None, description: d }
            }
        },
        WaitResult::Signaled(sig) => {
            let mut d = "child killed by signal ".to_owned();
            push_i32(&mut d, sig);
            d.append(" (");
            d.append(signal_name);
            d.append(")");
            SandboxResult::Crashed { signal: Some(sig), description: d }
        },
        WaitResult::Timeout => SandboxResult::Timeout,
        WaitResult::Error(e) => {
            let mut m = "waitpid failed: ".to_owned();
            m.append(e.as_str());
            SandboxResult::ForkFailed(m)
        },
    }
}

/// The number of channels of the ports before port `p`.
pub open spec fn channels_before(counts: Seq<usize>, p: int) -> int
    decreases p,
{
    if p <= 0 || p > counts.len() {
        0
    } else {
        channels_before(counts, p - 1) + counts[p - 1]
    }
}

proof fn lemma_channels_before_mono(counts: Seq<usize>, p: int, q: int)
    requires
        0 <= p <= q <= counts.len(),
    ensures
        channels_before(counts, p) <= channels_before(counts, q),
    decreases q - p,
{
    if p < q {
        lemma_channels_before_mono(counts, p, q - 1);
    }
}

/// The host's channels that feed the plugin's audio ports: the ports take
/// the channels in turn, as many as each port has; a channel past the
/// `available` ones is none.
pub fn channel_layout(channel_counts: &Vec<usize>, available: usize) -> (r: Vec<Vec<Option<usize>>>)
    requires
        channels_before(channel_counts@, channel_counts@.len() as int) <= usize::MAX,
    ensures
        r@.len() == channel_counts@.len(),
        forall|p: int| #![trigger r@[p]]
            0 <= p < r@.len() ==> r@[p]@.len() == channel_counts@[p] && forall|c: int|
                0 <= c < channel_counts@[p] ==> #[trigger] r@[p]@[c] == if channels_before(
                    channel_counts@,
                    p,
                ) + c < available {
                    Some((channels_before(channel_counts@, p) + c) as usize)
                } else {
                    None
                },
{
    let mut r: Vec<Vec<Option<usize>>> = Vec::new();
    let mut offset: usize = 0;
    let mut p: usize = 0;
    while p < channel_counts.len()
        invariant
            0 <= p <= channel_counts@.len(),
            channels_before(channel_counts@, channel_counts@.len() as int) <= usize::MAX,
            offset == channels_before(channel_counts@, p as int),
            r@.len() == p,
            forall|q: int| #![trigger r@[q]]
                0 <= q < p ==> r@[q]@.len() == channel_counts@[q] && forall|c: int|
                    0 <= c < channel_counts@[q] ==> #[trigger] r@[q]@[c] == if channels_before(
                        channel_counts@,
                        q,
                    ) + c < available {
                        Some((channels_before(channel_counts@, q) + c) as usize)
                    } else {
                        None
                    },
        decreases channel_counts@.len() - p,
    {
        proof {
            lemma_channels_before_mono(channel_counts@, p + 1, channel_counts@.len() as int);
        }
        let count = channel_counts[p];
        let mut port: Vec<Option<usize>> = Vec::new();
        let mut c: usize = 0;
        while c < count
            invariant
                0 <= c <= count,
                count == channel_counts@[p as int],
                offset + count <= usize::MAX,
                port@.len() == c,
                forall|k: int|
                    0 <= k < c ==> #[trigger] port@[k] == if offset + k < available {
                        Some((offset + k) as usize)
                    } else {
                        None
                    },
            decreases count - c,
        {
            let idx = offset + c;
            if idx < available {
                port.push(Some(idx));
            } else {
                port.push(None);
            }
            c = c + 1;
        }
        r.push(port);
        offset = offset + count;
        p = p + 1;
    }
    r
}

/// `b` holds `x` in one of the two byte orders (the machine's).
pub open spec fn native_word(b: Seq<u8>, x: u32) -> bool {
    b == spec_u32_to_le_bytes(x) || b == spec_u32_to_le_bytes(x).reverse()
}

/// Calls `u32::to_ne_bytes`: the value's four bytes in the machine's byte
/// order, which is little- or big-endian. Which one is left unsaid.
#[verifier::external_body]
fn ne_bytes(x: u32) -> (r: [u8; 4])
    ensures
        native_word(r@, x),
{
    x.to_ne_bytes()
}

/// The four bytes of `x` in one byte order: least significant first where
/// `little` holds, most significant first otherwise.
pub open spec fn word_bytes(x: u32, little: bool) -> Seq<u8> {
    if little {
        spec_u32_to_le_bytes(x)
    } else {
        spec_u32_to_le_bytes(x).reverse()
    }
}

/// The number that four bytes hold in the byte order `little` names.
pub open spec fn word_value(b: Seq<u8>, little: bool) -> u32 {
    if little {
        spec_u32_from_le_bytes(b)
    } else {
        spec_u32_from_le_bytes(b.reverse())
    }
}

/// Whether the machine stores the least significant byte of a word first:
/// the first of the bytes of 1 in its order is 1. What the machine's order
/// is, is not stated.
pub fn native_little_endian() -> (r: bool) {
    let p = ne_bytes(1);
    p[0] == 1
}

/// The four bytes of `x` in the byte order `little` names.
fn word_of(x: u32, little: bool) -> (r: [u8; 4])
    ensures
        r@ == word_bytes(x, little),
{
    let v = u32_to_le_bytes(x);
    let r = if little {
        [v[0], v[1], v[2], v[3]]
    } else {
        [v[3], v[2], v[1], v[0]]
    };
    assert(r@ =~= word_bytes(x, little));
    r
}

/// The number held in the four bytes of `d` at `at`, in the byte order
/// `little` names.
fn read_word(d: &[u8], at: usize, little: bool) -> (r: u32)
    requires
        at + 4 <= d@.len(),
    ensures
        r == word_value(d@.subrange(at as int, at + 4), little),
{
    let len = d.len();
    assert(at + 4 <= len);
    let v: Vec<u8> = if little {
        vec![d[at], d[at + 1], d[at + 2], d[at + 3]]
    } else {
        vec![d[at + 3], d[at + 2], d[at + 1], d[at]]
    };
    proof {
        if little {
            assert(v@ =~= d@.subrange(at as int, at + 4));
        } else {
            assert(v@ =~= d@.subrange(at as int, at + 4).reverse());
        }
    }
    u32_from_le_bytes(v.as_slice())
}

/// Writes the four bytes of `w` at `at`.
fn put_word(buf: &mut [u8], at: usize, w: [u8; 4])
    requires
        at + 4 <= old(buf)@.len(),
    ensures
        final(buf)@.len() == old(buf)@.len(),
        forall|i: int| 0 <= i < old(buf)@.len() ==> #[trigger] final(buf)@[i] == if at <= i < at + 4 { w@[i - at] } else { old(buf)@[i] },
{
    let ghost b0 = buf@;
    let n: usize = buf.len();
    let mut k: usize = 0;
    while k < 4
        invariant
            n == b0.len(),
            at + 4 <= b0.len(),
            buf@.len() == b0.len(),
            0 <= k <= 4,
            forall|i: int| 0 <= i < b0.len() ==> #[trigger] buf@[i] == if at <= i < at + k { w@[i - at] } else { b0[i] },
        decreases 4 - k,
    {
        buf[at + k] = w[k];
        k = k + 1;
    }
}

/// `n` rounded up to a multiple of 8.
pub open spec fn padded8(n: nat) -> nat {
    ((n + 7) / 8) * 8
}

/// Whether a UI message of `n` bytes goes into an atom input of `len`
/// bytes: it holds at least an atom header, and the 16-byte sequence
/// header, the 8-byte event time and the message, padded to 8 bytes, fit.
pub open spec fn ui_event_fits(n: nat, len: nat) -> bool {
    n >= 8 && 16 + padded8(8 + n) <= len
}

/// Appends the atom a plugin UI sent as the one event, at time 0, of the
/// atom sequence that `init_atom_sequence` started in `buf` for an input,
/// and sets the sequence's body size; a message that is shorter than an
/// atom header or does not fit leaves `buf` as it was.
pub fn write_ui_event(buf: &mut [u8], ui_atom: &[u8])
    requires
        old(buf)@.len() <= u32::MAX,
    ensures
        exists|little: bool| #[trigger] ui_event_written(old(buf)@, ui_atom@, final(buf)@, little),
{
    let little = native_little_endian();
    write_ui_event_in(buf, ui_atom, little);
}

/// `after` is `before` with the UI message `atom` written as
/// [`write_ui_event_in`] writes it, the body size in the byte order `little`
/// names.
pub open spec fn ui_event_written(before: Seq<u8>, atom: Seq<u8>, after: Seq<u8>, little: bool) -> bool {
    &&& after.len() == before.len()
    &&& !ui_event_fits(atom.len(), before.len()) ==> after == before
    &&& ui_event_fits(atom.len(), before.len()) ==> {
        &&& after.subrange(0, 4) == word_bytes((8 + padded8(8 + atom.len())) as u32, little)
        &&& after.subrange(4, 16) == before.subrange(4, 16)
        &&& forall|i: int| 16 <= i < 24 ==> #[trigger] after[i] == 0
        &&& after.subrange(24, 24 + atom.len() as int) == atom
        &&& forall|i: int| 24 + atom.len() <= i < before.len() ==> #[trigger] after[i] == before[i]
    }
}

/// [`write_ui_event`] with the body size in the byte order `little` names.
pub fn write_ui_event_in(buf: &mut [u8], ui_atom: &[u8], little: bool)
    requires
        old(buf)@.len() <= u32::MAX,
    ensures
        ui_event_written(old(buf)@, ui_atom@, final(buf)@, little),
        final(buf)@.len() == old(buf)@.len(),
        !ui_event_fits(ui_atom@.len(), old(buf)@.len()) ==> final(buf)@ == old(buf)@,
        ui_event_fits(ui_atom@.len(), old(buf)@.len()) ==> {
            &&& final(buf)@.subrange(0, 4) == word_bytes((8 + padded8(8 + ui_atom@.len())) as u32, little)
            &&& final(buf)@.subrange(4, 16) == old(buf)@.subrange(4, 16)
            &&& forall|i: int| 16 <= i < 24 ==> #[trigger] final(buf)@[i] == 0
            &&& final(buf)@.subrange(24, 24 + ui_atom@.len() as int) == ui_atom@
            &&& forall|i: int| 24 + ui_atom@.len() <= i < old(buf)@.len() ==> #[trigger] final(buf)@[i]
                == old(buf)@[i]
        },
{
    let n = ui_atom.len();
    let len = buf.len();
    if n < 8 || n > len || len - n < 24 {
        proof {
            if n >= 8 && n <= len {
                assert(padded8((8 + n) as nat) >= 8 + n) by (nonlinear_arith);
            }
            if n > len {
                assert(padded8((8 + n) as nat) >= 8 + n) by (nonlinear_arith);
            }
        }
        return;
    }
    let event_size = 8 + n;
    let padded = (event_size + 7) / 8 * 8;
    assert(padded == padded8(event_size as nat));
    if padded > len - 16 {
        return;
    }
    let ghost b0 = buf@;
    let mut k: usize = 16;
    while k < 24
        invariant
            24 + n <= len,
            len == b0.len(),
            buf@.len() == len,
            16 <= k <= 24,
            forall|i: int| 0 <= i < len ==> #[trigger] buf@[i] == if 16 <= i < k { 0u8 } else { b0[i] },
        decreases 24 - k,
    {
        buf[k] = 0;
        k = k + 1;
    }
    let ghost b1 = buf@;
    let mut j: usize = 0;
    while j < n
        invariant
            n == ui_atom@.len(),
            24 + n <= len,
            len == b1.len(),
            buf@.len() == len,
            0 <= j <= n,
            forall|i: int| 0 <= i < len ==> #[trigger] buf@[i] == if 24 <= i < 24 + j { ui_atom@[i - 24] } else { b1[i] },
        decreases n - j,
    {
        buf[24 + j] = ui_atom[j];
        j = j + 1;
    }
    let body_size: u32 = 8 + padded as u32;
    let w = word_of(body_size, little);
    let ghost b2 = buf@;
    put_word(buf, 0, w);
    proof {
        assert(buf@.subrange(0, 4) =~= w@);
        assert(buf@.subrange(4, 16) =~= b0.subrange(4, 16));
        assert(buf@.subrange(24, 24 + n as int) =~= ui_atom@);
    }
}

/// `n` rounded up to a multiple of 8 lies between `n` and `n + 7`.
pub proof fn lemma_padded8_bounds(n: nat)
    ensures
        n <= padded8(n) <= n + 7,
{
    assert(n <= ((n + 7) / 8) * 8 <= n + 7) by (nonlinear_arith);
}

/// The (offset, size) of each complete event atom of the sequence body of
/// `d` from `offset` to `end`: an event is an 8-byte time and an atom whose
/// 8-byte header starts with its body size; events follow each other padded
/// to 8 bytes; the walk stops where fewer than 16 bytes remain or an atom
/// runs past the end.
pub open spec fn spans_from(d: Seq<u8>, end: int, offset: int, little: bool) -> Seq<(usize, usize)>
    decreases end + 8 - offset,
{
    if offset < 0 || offset + 16 > end {
        Seq::empty()
    } else {
        let ea = offset + 8;
        let total = 8 + word_value(d.subrange(ea, ea + 4), little);
        if ea + total > end {
            Seq::empty()
        } else {
            proof {
                lemma_padded8_bounds(total as nat);
            }
            seq![(ea as usize, total as usize)] + spans_from(d, end, offset + 8 + padded8(total as nat), little)
        }
    }
}

/// The event atoms of an LV2 atom sequence held in `d`, as
/// [`spans_from`] finds them: from byte 16 to the end of the body (8 bytes
/// past the body size of its first word), or to the end of `d` where that
/// comes first; none where `d` is shorter than a sequence header.
pub open spec fn event_spans(d: Seq<u8>, little: bool) -> Seq<(usize, usize)> {
    if d.len() < 16 {
        Seq::empty()
    } else {
        let body = word_value(d.subrange(0, 4), little);
        let end = if 8 + body < d.len() { 8 + body } else { d.len() as int };
        spans_from(d, end, 16, little)
    }
}

/// The (offset, size) of each complete event atom of the LV2 atom sequence
/// in `data`, its words read in the byte order `little` names (see
/// [`event_spans`]).
pub fn sequence_event_spans(data: &[u8], little: bool) -> (r: Vec<(usize, usize)>)
    ensures
        r@ == event_spans(data@, little),
{
    let mut out: Vec<(usize, usize)> = Vec::new();
    let len = data.len();
    if len < 16 {
        return out;
    }
    let body = read_word(data, 0, little);
    let end: u128 = if 8 + (body as u128) < len as u128 { 8 + body as u128 } else { len as u128 };
    let ghost full = event_spans(data@, little);
    let mut offset: u128 = 16;
    assert(out@ + spans_from(data@, end as int, offset as int, little) =~= full);
    loop
        invariant
            len == data@.len(),
            end <= len,
            16 <= offset <= end + 8,
            full == event_spans(data@, little),
            out@ + spans_from(data@, end as int, offset as int, little) == full,
        decreases end + 8 - offset,
    {
        if offset + 16 > end {
            assert(out@ =~= full);
            return out;
        }
        let ea = offset + 8;
        let size = read_word(data, ea as usize, little);
        let total: u128 = 8 + size as u128;
        if ea + total > end {
            assert(out@ =~= full);
            return out;
        }
        let ghost rest = spans_from(data@, end as int, (offset + 8 + padded8(total as nat)) as int, little);
        out.push((ea as usize, total as usize));
        let padded = (total + 7) / 8 * 8;
        proof {
            assert(padded == padded8(total as nat));
            lemma_padded8_bounds(total as nat);
        }
        offset = offset + 8 + padded;
        proof {
            assert(out@ + rest =~= full);
        }
    }
}

/// The body size a new sequence of `capacity` bytes starts with: all but
/// the 8-byte atom header for an output, just the 8-byte sequence header
/// for an input.
pub open spec fn sequence_body_size(capacity: usize, is_output: bool) -> u32 {
    if is_output { #[verifier::truncate] ((capacity - 8) as u32) } else { 8u32 }
}

/// The first 16 bytes of `b` are the header of an atom sequence with body
/// size `size` and type `urid`, unit and padding 0, each word in the byte
/// order `little` names.
pub open spec fn sequence_header(b: Seq<u8>, size: u32, urid: u32, little: bool) -> bool {
    &&& b.subrange(0, 4) == word_bytes(size, little)
    &&& b.subrange(4, 8) == word_bytes(urid, little)
    &&& b.subrange(8, 12) == word_bytes(0, little)
    &&& b.subrange(12, 16) == word_bytes(0, little)
}

/// Starts an LV2 atom sequence in the first `capacity` bytes of `buf`: all
/// zero but the header, whose first word is the body size (the whole
/// capacity less the 8-byte atom header for an output, the 8-byte sequence
/// header for an input), whose second is the sequence type, and whose
/// unit and padding words are 0; all words in the machine's byte order.
pub fn init_atom_sequence(buf: &mut [u8], capacity: usize, is_output: bool, sequence_type_urid: u32)
    requires
        16 <= capacity <= old(buf)@.len(),
    ensures
        final(buf)@.len() == old(buf)@.len(),
        exists|little: bool| #[trigger] sequence_header(
            final(buf)@,
            sequence_body_size(capacity, is_output),
            sequence_type_urid,
            little,
        ),
        forall|i: int| 16 <= i < capacity ==> #[trigger] final(buf)@[i] == 0,
        forall|i: int| capacity <= i < old(buf)@.len() ==> #[trigger] final(buf)@[i] == old(buf)@[i],
{
    let little = native_little_endian();
    init_atom_sequence_in(buf, capacity, is_output, sequence_type_urid, little);
}

/// [`init_atom_sequence`] with the header words in the byte order `little`
/// names.
pub fn init_atom_sequence_in(buf: &mut [u8], capacity: usize, is_output: bool, sequence_type_urid: u32, little: bool)
    requires
        16 <= capacity <= old(buf)@.len(),
    ensures
        final(buf)@.len() == old(buf)@.len(),
        sequence_header(
            final(buf)@,
            sequence_body_size(capacity, is_output),
            sequence_type_urid,
            little,
        ),
        forall|i: int| 16 <= i < capacity ==> #[trigger] final(buf)@[i] == 0,
        forall|i: int| capacity <= i < old(buf)@.len() ==> #[trigger] final(buf)@[i] == old(buf)@[i],
{
    let ghost b0 = buf@;
    let mut i: usize = 0;
    while i < capacity
        invariant
            capacity <= b0.len(),
            buf@.len() == b0.len(),
            0 <= i <= capacity,
            forall|j: int| 0 <= j < b0.len() ==> #[trigger] buf@[j] == if j < i { 0u8 } else { b0[j] },
        decreases capacity - i,
    {
        buf[i] = 0;
        i = i + 1;
    }
    let size: u32 = if is_output { #[verifier::truncate] ((capacity - 8) as u32) } else { 8 };
    let w0 = word_of(size, little);
    let w1 = word_of(sequence_type_urid, little);
    let w2 = word_of(0, little);
    let w3 = word_of(0, little);
    put_word(buf, 0, w0);
    put_word(buf, 4, w1);
    put_word(buf, 8, w2);
    put_word(buf, 12, w3);
    proof {
        assert(buf@.subrange(0, 4) =~= w0@);
        assert(buf@.subrange(4, 8) =~= w1@);
        assert(buf@.subrange(8, 12) =~= w2@);
        assert(buf@.subrange(12, 16) =~= w3@);
        assert forall|j: int| 16 <= j < capacity implies #[trigger] buf@[j] == 0 by {}
        assert forall|j: int| capacity <= j < b0.len() implies #[trigger] buf@[j] == b0[j] by {}
    }
}

} // verus!
