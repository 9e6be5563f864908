//! Saved LV2 plugin state entries and the file names derived from URIs.
use vstd::prelude::*;
use vstd::utf8::valid_utf8;
use crate::text::{chars_of, has_infix, push_char, str_contains, utf8_of, utf8_str};
use crate::urid::{after_map, urid_of, urid_table_wf, UridMapper};

verus! {

/// One saved key/value of a plugin's state.
#[derive(Debug, Clone)]
pub struct StateEntry {
    pub key_uri: String,
    pub type_uri: String,
    pub value: Vec<u8>,
    pub flags: u32,
}

/// The bytes of a string value as stored: without a trailing NUL byte.
pub open spec fn string_payload(v: Seq<u8>) -> Seq<u8> {
    if v.len() > 0 && v.last() == 0 {
        v.drop_last()
    } else {
        v
    }
}

impl StateEntry {
    /// An entry of atom type `String` whose value is the UTF-8 bytes of
    /// `value` followed by a NUL byte (a C string).
    pub fn new_string(key_uri: &str, value: &str) -> (r: Self)
        ensures
            r.key_uri@ == key_uri@,
            r.type_uri@ == "http://lv2plug.in/ns/ext/atom#String"@,
            r.value@ == utf8_of(value@).push(0u8),
            r.flags == 0,
    {
        let atom_string_uri = "http://lv2plug.in/ns/ext/atom#String";
        let mut bytes = vstd::slice::slice_to_vec(value.as_bytes());
        bytes.push(0u8);
        StateEntry {
            key_uri: key_uri.to_owned(),
            type_uri: atom_string_uri.to_owned(),
            value: bytes,
            flags: 0,
        }
    }

    /// The value as a string: only for a type URI that mentions `String`,
    /// without one trailing NUL byte, and only where the rest is UTF-8.
    pub fn as_string(&self) -> (r: Option<&str>)
        ensures
            r is Some <==> (has_infix(self.type_uri@, "String"@) && valid_utf8(string_payload(self.value@))),
            r matches Some(s) ==> utf8_of(s@) == string_payload(self.value@),
    {
        if !str_contains(self.type_uri.as_str(), "String") {
            return None;
        }
        let n = self.value.len();
        let bytes: &[u8] = if n > 0 && self.value[n - 1] == 0 {
            vstd::slice::slice_subrange(self.value.as_slice(), 0, n - 1)
        } else {
            self.value.as_slice()
        };
        proof {
            assert(bytes@ =~= string_payload(self.value@));
        }
        utf8_str(bytes)
    }
}

/// Whether a character is alphanumeric, as `char::is_alphanumeric` decides.
pub uninterp spec fn alphanumeric(c: char) -> bool;

/// Calls `char::is_alphanumeric`: alphabetic or numeric in Unicode's sense.
/// Its result is named [`alphanumeric`] of the character.
#[verifier::external_body]
fn is_alphanumeric(c: char) -> (r: bool)
    ensures
        r == alphanumeric(c),
{
    c.is_alphanumeric()
}

/// A URI character kept in a file name: itself where it is alphanumeric,
/// `_` or `-`, else `_`.
pub open spec fn uri_char_spec(c: char, alnum: bool) -> char {
    if alnum || c == '_' || c == '-' {
        c
    } else {
        '_'
    }
}

/// The file-name form of one URI character, given whether it is
/// alphanumeric.
pub fn uri_char(c: char, alnum: bool) -> (r: char)
    ensures
        r == uri_char_spec(c, alnum),
{
    if alnum || c == '_' || c == '-' {
        c
    } else {
        '_'
    }
}

/// The file-name form of a URI: each character that is not alphanumeric,
/// `_` or `-` becomes `_`.
pub fn sanitize_uri(uri: &str) -> (r: String)
    ensures
        r@.len() == uri@.len(),
        forall|i: int| 0 <= i < uri@.len() ==> #[trigger] r@[i] == uri_char_spec(uri@[i], alphanumeric(uri@[i])),
{
    let cs = chars_of(uri);
    let mut out = String::new();
    let mut i: usize = 0;
    while i < cs.len()
        invariant
            cs@ == uri@,
            0 <= i <= cs@.len(),
            out@.len() == i,
            forall|k: int| 0 <= k < i ==> #[trigger] out@[k] == uri_char_spec(uri@[k], alphanumeric(uri@[k])),
        decreases cs@.len() - i,
    {
        let c = cs[i];
        let a = is_alphanumeric(c);
        let d = uri_char(c, a);
        push_char(&mut out, d);
        i = i + 1;
    }
    out
}


/// The status an LV2 state callback returns on success.
pub const LV2_STATE_SUCCESS: u32 = 0;

/// The status the store callback returns for a key or type it cannot name.
pub const LV2_STATE_ERR_UNKNOWN: u32 = 1;

/// Record one value that the plugin stores while its state is saved: the
/// key and type URIDs are turned back into URIs. A URID the table does not
/// know fails the call and records nothing.
pub fn store_entry(
    mapper: &UridMapper,
    entries: &mut Vec<StateEntry>,
    key: u32,
    value: &[u8],
    type_urid: u32,
    flags: u32,
) -> (status: u32)
    ensures
        key < mapper@.len() && type_urid < mapper@.len() ==> {
            &&& status == LV2_STATE_SUCCESS
            &&& final(entries)@.len() == old(entries)@.len() + 1
            &&& final(entries)@.drop_last() == old(entries)@
            &&& final(entries)@.last().key_uri@ == mapper@[key as int]
            &&& final(entries)@.last().type_uri@ == mapper@[type_urid as int]
            &&& final(entries)@.last().value@ == value@
            &&& final(entries)@.last().flags == flags
        },
        !(key < mapper@.len() && type_urid < mapper@.len()) ==> status == LV2_STATE_ERR_UNKNOWN
            && final(entries)@ == old(entries)@,
{
    let key_uri = match mapper.unmap(key) {
        Some(u) => u,
        None => return LV2_STATE_ERR_UNKNOWN,
    };
    let type_uri = match mapper.unmap(type_urid) {
        Some(u) => u,
        None => return LV2_STATE_ERR_UNKNOWN,
    };
    let data = vstd::slice::slice_to_vec(value);
    let ghost before = entries@;
    entries.push(StateEntry { key_uri, type_uri, value: data, flags });
    assert(entries@.drop_last() =~= before);
    LV2_STATE_SUCCESS
}

/// A saved value as the plugin gets it back: its key and type as URIDs.
#[derive(Debug)]
pub struct RetrieveEntry {
    pub key_urid: u32,
    pub type_urid: u32,
    pub data: Vec<u8>,
    pub flags: u32,
}

/// The URIs of the entries, in the order they are mapped: for each entry its
/// key, then its type.
pub open spec fn entry_uris(es: Seq<StateEntry>) -> Seq<Seq<char>>
    decreases es.len(),
{
    if es.len() == 0 {
        Seq::empty()
    } else {
        entry_uris(es.drop_last()).push(es.last().key_uri@).push(es.last().type_uri@)
    }
}

/// The URID table after mapping each of `us` in turn.
pub open spec fn map_uris(v: Seq<Seq<char>>, us: Seq<Seq<char>>) -> Seq<Seq<char>>
    decreases us.len(),
{
    if us.len() == 0 {
        v
    } else {
        after_map(map_uris(v, us.drop_last()), us.last()).0
    }
}

proof fn lemma_map_keeps(v: Seq<Seq<char>>, u: Seq<char>, id: int)
    requires
        urid_table_wf(v),
        1 <= id < v.len(),
    ensures
        after_map(v, u).0.len() >= v.len(),
        after_map(v, u).0[id] == v[id],
        after_map(v, u).0.len() <= v.len() + 1,
{
}

proof fn lemma_urid_of_at(v: Seq<Seq<char>>, id: int)
    requires
        urid_table_wf(v),
        1 <= id < v.len(),
    ensures
        urid_of(v, v[id]) == Some(id),
{
    let j = choose|j: int| 1 <= j < v.len() && v[j] == v[id];
    assert(j == id);
}

/// The saved entries with their key and type turned into URIDs of the
/// table, which learns every URI it did not know yet, in the order of
/// [`entry_uris`].
pub fn retrieve_entries(mapper: &mut UridMapper, entries: &[StateEntry]) -> (r: Vec<RetrieveEntry>)
    requires
        old(mapper).wf(),
        old(mapper)@.len() + 2 * entries@.len() <= u32::MAX as int + 1,
    ensures
        final(mapper).wf(),
        final(mapper)@ == map_uris(old(mapper)@, entry_uris(entries@)),
        r@.len() == entries@.len(),
        forall|i: int| #![trigger r@[i]]
            0 <= i < r@.len() ==> {
                &&& urid_of(final(mapper)@, entries@[i].key_uri@) == Some(r@[i].key_urid as int)
                &&& urid_of(final(mapper)@, entries@[i].type_uri@) == Some(r@[i].type_urid as int)
                &&& r@[i].data@ == entries@[i].value@
                &&& r@[i].flags == entries@[i].flags
            },
{
    let mut out: Vec<RetrieveEntry> = Vec::new();
    let mut i: usize = 0;
    proof {
        assert(entries@.take(0) =~= Seq::<StateEntry>::empty());
    }
    while i < entries.len()
        invariant
            0 <= i <= entries@.len(),
            mapper.wf(),
            mapper@ == map_uris(old(mapper)@, entry_uris(entries@.take(i as int))),
            mapper@.len() <= old(mapper)@.len() + 2 * i,
            old(mapper)@.len() + 2 * entries@.len() <= u32::MAX as int + 1,
            out@.len() == i,
            forall|k: int| #![trigger out@[k]]
                0 <= k < i ==> {
                    &&& 1 <= out@[k].key_urid < mapper@.len()
                    &&& 1 <= out@[k].type_urid < mapper@.len()
                    &&& mapper@[out@[k].key_urid as int] == entries@[k].key_uri@
                    &&& mapper@[out@[k].type_urid as int] == entries@[k].type_uri@
                    &&& out@[k].data@ == entries@[k].value@
                    &&& out@[k].flags == entries@[k].flags
                },
        decreases entries@.len() - i,
    {
        let e = &entries[i];
        let ghost v0 = mapper@;
        let key_urid = mapper.map(e.key_uri.as_str());
        let ghost v1 = mapper@;
        proof {
            crate::urid::law_unmap_after_map(v0, e.key_uri@);
            assert forall|k: int| 0 <= k < i implies #[trigger] v1[out@[k].key_urid as int] == v0[out@[k].key_urid as int]
                && v1[out@[k].type_urid as int] == v0[out@[k].type_urid as int] by {
                lemma_map_keeps(v0, e.key_uri@, out@[k].key_urid as int);
                lemma_map_keeps(v0, e.key_uri@, out@[k].type_urid as int);
            }
        }
        let type_urid = mapper.map(e.type_uri.as_str());
        proof {
            let v2 = mapper@;
            crate::urid::law_unmap_after_map(v1, e.type_uri@);
            lemma_map_keeps(v1, e.type_uri@, key_urid as int);
            assert forall|k: int| 0 <= k < i implies #[trigger] v2[out@[k].key_urid as int] == v1[out@[k].key_urid as int]
                && v2[out@[k].type_urid as int] == v1[out@[k].type_urid as int] by {
                lemma_map_keeps(v1, e.type_uri@, out@[k].key_urid as int);
                lemma_map_keeps(v1, e.type_uri@, out@[k].type_urid as int);
            }
            let t = entries@.take(i + 1);
            assert(t.drop_last() =~= entries@.take(i as int));
            assert(t.last() == entries@[i as int]);
            let eu = entry_uris(t);
            assert(eu.drop_last().drop_last() == entry_uris(entries@.take(i as int)));
            assert(eu.drop_last().last() == e.key_uri@);
            assert(eu.last() == e.type_uri@);
            assert(map_uris(old(mapper)@, eu.drop_last()) == after_map(
                map_uris(old(mapper)@, eu.drop_last().drop_last()),
                eu.drop_last().last(),
            ).0);
            assert(map_uris(old(mapper)@, eu) == after_map(
                map_uris(old(mapper)@, eu.drop_last()),
                eu.last(),
            ).0);
            assert(v2 == map_uris(old(mapper)@, eu));
        }
        let data = e.value.clone();
        out.push(RetrieveEntry { key_urid, type_urid, data, flags: e.flags });
        i = i + 1;
    }
    proof {
        assert(entries@.take(entries@.len() as int) =~= entries@);
        assert forall|k: int| #![trigger out@[k]] 0 <= k < out@.len() implies
            urid_of(mapper@, entries@[k].key_uri@) == Some(out@[k].key_urid as int)
            && urid_of(mapper@, entries@[k].type_uri@) == Some(out@[k].type_urid as int) by {
            lemma_urid_of_at(mapper@, out@[k].key_urid as int);
            lemma_urid_of_at(mapper@, out@[k].type_urid as int);
        }
    }
    out
}

/// The first retrieved entry with key `key`, as the plugin asks for a key.
pub fn find_retrieved(entries: &Vec<RetrieveEntry>, key: u32) -> (r: Option<usize>)
    ensures
        match r {
            Some(i) => i < entries@.len() && entries@[i as int].key_urid == key && forall|j: int|
                0 <= j < i ==> entries@[j].key_urid != key,
            None => forall|j: int| 0 <= j < entries@.len() ==> entries@[j].key_urid != key,
        },
{
    let mut i: usize = 0;
    while i < entries.len()
        invariant
            0 <= i <= entries@.len(),
            forall|j: int| 0 <= j < i ==> entries@[j].key_urid != key,
        decreases entries@.len() - i,
    {
        if entries[i].key_urid == key {
            return Some(i);
        }
        i = i + 1;
    }
    None
}

/// In a URID table two URIs share a number only when they are the same URI,
/// so a restored plugin that asks for the number of a saved key finds the
/// first value saved under that very key.
pub proof fn law_urid_identifies_uri(v: Seq<Seq<char>>, a: Seq<char>, b: Seq<char>, ia: int, ib: int)
    requires
        urid_table_wf(v),
        urid_of(v, a) == Some(ia),
        urid_of(v, b) == Some(ib),
    ensures
        ia == ib <==> a == b,
{
}

} // verus!
