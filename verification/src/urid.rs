//! The URID table of the LV2 host: each URI gets a small number of its own,
//! starting at 1, and every number maps back to its URI.
use vstd::prelude::*;
use vstd::string::StrSliceExecFns;

use crate::text::str_eq;

verus! {

broadcast use vstd::string::group_string_axioms;

/// An LV2 URID.
pub type LV2Urid = u32;

/// The URIs of a table by number; number 0 is reserved and holds the empty
/// string, and no URI is held by two numbers from 1 on.
pub open spec fn urid_table_wf(v: Seq<Seq<char>>) -> bool {
    &&& v.len() >= 1
    &&& v[0] == Seq::<char>::empty()
    &&& forall|i: int, j: int| 1 <= i < v.len() && 1 <= j < v.len() && i != j ==> v[i] != v[j]
}

/// The number from 1 on that holds `uri`, if one does.
pub open spec fn urid_of(v: Seq<Seq<char>>, uri: Seq<char>) -> Option<int> {
    if exists|i: int| 1 <= i < v.len() && v[i] == uri {
        Some(choose|i: int| 1 <= i < v.len() && v[i] == uri)
    } else {
        None
    }
}

/// The table and the number after mapping `uri`: a known URI keeps its
/// number, a new one gets the next number.
pub open spec fn after_map(v: Seq<Seq<char>>, uri: Seq<char>) -> (Seq<Seq<char>>, int) {
    match urid_of(v, uri) {
        Some(i) => (v, i),
        None => (v.push(uri), v.len() as int),
    }
}

/// A URI table.
#[derive(Debug)]
pub struct UridMapper {
    id_to_uri: Vec<String>,
}

impl View for UridMapper {
    type V = Seq<Seq<char>>;

    closed spec fn view(&self) -> Seq<Seq<char>> {
        self.id_to_uri@.map_values(|s: String| s@)
    }
}

impl UridMapper {
    /// The table is well formed (see [`urid_table_wf`]).
    pub open spec fn wf(&self) -> bool {
        urid_table_wf(self@)
    }

    /// A table that holds only the reserved number 0.
    pub fn new() -> (r: Self)
        ensures
            r.wf(),
            r@ == seq![Seq::<char>::empty()],
    {
        let mut id_to_uri: Vec<String> = Vec::new();
        id_to_uri.push(String::new());
        let r = UridMapper { id_to_uri };
        assert(r@ =~= seq![Seq::<char>::empty()]);
        r
    }

    /// The number of `uri`, given a new one if it has none yet.
    pub fn map(&mut self, uri: &str) -> (r: LV2Urid)
        requires
            old(self).wf(),
            old(self)@.len() <= u32::MAX,
        ensures
            final(self).wf(),
            final(self)@ == after_map(old(self)@, uri@).0,
            r == after_map(old(self)@, uri@).1,
    {
        let mut i: usize = 1;
        while i < self.id_to_uri.len()
            invariant
                self.wf(),
                self@ == old(self)@,
                1 <= i <= self@.len(),
                self@.len() <= u32::MAX,
                forall|k: int| 1 <= k < i ==> self@[k] != uri@,
            decreases self@.len() - i,
        {
            if str_eq(self.id_to_uri[i].as_str(), uri) {
                proof {
                    assert(self@[i as int] == uri@);
                    let j = choose|j: int| 1 <= j < self@.len() && self@[j] == uri@;
                    assert(j == i);
                }
                return i as u32;
            }
            i = i + 1;
        }
        let id = self.id_to_uri.len() as u32;
        let ghost before = self@;
        self.id_to_uri.push(uri.to_string());
        proof {
            assert(self@ =~= before.push(uri@));
            assert(urid_of(before, uri@) is None);
        }
        id
    }

    /// The URI of number `urid`, if the table has that number.
    pub fn unmap(&self, urid: LV2Urid) -> (r: Option<String>)
        ensures
            match r {
                Some(s) => urid < self@.len() && s@ == self@[urid as int],
                None => urid >= self@.len(),
            },
    {
        if (urid as usize) < self.id_to_uri.len() {
            Some(self.id_to_uri[urid as usize].clone())
        } else {
            None
        }
    }
}

/// Mapping a URI and then looking its number up gives the URI back, and the
/// number is never the reserved 0.
pub proof fn law_unmap_after_map(v: Seq<Seq<char>>, uri: Seq<char>)
    requires
        urid_table_wf(v),
    ensures
        ({
            let (v2, id) = after_map(v, uri);
            &&& 1 <= id < v2.len()
            &&& v2[id] == uri
            &&& urid_table_wf(v2)
        }),
{
    if urid_of(v, uri) is None {
        let v2 = v.push(uri);
        assert forall|i: int, j: int| 1 <= i < v2.len() && 1 <= j < v2.len() && i != j implies v2[i] != v2[j] by {
            if i < v.len() && j < v.len() {
                assert(v2[i] == v[i] && v2[j] == v[j]);
            } else if i < v.len() {
                assert(v2[i] == v[i]);
            } else {
                assert(v2[j] == v[j]);
            }
        }
    }
}

/// Mapping a URI a second time changes nothing and gives the same number.
pub proof fn law_map_is_stable(v: Seq<Seq<char>>, uri: Seq<char>)
    requires
        urid_table_wf(v),
    ensures
        ({
            let (v2, id) = after_map(v, uri);
            after_map(v2, uri) == (v2, id)
        }),
{
    law_unmap_after_map(v, uri);
    let (v2, id) = after_map(v, uri);
    assert(v2[id] == uri);
    let j = choose|j: int| 1 <= j < v2.len() && v2[j] == uri;
    assert(j == id);
}

/// Two different URIs get different numbers.
pub proof fn law_distinct_uris_distinct_ids(v: Seq<Seq<char>>, a: Seq<char>, b: Seq<char>)
    requires
        urid_table_wf(v),
        a != b,
    ensures
        ({
            let (v2, ia) = after_map(v, a);
            let (v3, ib) = after_map(v2, b);
            ia != ib && v3[ia] == a && v3[ib] == b
        }),
{
    law_unmap_after_map(v, a);
    let (v2, ia) = after_map(v, a);
    law_unmap_after_map(v2, b);
    let (v3, ib) = after_map(v2, b);
    assert(v3[ia] == v2[ia]);
}

} // verus!
