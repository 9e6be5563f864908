//! The port groups of a bridge node, each with the device name shown for it,
//! kept in increasing order of group name.
use vstd::prelude::*;
use crate::text::{bytes_eq, lemma_utf8_injective, utf8_of};

verus! {

/// Byte-wise lexicographic "less than" (the order of `String`).
pub open spec fn bytes_less(a: Seq<u8>, b: Seq<u8>) -> bool
    decreases a.len(),
{
    if a.len() == 0 {
        b.len() > 0
    } else if b.len() == 0 {
        false
    } else if a[0] != b[0] {
        a[0] < b[0]
    } else {
        bytes_less(a.drop_first(), b.drop_first())
    }
}

/// "Less than" on names, by their UTF-8 bytes.
pub open spec fn name_less(a: Seq<char>, b: Seq<char>) -> bool {
    bytes_less(utf8_of(a), utf8_of(b))
}

pub proof fn lemma_bytes_less_total(a: Seq<u8>, b: Seq<u8>)
    ensures
        a == b || bytes_less(a, b) || bytes_less(b, a),
        !(bytes_less(a, b) && bytes_less(b, a)),
        !bytes_less(a, a),
    decreases a.len(),
{
    if a.len() > 0 && b.len() > 0 {
        lemma_bytes_less_total(a.drop_first(), b.drop_first());
        if a[0] == b[0] && a.drop_first() == b.drop_first() {
            assert forall|k: int| 0 <= k < a.len() implies a[k] == b[k] by {
                if k > 0 {
                    assert(a[k] == a.drop_first()[k - 1]);
                    assert(b[k] == b.drop_first()[k - 1]);
                }
            }
            assert(a =~= b);
        }
    } else if a.len() == 0 && b.len() == 0 {
        assert(a =~= b);
    }
    if a.len() > 0 {
        lemma_bytes_less_total(a.drop_first(), a.drop_first());
    }
}

pub proof fn lemma_bytes_less_transitive(a: Seq<u8>, b: Seq<u8>, c: Seq<u8>)
    requires
        bytes_less(a, b),
        bytes_less(b, c),
    ensures
        bytes_less(a, c),
    decreases a.len(),
{
    if a.len() > 0 && b.len() > 0 && c.len() > 0 && a[0] == b[0] && b[0] == c[0] {
        lemma_bytes_less_transitive(a.drop_first(), b.drop_first(), c.drop_first());
    }
}

/// `a < b` in byte-wise lexicographic order.
pub fn slice_less(a: &[u8], b: &[u8]) -> (r: bool)
    ensures
        r == bytes_less(a@, b@),
{
    let mut i: usize = 0;
    assert(a@.skip(0) =~= a@);
    assert(b@.skip(0) =~= b@);
    while i < a.len() && i < b.len()
        invariant
            0 <= i <= a@.len(),
            i <= b@.len(),
            forall|k: int| 0 <= k < i ==> a@[k] == b@[k],
            bytes_less(a@, b@) == bytes_less(a@.skip(i as int), b@.skip(i as int)),
        decreases a@.len() - i,
    {
        if a[i] != b[i] {
            proof {
                assert(a@.skip(i as int)[0] == a@[i as int]);
                assert(b@.skip(i as int)[0] == b@[i as int]);
            }
            return a[i] < b[i];
        }
        proof {
            assert(a@.skip(i as int).drop_first() =~= a@.skip(i + 1));
            assert(b@.skip(i as int).drop_first() =~= b@.skip(i + 1));
        }
        i = i + 1;
    }
    i < b.len()
}

/// The part of `s` before the first `c` (all of `s` if it has none).
pub open spec fn prefix_before(s: Seq<char>, c: char) -> Seq<char>
    decreases s.len(),
{
    if s.len() == 0 {
        s
    } else if s[0] == c {
        Seq::empty()
    } else {
        seq![s[0]] + prefix_before(s.drop_first(), c)
    }
}

/// Strictly increasing group names.
pub open spec fn groups_sorted(s: Seq<(Seq<char>, Seq<char>)>) -> bool {
    forall|i: int, j: int| 0 <= i < j < s.len() ==> name_less(#[trigger] s[i].0, #[trigger] s[j].0)
}

/// The map from group name to device name.
pub open spec fn groups_map(s: Seq<(Seq<char>, Seq<char>)>) -> Map<Seq<char>, Seq<char>> {
    Map::new(
        |k: Seq<char>| exists|i: int| 0 <= i < s.len() && s[i].0 == k,
        |k: Seq<char>| s[choose|i: int| 0 <= i < s.len() && s[i].0 == k].1,
    )
}

/// Group names with their device names, in increasing order of group name.
#[derive(Debug)]
pub struct PortGroups {
    entries: Vec<(String, String)>,
}

pub open spec fn pair_views(s: Seq<(String, String)>) -> Seq<(Seq<char>, Seq<char>)> {
    s.map_values(|e: (String, String)| (e.0@, e.1@))
}

impl View for PortGroups {
    type V = Map<Seq<char>, Seq<char>>;

    closed spec fn view(&self) -> Map<Seq<char>, Seq<char>> {
        groups_map(pair_views(self.entries@))
    }
}

impl PortGroups {
    /// The entries are in strictly increasing order of group name.
    pub closed spec fn wf(&self) -> bool {
        groups_sorted(pair_views(self.entries@))
    }

    /// The entries in order of group name.
    pub closed spec fn entries(&self) -> Seq<(Seq<char>, Seq<char>)> {
        pair_views(self.entries@)
    }

    pub proof fn lemma_entries(&self)
        requires
            self.wf(),
        ensures
            groups_sorted(self.entries()),
            self@ == groups_map(self.entries()),
    {
    }

    /// No groups.
    pub fn new() -> (r: Self)
        ensures
            r.wf(),
            r@ == Map::<Seq<char>, Seq<char>>::empty(),
    {
        let r = PortGroups { entries: Vec::new() };
        assert(r@ =~= Map::<Seq<char>, Seq<char>>::empty());
        r
    }

    /// The number of groups.
    pub fn len(&self) -> (r: usize)
        requires
            self.wf(),
        ensures
            r == self.entries().len(),
    {
        self.entries.len()
    }

    fn position(&self, group: &str) -> (r: Result<usize, usize>)
        requires
            self.wf(),
        ensures
            match r {
                Ok(i) => i < self.entries().len() && self.entries()[i as int].0 == group@,
                Err(i) => i <= self.entries().len() && (forall|k: int| 0 <= k < i ==> name_less(#[trigger] self.entries()[k].0, group@))
                    && (forall|k: int| i <= k < self.entries().len() ==> name_less(group@, #[trigger] self.entries()[k].0)),
            },
    {
        let ghost es = self.entries();
        let mut i: usize = 0;
        while i < self.entries.len()
            invariant
                es == self.entries(),
                groups_sorted(es),
                0 <= i <= es.len(),
                forall|k: int| 0 <= k < i ==> name_less(#[trigger] es[k].0, group@),
            decreases es.len() - i,
        {
            let key = self.entries[i].0.as_str();
            assert(key@ == es[i as int].0);
            if bytes_eq(key.as_bytes(), group.as_bytes()) {
                proof {
                    lemma_utf8_injective(key@, group@);
                }
                return Ok(i);
            }
            if !slice_less(key.as_bytes(), group.as_bytes()) {
                proof {
                    lemma_utf8_injective(key@, group@);
                    lemma_bytes_less_total(utf8_of(key@), utf8_of(group@));
                    assert forall|k: int| i <= k < es.len() implies name_less(group@, #[trigger] es[k].0) by {
                        if k > i {
                            lemma_bytes_less_transitive(utf8_of(group@), utf8_of(es[i as int].0), utf8_of(es[k].0));
                        }
                    }
                }
                return Err(i);
            }
            i = i + 1;
        }
        Err(i)
    }

    /// The device name of `group`, if it is a group here.
    pub fn get(&self, group: &str) -> (r: Option<&str>)
        requires
            self.wf(),
        ensures
            match r {
                Some(d) => self@.contains_key(group@) && self@[group@] == d@,
                None => !self@.contains_key(group@),
            },
    {
        let ghost es = self.entries();
        match self.position(group) {
            Ok(i) => {
                proof {
                    let j = choose|j: int| 0 <= j < es.len() && es[j].0 == group@;
                    if j != i {
                        if j < i {
                            assert(name_less(es[j].0, es[i as int].0));
                        } else {
                            assert(name_less(es[i as int].0, es[j].0));
                        }
                        lemma_bytes_less_total(utf8_of(group@), utf8_of(group@));
                    }
                }
                Some(self.entries[i].1.as_str())
            },
            Err(i) => {
                proof {
                    if self@.contains_key(group@) {
                        let j = choose|j: int| 0 <= j < es.len() && es[j].0 == group@;
                        lemma_bytes_less_total(utf8_of(group@), utf8_of(group@));
                        if j < i {
                            assert(name_less(es[j].0, group@));
                        } else {
                            assert(name_less(group@, es[j].0));
                        }
                    }
                }
                None
            },
        }
    }

    /// Add `group` with `device` unless the group is already here; returns whether it was added.
    pub fn insert_if_absent(&mut self, group: String, device: String) -> (r: bool)
        requires
            old(self).wf(),
        ensures
            final(self).wf(),
            r == !old(self)@.contains_key(group@),
            final(self)@ == if r {
                old(self)@.insert(group@, device@)
            } else {
                old(self)@
            },
    {
        let ghost es = self.entries();
        match self.position(group.as_str()) {
            Ok(_) => {
                proof {
                    assert(self@.contains_key(group@));
                }
                false
            },
            Err(i) => {
                let ghost g = group@;
                let ghost d = device@;
                proof {
                    if self@.contains_key(g) {
                        let j = choose|j: int| 0 <= j < es.len() && es[j].0 == g;
                        lemma_bytes_less_total(utf8_of(g), utf8_of(g));
                        if j < i {
                            assert(name_less(es[j].0, g));
                        } else {
                            assert(name_less(g, es[j].0));
                        }
                    }
                }
                self.entries.insert(i, (group, device));
                proof {
                    let ns = self.entries();
                    assert(ns =~= es.insert(i as int, (g, d)));
                    assert forall|a: int, b: int| 0 <= a < b < ns.len() implies name_less(#[trigger] ns[a].0, #[trigger] ns[b].0) by {
                        if b < i {
                            assert(ns[a] == es[a] && ns[b] == es[b]);
                        } else if b == i {
                            assert(ns[a] == es[a]);
                        } else if a == i {
                            assert(ns[b] == es[b - 1]);
                        } else if a < i {
                            assert(ns[a] == es[a] && ns[b] == es[b - 1]);
                        } else {
                            assert(ns[a] == es[a - 1] && ns[b] == es[b - 1]);
                        }
                    }
                    let m1 = groups_map(ns);
                    let m2 = groups_map(es).insert(g, d);
                    assert forall|k: Seq<char>| #[trigger] m1.contains_key(k) <==> m2.contains_key(k) by {
                        if m1.contains_key(k) {
                            let j = choose|j: int| 0 <= j < ns.len() && ns[j].0 == k;
                            if j < i {
                                assert(ns[j] == es[j]);
                            } else if j > i {
                                assert(ns[j] == es[j - 1]);
                            }
                        }
                        if groups_map(es).contains_key(k) {
                            let j = choose|j: int| 0 <= j < es.len() && es[j].0 == k;
                            let j2 = if j < i { j } else { j + 1 };
                            assert(ns[j2] == es[j]);
                        }
                        if k == g {
                            assert(ns[i as int].0 == g);
                        }
                    }
                    assert forall|k: Seq<char>| #[trigger] m1.contains_key(k) implies m1[k] == m2[k] by {
                        let j = choose|j: int| 0 <= j < ns.len() && ns[j].0 == k;
                        assert forall|x: int, y: int| 0 <= x < ns.len() && 0 <= y < ns.len() && ns[x].0 == ns[y].0 implies x == y by {
                            if x < y {
                                assert(name_less(ns[x].0, ns[y].0));
                                lemma_bytes_less_total(utf8_of(ns[x].0), utf8_of(ns[x].0));
                            } else if y < x {
                                assert(name_less(ns[y].0, ns[x].0));
                                lemma_bytes_less_total(utf8_of(ns[x].0), utf8_of(ns[x].0));
                            }
                        }
                        if j == i {
                        } else {
                            let j2 = if j < i { j } else { j - 1 };
                            assert(ns[j] == es[j2]);
                            let j3 = choose|j3: int| 0 <= j3 < es.len() && es[j3].0 == k;
                            if j3 != j2 {
                                if j3 < j2 {
                                    assert(name_less(es[j3].0, es[j2].0));
                                } else {
                                    assert(name_less(es[j2].0, es[j3].0));
                                }
                                lemma_bytes_less_total(utf8_of(k), utf8_of(k));
                            }
                        }
                    }
                    assert(m1 =~= m2);
                }
                true
            },
        }
    }
}

} // verus!
