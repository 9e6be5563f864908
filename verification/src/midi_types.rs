//! MIDI controller mappings: each binds a (device, channel, CC or note number)
//! source to one plugin parameter.
use vstd::prelude::*;
use crate::text::str_eq;

verus! {

/// Identifier of a running plugin instance.
pub type PluginInstanceId = u64;

#[derive(Debug, Clone, Copy, PartialEq, Eq, Hash, Structural)]
pub enum MidiMessageType {
    Cc,
    Note,
}

impl Default for MidiMessageType {
    fn default() -> (r: Self)
        ensures
            r == MidiMessageType::Cc,
    {
        MidiMessageType::Cc
    }
}

/// How an incoming controller value drives the target parameter.
#[derive(Debug, Clone, Copy, PartialEq, Eq, Structural)]
pub enum MappingMode {
    /// Value 0-127 maps onto the parameter range.
    Continuous,
    /// Each press (a value rising above 63) flips the parameter.
    Toggle,
    /// The parameter is on while the value is above 63.
    Momentary,
}

impl Default for MappingMode {
    fn default() -> (r: Self)
        ensures
            r == MappingMode::Continuous,
    {
        MappingMode::Continuous
    }
}

/// Which device, channel and controller (or note) a mapping listens to.
/// `channel == None` listens on every channel.
#[derive(Debug, PartialEq, Eq, Hash)]
pub struct MidiCcSource {
    pub device_name: String,
    pub channel: Option<u8>,
    pub cc: u8,
    pub message_type: MidiMessageType,
}

/// The mathematical value of a source: the key of the mapping table.
pub type SourceKey = (Seq<char>, Option<u8>, u8, MidiMessageType);

impl View for MidiCcSource {
    type V = SourceKey;

    open spec fn view(&self) -> SourceKey {
        (self.device_name@, self.channel, self.cc, self.message_type)
    }
}

impl Clone for MidiCcSource {
    fn clone(&self) -> (r: Self)
        ensures
            r@ == self@,
    {
        MidiCcSource {
            device_name: self.device_name.clone(),
            channel: self.channel,
            cc: self.cc,
            message_type: self.message_type,
        }
    }
}

/// Whether two sources are the same key.
pub fn same_source(a: &MidiCcSource, b: &MidiCcSource) -> (r: bool)
    ensures
        r == (a@ == b@),
{
    let same_channel = match (a.channel, b.channel) {
        (Some(x), Some(y)) => x == y,
        (None, None) => true,
        _ => false,
    };
    a.device_name == b.device_name && same_channel && a.cc == b.cc && a.message_type
        == b.message_type
}

/// The plugin parameter a mapping drives.
#[derive(Debug, Clone, Copy, PartialEq, Eq, Hash, Structural)]
pub struct MidiCcTarget {
    pub instance_id: PluginInstanceId,
    pub port_index: usize,
}

/// One mapping: a source, the parameter it drives, the mode, and a label for display.
#[derive(Debug)]
pub struct MidiCcMapping {
    pub source: MidiCcSource,
    pub target: MidiCcTarget,
    pub mode: MappingMode,
    pub label: String,
}

/// The mathematical value of a mapping.
pub struct MappingView {
    pub source: SourceKey,
    pub target: MidiCcTarget,
    pub mode: MappingMode,
    pub label: Seq<char>,
}

impl View for MidiCcMapping {
    type V = MappingView;

    open spec fn view(&self) -> MappingView {
        MappingView {
            source: self.source@,
            target: self.target,
            mode: self.mode,
            label: self.label@,
        }
    }
}

impl Clone for MidiCcMapping {
    fn clone(&self) -> (r: Self)
        ensures
            r@ == self@,
    {
        MidiCcMapping {
            source: self.source.clone(),
            target: self.target,
            mode: self.mode,
            label: self.label.clone(),
        }
    }
}

/// The views of a sequence of mappings.
pub open spec fn mapping_views(s: Seq<MidiCcMapping>) -> Seq<MappingView> {
    s.map_values(|m: MidiCcMapping| m@)
}

/// No two mappings of the sequence share a source.
pub open spec fn sources_distinct(s: Seq<MappingView>) -> bool {
    forall|i: int, j: int|
        0 <= i < s.len() && 0 <= j < s.len() && i != j ==> s[i].source != s[j].source
}

/// The table a sequence of mappings with distinct sources stands for.
pub open spec fn table_of(s: Seq<MappingView>) -> Map<SourceKey, MappingView> {
    Map::new(
        |k: SourceKey| exists|i: int| 0 <= i < s.len() && s[i].source == k,
        |k: SourceKey| s[choose|i: int| 0 <= i < s.len() && s[i].source == k],
    )
}

/// The entries of `m` whose mapping satisfies `keep`.
pub open spec fn keep_where(
    m: Map<SourceKey, MappingView>,
    keep: spec_fn(SourceKey, MappingView) -> bool,
) -> Map<SourceKey, MappingView> {
    Map::new(|k: SourceKey| m.contains_key(k) && keep(k, m[k]), |k: SourceKey| m[k])
}

/// The table after inserting each mapping of `s` in turn, later ones replacing earlier ones.
pub open spec fn insert_all(m: Map<SourceKey, MappingView>, s: Seq<MappingView>) -> Map<
    SourceKey,
    MappingView,
>
    decreases s.len(),
{
    if s.len() == 0 {
        m
    } else {
        insert_all(m, s.drop_last()).insert(s.last().source, s.last())
    }
}

/// The lookup that tries the exact channel first, then the any-channel mapping.
pub open spec fn wildcard_lookup(
    m: Map<SourceKey, MappingView>,
    device: Seq<char>,
    channel: u8,
    cc: u8,
    message_type: MidiMessageType,
) -> Option<MappingView> {
    let exact = (device, Some(channel), cc, message_type);
    let any = (device, None::<u8>, cc, message_type);
    if m.contains_key(exact) {
        Some(m[exact])
    } else if m.contains_key(any) {
        Some(m[any])
    } else {
        None
    }
}

/// The view of a looked-up mapping.
pub open spec fn found_view(r: Option<&MidiCcMapping>) -> Option<MappingView> {
    match r {
        Some(m) => Some(m@),
        None => None,
    }
}

/// The view of an owned mapping, if any.
pub open spec fn owned_view(r: Option<MidiCcMapping>) -> Option<MappingView> {
    match r {
        Some(m) => Some(m@),
        None => None,
    }
}

proof fn lemma_table_at(s: Seq<MappingView>, i: int)
    requires
        sources_distinct(s),
        0 <= i < s.len(),
    ensures
        table_of(s).contains_key(s[i].source),
        table_of(s)[s[i].source] == s[i],
{
    let k = s[i].source;
    assert(exists|j: int| 0 <= j < s.len() && s[j].source == k);
    let j = choose|j: int| 0 <= j < s.len() && s[j].source == k;
    assert(j == i);
}

proof fn lemma_table_absent(s: Seq<MappingView>, k: SourceKey)
    requires
        forall|i: int| 0 <= i < s.len() ==> s[i].source != k,
    ensures
        !table_of(s).contains_key(k),
{
}


/// Appending a mapping whose source is new adds it to the table.
proof fn lemma_table_push(s: Seq<MappingView>, v: MappingView)
    requires
        sources_distinct(s),
        !table_of(s).contains_key(v.source),
    ensures
        sources_distinct(s.push(v)),
        table_of(s.push(v)) == table_of(s).insert(v.source, v),
{
    let t = s.push(v);
    let n = s.len() as int;
    assert forall|a: int, b: int| 0 <= a < t.len() && 0 <= b < t.len() && a != b implies t[a].source != t[b].source by {
        if a < n && b < n {
            assert(t[a] == s[a] && t[b] == s[b]);
        } else if a == n {
            assert(t[b] == s[b]);
            lemma_table_at(s, b);
        } else {
            assert(t[a] == s[a]);
            lemma_table_at(s, a);
        }
    }
    let m1 = table_of(t);
    let m2 = table_of(s).insert(v.source, v);
    assert forall|k: SourceKey| #[trigger] m1.contains_key(k) <==> m2.contains_key(k) by {
        if k == v.source {
            lemma_table_at(t, n);
        } else if table_of(s).contains_key(k) {
            let j = choose|j: int| 0 <= j < s.len() && s[j].source == k;
            assert(t[j] == s[j]);
        }
    }
    assert forall|k: SourceKey| #[trigger] m1.contains_key(k) implies m1[k] == m2[k] by {
        if k == v.source {
            lemma_table_at(t, n);
        } else {
            let j = choose|j: int| 0 <= j < t.len() && t[j].source == k;
            assert(t[j] == s[j]);
            lemma_table_at(t, j);
            lemma_table_at(s, j);
        }
    }
    assert(m1 =~= m2);
}

/// Dropping the entry at `i` removes its source from the table.
proof fn lemma_table_remove_at(s: Seq<MappingView>, i: int)
    requires
        sources_distinct(s),
        0 <= i < s.len(),
    ensures
        sources_distinct(s.remove(i)),
        table_of(s.remove(i)) == table_of(s).remove(s[i].source),
{
    let t = s.remove(i);
    assert forall|a: int, b: int| 0 <= a < t.len() && 0 <= b < t.len() && a != b implies t[a].source != t[b].source by {
        let a2 = if a < i { a } else { a + 1 };
        let b2 = if b < i { b } else { b + 1 };
        assert(t[a] == s[a2] && t[b] == s[b2]);
    }
    let m1 = table_of(t);
    let m2 = table_of(s).remove(s[i].source);
    assert forall|k: SourceKey| #[trigger] m1.contains_key(k) implies m2.contains_key(k) && m1[k] == m2[k] by {
        let a = choose|a: int| 0 <= a < t.len() && t[a].source == k;
        let a2 = if a < i { a } else { a + 1 };
        assert(t[a] == s[a2]);
        lemma_table_at(t, a);
        lemma_table_at(s, a2);
    }
    assert forall|k: SourceKey| #[trigger] m2.contains_key(k) implies m1.contains_key(k) by {
        let j = choose|j: int| 0 <= j < s.len() && s[j].source == k;
        assert(j != i);
        let a = if j < i { j } else { j - 1 };
        assert(t[a] == s[j]);
    }
    assert(m1 =~= m2);
}

/// Whether a mapping is removed when dropping those of plugin `instance` or device `device`.
pub open spec fn dropped_by(
    instance: Option<PluginInstanceId>,
    device: Option<Seq<char>>,
    k: SourceKey,
    m: MappingView,
) -> bool {
    instance == Some(m.target.instance_id) || device == Some(k.0)
}

pub open spec fn opt_str_view(s: Option<&str>) -> Option<Seq<char>> {
    match s {
        Some(x) => Some(x@),
        None => None,
    }
}

/// The views of a sequence of borrowed mappings.
pub open spec fn ref_views(s: Seq<&MidiCcMapping>) -> Seq<MappingView> {
    s.map_values(|m: &MidiCcMapping| m@)
}

/// The mapping table: at most one mapping per source.
#[derive(Debug)]
pub struct MidiMappingTable {
    by_source: Vec<MidiCcMapping>,
}

impl View for MidiMappingTable {
    type V = Map<SourceKey, MappingView>;

    closed spec fn view(&self) -> Map<SourceKey, MappingView> {
        table_of(mapping_views(self.by_source@))
    }
}

impl MidiMappingTable {
    /// The table holds at most one mapping per source.
    pub closed spec fn wf(&self) -> bool {
        sources_distinct(mapping_views(self.by_source@))
    }

    /// The position of the mapping bound to the key made of the given parts, if any.
    fn position_of_key(
        &self,
        device: &str,
        channel: Option<u8>,
        cc: u8,
        message_type: MidiMessageType,
    ) -> (r: Option<usize>)
        requires
            self.wf(),
        ensures
            match r {
                Some(i) => i < self.by_source@.len() && self.by_source@[i as int].source@ == (
                device@,
                channel,
                cc,
                message_type,
                ),
                None => forall|i: int|
                    0 <= i < self.by_source@.len() ==> self.by_source@[i].source@ != (
                    device@,
                    channel,
                    cc,
                    message_type,
                    ),
            },
            r is None <==> !self@.contains_key((device@, channel, cc, message_type)),
            r matches Some(i) ==> self@[(device@, channel, cc, message_type)] == self.by_source@[i as int]@,
    {
        let ghost key = (device@, channel, cc, message_type);
        let mut i: usize = 0;
        while i < self.by_source.len()
            invariant
                self.wf(),
                0 <= i <= self.by_source@.len(),
                key == (device@, channel, cc, message_type),
                forall|k: int| 0 <= k < i ==> self.by_source@[k].source@ != key,
            decreases self.by_source@.len() - i,
        {
            let src = &self.by_source[i].source;
            let same_channel = match (src.channel, channel) {
                (Some(x), Some(y)) => x == y,
                (None, None) => true,
                _ => false,
            };
            if str_eq(src.device_name.as_str(), device) && same_channel && src.cc == cc
                && src.message_type == message_type {
                proof {
                    let s = mapping_views(self.by_source@);
                    assert(s[i as int].source == key);
                    lemma_table_at(s, i as int);
                }
                return Some(i);
            }
            i = i + 1;
        }
        proof {
            let s = mapping_views(self.by_source@);
            assert forall|k: int| 0 <= k < s.len() implies s[k].source != key by {
                assert(s[k] == self.by_source@[k]@);
            }
            lemma_table_absent(s, key);
        }
        None
    }

    /// The position of the mapping bound to `source`, if any.
    fn position_of(&self, source: &MidiCcSource) -> (r: Option<usize>)
        requires
            self.wf(),
        ensures
            match r {
                Some(i) => i < self.by_source@.len() && self.by_source@[i as int].source@
                    == source@,
                None => forall|i: int|
                    0 <= i < self.by_source@.len() ==> self.by_source@[i].source@ != source@,
            },
            r is None <==> !self@.contains_key(source@),
    {
        self.position_of_key(
            source.device_name.as_str(),
            source.channel,
            source.cc,
            source.message_type,
        )
    }

    /// An empty table.
    pub fn new() -> (r: Self)
        ensures
            r.wf(),
            r@ == Map::<SourceKey, MappingView>::empty(),
    {
        let r = MidiMappingTable { by_source: Vec::new() };
        assert(r@ =~= Map::<SourceKey, MappingView>::empty());
        r
    }

    /// Bind `mapping.source` to `mapping`, returning the mapping it replaces, if any.
    pub fn insert(&mut self, mapping: MidiCcMapping) -> (r: Option<MidiCcMapping>)
        requires
            old(self).wf(),
        ensures
            final(self).wf(),
            final(self)@ == old(self)@.insert(mapping@.source, mapping@),
            owned_view(r) == old(self)@.get(mapping@.source),
    {
        let ghost key = mapping@.source;
        let ghost mv = mapping@;
        let ghost old_s = mapping_views(self.by_source@);
        match self.position_of(&mapping.source) {
            Some(i) => {
                let old_m = self.by_source.remove(i);
                self.by_source.insert(i, mapping);
                proof {
                    let s = mapping_views(self.by_source@);
                    assert(s =~= old_s.update(i as int, mv));
                    assert(old_s[i as int] == old_m@);
                    lemma_table_at(old_s, i as int);
                    assert forall|a: int, b: int|
                        0 <= a < s.len() && 0 <= b < s.len() && a != b implies s[a].source
                        != s[b].source by {
                        if a != i && b != i {
                            assert(s[a] == old_s[a] && s[b] == old_s[b]);
                        } else if a == i {
                            assert(s[b] == old_s[b]);
                        } else {
                            assert(s[a] == old_s[a]);
                        }
                    }
                    assert forall|k: SourceKey| #[trigger] self@.contains_key(k) <==> table_of(old_s).insert(key, mv).contains_key(k) by {
                        if k == key {
                            lemma_table_at(s, i as int);
                        } else if table_of(old_s).contains_key(k) {
                            let j = choose|j: int| 0 <= j < old_s.len() && old_s[j].source == k;
                            assert(s[j] == old_s[j]);
                        } else {
                            if self@.contains_key(k) {
                                let j = choose|j: int| 0 <= j < s.len() && s[j].source == k;
                                assert(j != i);
                                assert(s[j] == old_s[j]);
                            }
                        }
                    }
                    assert forall|k: SourceKey| #[trigger] self@.contains_key(k) implies self@[k] == table_of(old_s).insert(key, mv)[k] by {
                        if k == key {
                            lemma_table_at(s, i as int);
                        } else {
                            let j = choose|j: int| 0 <= j < s.len() && s[j].source == k;
                            assert(j != i);
                            assert(s[j] == old_s[j]);
                            lemma_table_at(s, j);
                            lemma_table_at(old_s, j);
                        }
                    }
                    assert(self@ =~= table_of(old_s).insert(key, mv));
                }
                Some(old_m)
            },
            None => {
                self.by_source.push(mapping);
                proof {
                    let s = mapping_views(self.by_source@);
                    let n = old_s.len() as int;
                    assert(s =~= old_s.push(mv));
                    assert forall|a: int, b: int|
                        0 <= a < s.len() && 0 <= b < s.len() && a != b implies s[a].source
                        != s[b].source by {
                        if a < n && b < n {
                            assert(s[a] == old_s[a] && s[b] == old_s[b]);
                        } else if a == n {
                            assert(s[b] == old_s[b]);
                            assert(old_s[b] == old(self).by_source@[b]@);
                        } else {
                            assert(s[a] == old_s[a]);
                            assert(old_s[a] == old(self).by_source@[a]@);
                        }
                    }
                    assert forall|k: SourceKey| #[trigger] self@.contains_key(k) <==> table_of(old_s).insert(key, mv).contains_key(k) by {
                        if k == key {
                            lemma_table_at(s, n);
                        } else if table_of(old_s).contains_key(k) {
                            let j = choose|j: int| 0 <= j < old_s.len() && old_s[j].source == k;
                            assert(s[j] == old_s[j]);
                        }
                    }
                    assert forall|k: SourceKey| #[trigger] self@.contains_key(k) implies self@[k] == table_of(old_s).insert(key, mv)[k] by {
                        if k == key {
                            lemma_table_at(s, n);
                        } else {
                            let j = choose|j: int| 0 <= j < s.len() && s[j].source == k;
                            assert(j != n);
                            assert(s[j] == old_s[j]);
                            lemma_table_at(s, j);
                            lemma_table_at(old_s, j);
                        }
                    }
                    assert(self@ =~= table_of(old_s).insert(key, mv));
                }
                None
            },
        }
    }

    /// The mappings of the table, in storage order.
    pub closed spec fn entries(&self) -> Seq<MappingView> {
        mapping_views(self.by_source@)
    }

    /// A well-formed table lists each of its entries once, and is the table of that list.
    pub proof fn lemma_entries(&self)
        requires
            self.wf(),
        ensures
            sources_distinct(self.entries()),
            self@ == table_of(self.entries()),
    {
    }

    /// Unbind `source`, returning the mapping it had, if any.
    pub fn remove(&mut self, source: &MidiCcSource) -> (r: Option<MidiCcMapping>)
        requires
            old(self).wf(),
        ensures
            final(self).wf(),
            final(self)@ == old(self)@.remove(source@),
            owned_view(r) == old(self)@.get(source@),
    {
        let ghost old_s = mapping_views(self.by_source@);
        match self.position_of(source) {
            Some(i) => {
                let m = self.by_source.remove(i);
                proof {
                    let s = mapping_views(self.by_source@);
                    assert(s =~= old_s.remove(i as int));
                    lemma_table_at(old_s, i as int);
                    assert(old_s[i as int] == m@);
                    lemma_table_remove_at(old_s, i as int);
                }
                Some(m)
            },
            None => {
                proof {
                    assert(table_of(old_s).remove(source@) =~= table_of(old_s));
                }
                None
            },
        }
    }

    /// Remove every mapping that drives a parameter of plugin `instance_id`.
    pub fn remove_by_instance(&mut self, instance_id: PluginInstanceId)
        requires
            old(self).wf(),
        ensures
            final(self).wf(),
            final(self)@ == keep_where(old(self)@, |k: SourceKey, m: MappingView| !dropped_by(Some(instance_id), None, k, m)),
    {
        self.retain_except(Some(instance_id), None);
    }

    /// Remove every mapping that listens to the device named `device_name`.
    pub fn remove_by_device(&mut self, device_name: &str)
        requires
            old(self).wf(),
        ensures
            final(self).wf(),
            final(self)@ == keep_where(old(self)@, |k: SourceKey, m: MappingView| !dropped_by(None, Some(device_name@), k, m)),
    {
        self.retain_except(None, Some(device_name));
    }

    /// Keep the mappings that neither drive plugin `instance` nor listen to `device`.
    fn retain_except(&mut self, instance: Option<PluginInstanceId>, device: Option<&str>)
        requires
            old(self).wf(),
        ensures
            final(self).wf(),
            final(self)@ == keep_where(old(self)@, |k: SourceKey, m: MappingView| !dropped_by(instance, opt_str_view(device), k, m)),
    {
        let ghost keep = |k: SourceKey, m: MappingView| !dropped_by(instance, opt_str_view(device), k, m);
        let mut rest: Vec<MidiCcMapping> = Vec::new();
        std::mem::swap(&mut rest, &mut self.by_source);
        let ghost all = rest@;
        let ghost old_s = mapping_views(all);
        let n = rest.len();
        let mut kept: Vec<MidiCcMapping> = Vec::new();
        let mut i: usize = 0;
        proof {
            assert(table_of(old_s.take(0)) =~= Map::empty());
            assert(table_of(mapping_views(kept@)) =~= Map::empty());
            assert(keep_where(Map::<SourceKey, MappingView>::empty(), keep) =~= Map::empty());
        }
        while i < n
            invariant
                n == all.len(),
                old_s == mapping_views(all),
                sources_distinct(old_s),
                0 <= i <= n,
                rest@ == all.subrange(i as int, n as int),
                sources_distinct(mapping_views(kept@)),
                table_of(mapping_views(kept@)) == keep_where(table_of(old_s.take(i as int)), keep),
                forall|k: SourceKey, m: MappingView| #[trigger] keep(k, m) == !dropped_by(instance, opt_str_view(device), k, m),
            decreases n - i,
        {
            let m = rest.remove(0);
            proof {
                assert(m == all[i as int]);
                assert(m@ == old_s[i as int]);
                let pre = old_s.take(i as int);
                assert(old_s.take(i + 1) =~= pre.push(m@));
                assert forall|a: int, b: int| 0 <= a < pre.len() && 0 <= b < pre.len() && a != b implies pre[a].source != pre[b].source by {
                    assert(pre[a] == old_s[a] && pre[b] == old_s[b]);
                }
                assert forall|a: int| 0 <= a < pre.len() implies pre[a].source != m@.source by {
                    assert(pre[a] == old_s[a]);
                }
                lemma_table_absent(pre, m@.source);
                lemma_table_push(pre, m@);
            }
            let drop_it = match instance {
                Some(id) => m.target.instance_id == id,
                None => false,
            } || match device {
                Some(d) => str_eq(m.source.device_name.as_str(), d),
                None => false,
            };
            assert(drop_it == dropped_by(instance, opt_str_view(device), m@.source, m@));
            if !drop_it {
                let ghost before = mapping_views(kept@);
                kept.push(m);
                proof {
                    assert(mapping_views(kept@) =~= before.push(m@));
                    lemma_table_push(before, m@);
                    let pre = old_s.take(i as int);
                    assert(keep_where(table_of(pre).insert(m@.source, m@), keep) =~= keep_where(table_of(pre), keep).insert(m@.source, m@));
                }
            } else {
                proof {
                    let pre = old_s.take(i as int);
                    assert(keep_where(table_of(pre).insert(m@.source, m@), keep) =~= keep_where(table_of(pre), keep));
                }
            }
            i = i + 1;
            proof {
                assert(rest@ =~= all.subrange(i as int, n as int));
            }
        }
        proof {
            assert(old_s.take(n as int) =~= old_s);
        }
        self.by_source = kept;
    }

    /// The mapping bound to `source`, if any.
    pub fn get(&self, source: &MidiCcSource) -> (r: Option<&MidiCcMapping>)
        requires
            self.wf(),
        ensures
            found_view(r) == self@.get(source@),
    {
        match self.position_of_key(
            source.device_name.as_str(),
            source.channel,
            source.cc,
            source.message_type,
        ) {
            Some(i) => Some(&self.by_source[i]),
            None => None,
        }
    }

    /// The mapping for a controller event: the one bound to exactly this
    /// channel if there is one, else the one bound to any channel.
    pub fn get_with_wildcard(
        &self,
        device_name: &str,
        channel: u8,
        cc: u8,
        message_type: MidiMessageType,
    ) -> (r: Option<&MidiCcMapping>)
        requires
            self.wf(),
        ensures
            found_view(r) == wildcard_lookup(self@, device_name@, channel, cc, message_type),
    {
        if let Some(i) = self.position_of_key(device_name, Some(channel), cc, message_type) {
            return Some(&self.by_source[i]);
        }
        match self.position_of_key(device_name, None, cc, message_type) {
            Some(i) => Some(&self.by_source[i]),
            None => None,
        }
    }

    /// A mapping that drives `target`, if any.
    pub fn find_by_target(&self, target: &MidiCcTarget) -> (r: Option<&MidiCcMapping>)
        requires
            self.wf(),
        ensures
            match r {
                Some(m) => self@.contains_key(m@.source) && self@[m@.source] == m@ && m@.target
                    == *target,
                None => forall|k: SourceKey| #[trigger]
                    self@.contains_key(k) ==> self@[k].target != *target,
            },
    {
        let mut i: usize = 0;
        while i < self.by_source.len()
            invariant
                self.wf(),
                0 <= i <= self.by_source@.len(),
                forall|k: int| 0 <= k < i ==> self.by_source@[k].target != *target,
            decreases self.by_source@.len() - i,
        {
            if self.by_source[i].target == *target {
                proof {
                    lemma_table_at(mapping_views(self.by_source@), i as int);
                }
                return Some(&self.by_source[i]);
            }
            i = i + 1;
        }
        proof {
            let s = mapping_views(self.by_source@);
            assert forall|k: SourceKey| #[trigger] self@.contains_key(k) implies self@[k].target != *target by {
                let j = choose|j: int| 0 <= j < s.len() && s[j].source == k;
                lemma_table_at(s, j);
                assert(s[j] == self.by_source@[j]@);
            }
        }
        None
    }

    /// The label of the mapping already bound to `source`, if any.
    pub fn conflict_check(&self, source: &MidiCcSource) -> (r: Option<&str>)
        requires
            self.wf(),
        ensures
            match r {
                Some(l) => self@.contains_key(source@) && l@ == self@[source@].label,
                None => !self@.contains_key(source@),
            },
    {
        match self.get(source) {
            Some(m) => Some(m.label.as_str()),
            None => None,
        }
    }

    /// Every mapping of the table, each once, in no particular order.
    pub fn all_mappings(&self) -> (r: Vec<&MidiCcMapping>)
        requires
            self.wf(),
        ensures
            sources_distinct(ref_views(r@)),
            table_of(ref_views(r@)) == self@,
    {
        let mut r: Vec<&MidiCcMapping> = Vec::new();
        let mut i: usize = 0;
        while i < self.by_source.len()
            invariant
                0 <= i <= self.by_source@.len(),
                ref_views(r@) == mapping_views(self.by_source@).take(i as int),
            decreases self.by_source@.len() - i,
        {
            let ghost before = r@;
            r.push(&self.by_source[i]);
            proof {
                assert(r@ =~= before.push(&self.by_source@[i as int]));
                assert(ref_views(r@) =~= ref_views(before).push(self.by_source@[i as int]@));
                assert(mapping_views(self.by_source@).take(i + 1) =~= mapping_views(self.by_source@).take(i as int).push(self.by_source@[i as int]@));
            }
            i = i + 1;
        }
        proof {
            assert(ref_views(r@) =~= mapping_views(self.by_source@));
        }
        r
    }

    /// The table made by inserting each mapping in turn; a later mapping
    /// replaces an earlier one with the same source.
    pub fn from_mappings(mappings: Vec<MidiCcMapping>) -> (r: Self)
        ensures
            r.wf(),
            r@ == insert_all(Map::empty(), mapping_views(mappings@)),
    {
        let mut table = Self::new();
        let ghost all = mapping_views(mappings@);
        let mut rest = mappings;
        let ghost orig = rest@;
        let n = rest.len();
        let mut i: usize = 0;
        while i < n
            invariant
                n == orig.len(),
                all == mapping_views(orig),
                0 <= i <= n,
                rest@ == orig.subrange(i as int, n as int),
                table.wf(),
                table@ == insert_all(Map::empty(), all.take(i as int)),
            decreases n - i,
        {
            let m = rest.remove(0);
            proof {
                assert(m == orig[i as int]);
                assert(all.take(i + 1).drop_last() =~= all.take(i as int));
            }
            table.insert(m);
            i = i + 1;
            proof {
                assert(rest@ =~= orig.subrange(i as int, n as int));
            }
        }
        proof {
            assert(all.take(n as int) =~= all);
        }
        table
    }
}


/// The saved form of the mapping table.
#[derive(Debug)]
pub struct SavedMidiMappings {
    pub mappings: Vec<MidiCcMapping>,
}

/// What the manager waits to bind while MIDI learn is active.
#[derive(Debug)]
pub struct MidiLearnState {
    pub target: MidiCcTarget,
    pub label: String,
    pub mode: MappingMode,
}

/// After binding a mapping, looking up its source gives it back, and every
/// other source keeps its mapping.
pub proof fn law_get_after_insert(
    before: Map<SourceKey, MappingView>,
    m: MappingView,
    k: SourceKey,
)
    ensures
        before.insert(m.source, m).get(k) == (if k == m.source {
            Some(m)
        } else {
            before.get(k)
        }),
{
}

/// After unbinding a source, looking it up finds nothing, and every other
/// source keeps its mapping.
pub proof fn law_get_after_remove(before: Map<SourceKey, MappingView>, removed: SourceKey, k: SourceKey)
    ensures
        before.remove(removed).get(k) == (if k == removed {
            None
        } else {
            before.get(k)
        }),
{
}

/// A mapping bound to the exact channel wins over one bound to any channel.
pub proof fn law_wildcard_prefers_exact(
    t: Map<SourceKey, MappingView>,
    device: Seq<char>,
    channel: u8,
    cc: u8,
    message_type: MidiMessageType,
)
    ensures
        t.contains_key((device, Some(channel), cc, message_type)) ==> wildcard_lookup(
            t,
            device,
            channel,
            cc,
            message_type,
        ) == Some(t[(device, Some(channel), cc, message_type)]),
        !t.contains_key((device, Some(channel), cc, message_type)) ==> wildcard_lookup(
            t,
            device,
            channel,
            cc,
            message_type,
        ) == t.get((device, None::<u8>, cc, message_type)),
{
}

/// After removing the mappings of a plugin instance none drives it, and
/// every mapping of another instance stays as it was.
pub proof fn law_remove_by_instance(t: Map<SourceKey, MappingView>, instance_id: PluginInstanceId)
    ensures
        ({
            let after = keep_where(
                t,
                |k: SourceKey, m: MappingView| !dropped_by(Some(instance_id), None, k, m),
            );
            &&& forall|k: SourceKey| #[trigger]
                after.contains_key(k) ==> after[k].target.instance_id != instance_id
            &&& forall|k: SourceKey| #[trigger]
                t.contains_key(k) && t[k].target.instance_id != instance_id ==> after.contains_key(k)
                    && after[k] == t[k]
        }),
{
}

/// Loading a list of mappings binds every source of the list, each to the
/// last mapping of the list with that source.
pub proof fn law_from_mappings_last_wins(s: Seq<MappingView>, i: int)
    requires
        0 <= i < s.len(),
        forall|j: int| i < j < s.len() ==> s[j].source != s[i].source,
    ensures
        insert_all(Map::empty(), s).contains_key(s[i].source),
        insert_all(Map::empty(), s)[s[i].source] == s[i],
    decreases s.len(),
{
    if i < s.len() - 1 {
        law_from_mappings_last_wins(s.drop_last(), i);
        assert(s.drop_last()[i] == s[i]);
    }
}

proof fn lemma_table_entry(s: Seq<MappingView>, i: int)
    requires
        sources_distinct(s),
        0 <= i < s.len(),
    ensures
        table_of(s).contains_key(s[i].source),
        table_of(s)[s[i].source] == s[i],
{
    let j = choose|j: int| 0 <= j < s.len() && s[j].source == s[i].source;
    assert(j == i);
}

proof fn lemma_table_listed(s: Seq<MappingView>, k: SourceKey)
    requires
        sources_distinct(s),
        table_of(s).contains_key(k),
    ensures
        s.contains(table_of(s)[k]),
        table_of(s)[k].source == k,
{
    let j = choose|j: int| 0 <= j < s.len() && s[j].source == k;
    assert(s[j] == table_of(s)[k]);
}

proof fn lemma_distinct_sources_no_duplicates(s: Seq<MappingView>)
    requires
        sources_distinct(s),
    ensures
        s.no_duplicates(),
{
}

proof fn lemma_filter_no_duplicates<A>(s: Seq<A>, p: spec_fn(A) -> bool)
    requires
        s.no_duplicates(),
    ensures
        s.filter(p).no_duplicates(),
    decreases s.len(),
{
    reveal(Seq::filter);
    if s.len() > 0 {
        let rest = s.drop_last();
        assert(rest.no_duplicates());
        lemma_filter_no_duplicates(rest, p);
        if p(s.last()) {
            if rest.filter(p).contains(s.last()) {
                rest.lemma_filter_contains_rev(p, s.last());
                let k = choose|k: int| 0 <= k < rest.len() && rest[k] == s.last();
                assert(s[k] == s[s.len() - 1]);
            }
        }
    }
}

/// Removing a device's mappings (see [`MidiMappingTable::remove_by_device`])
/// leaves, of the mappings that [`MidiMappingTable::all_mappings`] listed
/// before, exactly those whose source is on another device, each once:
/// `before` and `after` are what it lists before and after the removal.
pub proof fn law_remove_by_device_listing(before: Seq<MappingView>, after: Seq<MappingView>, device: Seq<char>)
    requires
        sources_distinct(before),
        sources_distinct(after),
        table_of(after) == keep_where(
            table_of(before),
            |k: SourceKey, m: MappingView| !dropped_by(None, Some(device), k, m),
        ),
    ensures
        after.to_multiset() == before.filter(|m: MappingView| m.source.0 != device).to_multiset(),
{
    broadcast use vstd::seq_lib::group_to_multiset_ensures;
    let p = |m: MappingView| m.source.0 != device;
    let kept = before.filter(p);
    lemma_distinct_sources_no_duplicates(before);
    lemma_distinct_sources_no_duplicates(after);
    lemma_filter_no_duplicates(before, p);
    after.lemma_multiset_has_no_duplicates();
    kept.lemma_multiset_has_no_duplicates();
    assert forall|m: MappingView| after.contains(m) <==> kept.contains(m) by {
        if after.contains(m) {
            let i = choose|i: int| 0 <= i < after.len() && after[i] == m;
            lemma_table_entry(after, i);
            lemma_table_listed(before, m.source);
            let j = choose|j: int| 0 <= j < before.len() && before[j] == table_of(before)[m.source];
            before.lemma_filter_contains(p, j);
        }
        if kept.contains(m) {
            before.lemma_filter_contains_rev(p, m);
            let j = choose|j: int| 0 <= j < before.len() && before[j] == m;
            before.filter_lemma(p);
            let t = choose|t: int| 0 <= t < kept.len() && kept[t] == m;
            assert(p(kept[t]));
            lemma_table_entry(before, j);
            assert(table_of(after).contains_key(m.source));
            lemma_table_listed(after, m.source);
        }
    }
    assert forall|m: MappingView| after.to_multiset().count(m) == kept.to_multiset().count(m) by {
        if after.contains(m) {
            assert(after.to_multiset().count(m) == 1);
            assert(kept.to_multiset().count(m) == 1);
        }
    }
    assert(after.to_multiset() =~= kept.to_multiset());
}

} // verus!
