//! The catalog of available plugins, from every format, and the registry of
//! running plugin instances with their parameter values. Values and ranges
//! of parameters travel as the bit patterns of their `f32` values.
use vstd::prelude::*;

use crate::lv2_state::StateEntry;
use crate::plugin_types::{
    category_from_features, category_is, clap_category, string_views, PluginCategory, PluginFormat,
    PluginInstanceId, PluginIoCounts, PluginPortType,
};
use crate::text::{chars_lt, lemma_chars_lt_order, lowercase, str_eq, str_lt, to_lowercase};

verus! {

/// One port of a plugin as its scanner describes it.
#[derive(Debug)]
pub struct PluginPortInfo {
    pub index: usize,
    pub symbol: String,
    pub name: String,
    pub port_type: PluginPortType,
    pub default_bits: u32,
    pub min_bits: u32,
    pub max_bits: u32,
    /// Whether the port is a boolean toggle.
    pub is_toggle: bool,
}

/// A plugin that a scanner found.
#[derive(Debug)]
pub struct PluginInfo {
    /// The LV2 URI, the CLAP plugin id or the VST3 class id.
    pub uri: String,
    pub name: String,
    pub format: PluginFormat,
    pub category: PluginCategory,
    pub author: Option<String>,
    pub ports: Vec<PluginPortInfo>,
    pub audio_inputs: usize,
    pub audio_outputs: usize,
    pub control_inputs: usize,
    pub control_outputs: usize,
    pub required_features: Vec<String>,
    pub compatible: bool,
    /// Whether the plugin has a UI of its own.
    pub has_ui: bool,
    /// The library file or bundle (empty for LV2).
    pub library_path: String,
}

impl PluginInfo {
    /// The plugin's audio and control port counts.
    pub fn io_counts(&self) -> (r: PluginIoCounts)
        ensures
            r == (PluginIoCounts {
                audio_inputs: self.audio_inputs,
                audio_outputs: self.audio_outputs,
                control_inputs: self.control_inputs,
                control_outputs: self.control_outputs,
            }),
    {
        PluginIoCounts {
            audio_inputs: self.audio_inputs,
            audio_outputs: self.audio_outputs,
            control_inputs: self.control_inputs,
            control_outputs: self.control_outputs,
        }
    }

    /// An effect takes audio in and gives audio out.
    pub fn is_effect(&self) -> (r: bool)
        ensures
            r == (self.audio_inputs > 0 && self.audio_outputs > 0),
    {
        self.io_counts().is_effect()
    }

    /// An instrument gives audio out and takes none in.
    pub fn is_instrument(&self) -> (r: bool)
        ensures
            r == (self.audio_inputs == 0 && self.audio_outputs > 0),
    {
        self.io_counts().is_instrument()
    }

    /// An analyser takes audio in and gives none out.
    pub fn is_analyser(&self) -> (r: bool)
        ensures
            r == (self.audio_inputs > 0 && self.audio_outputs == 0),
    {
        self.io_counts().is_analyser()
    }
}

/// Whether a feature list names the `instrument` feature.
fn has_instrument_feature(features: &[String]) -> (r: bool)
    ensures
        r == string_views(features@).contains("instrument"@),
{
    let mut i: usize = 0;
    while i < features.len()
        invariant
            0 <= i <= features@.len(),
            forall|j: int| 0 <= j < i ==> features@[j]@ != "instrument"@,
        decreases features@.len() - i,
    {
        if str_eq(features[i].as_str(), "instrument") {
            assert(string_views(features@)[i as int] == "instrument"@);
            return true;
        }
        i = i + 1;
    }
    proof {
        if string_views(features@).contains("instrument"@) {
            let j = choose|j: int| 0 <= j < string_views(features@).len() && string_views(features@)[j] == "instrument"@;
            assert(features@[j]@ == string_views(features@)[j]);
        }
    }
    false
}

/// The catalog entry of a plugin that a CLAP library describes, before it
/// is instantiated: its id; its name where the descriptor has one, else the
/// id; its vendor where it is not empty; the category of its features; two
/// audio outputs, and two audio inputs unless it is an instrument; no ports
/// or controls listed yet; and a UI assumed.
pub fn clap_plugin_info(
    id: String,
    name: Option<String>,
    vendor: Option<String>,
    features: &[String],
    library_path: &str,
) -> (r: PluginInfo)
    ensures
        r.uri@ == id@,
        r.name@ == match name {
            Some(n) => n@,
            None => id@,
        },
        r.format == PluginFormat::Clap,
        category_is(r.category, clap_category(string_views(features@)), "CLAP"@),
        match vendor {
            Some(v) => if v@.len() == 0 {
                r.author is None
            } else {
                r.author matches Some(a) && a@ == v@
            },
            None => r.author is None,
        },
        r.ports@.len() == 0,
        r.audio_inputs == if string_views(features@).contains("instrument"@) { 0usize } else { 2usize },
        r.audio_outputs == 2,
        r.control_inputs == 0,
        r.control_outputs == 0,
        r.required_features@.len() == 0,
        r.compatible,
        r.has_ui,
        r.library_path@ == library_path@,
{
    let name = match name {
        Some(n) => n,
        None => id.clone(),
    };
    let author = match vendor {
        Some(v) => if v.as_str().is_empty() {
            None
        } else {
            Some(v)
        },
        None => None,
    };
    let category = category_from_features(features);
    let audio_inputs: usize = if has_instrument_feature(features) { 0 } else { 2 };
    PluginInfo {
        uri: id,
        name,
        format: PluginFormat::Clap,
        category,
        author,
        ports: Vec::new(),
        audio_inputs,
        audio_outputs: 2,
        control_inputs: 0,
        control_outputs: 0,
        required_features: Vec::new(),
        compatible: true,
        has_ui: true,
        library_path: library_path.to_owned(),
    }
}

/// The value of one control parameter of a running instance.
#[derive(Debug)]
pub struct ParameterValue {
    pub port_index: usize,
    pub symbol: String,
    pub name: String,
    pub value_bits: u32,
    pub min_bits: u32,
    pub max_bits: u32,
    pub default_bits: u32,
    pub is_toggle: bool,
}

/// A running plugin instance.
#[derive(Debug)]
pub struct PluginInstanceInfo {
    pub id: PluginInstanceId,
    pub stable_id: String,
    pub plugin_uri: String,
    pub format: PluginFormat,
    pub display_name: String,
    pub pw_node_id: Option<u32>,
    pub parameters: Vec<ParameterValue>,
    pub active: bool,
    pub bypassed: bool,
    /// The LV2 state saved when the instance was removed.
    pub lv2_state: Vec<StateEntry>,
}

/// The bit pattern of the `f32` value 1.0.
pub const F32_ONE_BITS: u32 = 0x3f80_0000;

/// The bit pattern of the `f64` value 48000.0, the sample rate assumed
/// until PipeWire reports one.
pub const DEFAULT_SAMPLE_RATE_BITS: u64 = 0x40e7_7000_0000_0000;

/// The position of the instance with id `id`, if one has it.
pub open spec fn instance_pos(s: Seq<PluginInstanceInfo>, id: PluginInstanceId) -> Option<int> {
    if exists|i: int| 0 <= i < s.len() && s[i].id == id {
        Some(choose|i: int| 0 <= i < s.len() && s[i].id == id)
    } else {
        None
    }
}

/// No two instances share an id.
pub open spec fn ids_unique(s: Seq<PluginInstanceInfo>) -> bool {
    forall|i: int, j: int| 0 <= i < s.len() && 0 <= j < s.len() && i != j ==> s[i].id != s[j].id
}

/// `k` is the first position of a parameter of port `port_index`.
pub open spec fn first_param(ps: Seq<ParameterValue>, port_index: usize, k: int) -> bool {
    0 <= k < ps.len() && ps[k].port_index == port_index && forall|j: int|
        0 <= j < k ==> #[trigger] ps[j].port_index != port_index
}

/// `i` is the first position of a plugin of the catalog with URI `uri`
/// and, where one is given, format `format`.
pub open spec fn first_plugin(c: Seq<PluginInfo>, uri: Seq<char>, format: Option<PluginFormat>, i: int) -> bool {
    &&& 0 <= i < c.len()
    &&& plugin_matches(c[i], uri, format)
    &&& forall|j: int| 0 <= j < i ==> !plugin_matches(#[trigger] c[j], uri, format)
}

/// A plugin has URI `uri` and, where one is given, format `format`.
pub open spec fn plugin_matches(p: PluginInfo, uri: Seq<char>, format: Option<PluginFormat>) -> bool {
    p.uri@ == uri && match format {
        Some(f) => p.format == f,
        None => true,
    }
}

/// The parameters after setting the value of port `port_index`: an unknown
/// port is added with an empty symbol and name, the range 0 to 1 and
/// default 0.
pub open spec fn params_after_update(ps: Seq<ParameterValue>, port_index: usize, value_bits: u32, after: Seq<ParameterValue>) -> bool {
    if exists|k: int| #[trigger] first_param(ps, port_index, k) {
        let k = choose|k: int| #[trigger] first_param(ps, port_index, k);
        after == ps.update(k, ParameterValue { value_bits, ..ps[k] })
    } else {
        &&& after.len() == ps.len() + 1
        &&& after.drop_last() == ps
        &&& after.last().port_index == port_index
        &&& after.last().symbol@.len() == 0
        &&& after.last().name@.len() == 0
        &&& after.last().value_bits == value_bits
        &&& after.last().min_bits == 0
        &&& after.last().max_bits == F32_ONE_BITS
        &&& after.last().default_bits == 0
        &&& !after.last().is_toggle
    }
}

/// The key the catalog is sorted by: the name in lowercase.
pub open spec fn name_key(p: PluginInfo) -> Seq<char> {
    lowercase(p.name@)
}

/// The keys are in order, and `perm` takes equal keys in increasing order.
pub open spec fn keys_sorted_stably(ks: Seq<Seq<char>>, perm: Seq<int>) -> bool {
    &&& forall|a: int, b: int| 0 <= a < b < ks.len() ==> !chars_lt(#[trigger] ks[b], #[trigger] ks[a])
    &&& forall|a: int, b: int|
        0 <= a < b < ks.len() && #[trigger] ks[a] == #[trigger] ks[b] ==> perm[a] < perm[b]
}

/// `after` is `before` sorted by [`name_key`] as a stable sort sorts it:
/// `perm` tells where each entry of `after` stood in `before`, the keys are
/// in order, and entries with equal keys keep their order.
pub open spec fn stable_sorted_by_name(before: Seq<PluginInfo>, after: Seq<PluginInfo>, perm: Seq<int>) -> bool {
    &&& after.len() == before.len()
    &&& perm.len() == before.len()
    &&& forall|i: int| 0 <= i < perm.len() ==> 0 <= #[trigger] perm[i] < before.len() && after[i] == before[perm[i]]
    &&& forall|a: int, b: int| 0 <= a < b < perm.len() ==> #[trigger] perm[a] != #[trigger] perm[b]
    &&& keys_sorted_stably(after.map_values(|p: PluginInfo| name_key(p)), perm)
}

proof fn lemma_insert_sorted(ks: Seq<Seq<char>>, perm: Seq<int>, pos: int, key: Seq<char>, idx: int)
    requires
        keys_sorted_stably(ks, perm),
        ks.len() == perm.len(),
        0 <= pos <= ks.len(),
        forall|j: int| 0 <= j < pos ==> !chars_lt(key, #[trigger] ks[j]),
        pos < ks.len() ==> chars_lt(key, ks[pos]),
        forall|j: int| 0 <= j < perm.len() ==> #[trigger] perm[j] < idx,
    ensures
        keys_sorted_stably(ks.insert(pos, key), perm.insert(pos, idx)),
{
    let k2 = ks.insert(pos, key);
    let p2 = perm.insert(pos, idx);
    assert forall|a: int, b: int| 0 <= a < b < k2.len() implies !chars_lt(#[trigger] k2[b], #[trigger] k2[a]) by {
        if a == pos {
            assert(k2[b] == ks[b - 1]);
            if b - 1 > pos {
                assert(!chars_lt(ks[b - 1], ks[pos]));
            }
            lemma_chars_lt_order(ks[b - 1], key, ks[pos]);
        } else if b == pos {
            assert(k2[a] == ks[a]);
        } else {
            let a1 = if a < pos { a } else { a - 1 };
            let b1 = if b < pos { b } else { b - 1 };
            assert(k2[a] == ks[a1] && k2[b] == ks[b1]);
        }
    }
    assert forall|a: int, b: int| 0 <= a < b < k2.len() && #[trigger] k2[a] == #[trigger] k2[b] implies p2[a] < p2[b] by {
        if a == pos {
            assert(k2[b] == ks[b - 1]);
            if b - 1 > pos {
                assert(!chars_lt(ks[b - 1], ks[pos]));
            }
            lemma_chars_lt_order(key, ks[pos], key);
        } else if b == pos {
            assert(p2[a] == perm[a]);
        } else {
            let a1 = if a < pos { a } else { a - 1 };
            let b1 = if b < pos { b } else { b - 1 };
            assert(k2[a] == ks[a1] && k2[b] == ks[b1]);
            assert(p2[a] == perm[a1] && p2[b] == perm[b1]);
        }
    }
}

/// Where a key goes among sorted keys so that a sort stays stable: after
/// every key that is not greater.
fn insert_pos(keys: &Vec<String>, key: &str) -> (pos: usize)
    ensures
        pos <= keys@.len(),
        forall|j: int| 0 <= j < pos ==> !chars_lt(key@, #[trigger] keys@[j]@),
        pos < keys@.len() ==> chars_lt(key@, keys@[pos as int]@),
{
    let mut pos: usize = 0;
    while pos < keys.len()
        invariant
            pos <= keys@.len(),
            forall|j: int| 0 <= j < pos ==> !chars_lt(key@, #[trigger] keys@[j]@),
        decreases keys@.len() - pos,
    {
        if str_lt(key, keys[pos].as_str()) {
            return pos;
        }
        pos = pos + 1;
    }
    pos
}

/// The mathematical value of the manager.
pub struct ManagerView {
    pub catalog: Seq<PluginInfo>,
    pub instances: Seq<PluginInstanceInfo>,
    pub sample_rate_bits: u64,
}

/// The catalog of available plugins and the registry of running instances.
#[derive(Debug)]
pub struct PluginManager {
    available_plugins: Vec<PluginInfo>,
    active_instances: Vec<PluginInstanceInfo>,
    /// The sample rate PipeWire reported, as the bit pattern of an `f64`.
    pub sample_rate_bits: u64,
}

impl View for PluginManager {
    type V = ManagerView;

    closed spec fn view(&self) -> ManagerView {
        ManagerView {
            catalog: self.available_plugins@,
            instances: self.active_instances@,
            sample_rate_bits: self.sample_rate_bits,
        }
    }
}

proof fn lemma_pos_at(s: Seq<PluginInstanceInfo>, i: int)
    requires
        ids_unique(s),
        0 <= i < s.len(),
    ensures
        instance_pos(s, s[i].id) == Some(i),
{
    let j = choose|j: int| 0 <= j < s.len() && s[j].id == s[i].id;
    assert(j == i);
}

/// Set the value of the parameter of port `port_index`, adding it where it
/// is missing (see [`params_after_update`]).
fn set_param(ps: &mut Vec<ParameterValue>, port_index: usize, value_bits: u32)
    ensures
        params_after_update(old(ps)@, port_index, value_bits, final(ps)@),
{
    let n = ps.len();
    let mut k: usize = 0;
    while k < n
        invariant
            ps@ == old(ps)@,
            n == ps@.len(),
            0 <= k <= n,
            forall|j: int| 0 <= j < k ==> #[trigger] ps@[j].port_index != port_index,
        decreases n - k,
    {
        if ps[k].port_index == port_index {
            ps[k].value_bits = value_bits;
            proof {
                assert(first_param(old(ps)@, port_index, k as int));
                let k2 = choose|k2: int| #[trigger] first_param(old(ps)@, port_index, k2);
                assert(k2 == k);
                assert(ps@ =~= old(ps)@.update(k as int, ParameterValue { value_bits, ..old(ps)@[k as int] }));
            }
            return;
        }
        k = k + 1;
    }
    ps.push(
        ParameterValue {
            port_index,
            symbol: String::new(),
            name: String::new(),
            value_bits,
            min_bits: 0,
            max_bits: F32_ONE_BITS,
            default_bits: 0,
            is_toggle: false,
        },
    );
    proof {
        assert(!exists|k2: int| #[trigger] first_param(old(ps)@, port_index, k2));
        assert(ps@.drop_last() =~= old(ps)@);
    }
}

impl PluginManager {
    /// No two instances share an id.
    pub open spec fn wf(&self) -> bool {
        ids_unique(self@.instances)
    }

    /// An empty catalog and registry, with the default sample rate.
    pub fn new() -> (r: Self)
        ensures
            r.wf(),
            r@.catalog == Seq::<PluginInfo>::empty(),
            r@.instances == Seq::<PluginInstanceInfo>::empty(),
            r@.sample_rate_bits == DEFAULT_SAMPLE_RATE_BITS,
    {
        PluginManager {
            available_plugins: Vec::new(),
            active_instances: Vec::new(),
            sample_rate_bits: DEFAULT_SAMPLE_RATE_BITS,
        }
    }

    /// Replace the whole catalog.
    pub fn set_available_plugins(&mut self, plugins: Vec<PluginInfo>)
        ensures
            final(self)@ == (ManagerView { catalog: plugins@, ..old(self)@ }),
    {
        self.available_plugins = plugins;
    }

    /// Append plugins to the catalog.
    pub fn extend_available_plugins(&mut self, plugins: Vec<PluginInfo>)
        ensures
            final(self)@ == (ManagerView { catalog: old(self)@.catalog + plugins@, ..old(self)@ }),
    {
        let mut plugins = plugins;
        self.available_plugins.append(&mut plugins);
    }

    /// Sort the catalog by name, ignoring case, keeping the order of
    /// plugins whose names differ only in case or not at all.
    pub fn sort_catalog(&mut self)
        ensures
            final(self)@.instances == old(self)@.instances,
            final(self)@.sample_rate_bits == old(self)@.sample_rate_bits,
            exists|perm: Seq<int>|
                #[trigger] stable_sorted_by_name(old(self)@.catalog, final(self)@.catalog, perm),
    {
        let mut rest: Vec<PluginInfo> = Vec::new();
        std::mem::swap(&mut rest, &mut self.available_plugins);
        let ghost all = rest@;
        let n = rest.len();
        let mut sorted: Vec<PluginInfo> = Vec::new();
        let mut keys: Vec<String> = Vec::new();
        let ghost mut perm: Seq<int> = Seq::empty();
        let mut idx: usize = 0;
        while idx < n
            invariant
                n == all.len(),
                0 <= idx <= n,
                rest@ == all.subrange(idx as int, n as int),
                sorted@.len() == idx,
                keys@.len() == idx,
                perm.len() == idx,
                forall|j: int| 0 <= j < idx ==> #[trigger] keys@[j]@ == name_key(sorted@[j]),
                forall|j: int| 0 <= j < idx ==> 0 <= #[trigger] perm[j] < idx && sorted@[j] == all[perm[j]],
                forall|a: int, b: int| 0 <= a < b < idx ==> #[trigger] perm[a] != #[trigger] perm[b],
                keys_sorted_stably(keys@.map_values(|k: String| k@), perm),
            decreases n - idx,
        {
            let x = rest.remove(0);
            let key = to_lowercase(x.name.as_str());
            let pos = insert_pos(&keys, key.as_str());
            let ghost ks = keys@.map_values(|k: String| k@);
            proof {
                assert(x == all[idx as int]);
                assert forall|j: int| 0 <= j < pos implies !chars_lt(key@, #[trigger] ks[j]) by {
                    assert(ks[j] == keys@[j]@);
                }
                lemma_insert_sorted(ks, perm, pos as int, key@, idx as int);
            }
            let ghost s0 = sorted@;
            let ghost k0 = keys@;
            let ghost xv = x;
            sorted.insert(pos, x);
            keys.insert(pos, key);
            proof {
                let p0 = perm;
                perm = perm.insert(pos as int, idx as int);
                assert(keys@.map_values(|k: String| k@) =~= ks.insert(pos as int, key@));
                assert forall|j: int| 0 <= j < idx + 1 implies 0 <= #[trigger] perm[j] < idx + 1 && sorted@[j] == all[perm[j]] by {
                    if j < pos {
                        assert(perm[j] == p0[j] && sorted@[j] == s0[j]);
                    } else if j > pos {
                        assert(perm[j] == p0[j - 1] && sorted@[j] == s0[j - 1]);
                    } else {
                        assert(sorted@[j] == xv);
                    }
                }
                assert forall|a: int, b: int| 0 <= a < b < idx + 1 implies #[trigger] perm[a] != #[trigger] perm[b] by {
                    let a1 = if a < pos { a } else { a - 1 };
                    let b1 = if b < pos { b } else { b - 1 };
                    if a != pos && b != pos {
                        assert(perm[a] == p0[a1] && perm[b] == p0[b1]);
                    } else if a == pos {
                        assert(perm[b] == p0[b1]);
                    } else {
                        assert(perm[a] == p0[a1]);
                    }
                }
                assert forall|j: int| 0 <= j < idx + 1 implies #[trigger] keys@[j]@ == name_key(sorted@[j]) by {
                    if j < pos {
                        assert(keys@[j] == k0[j] && sorted@[j] == s0[j]);
                    } else if j > pos {
                        assert(keys@[j] == k0[j - 1] && sorted@[j] == s0[j - 1]);
                    } else {
                        assert(sorted@[j] == xv);
                    }
                }
            }
            idx = idx + 1;
            proof {
                assert(rest@ =~= all.subrange(idx as int, n as int));
            }
        }
        proof {
            let after = sorted@;
            assert(after.map_values(|p: PluginInfo| name_key(p)) =~= keys@.map_values(|k: String| k@));
            assert(stable_sorted_by_name(all, after, perm));
        }
        self.available_plugins = sorted;
        assert(stable_sorted_by_name(old(self)@.catalog, self@.catalog, perm));
    }

    /// The catalog.
    pub fn available_plugins(&self) -> (r: &[PluginInfo])
        ensures
            r@ == self@.catalog,
    {
        self.available_plugins.as_slice()
    }

    /// The first plugin of the catalog with this URI.
    pub fn find_plugin(&self, uri: &str) -> (r: Option<&PluginInfo>)
        ensures
            match r {
                Some(p) => exists|i: int|
                    #[trigger] first_plugin(self@.catalog, uri@, None, i) && *p == self@.catalog[i],
                None => forall|i: int|
                    0 <= i < self@.catalog.len() ==> !plugin_matches(#[trigger] self@.catalog[i], uri@, None),
            },
    {
        let mut i: usize = 0;
        while i < self.available_plugins.len()
            invariant
                0 <= i <= self@.catalog.len(),
                forall|j: int| 0 <= j < i ==> !plugin_matches(#[trigger] self@.catalog[j], uri@, None),
            decreases self@.catalog.len() - i,
        {
            if str_eq(self.available_plugins[i].uri.as_str(), uri) {
                assert(first_plugin(self@.catalog, uri@, None, i as int));
                return Some(&self.available_plugins[i]);
            }
            i = i + 1;
        }
        None
    }

    /// The first plugin of the catalog with this URI and format.
    pub fn find_plugin_with_format(&self, uri: &str, format: PluginFormat) -> (r: Option<&PluginInfo>)
        ensures
            match r {
                Some(p) => exists|i: int|
                    #[trigger] first_plugin(self@.catalog, uri@, Some(format), i) && *p == self@.catalog[i],
                None => forall|i: int|
                    0 <= i < self@.catalog.len() ==> !plugin_matches(#[trigger] self@.catalog[i], uri@, Some(format)),
            },
    {
        let mut i: usize = 0;
        while i < self.available_plugins.len()
            invariant
                0 <= i <= self@.catalog.len(),
                forall|j: int| 0 <= j < i ==> !plugin_matches(#[trigger] self@.catalog[j], uri@, Some(format)),
            decreases self@.catalog.len() - i,
        {
            let p = &self.available_plugins[i];
            if str_eq(p.uri.as_str(), uri) && p.format == format {
                assert(first_plugin(self@.catalog, uri@, Some(format), i as int));
                return Some(p);
            }
            i = i + 1;
        }
        None
    }

    /// The position of instance `id`.
    fn pos(&self, id: PluginInstanceId) -> (r: Option<usize>)
        requires
            self.wf(),
        ensures
            match r {
                Some(i) => instance_pos(self@.instances, id) == Some(i as int) && i < self@.instances.len(),
                None => instance_pos(self@.instances, id) is None,
            },
    {
        let mut i: usize = 0;
        while i < self.active_instances.len()
            invariant
                self.wf(),
                0 <= i <= self@.instances.len(),
                forall|j: int| 0 <= j < i ==> self@.instances[j].id != id,
            decreases self@.instances.len() - i,
        {
            if self.active_instances[i].id == id {
                proof {
                    lemma_pos_at(self@.instances, i as int);
                }
                return Some(i);
            }
            i = i + 1;
        }
        None
    }

    /// Add an instance, replacing one with the same id.
    pub fn register_instance(&mut self, info: PluginInstanceInfo)
        requires
            old(self).wf(),
        ensures
            final(self).wf(),
            final(self)@.catalog == old(self)@.catalog,
            final(self)@.sample_rate_bits == old(self)@.sample_rate_bits,
            final(self)@.instances == match instance_pos(old(self)@.instances, info.id) {
                Some(i) => old(self)@.instances.update(i, info),
                None => old(self)@.instances.push(info),
            },
    {
        let ghost v = info;
        match self.pos(info.id) {
            Some(i) => {
                self.active_instances.set(i, info);
            },
            None => {
                self.active_instances.push(info);
                proof {
                    let s = self@.instances;
                    assert forall|a: int, b: int| 0 <= a < s.len() && 0 <= b < s.len() && a != b implies s[a].id != s[b].id by {
                        if a < s.len() - 1 && b < s.len() - 1 {
                            assert(s[a] == old(self)@.instances[a] && s[b] == old(self)@.instances[b]);
                        } else if a < s.len() - 1 {
                            assert(s[a] == old(self)@.instances[a]);
                        } else {
                            assert(s[b] == old(self)@.instances[b]);
                        }
                    }
                }
            },
        }
    }

    /// Record the PipeWire node of instance `instance_id`, where it is known.
    pub fn set_instance_pw_node_id(&mut self, instance_id: PluginInstanceId, pw_node_id: u32)
        requires
            old(self).wf(),
        ensures
            final(self).wf(),
            final(self)@.catalog == old(self)@.catalog,
            final(self)@.sample_rate_bits == old(self)@.sample_rate_bits,
            final(self)@.instances == match instance_pos(old(self)@.instances, instance_id) {
                Some(i) => old(self)@.instances.update(
                    i,
                    PluginInstanceInfo { pw_node_id: Some(pw_node_id), ..old(self)@.instances[i] },
                ),
                None => old(self)@.instances,
            },
    {
        if let Some(i) = self.pos(instance_id) {
            self.active_instances[i].pw_node_id = Some(pw_node_id);
            assert(self@.instances =~= old(self)@.instances.update(
                i as int,
                PluginInstanceInfo { pw_node_id: Some(pw_node_id), ..old(self)@.instances[i as int] },
            ));
        }
    }

    /// Remove instance `instance_id`, where it is known.
    pub fn remove_instance(&mut self, instance_id: PluginInstanceId)
        requires
            old(self).wf(),
        ensures
            final(self).wf(),
            final(self)@.catalog == old(self)@.catalog,
            final(self)@.sample_rate_bits == old(self)@.sample_rate_bits,
            final(self)@.instances == match instance_pos(old(self)@.instances, instance_id) {
                Some(i) => old(self)@.instances.remove(i),
                None => old(self)@.instances,
            },
    {
        if let Some(i) = self.pos(instance_id) {
            self.active_instances.remove(i);
            proof {
                let s = self@.instances;
                let o = old(self)@.instances;
                assert forall|a: int, b: int| 0 <= a < s.len() && 0 <= b < s.len() && a != b implies s[a].id != s[b].id by {
                    let a2 = if a < i { a } else { a + 1 };
                    let b2 = if b < i { b } else { b + 1 };
                    assert(s[a] == o[a2] && s[b] == o[b2]);
                }
            }
        }
    }

    /// Set the value of a parameter of instance `instance_id`, adding the
    /// parameter where the instance does not list it (see
    /// [`params_after_update`]); an unknown instance changes nothing.
    pub fn update_parameter(&mut self, instance_id: PluginInstanceId, port_index: usize, value_bits: u32)
        requires
            old(self).wf(),
        ensures
            final(self).wf(),
            final(self)@.catalog == old(self)@.catalog,
            final(self)@.sample_rate_bits == old(self)@.sample_rate_bits,
            final(self)@.instances.len() == old(self)@.instances.len(),
            match instance_pos(old(self)@.instances, instance_id) {
                Some(i) => {
                    &&& forall|j: int| 0 <= j < old(self)@.instances.len() && j != i ==> #[trigger] final(self)@.instances[j]
                        == old(self)@.instances[j]
                    &&& final(self)@.instances[i] == (PluginInstanceInfo {
                        parameters: final(self)@.instances[i].parameters,
                        ..old(self)@.instances[i]
                    })
                    &&& params_after_update(
                        old(self)@.instances[i].parameters@,
                        port_index,
                        value_bits,
                        final(self)@.instances[i].parameters@,
                    )
                },
                None => final(self)@.instances == old(self)@.instances,
            },
    {
        let i = match self.pos(instance_id) {
            Some(i) => i,
            None => return,
        };
        let mut ps: Vec<ParameterValue> = Vec::new();
        std::mem::swap(&mut ps, &mut self.active_instances[i].parameters);
        set_param(&mut ps, port_index, value_bits);
        self.active_instances[i].parameters = ps;
        proof {
            assert forall|a: int, b: int| 0 <= a < self@.instances.len() && 0 <= b < self@.instances.len() && a != b implies self@.instances[a].id != self@.instances[b].id by {
                assert(self@.instances[a].id == old(self)@.instances[a].id);
                assert(self@.instances[b].id == old(self)@.instances[b].id);
            }
        }
    }

    /// The running instances.
    pub fn active_instances(&self) -> (r: &Vec<PluginInstanceInfo>)
        ensures
            r@ == self@.instances,
    {
        &self.active_instances
    }

    /// Instance `id`, where it is known.
    pub fn get_instance(&self, id: PluginInstanceId) -> (r: Option<&PluginInstanceInfo>)
        requires
            self.wf(),
        ensures
            match instance_pos(self@.instances, id) {
                Some(i) => r == Some(&self@.instances[i]),
                None => r is None,
            },
    {
        match self.pos(id) {
            Some(i) => Some(&self.active_instances[i]),
            None => None,
        }
    }

    /// Instance `id` to change in place, where it is known. The registry
    /// afterwards holds the changed instance at its place.
    pub fn get_instance_mut(&mut self, id: PluginInstanceId) -> (r: Option<&mut PluginInstanceInfo>)
        requires
            old(self).wf(),
        ensures
            match instance_pos(old(self)@.instances, id) {
                Some(i) => r matches Some(x) && *x == old(self)@.instances[i]
                    && final(self)@ == (ManagerView {
                        instances: old(self)@.instances.update(i, *final(x)),
                        ..old(self)@
                    }),
                None => r is None && final(self)@ == old(self)@,
            },
    {
        match self.pos(id) {
            Some(i) => Some(&mut self.active_instances[i]),
            None => None,
        }
    }

    /// An instance with this stable id to change in place, where one has
    /// it. The registry afterwards holds the changed instance at its place.
    pub fn find_by_stable_id_mut(&mut self, stable_id: &str) -> (r: Option<&mut PluginInstanceInfo>)
        ensures
            match r {
                Some(x) => exists|i: int|
                    0 <= i < old(self)@.instances.len() && old(self)@.instances[i] == *x
                        && x.stable_id@ == stable_id@ && final(self)@ == (ManagerView {
                        instances: old(self)@.instances.update(i, *final(x)),
                        ..old(self)@
                    }),
                None => final(self)@ == old(self)@ && forall|j: int|
                    0 <= j < old(self)@.instances.len() ==> #[trigger] old(self)@.instances[j].stable_id@
                        != stable_id@,
            },
    {
        match self.stable_pos(stable_id) {
            Some(i) => Some(&mut self.active_instances[i]),
            None => None,
        }
    }

    /// The position of the first instance with this stable id.
    fn stable_pos(&self, stable_id: &str) -> (r: Option<usize>)
        ensures
            match r {
                Some(i) => i < self@.instances.len() && self@.instances[i as int].stable_id@ == stable_id@,
                None => forall|j: int|
                    0 <= j < self@.instances.len() ==> #[trigger] self@.instances[j].stable_id@
                        != stable_id@,
            },
    {
        let mut i: usize = 0;
        while i < self.active_instances.len()
            invariant
                0 <= i <= self@.instances.len(),
                forall|j: int| 0 <= j < i ==> #[trigger] self@.instances[j].stable_id@ != stable_id@,
            decreases self@.instances.len() - i,
        {
            if str_eq(self.active_instances[i].stable_id.as_str(), stable_id) {
                return Some(i);
            }
            i = i + 1;
        }
        None
    }

    /// An instance with this stable id, where one has it.
    pub fn find_by_stable_id(&self, stable_id: &str) -> (r: Option<&PluginInstanceInfo>)
        ensures
            match r {
                Some(x) => exists|i: int|
                    0 <= i < self@.instances.len() && self@.instances[i] == *x && x.stable_id@
                        == stable_id@,
                None => forall|j: int|
                    0 <= j < self@.instances.len() ==> #[trigger] self@.instances[j].stable_id@
                        != stable_id@,
            },
    {
        match self.stable_pos(stable_id) {
            Some(i) => Some(&self.active_instances[i]),
            None => None,
        }
    }

    /// The id of an instance with this stable id, where one has it.
    pub fn instance_id_for_stable_id(&self, stable_id: &str) -> (r: Option<PluginInstanceId>)
        ensures
            match r {
                Some(id) => exists|i: int|
                    0 <= i < self@.instances.len() && self@.instances[i].id == id
                        && self@.instances[i].stable_id@ == stable_id@,
                None => forall|j: int|
                    0 <= j < self@.instances.len() ==> #[trigger] self@.instances[j].stable_id@
                        != stable_id@,
            },
    {
        match self.stable_pos(stable_id) {
            Some(i) => Some(self.active_instances[i].id),
            None => None,
        }
    }
}

} // verus!
