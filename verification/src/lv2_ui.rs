//! Choosing which of a plugin's LV2 user interfaces the host opens, and
//! which control values an open UI is told about.
use vstd::prelude::*;

verus! {

/// The kinds of LV2 UI the host can open, in the order it prefers them.
#[derive(Debug, Clone, Copy, PartialEq, Eq, Structural)]
pub enum UiKind {
    Gtk3,
    X11,
    Qt5,
    Gtk2,
    Gtk4,
}

/// The LV2 class URI of a kind of UI.
pub open spec fn ui_class_uri(k: UiKind) -> Seq<char> {
    match k {
        UiKind::Gtk3 => "http://lv2plug.in/ns/extensions/ui#Gtk3UI"@,
        UiKind::X11 => "http://lv2plug.in/ns/extensions/ui#X11UI"@,
        UiKind::Qt5 => "http://lv2plug.in/ns/extensions/ui#Qt5UI"@,
        UiKind::Gtk2 => "http://lv2plug.in/ns/extensions/ui#GtkUI"@,
        UiKind::Gtk4 => "http://lv2plug.in/ns/extensions/ui#Gtk4UI"@,
    }
}

impl UiKind {
    /// The LV2 class URI of this kind of UI.
    pub fn class_uri(&self) -> (r: &'static str)
        ensures
            r@ == ui_class_uri(*self),
    {
        match self {
            UiKind::Gtk3 => "http://lv2plug.in/ns/extensions/ui#Gtk3UI",
            UiKind::X11 => "http://lv2plug.in/ns/extensions/ui#X11UI",
            UiKind::Qt5 => "http://lv2plug.in/ns/extensions/ui#Qt5UI",
            UiKind::Gtk2 => "http://lv2plug.in/ns/extensions/ui#GtkUI",
            UiKind::Gtk4 => "http://lv2plug.in/ns/extensions/ui#Gtk4UI",
        }
    }
}

/// What a plugin says of one of its UIs: its URI, bundle path and binary
/// path where they can be read, and which of the host's UI classes it is of.
#[derive(Debug)]
pub struct UiCandidate {
    pub uri: Option<String>,
    pub bundle_path: Option<String>,
    pub binary_path: Option<String>,
    pub gtk3: bool,
    pub x11: bool,
    pub qt5: bool,
    pub gtk2: bool,
    pub gtk4: bool,
}

/// The most preferred kind that a UI is of.
pub open spec fn preferred_kind(c: UiCandidate) -> Option<UiKind> {
    if c.gtk3 {
        Some(UiKind::Gtk3)
    } else if c.x11 {
        Some(UiKind::X11)
    } else if c.qt5 {
        Some(UiKind::Qt5)
    } else if c.gtk2 {
        Some(UiKind::Gtk2)
    } else if c.gtk4 {
        Some(UiKind::Gtk4)
    } else {
        None
    }
}

/// The host can open the UI: it is of a kind the host supports, and its
/// URI, bundle and binary are known.
pub open spec fn openable(c: UiCandidate) -> bool {
    preferred_kind(c) is Some && c.uri is Some && c.bundle_path is Some && c.binary_path is Some
}

/// The UI to open: the first that the host can open, with the most
/// preferred kind it is of; none where the host can open none.
pub fn choose_ui(uis: &Vec<UiCandidate>) -> (r: Option<(usize, UiKind)>)
    ensures
        match r {
            Some((i, k)) => i < uis@.len() && openable(uis@[i as int]) && preferred_kind(
                uis@[i as int],
            ) == Some(k) && forall|j: int| 0 <= j < i ==> !openable(#[trigger] uis@[j]),
            None => forall|j: int| 0 <= j < uis@.len() ==> !openable(#[trigger] uis@[j]),
        },
{
    let mut i: usize = 0;
    while i < uis.len()
        invariant
            0 <= i <= uis@.len(),
            forall|j: int| 0 <= j < i ==> !openable(#[trigger] uis@[j]),
        decreases uis@.len() - i,
    {
        let c = &uis[i];
        let kind = if c.gtk3 {
            Some(UiKind::Gtk3)
        } else if c.x11 {
            Some(UiKind::X11)
        } else if c.qt5 {
            Some(UiKind::Qt5)
        } else if c.gtk2 {
            Some(UiKind::Gtk2)
        } else if c.gtk4 {
            Some(UiKind::Gtk4)
        } else {
            None
        };
        if let Some(k) = kind {
            if c.uri.is_some() && c.bundle_path.is_some() && c.binary_path.is_some() {
                return Some((i, k));
            }
        }
        i = i + 1;
    }
    None
}


/// The bit pattern of `f32::NAN`, against which a value with no cached
/// predecessor is compared.
pub const F32_NAN_BITS: u32 = 0x7fc0_0000;

/// The cached value of slot `i`, or NaN where there is none.
pub open spec fn cached_bits(prev: Seq<u32>, i: int) -> u32 {
    if i < prev.len() {
        prev[i]
    } else {
        F32_NAN_BITS
    }
}

/// The slots whose value differs, bit for bit, from the cached one, in order.
pub open spec fn changed_indices(prev: Seq<u32>, now: Seq<u32>) -> Seq<usize>
    decreases now.len(),
{
    if now.len() == 0 {
        Seq::empty()
    } else {
        let i = now.len() - 1;
        let rest = changed_indices(prev, now.drop_last());
        if cached_bits(prev, i) != now[i] {
            rest.push(i as usize)
        } else {
            rest
        }
    }
}

/// The cache after a pass: each cached slot holds the current value; the
/// cache keeps its length.
pub open spec fn cache_after(prev: Seq<u32>, now: Seq<u32>) -> Seq<u32> {
    Seq::new(prev.len(), |i: int| if i < now.len() { now[i] } else { prev[i] })
}

/// The control slots (by the bit patterns of their values) that an open UI
/// is told about: those that changed since the last pass; the cache learns
/// the new values of the slots it holds.
pub fn changed_slots(prev: &mut Vec<u32>, now: &Vec<u32>) -> (r: Vec<usize>)
    ensures
        r@ == changed_indices(old(prev)@, now@),
        final(prev)@ == cache_after(old(prev)@, now@),
{
    let mut out: Vec<usize> = Vec::new();
    let mut i: usize = 0;
    while i < now.len()
        invariant
            0 <= i <= now@.len(),
            prev@.len() == old(prev)@.len(),
            forall|k: int| 0 <= k < prev@.len() ==> #[trigger] prev@[k] == if k < i { now@[k] } else { old(prev)@[k] },
            out@ == changed_indices(old(prev)@, now@.take(i as int)),
        decreases now@.len() - i,
    {
        let val = now[i];
        let cached = if i < prev.len() { prev[i] } else { F32_NAN_BITS };
        proof {
            assert(now@.take(i + 1).drop_last() =~= now@.take(i as int));
            assert(now@.take(i + 1)[i as int] == val);
            assert(cached == cached_bits(old(prev)@, i as int));
        }
        if val != cached {
            if i < prev.len() {
                prev.set(i, val);
            }
            out.push(i);
        }
        i = i + 1;
    }
    proof {
        assert(now@.take(now@.len() as int) =~= now@);
        assert(prev@ =~= cache_after(old(prev)@, now@));
    }
    out
}

} // verus!
