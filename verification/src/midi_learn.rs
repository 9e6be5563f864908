//! Binding a learned MIDI mapping into the mapping table: a source keeps the
//! parameter it drives, and a parameter is driven by one source.
use vstd::prelude::*;

use crate::midi_types::{MappingView, MidiCcMapping, MidiMappingTable, SourceKey};

verus! {

/// What came of a request to bind a mapping.
#[derive(Debug)]
pub enum AddMappingOutcome {
    /// The source already drives this very parameter; nothing changed.
    Unchanged,
    /// The source already drives another parameter, under this label;
    /// nothing changed.
    Conflict { existing_label: String },
    /// The mapping was bound.
    Added,
}

/// `after` is `before` with `m` bound for its new source, where a mapping
/// that drove the same parameter, if there was one, gave way.
pub open spec fn bound_in_place_of_target(
    before: Map<SourceKey, MappingView>,
    m: MappingView,
    after: Map<SourceKey, MappingView>,
) -> bool {
    ||| (forall|k: SourceKey| #[trigger] before.contains_key(k) ==> before[k].target != m.target)
        && after == before.insert(m.source, m)
    ||| exists|k: SourceKey|
        #[trigger] before.contains_key(k) && before[k].target == m.target && after == before.remove(
            k,
        ).insert(m.source, m)
}

/// No two mappings of the table drive the same parameter.
pub open spec fn targets_distinct(t: Map<SourceKey, MappingView>) -> bool {
    forall|a: SourceKey, b: SourceKey|
        #[trigger] t.contains_key(a) && #[trigger] t.contains_key(b) && a != b ==> t[a].target
            != t[b].target
}

/// Bind `mapping`, as a finished MIDI learn asks. Where its source already
/// drives the same parameter nothing changes; where it drives another one,
/// nothing changes and the other mapping's label is reported. Otherwise a
/// mapping that drove the same parameter gives way and `mapping` is bound.
pub fn handle_add_midi_mapping(table: &mut MidiMappingTable, mapping: MidiCcMapping) -> (r:
    AddMappingOutcome)
    requires
        old(table).wf(),
    ensures
        final(table).wf(),
        match old(table)@.get(mapping@.source) {
            Some(e) => final(table)@ == old(table)@ && if e.target == mapping@.target {
                r is Unchanged
            } else {
                r matches AddMappingOutcome::Conflict { existing_label } && existing_label@
                    == e.label
            },
            None => r is Added && bound_in_place_of_target(old(table)@, mapping@, final(table)@),
        },
{
    match table.get(&mapping.source) {
        Some(existing) => {
            if existing.target == mapping.target {
                return AddMappingOutcome::Unchanged;
            }
            return AddMappingOutcome::Conflict { existing_label: existing.label.clone() };
        },
        None => {},
    }
    let old_source = match table.find_by_target(&mapping.target) {
        Some(m) => Some(m.source.clone()),
        None => None,
    };
    let ghost mid = table@;
    if let Some(s) = old_source {
        table.remove(&s);
    }
    let ghost mv = mapping@;
    table.insert(mapping);
    proof {
        if old_source is None {
            assert(table@ == mid.insert(mv.source, mv));
        } else {
            let k = old_source->0@;
            assert(mid.contains_key(k) && mid[k].target == mv.target);
        }
    }
    AddMappingOutcome::Added
}

/// A binding made for a new source keeps each parameter driven by at most
/// one mapping: the new source drives the mapping's parameter, and every
/// other mapping that stays drove a different parameter before and is
/// unchanged.
pub proof fn law_one_mapping_per_parameter(
    before: Map<SourceKey, MappingView>,
    m: MappingView,
    after: Map<SourceKey, MappingView>,
)
    requires
        targets_distinct(before),
        !before.contains_key(m.source),
        bound_in_place_of_target(before, m, after),
    ensures
        targets_distinct(after),
        after.contains_key(m.source),
        after[m.source] == m,
        forall|k: SourceKey| #[trigger]
            after.contains_key(k) && k != m.source ==> before.contains_key(k) && after[k]
                == before[k] && before[k].target != m.target,
{
    if exists|k: SourceKey|
        #[trigger] before.contains_key(k) && before[k].target == m.target && after == before.remove(
            k,
        ).insert(m.source, m) {
        let k0 = choose|k: SourceKey|
            #[trigger] before.contains_key(k) && before[k].target == m.target && after
                == before.remove(k).insert(m.source, m);
        assert forall|k: SourceKey| #[trigger]
            after.contains_key(k) && k != m.source implies before.contains_key(k) && after[k]
            == before[k] && before[k].target != m.target by {
            assert(k != k0);
        }
    }
    assert forall|a: SourceKey, b: SourceKey|
        #[trigger] after.contains_key(a) && #[trigger] after.contains_key(b) && a != b implies after[a].target
        != after[b].target by {
        if a != m.source && b != m.source {
            assert(before.contains_key(a) && before.contains_key(b));
        }
    }
}

} // verus!
