//! The order in which a node's ports are listed: optionally inputs before
//! outputs, optionally MIDI ports first, then by natural order of the name.
use vstd::prelude::*;
use crate::id_table::{id_table, ids_distinct, lemma_id_table_insert_at, lemma_id_table_push, lemma_id_table_absent, lemma_id_table_at};
use crate::natural::{law_natural_cmp_numbers, natural_ordering};
use crate::natural_spec::{
    all_digit_chars, decimal_value, is_digit_char, lemma_natural_order_antisymmetric, natural_order, natural_sign,
    starts_without_digit_char, u64_modulus,
};
use crate::pipewire_types::{MediaType, ObjectId, Port, PortDirection, PortView};
use crate::text::utf8_of;

verus! {

pub open spec fn port_key() -> spec_fn(PortView) -> ObjectId {
    |p: PortView| p.id
}

/// The views of a sequence of ports.
pub open spec fn port_views(s: Seq<Port>) -> Seq<PortView> {
    s.map_values(|p: Port| p@)
}

pub open spec fn is_midi(p: PortView) -> bool {
    p.media_type == Some(MediaType::Midi)
}

/// Three-way comparison of two ports (-1, 0 or 1): by direction (inputs
/// first) if `by_direction`, then MIDI ports first if `midi_first`, then by
/// the natural order of their names.
pub open spec fn port_order(a: PortView, b: PortView, by_direction: bool, midi_first: bool) -> int {
    if by_direction && a.direction != b.direction {
        if a.direction == PortDirection::Input {
            -1
        } else {
            1
        }
    } else if midi_first && is_midi(a) != is_midi(b) {
        if is_midi(a) {
            -1
        } else {
            1
        }
    } else {
        natural_order(utf8_of(a.name), utf8_of(b.name), 0, 0)
    }
}

/// Each port of the list comes no later than the next one.
pub open spec fn ports_in_order(s: Seq<PortView>, by_direction: bool, midi_first: bool) -> bool {
    forall|i: int| 0 <= i < s.len() - 1 ==> port_order(#[trigger] s[i], s[i + 1], by_direction, midi_first) <= 0
}

pub proof fn lemma_port_order_antisymmetric(a: PortView, b: PortView, by_direction: bool, midi_first: bool)
    ensures
        port_order(a, b, by_direction, midi_first) == -port_order(b, a, by_direction, midi_first),
{
    lemma_natural_order_antisymmetric(utf8_of(a.name), utf8_of(b.name), 0, 0);
}

/// With direction ordering on, inputs come before outputs; with MIDI first
/// on, among ports of one direction MIDI ports come first.
pub proof fn law_port_order_groups(a: PortView, b: PortView, by_direction: bool, midi_first: bool)
    ensures
        by_direction && a.direction != b.direction ==> (port_order(a, b, by_direction, midi_first) < 0
            <==> a.direction == PortDirection::Input),
        !(by_direction && a.direction != b.direction) && midi_first && is_midi(a) != is_midi(b) ==> (
        port_order(a, b, by_direction, midi_first) < 0 <==> is_midi(a)),
{
}

/// Ports of one group are ordered by the natural order of their names: where
/// the names differ only in a number after a common part that does not end
/// in a digit, the smaller number comes first ("x2" before "x10"), and
/// where the numbers are equal what follows decides.
pub proof fn law_port_order_numbers(
    a: PortView,
    b: PortView,
    by_direction: bool,
    midi_first: bool,
    p: Seq<char>,
    d1: Seq<char>,
    r1: Seq<char>,
    d2: Seq<char>,
    r2: Seq<char>,
)
    requires
        by_direction ==> a.direction == b.direction,
        midi_first ==> is_midi(a) == is_midi(b),
        a.name == p + d1 + r1,
        b.name == p + d2 + r2,
        p.len() == 0 || !is_digit_char(p.last()),
        d1.len() > 0,
        d2.len() > 0,
        all_digit_chars(d1),
        all_digit_chars(d2),
        starts_without_digit_char(r1),
        starts_without_digit_char(r2),
        decimal_value(d1) < u64_modulus(),
        decimal_value(d2) < u64_modulus(),
    ensures
        decimal_value(d1) < decimal_value(d2) ==> port_order(a, b, by_direction, midi_first) < 0,
        decimal_value(d1) > decimal_value(d2) ==> port_order(a, b, by_direction, midi_first) > 0,
        decimal_value(d1) == decimal_value(d2) && r1 == r2 ==> port_order(a, b, by_direction, midi_first) == 0,
{
    law_natural_cmp_numbers(p, d1, r1, d2, r2);
    crate::natural::law_natural_cmp_reflexive(r1);
}

fn port_is_midi(p: &Port) -> (r: bool)
    ensures
        r == is_midi(p@),
{
    match p.media_type {
        Some(MediaType::Midi) => true,
        _ => false,
    }
}

/// Three-way comparison of two ports, as [`port_order`].
pub fn compare_ports(a: &Port, b: &Port, by_direction: bool, midi_first: bool) -> (r: i8)
    ensures
        r as int == port_order(a@, b@, by_direction, midi_first),
{
    if by_direction && a.direction != b.direction {
        return if a.direction == PortDirection::Input { -1 } else { 1 };
    }
    let am = port_is_midi(a);
    let bm = port_is_midi(b);
    if midi_first && am != bm {
        return if am { -1 } else { 1 };
    }
    natural_sign(a.name.as_str().as_bytes(), b.name.as_str().as_bytes())
}

/// Sort ports by [`port_order`] (insertion sort; equal ports keep their order).
pub fn sort_ports(v: Vec<Port>, by_direction: bool, midi_first: bool) -> (r: Vec<Port>)
    requires
        ids_distinct(port_views(v@), port_key()),
    ensures
        ids_distinct(port_views(r@), port_key()),
        id_table(port_views(r@), port_key()) == id_table(port_views(v@), port_key()),
        ports_in_order(port_views(r@), by_direction, midi_first),
{
    let ghost all = v@;
    let n = v.len();
    let mut rest = v;
    let mut out: Vec<Port> = Vec::new();
    let mut i: usize = 0;
    while i < n
        invariant
            n == all.len(),
            ids_distinct(port_views(all), port_key()),
            0 <= i <= n,
            rest@ == all.subrange(i as int, n as int),
            ids_distinct(port_views(out@), port_key()),
            id_table(port_views(out@), port_key()) == id_table(port_views(all.take(i as int)), port_key()),
            ports_in_order(port_views(out@), by_direction, midi_first),
        decreases n - i,
    {
        let p = rest.remove(0);
        let ghost pv = p@;
        proof {
            assert(p == all[i as int]);
            let pre = port_views(all.take(i as int));
            assert(port_views(all.take(i + 1)) =~= pre.push(pv));
            assert forall|a: int, b: int| 0 <= a < pre.len() && 0 <= b < pre.len() && a != b implies pre[a].id != pre[b].id by {
                assert(pre[a] == port_views(all)[a] && pre[b] == port_views(all)[b]);
            }
            assert forall|a: int| 0 <= a < pre.len() implies (port_key())(pre[a]) != pv.id by {
                assert(pre[a] == port_views(all)[a]);
                assert(pv == port_views(all)[i as int]);
            }
            lemma_id_table_absent(pre, port_key(), pv.id);
            lemma_id_table_push(pre, port_key(), pv);
        }
        // Find where `p` goes: after the last port that is not greater than it.
        let mut k: usize = out.len();
        while k > 0 && compare_ports(&out[k - 1], &p, by_direction, midi_first) > 0
            invariant
                0 <= k <= out@.len(),
                forall|m: int| k <= m < out@.len() ==> port_order(#[trigger] out@[m]@, pv, by_direction, midi_first) > 0,
                pv == p@,
            decreases k,
        {
            k = k - 1;
        }
        let ghost before = out@;
        out.insert(k, p);
        proof {
            let bv = port_views(before);
            let ov = port_views(out@);
            assert(ov =~= bv.insert(k as int, pv));
            lemma_id_table_insert_at(bv, port_key(), k as int, pv);
            assert forall|m: int| 0 <= m < ov.len() - 1 implies port_order(#[trigger] ov[m], ov[m + 1], by_direction, midi_first) <= 0 by {
                if m + 1 < k {
                    assert(ov[m] == bv[m] && ov[m + 1] == bv[m + 1]);
                } else if m + 1 == k {
                    assert(ov[m] == bv[m] && ov[m + 1] == pv);
                } else if m == k {
                    assert(ov[m] == pv && ov[m + 1] == bv[m]);
                    assert(port_order(before[m]@, pv, by_direction, midi_first) > 0);
                    lemma_port_order_antisymmetric(pv, bv[m], by_direction, midi_first);
                } else {
                    assert(ov[m] == bv[m - 1] && ov[m + 1] == bv[m]);
                }
            }
        }
        i = i + 1;
        proof {
            assert(rest@ =~= all.subrange(i as int, n as int));
        }
    }
    proof {
        assert(all.take(n as int) =~= all);
    }
    out
}

} // verus!
