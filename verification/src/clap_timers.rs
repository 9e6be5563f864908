//! The timers that CLAP plugins register with the host: which of them are
//! due at a tick of the timer thread. Times are in nanoseconds on a
//! monotonic clock; periods are in milliseconds.
use vstd::prelude::*;

verus! {

/// When timer `id` last fired, per the first entry of `clock` for it.
pub open spec fn last_fired(clock: Seq<(u32, u64)>, id: u32) -> Option<u64>
    decreases clock.len(),
{
    if clock.len() == 0 {
        None
    } else {
        match last_fired(clock.drop_last(), id) {
            Some(t) => Some(t),
            None => if clock.last().0 == id {
                Some(clock.last().1)
            } else {
                None
            },
        }
    }
}

/// Timer `t` (an id and a period) is due at `now_ns`: it never fired, or a
/// full period has passed since it last did.
pub open spec fn timer_due(clock: Seq<(u32, u64)>, t: (u32, u32), now_ns: u64) -> bool {
    match last_fired(clock, t.0) {
        None => true,
        Some(last) => (if now_ns >= last { now_ns - last } else { 0 }) >= t.1 * 1_000_000,
    }
}

/// The ids of the due timers, in the order of `timers`.
pub open spec fn due_ids(clock: Seq<(u32, u64)>, timers: Seq<(u32, u32)>, now_ns: u64) -> Seq<u32>
    decreases timers.len(),
{
    if timers.len() == 0 {
        Seq::empty()
    } else if timer_due(clock, timers.last(), now_ns) {
        due_ids(clock, timers.drop_last(), now_ns).push(timers.last().0)
    } else {
        due_ids(clock, timers.drop_last(), now_ns)
    }
}

/// When each registered timer last fired after the tick: now for a due
/// timer, as before for the others; timers no longer registered are dropped.
pub open spec fn clock_after(clock: Seq<(u32, u64)>, timers: Seq<(u32, u32)>, now_ns: u64) -> Seq<
    (u32, u64),
> {
    Seq::new(
        timers.len(),
        |i: int|
            (
                timers[i].0,
                if timer_due(clock, timers[i], now_ns) {
                    now_ns
                } else {
                    last_fired(clock, timers[i].0)->0
                },
            ),
    )
}

proof fn lemma_last_fired_found(clock: Seq<(u32, u64)>, id: u32, k: int)
    requires
        0 <= k < clock.len(),
        clock[k].0 == id,
        forall|j: int| 0 <= j < k ==> clock[j].0 != id,
    ensures
        last_fired(clock, id) == Some(clock[k].1),
    decreases clock.len(),
{
    if k < clock.len() - 1 {
        lemma_last_fired_found(clock.drop_last(), id, k);
    } else {
        lemma_last_fired_absent(clock.drop_last(), id);
    }
}

proof fn lemma_last_fired_absent(clock: Seq<(u32, u64)>, id: u32)
    requires
        forall|j: int| 0 <= j < clock.len() ==> clock[j].0 != id,
    ensures
        last_fired(clock, id) is None,
    decreases clock.len(),
{
    if clock.len() > 0 {
        lemma_last_fired_absent(clock.drop_last(), id);
    }
}

/// When timer `id` last fired, per `clock`.
fn find_last_fired(clock: &Vec<(u32, u64)>, id: u32) -> (r: Option<u64>)
    ensures
        r == last_fired(clock@, id),
{
    let mut i: usize = 0;
    while i < clock.len()
        invariant
            0 <= i <= clock@.len(),
            forall|j: int| 0 <= j < i ==> clock@[j].0 != id,
        decreases clock@.len() - i,
    {
        if clock[i].0 == id {
            proof {
                lemma_last_fired_found(clock@, id, i as int);
            }
            return Some(clock[i].1);
        }
        i = i + 1;
    }
    proof {
        lemma_last_fired_absent(clock@, id);
    }
    None
}

/// One tick of the timer thread at `now_ns` over the registered timers
/// (id and period each): returns the ids of the due timers, in order, and
/// records that they fired now.
pub fn due_timers(clock: &mut Vec<(u32, u64)>, timers: &Vec<(u32, u32)>, now_ns: u64) -> (r: Vec<
    u32,
>)
    ensures
        r@ == due_ids(old(clock)@, timers@, now_ns),
        final(clock)@ == clock_after(old(clock)@, timers@, now_ns),
{
    let mut next: Vec<(u32, u64)> = Vec::new();
    let mut due: Vec<u32> = Vec::new();
    let mut i: usize = 0;
    while i < timers.len()
        invariant
            0 <= i <= timers@.len(),
            due@ == due_ids(clock@, timers@.take(i as int), now_ns),
            next@ == clock_after(clock@, timers@, now_ns).take(i as int),
        decreases timers@.len() - i,
    {
        let (id, period) = timers[i];
        let last = find_last_fired(clock, id);
        let fire = match last {
            None => true,
            Some(l) => {
                let elapsed: u64 = if now_ns >= l { now_ns - l } else { 0 };
                (elapsed as u128) >= (period as u128) * 1_000_000
            },
        };
        proof {
            assert(fire == timer_due(clock@, timers@[i as int], now_ns));
            assert(timers@.take(i + 1).drop_last() =~= timers@.take(i as int));
            assert(timers@.take(i + 1).last() == timers@[i as int]);
        }
        if fire {
            due.push(id);
            next.push((id, now_ns));
        } else {
            let l = match last {
                Some(l) => l,
                None => now_ns,
            };
            next.push((id, l));
        }
        i = i + 1;
        proof {
            assert(next@ =~= clock_after(clock@, timers@, now_ns).take(i as int));
        }
    }
    proof {
        assert(timers@.take(timers@.len() as int) =~= timers@);
        assert(clock_after(clock@, timers@, now_ns).take(timers@.len() as int) =~= clock_after(
            clock@,
            timers@,
            now_ns,
        ));
    }
    *clock = next;
    due
}

/// A timer fires at most once per period: where a tick at `t1` fires timer
/// `i` and a later tick at `t2`, over timers with distinct ids, fires the
/// timer with the same id and period `p`, `t2 - t1` is at least `p`.
pub proof fn law_timer_fires_once_per_period(
    clock: Seq<(u32, u64)>,
    timers: Seq<(u32, u32)>,
    t1: u64,
    i: int,
    later: Seq<(u32, u32)>,
    j: int,
    t2: u64,
)
    requires
        forall|a: int, b: int| 0 <= a < b < timers.len() ==> timers[a].0 != timers[b].0,
        0 <= i < timers.len(),
        timer_due(clock, timers[i], t1),
        0 <= j < later.len(),
        later[j].0 == timers[i].0,
        t1 <= t2,
        timer_due(clock_after(clock, timers, t1), later[j], t2),
    ensures
        t2 - t1 >= later[j].1 * 1_000_000,
{
    let c1 = clock_after(clock, timers, t1);
    assert(c1[i] == (timers[i].0, t1));
    assert forall|k: int| 0 <= k < i implies c1[k].0 != timers[i].0 by {
        assert(c1[k].0 == timers[k].0);
    }
    lemma_last_fired_found(c1, timers[i].0, i);
}

} // verus!
