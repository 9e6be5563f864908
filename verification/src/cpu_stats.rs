//! Per-plugin timing counters written by the real-time threads, and the
//! registry of those counters.
use vstd::prelude::*;
use std::collections::HashMap;
use std::sync::Arc;
use std::sync::atomic::AtomicU64;
use std::sync::atomic::Ordering;
use crate::plugin_types::PluginInstanceId;

verus! {

broadcast use vstd::std_specs::hash::group_hash_axioms;

/// Timing counters of one plugin. The real-time thread adds to them after
/// each `process()` call; the UI thread reads and resets them.
pub struct PluginTimingSlot {
    /// Nanoseconds spent in `process()` since the last reset.
    pub total_ns: AtomicU64,
    /// `process()` calls since the last reset.
    pub call_count: AtomicU64,
    /// Duration of the latest call, in nanoseconds.
    pub last_ns: AtomicU64,
    /// Buffer size (quantum) of the latest call.
    pub last_quantum: AtomicU64,
    /// Sample rate of the latest call.
    pub last_rate: AtomicU64,
    /// Nanoseconds spent in the worker thread since the last reset.
    pub worker_total_ns: AtomicU64,
}

/// A 32-bit count as a 64-bit one.
fn widen(x: u32) -> (r: u64)
    ensures
        r == x,
{
    x as u64
}

impl PluginTimingSlot {
    /// All counters at zero.
    pub fn new() -> Self {
        PluginTimingSlot {
            total_ns: AtomicU64::new(0),
            call_count: AtomicU64::new(0),
            last_ns: AtomicU64::new(0),
            last_quantum: AtomicU64::new(0),
            last_rate: AtomicU64::new(0),
            worker_total_ns: AtomicU64::new(0),
        }
    }

    /// Records one `process()` call: adds its duration and one call, keeps
    /// its duration, quantum and rate as the latest, and adds the worker
    /// time where there was any. The counters wrap on overflow, as atomic
    /// additions do.
    pub fn record(&self, elapsed_ns: u64, worker_ns: u64, quantum: u32, rate: u32) {
        let q = widen(quantum);
        let r = widen(rate);
        self.total_ns.fetch_add(elapsed_ns, Ordering::Relaxed);
        self.call_count.fetch_add(1, Ordering::Relaxed);
        self.last_ns.store(elapsed_ns, Ordering::Relaxed);
        self.last_quantum.store(q, Ordering::Relaxed);
        self.last_rate.store(r, Ordering::Relaxed);
        if worker_ns > 0 {
            self.worker_total_ns.fetch_add(worker_ns, Ordering::Relaxed);
        }
    }
}

/// The registry of the timing slots of the running plugins, by instance id,
/// each with the plugin's name.
pub struct PluginCpuTracker {
    pub slots: HashMap<PluginInstanceId, (String, Arc<PluginTimingSlot>)>,
}

impl PluginCpuTracker {
    /// The registered plugins' ids, each with its name.
    pub closed spec fn names(&self) -> Map<PluginInstanceId, Seq<char>> {
        self.slots@.map_values(|e: (String, Arc<PluginTimingSlot>)| e.0@)
    }

    /// No plugin registered.
    pub fn new() -> (r: Self)
        ensures
            r.names() == Map::<PluginInstanceId, Seq<char>>::empty(),
    {
        let r = PluginCpuTracker { slots: HashMap::new() };
        assert(r.names() =~= Map::<PluginInstanceId, Seq<char>>::empty());
        r
    }

    /// Registers a plugin under its id with a fresh slot, replacing any
    /// earlier registration of the id, and returns the slot for the
    /// real-time thread.
    pub fn register(&mut self, id: PluginInstanceId, name: String) -> (r: Arc<PluginTimingSlot>)
        ensures
            final(self).names() == old(self).names().insert(id, name@),
    {
        let slot = Arc::new(PluginTimingSlot::new());
        let ghost n = name@;
        self.slots.insert(id, (name, slot.clone()));
        assert(self.names() =~= old(self).names().insert(id, n));
        slot
    }

    /// Forgets a plugin's registration.
    pub fn unregister(&mut self, id: PluginInstanceId)
        ensures
            final(self).names() == old(self).names().remove(id),
    {
        self.slots.remove(&id);
        assert(self.names() =~= old(self).names().remove(id));
    }
}

} // verus!
