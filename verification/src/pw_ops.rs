//! The queue of operations that the PipeWire thread carries out on its main
//! loop: link changes go out at the next tick, plugin operations one at a
//! time with a cooldown between them.
use vstd::prelude::*;

use crate::lv2_state::StateEntry;
use crate::pipewire_types::ObjectId;

verus! {

/// An operation waiting for the PipeWire main loop.
#[derive(Debug)]
pub enum InternalOp {
    Connect { output_port_id: ObjectId, input_port_id: ObjectId },
    Disconnect { link_id: ObjectId },
    AddPlugin {
        plugin_uri: String,
        instance_id: u64,
        display_name: String,
        format: String,
        lv2_state: Vec<StateEntry>,
    },
    RemovePlugin { instance_id: u64 },
    OpenPluginUI { instance_id: u64 },
    ClosePluginUI { instance_id: u64 },
}

/// A link operation: one that never waits for the cooldown.
pub open spec fn is_link_op(op: InternalOp) -> bool {
    op is Connect || op is Disconnect
}

/// The link operations of `s`, in order.
pub open spec fn link_ops(s: Seq<InternalOp>) -> Seq<InternalOp>
    decreases s.len(),
{
    if s.len() == 0 {
        Seq::empty()
    } else if is_link_op(s.last()) {
        link_ops(s.drop_last()).push(s.last())
    } else {
        link_ops(s.drop_last())
    }
}

/// The other operations of `s`, in order.
pub open spec fn plugin_ops(s: Seq<InternalOp>) -> Seq<InternalOp>
    decreases s.len(),
{
    if s.len() == 0 {
        Seq::empty()
    } else if is_link_op(s.last()) {
        plugin_ops(s.drop_last())
    } else {
        plugin_ops(s.drop_last()).push(s.last())
    }
}

/// The mathematical value of the queue.
pub struct PendingView {
    pub ops: Seq<InternalOp>,
    pub last_op_ns: u64,
    pub changes_pending: bool,
}

/// The cooldown has not run out at `now_ns` since an operation at `last_ns`.
pub open spec fn cooling_down(last_ns: u64, now_ns: u64, cooldown_ms: u64) -> bool {
    (if now_ns >= last_ns { now_ns - last_ns } else { 0 }) < cooldown_ms * 1_000_000
}

/// The plugin operation that a tick sends, if any.
pub open spec fn tick_slow_op(v: PendingView, now_ns: u64, cooldown_ms: u64) -> Option<InternalOp> {
    if cooling_down(v.last_op_ns, now_ns, cooldown_ms) || plugin_ops(v.ops).len() == 0 {
        None
    } else {
        Some(plugin_ops(v.ops)[0])
    }
}

/// What a tick sends, in order: every link operation, then at most one other.
pub open spec fn tick_sent(v: PendingView, now_ns: u64, cooldown_ms: u64) -> Seq<InternalOp> {
    match tick_slow_op(v, now_ns, cooldown_ms) {
        Some(op) => link_ops(v.ops).push(op),
        None => link_ops(v.ops),
    }
}

/// The queue after a tick.
pub open spec fn tick_state(v: PendingView, now_ns: u64, cooldown_ms: u64) -> PendingView {
    match tick_slow_op(v, now_ns, cooldown_ms) {
        Some(_) => PendingView {
            ops: plugin_ops(v.ops).skip(1),
            last_op_ns: now_ns,
            changes_pending: false,
        },
        None => PendingView { ops: plugin_ops(v.ops), last_op_ns: v.last_op_ns, changes_pending: false },
    }
}

/// What one tick hands to the main loop.
#[derive(Debug)]
pub struct TickOutput {
    /// The operations to carry out now, in order.
    pub sent: Vec<InternalOp>,
    /// Whether to announce that a batch of graph changes is complete.
    pub batch_complete: bool,
}

/// The operations waiting for the main loop, the time of the last plugin
/// operation, and whether the graph changed since the last announcement.
/// Times are in nanoseconds on a monotonic clock whose origin lies one
/// second before the queue was made.
#[derive(Debug)]
pub struct PendingOps {
    ops: Vec<InternalOp>,
    last_op_ns: u64,
    changes_pending: bool,
}

impl View for PendingOps {
    type V = PendingView;

    closed spec fn view(&self) -> PendingView {
        PendingView { ops: self.ops@, last_op_ns: self.last_op_ns, changes_pending: self.changes_pending }
    }
}

proof fn lemma_split_push(s: Seq<InternalOp>, x: InternalOp)
    ensures
        link_ops(s.push(x)) == (if is_link_op(x) { link_ops(s).push(x) } else { link_ops(s) }),
        plugin_ops(s.push(x)) == (if is_link_op(x) { plugin_ops(s) } else { plugin_ops(s).push(x) }),
{
    assert(s.push(x).drop_last() == s);
}

impl PendingOps {
    /// An empty queue whose last plugin operation lies at the clock's origin.
    pub fn new() -> (r: Self)
        ensures
            r@.ops == Seq::<InternalOp>::empty(),
            r@.last_op_ns == 0,
            !r@.changes_pending,
    {
        PendingOps { ops: Vec::new(), last_op_ns: 0, changes_pending: false }
    }

    /// Queue `op` behind the others.
    pub fn push(&mut self, op: InternalOp)
        ensures
            final(self)@ == (PendingView { ops: old(self)@.ops.push(op), ..old(self)@ }),
    {
        self.ops.push(op);
    }

    /// Note that the graph changed.
    pub fn mark_changed(&mut self)
        ensures
            final(self)@ == (PendingView { changes_pending: true, ..old(self)@ }),
    {
        self.changes_pending = true;
    }

    /// The number of operations waiting.
    pub fn len(&self) -> (r: usize)
        ensures
            r == self@.ops.len(),
    {
        self.ops.len()
    }

    /// One tick of the main loop's timer at `now_ns`: every link operation
    /// goes out; then, unless the cooldown since the last plugin operation
    /// is still running, the first plugin operation goes out too. A batch is
    /// announced when the graph changed since the last tick.
    pub fn tick(&mut self, now_ns: u64, cooldown_ms: u64) -> (r: TickOutput)
        ensures
            r.sent@ == tick_sent(old(self)@, now_ns, cooldown_ms),
            final(self)@ == tick_state(old(self)@, now_ns, cooldown_ms),
            r.batch_complete == old(self)@.changes_pending,
    {
        let mut rest: Vec<InternalOp> = Vec::new();
        std::mem::swap(&mut rest, &mut self.ops);
        let ghost all = rest@;
        let n = rest.len();
        let mut sent: Vec<InternalOp> = Vec::new();
        let mut slow: Vec<InternalOp> = Vec::new();
        let mut i: usize = 0;
        proof {
            assert(all.take(0) =~= Seq::<InternalOp>::empty());
        }
        while i < n
            invariant
                n == all.len(),
                0 <= i <= n,
                rest@ == all.subrange(i as int, n as int),
                sent@ == link_ops(all.take(i as int)),
                slow@ == plugin_ops(all.take(i as int)),
            decreases n - i,
        {
            let op = rest.remove(0);
            proof {
                assert(op == all[i as int]);
                assert(all.take(i + 1) =~= all.take(i as int).push(op));
                lemma_split_push(all.take(i as int), op);
            }
            let link = match &op {
                InternalOp::Connect { .. } | InternalOp::Disconnect { .. } => true,
                _ => false,
            };
            if link {
                sent.push(op);
            } else {
                slow.push(op);
            }
            i = i + 1;
            proof {
                assert(rest@ =~= all.subrange(i as int, n as int));
            }
        }
        proof {
            assert(all.take(n as int) =~= all);
        }
        let elapsed: u64 = if now_ns >= self.last_op_ns { now_ns - self.last_op_ns } else { 0 };
        let waiting = (elapsed as u128) < (cooldown_ms as u128) * 1_000_000;
        if !waiting && slow.len() > 0 {
            let op = slow.remove(0);
            sent.push(op);
            self.last_op_ns = now_ns;
        }
        self.ops = slow;
        let batch_complete = self.changes_pending;
        self.changes_pending = false;
        proof {
            assert(self.ops@ =~= tick_state(old(self)@, now_ns, cooldown_ms).ops);
            assert(sent@ =~= tick_sent(old(self)@, now_ns, cooldown_ms));
        }
        TickOutput { sent, batch_complete }
    }
}

/// A tick loses no operation and adds none: what it sends followed by what
/// stays queued is the queue with its link operations moved to the front.
pub proof fn law_tick_keeps_every_op(v: PendingView, now_ns: u64, cooldown_ms: u64)
    ensures
        tick_sent(v, now_ns, cooldown_ms) + tick_state(v, now_ns, cooldown_ms).ops == link_ops(v.ops)
            + plugin_ops(v.ops),
{
    let p = plugin_ops(v.ops);
    if tick_slow_op(v, now_ns, cooldown_ms) is Some {
        assert(link_ops(v.ops).push(p[0]) + p.skip(1) =~= link_ops(v.ops) + p);
    }
}

/// Link operations never wait: after a tick none is left in the queue.
pub proof fn law_link_ops_never_wait(v: PendingView, now_ns: u64, cooldown_ms: u64)
    ensures
        forall|i: int|
            0 <= i < tick_state(v, now_ns, cooldown_ms).ops.len() ==> !is_link_op(
                #[trigger] tick_state(v, now_ns, cooldown_ms).ops[i],
            ),
{
    lemma_plugin_ops_have_no_links(v.ops);
}

proof fn lemma_plugin_ops_have_no_links(s: Seq<InternalOp>)
    ensures
        forall|i: int| 0 <= i < plugin_ops(s).len() ==> !is_link_op(#[trigger] plugin_ops(s)[i]),
    decreases s.len(),
{
    if s.len() > 0 {
        let t = s.drop_last();
        lemma_plugin_ops_have_no_links(t);
        assert forall|i: int| 0 <= i < plugin_ops(s).len() implies !is_link_op(#[trigger] plugin_ops(s)[i]) by {
            if i < plugin_ops(t).len() {
                assert(plugin_ops(s)[i] == plugin_ops(t)[i]);
            }
        }
    }
}

/// Two plugin operations go out at least a full cooldown apart: if a tick at
/// `t1` sends one, and a later tick at `t2`, from a queue whose last plugin
/// operation is still the one of `t1`, sends another, then `t2 - t1` is at
/// least the cooldown.
pub proof fn law_plugin_ops_spaced(
    v1: PendingView,
    t1: u64,
    v2: PendingView,
    t2: u64,
    cooldown_ms: u64,
)
    requires
        t1 <= t2,
        tick_slow_op(v1, t1, cooldown_ms) is Some,
        v2.last_op_ns == tick_state(v1, t1, cooldown_ms).last_op_ns,
        tick_slow_op(v2, t2, cooldown_ms) is Some,
    ensures
        t2 - t1 >= cooldown_ms * 1_000_000,
{
}

} // verus!
