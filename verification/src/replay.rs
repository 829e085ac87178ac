//! The cooperative replay operator.
//!
//! One decoded-event stream per claimed source feeds the operator. The local
//! scheduler invokes it repeatedly ("activations"); each activation runs to
//! completion without blocking. On its first activation the operator seeds
//! the shared capability pool with a single relative progress delta of
//! (number of sources - 1) at the initial timestamp. While the shutdown flag
//! reads running, it drains every currently available event from every
//! source: progress deltas are applied to the outstanding-progress frontier
//! and forwarded verbatim, message batches are buffered by timestamp and
//! flushed at the end of the activation, and re-activation is requested.
//! Once the flag reads stopped, no further messages are emitted: the
//! operator retracts every outstanding count exactly once, emptying the
//! frontier, and goes idle.
//!
//! The driver around the dataflow runtime performs the outside work — it
//! reads the flag, drains the decoders, and pushes what an activation
//! returns into the runtime — while every decision is made here.

use vstd::prelude::*;
use crate::frontier::Frontier;
use crate::frontier::deltas_fit;
use crate::frontier::sum_at;
use crate::frontier::lemma_sum_at_concat;
use crate::frontier::lemma_counts_zero_empty;
use crate::frontier::lemma_single_entry;

verus! {

/// The timestamp at which the shared capability pool is seeded: the minimum
/// (default) timestamp.
pub const INITIAL_TIMESTAMP: u64 = 0;

/// One decoded log record from a single source, consumed in arrival order.
pub enum Event<D> {
    /// Frontier changes: a batch of (timestamp, signed delta) updates.
    Progress(Vec<(u64, i64)>),
    /// An ordered batch of payloads at one timestamp.
    Messages(u64, Vec<D>),
}

/// The progress deltas one source's events carry, in arrival order.
pub open spec fn source_progress<D>(events: Seq<Event<D>>) -> Seq<(u64, i64)>
    decreases events.len(),
{
    if events.len() == 0 {
        Seq::empty()
    } else {
        source_progress(events.drop_last()) + match events.last() {
            Event::Progress(ds) => ds@,
            Event::Messages(_, _) => Seq::empty(),
        }
    }
}

/// The progress deltas all sources' events carry: source by source, each in
/// its own arrival order.
pub open spec fn all_progress<D>(batches: Seq<Vec<Event<D>>>) -> Seq<(u64, i64)>
    decreases batches.len(),
{
    if batches.len() == 0 {
        Seq::empty()
    } else {
        all_progress(batches.drop_last()) + source_progress(batches.last()@)
    }
}

/// The message payloads one source produced at timestamp `t`, in arrival
/// order.
pub open spec fn source_msgs_at<D>(events: Seq<Event<D>>, t: u64) -> Seq<D>
    decreases events.len(),
{
    if events.len() == 0 {
        Seq::empty()
    } else {
        source_msgs_at(events.drop_last(), t) + match events.last() {
            Event::Messages(u, data) => if u == t {
                data@
            } else {
                Seq::empty()
            },
            Event::Progress(_) => Seq::empty(),
        }
    }
}

/// The message payloads all sources produced at timestamp `t`: source by
/// source, each source's payloads in its own arrival order.
pub open spec fn msgs_at<D>(batches: Seq<Vec<Event<D>>>, t: u64) -> Seq<D>
    decreases batches.len(),
{
    if batches.len() == 0 {
        Seq::empty()
    } else {
        msgs_at(batches.drop_last(), t) + source_msgs_at(batches.last()@, t)
    }
}

/// The payloads a flushed output buffer carries at timestamp `t`.
pub open spec fn buffered_at<D>(ms: Seq<(u64, Vec<D>)>, t: u64) -> Seq<D>
    decreases ms.len(),
{
    if ms.len() == 0 {
        Seq::empty()
    } else {
        buffered_at(ms.drop_last(), t) + if ms.last().0 == t {
            ms.last().1@
        } else {
            Seq::empty()
        }
    }
}

/// At most one buffered batch per timestamp.
pub open spec fn distinct_times<D>(ms: Seq<(u64, Vec<D>)>) -> bool {
    forall|a: int, b: int|
        0 <= a < b < ms.len() ==> (#[trigger] ms[a]).0 != (#[trigger] ms[b]).0
}

/// No buffered batch is empty.
pub open spec fn no_empty_batches<D>(ms: Seq<(u64, Vec<D>)>) -> bool {
    forall|i: int| 0 <= i < ms.len() ==> (#[trigger] ms[i]).1@.len() > 0
}

/// Appending one event appends its progress deltas.
pub proof fn lemma_source_progress_push<D>(es: Seq<Event<D>>, e: Event<D>)
    ensures
        source_progress(es.push(e)) == source_progress(es) + match e {
            Event::Progress(ds) => ds@,
            Event::Messages(_, _) => Seq::empty(),
        },
{
    assert(es.push(e).drop_last() =~= es);
}

/// Appending one event appends its payloads at its timestamp.
pub proof fn lemma_source_msgs_push<D>(es: Seq<Event<D>>, e: Event<D>, t: u64)
    ensures
        source_msgs_at(es.push(e), t) == source_msgs_at(es, t) + match e {
            Event::Messages(u, data) => if u == t {
                data@
            } else {
                Seq::<D>::empty()
            },
            Event::Progress(_) => Seq::<D>::empty(),
        },
{
    assert(es.push(e).drop_last() =~= es);
}

/// Appending one source's events appends that source's progress deltas.
pub proof fn lemma_all_progress_push<D>(bs: Seq<Vec<Event<D>>>, b: Vec<Event<D>>)
    ensures
        all_progress(bs.push(b)) == all_progress(bs) + source_progress(b@),
{
    assert(bs.push(b).drop_last() =~= bs);
}

/// Appending one source's events appends that source's payloads at `t`.
pub proof fn lemma_msgs_at_push<D>(bs: Seq<Vec<Event<D>>>, b: Vec<Event<D>>, t: u64)
    ensures
        msgs_at(bs.push(b), t) == msgs_at(bs, t) + source_msgs_at(b@, t),
{
    assert(bs.push(b).drop_last() =~= bs);
}

/// Appending one batch appends its payloads when its timestamp is `t`.
pub proof fn lemma_buffered_at_push<D>(ms: Seq<(u64, Vec<D>)>, e: (u64, Vec<D>), t: u64)
    ensures
        buffered_at(ms.push(e), t) == buffered_at(ms, t) + if e.0 == t {
            e.1@
        } else {
            Seq::<D>::empty()
        },
{
    assert(ms.push(e).drop_last() =~= ms);
}

/// If no buffered batch carries timestamp `t`, nothing is buffered at `t`.
pub proof fn lemma_buffered_at_absent<D>(ms: Seq<(u64, Vec<D>)>, t: u64)
    requires
        forall|i: int| 0 <= i < ms.len() ==> (#[trigger] ms[i]).0 != t,
    ensures
        buffered_at(ms, t) == Seq::<D>::empty(),
    decreases ms.len(),
{
    if ms.len() > 0 {
        lemma_buffered_at_absent(ms.drop_last(), t);
        assert(buffered_at(ms, t) =~= Seq::<D>::empty());
    }
}

/// Removing a batch whose timestamp is not `t` leaves the payloads at `t`
/// unchanged.
pub proof fn lemma_buffered_at_remove_other<D>(ms: Seq<(u64, Vec<D>)>, i: int, t: u64)
    requires
        0 <= i < ms.len(),
        ms[i].0 != t,
    ensures
        buffered_at(ms.remove(i), t) == buffered_at(ms, t),
    decreases ms.len(),
{
    if i == ms.len() - 1 {
        assert(ms.remove(i) =~= ms.drop_last());
        assert(buffered_at(ms.drop_last(), t) =~= buffered_at(ms, t));
    } else {
        assert(ms.remove(i).drop_last() =~= ms.drop_last().remove(i));
        lemma_buffered_at_remove_other(ms.drop_last(), i, t);
    }
}

/// With pairwise-distinct timestamps, the payloads at the timestamp of
/// batch `i` are exactly that batch's payloads.
pub proof fn lemma_buffered_at_unique<D>(ms: Seq<(u64, Vec<D>)>, i: int, t: u64)
    requires
        distinct_times(ms),
        0 <= i < ms.len(),
        ms[i].0 == t,
    ensures
        buffered_at(ms, t) == ms[i].1@,
    decreases ms.len(),
{
    if i == ms.len() - 1 {
        assert forall|j: int| 0 <= j < ms.drop_last().len() implies (#[trigger] ms.drop_last()[j]).0
            != t by {
            assert(ms.drop_last()[j] == ms[j]);
        }
        lemma_buffered_at_absent(ms.drop_last(), t);
        assert(buffered_at(ms, t) =~= ms[i].1@);
    } else {
        lemma_buffered_at_unique(ms.drop_last(), i, t);
        assert(ms.last().0 != t);
        assert(buffered_at(ms, t) =~= ms[i].1@);
    }
}

/// The position of the batch already buffered at `t`, if any.
fn buffer_find<D>(msgs: &Vec<(u64, Vec<D>)>, t: u64) -> (r: Option<usize>)
    ensures
        match r {
            Some(i) => i < msgs@.len() && msgs@[i as int].0 == t,
            None => forall|j: int| 0 <= j < msgs@.len() ==> (#[trigger] msgs@[j]).0 != t,
        },
{
    let mut i: usize = 0;
    let n = msgs.len();
    while i < n
        invariant
            n == msgs@.len(),
            i <= n,
            forall|j: int| 0 <= j < i ==> (#[trigger] msgs@[j]).0 != t,
        decreases n - i,
    {
        if msgs[i].0 == t {
            return Some(i);
        }
        i = i + 1;
    }
    None
}

/// Appends one message batch to an output buffer keyed by timestamp:
/// payloads join the batch already buffered for their timestamp, in arrival
/// order, and an empty batch changes nothing.
fn buffer_push<D>(msgs: &mut Vec<(u64, Vec<D>)>, t: u64, data: Vec<D>)
    requires
        distinct_times(old(msgs)@),
        no_empty_batches(old(msgs)@),
    ensures
        distinct_times(final(msgs)@),
        no_empty_batches(final(msgs)@),
        forall|u: u64|
            #[trigger] buffered_at(final(msgs)@, u) == buffered_at(old(msgs)@, u) + if u == t {
                data@
            } else {
                Seq::<D>::empty()
            },
{
    let ghost pre = msgs@;
    if data.is_empty() {
        proof {
            assert forall|u: u64|
                #[trigger] buffered_at(msgs@, u) == buffered_at(pre, u) + if u == t {
                    data@
                } else {
                    Seq::<D>::empty()
                } by {
                assert(buffered_at(pre, u) + data@ =~= buffered_at(pre, u));
                assert(buffered_at(pre, u) + Seq::<D>::empty() =~= buffered_at(pre, u));
            }
        }
        return ;
    }
    match buffer_find(msgs, t) {
        Some(i) => {
            // Merge into the existing batch, preserving payload order.
            let entry = msgs.remove(i);
            let ts = entry.0;
            let mut payload = entry.1;
            let mut tail = data;
            payload.append(&mut tail);
            msgs.push((ts, payload));
            proof {
                let rm = pre.remove(i as int);
                let e = msgs@.last();
                assert(msgs@ == rm.push(e));
                assert(e.0 == t);
                assert(rm.len() == pre.len() - 1);
                // Every remaining batch keeps a timestamp other than `t`,
                // and the remaining timestamps stay pairwise distinct.
                assert forall|j: int| 0 <= j < rm.len() implies (#[trigger] rm[j]).0 != t by {
                    if j < i {
                        assert(rm[j] == pre[j]);
                        assert(pre[j].0 != pre[i as int].0);
                    } else {
                        assert(rm[j] == pre[j + 1]);
                        assert(pre[i as int].0 != pre[j + 1].0);
                    }
                }
                assert forall|a: int, b: int|
                    0 <= a < b < rm.len() implies (#[trigger] rm[a]).0 != (#[trigger] rm[b]).0 by {
                    let a0: int = if a < i {
                        a
                    } else {
                        a + 1
                    };
                    let b0: int = if b < i {
                        b
                    } else {
                        b + 1
                    };
                    assert(rm[a] == pre[a0] && rm[b] == pre[b0]);
                    assert(pre[a0].0 != pre[b0].0);
                }
                assert forall|a: int, b: int|
                    0 <= a < b < msgs@.len() implies (#[trigger] msgs@[a]).0 != (
                #[trigger] msgs@[b]).0 by {
                    if b < msgs@.len() - 1 {
                        assert(msgs@[a] == rm[a] && msgs@[b] == rm[b]);
                    } else {
                        assert(msgs@[a] == rm[a]);
                        assert(msgs@[b] == e);
                    }
                }
                assert forall|u: u64|
                    #[trigger] buffered_at(msgs@, u) == buffered_at(pre, u) + if u == t {
                        data@
                    } else {
                        Seq::<D>::empty()
                    } by {
                    lemma_buffered_at_push(rm, e, u);
                    if u == t {
                        lemma_buffered_at_absent(rm, t);
                        lemma_buffered_at_unique(pre, i as int, t);
                        assert(e.1@ == pre[i as int].1@ + data@);
                        assert(buffered_at(msgs@, u) =~= buffered_at(pre, u) + data@);
                    } else {
                        lemma_buffered_at_remove_other(pre, i as int, u);
                        assert(buffered_at(msgs@, u) =~= buffered_at(pre, u));
                        assert(buffered_at(pre, u) + Seq::<D>::empty() =~= buffered_at(pre, u));
                    }
                }
            }
        },
        None => {
            // First batch at `t`.
            msgs.push((t, data));
            proof {
                assert forall|u: u64|
                    #[trigger] buffered_at(msgs@, u) == buffered_at(pre, u) + if u == t {
                        data@
                    } else {
                        Seq::<D>::empty()
                    } by {
                    lemma_buffered_at_push(pre, (t, data), u);
                    if u != t {
                        assert(buffered_at(pre, u) + Seq::<D>::empty() =~= buffered_at(pre, u));
                    }
                }
            }
        },
    }
}


/// What one activation hands back to the driver: the progress deltas and
/// message batches to push downstream before the activation returns, and
/// whether the operator asks to be scheduled again.
pub struct Activation<D> {
    /// Progress deltas to forward, in emission order.
    pub progress: Vec<(u64, i64)>,
    /// Message batches to flush, keyed by timestamp: at most one batch per
    /// timestamp, none empty.
    pub messages: Vec<(u64, Vec<D>)>,
    /// Whether the operator requests another activation.
    pub reactivate: bool,
}

/// The replay operator state carried across activations.
pub struct ReplayOperator {
    /// How many claimed sources feed this instance.
    pub num_sources: usize,
    /// Whether the first activation has already seeded the capability pool.
    pub started: bool,
    /// The outstanding-progress tracker.
    pub frontier: Frontier,
}

impl ReplayOperator {
    /// Well-formedness: the tracker is well-formed, the source count leaves
    /// the capability seed representable, and before the first activation
    /// nothing is outstanding.
    pub open spec fn wf(self) -> bool {
        &&& self.frontier.wf()
        &&& self.num_sources as int <= i64::MAX as int
        &&& !self.started ==> self.frontier@.len() == 0
    }

    /// The progress updates the coming activation emits before processing
    /// any event: on the first activation, the single capability seed of
    /// (number of sources - 1) at the initial timestamp; afterwards nothing.
    pub open spec fn seed_deltas(self) -> Seq<(u64, i64)> {
        if self.started {
            Seq::empty()
        } else {
            seq![(INITIAL_TIMESTAMP, (self.num_sources - 1) as i64)]
        }
    }

    /// A replay operator over `num_sources` claimed sources: not yet
    /// started, with no outstanding progress.
    pub fn new(num_sources: usize) -> (op: ReplayOperator)
        requires
            num_sources as int <= i64::MAX as int,
        ensures
            op.wf(),
            !op.started,
            op.num_sources == num_sources,
            op.frontier@.len() == 0,
            forall|u: u64| #[trigger] op.frontier.count_of(u) == 0,
    {
        ReplayOperator { num_sources, started: false, frontier: Frontier::new() }
    }

    /// One cooperative activation, given the shutdown flag as read at its
    /// start and, for each source in order, the events that were available.
    ///
    /// While running, the capability seed (first activation only) and every
    /// progress delta are applied to the frontier and emitted verbatim, in
    /// drain order; message payloads are buffered by timestamp, each
    /// source's payloads keeping their order; re-activation is requested.
    /// Once stopped, no messages are emitted: the seed (if the operator
    /// never ran) and the retraction of every outstanding count are emitted,
    /// the frontier empties, and the deltas emitted by this activation sum,
    /// at every timestamp, to the exact inverse of what was outstanding.
    ///
    /// Returns `None`, changing no count, only when the batch would push
    /// some intermediate outstanding count outside the representable range.
    pub fn activate<D>(&mut self, running: bool, batches: Vec<Vec<Event<D>>>) -> (out: Option<
        Activation<D>,
    >)
        requires
            old(self).wf(),
            batches@.len() == old(self).num_sources,
        ensures
            running ==> (out is Some <==> deltas_fit(
                old(self).frontier@,
                old(self).seed_deltas() + all_progress(batches@),
            )),
            !running ==> out is Some,
            match out {
                Some(a) => {
                    &&& final(self).wf()
                    &&& final(self).started
                    &&& final(self).num_sources == old(self).num_sources
                    &&& a.reactivate == running
                    &&& forall|u: u64|
                        #[trigger] final(self).frontier.count_of(u) == old(
                            self,
                        ).frontier.count_of(u) + sum_at(a.progress@, u)
                    &&& running ==> a.progress@ == old(self).seed_deltas() + all_progress(
                        batches@,
                    )
                    &&& running ==> (forall|u: u64|
                        #[trigger] buffered_at(a.messages@, u) == msgs_at(batches@, u))
                    &&& running ==> distinct_times(a.messages@) && no_empty_batches(a.messages@)
                    &&& !running ==> a.messages@.len() == 0
                    &&& !running ==> final(self).frontier@.len() == 0
                    &&& !running ==> (forall|u: u64|
                        #[trigger] sum_at(a.progress@, u) == -old(self).frontier.count_of(u))
                    &&& !running && old(self).started ==> (a.progress@.len() == old(
                        self,
                    ).frontier@.len() && (forall|i: int|
                        0 <= i < a.progress@.len() ==> (#[trigger] a.progress@[i]).0 == old(
                            self,
                        ).frontier@[i].0 && a.progress@[i].1 as int == -(old(
                            self,
                        ).frontier@[i].1 as int)))
                    &&& !running && !old(self).started ==> a.progress@ == (
                    if old(self).num_sources == 1 {
                        seq![(INITIAL_TIMESTAMP, 0i64)]
                    } else {
                        seq![
                            (INITIAL_TIMESTAMP, (old(self).num_sources - 1) as i64),
                            (INITIAL_TIMESTAMP, (1 - old(self).num_sources) as i64),
                        ]
                    })
                    &&& !running && old(self).started && old(self).frontier@.len() == 0
                        ==> a.progress@.len() == 0
                },
                None => {
                    &&& running
                    &&& final(self).wf()
                    &&& final(self).started == old(self).started
                    &&& final(self).num_sources == old(self).num_sources
                    &&& forall|u: u64|
                        #[trigger] final(self).frontier.count_of(u) == old(
                            self,
                        ).frontier.count_of(u)
                },
            },
    {
        let ghost orig = batches@;
        let ghost seed0 = old(self).seed_deltas();
        if running {
            // Collect phase: the capability seed (first activation only),
            // then every available event of every source, in order.
            // Progress deltas are gathered in emission order; message
            // batches are buffered by timestamp. Nothing is applied yet.
            let mut deltas: Vec<(u64, i64)> = Vec::new();
            if !self.started {
                let d = (self.num_sources as i64) - 1;
                deltas.push((INITIAL_TIMESTAMP, d));
            }
            proof {
                assert(deltas@ =~= seed0);
            }
            let mut msgs: Vec<(u64, Vec<D>)> = Vec::new();
            let mut batches = batches;
            let mut s: usize = 0;
            let total = batches.len();
            while s < total
                invariant
                    total == orig.len(),
                    s <= total,
                    batches@ == orig.skip(s as int),
                    deltas@ == seed0 + all_progress(orig.take(s as int)),
                    forall|u: u64|
                        #[trigger] buffered_at(msgs@, u) == msgs_at(orig.take(s as int), u),
                    distinct_times(msgs@),
                    no_empty_batches(msgs@),
                decreases total - s,
            {
                let mut events = batches.remove(0);
                let ghost evs = events@;
                proof {
                    assert(orig.skip(s as int)[0] == orig[s as int]);
                    assert(evs == orig[s as int]@);
                    assert(batches@ =~= orig.skip(s + 1));
                }
                let mut e: usize = 0;
                let en = events.len();
                while e < en
                    invariant
                        en == evs.len(),
                        e <= en,
                        events@ == evs.skip(e as int),
                        deltas@ == seed0 + all_progress(orig.take(s as int)) + source_progress(
                            evs.take(e as int),
                        ),
                        forall|u: u64|
                            #[trigger] buffered_at(msgs@, u) == msgs_at(orig.take(s as int), u)
                                + source_msgs_at(evs.take(e as int), u),
                        distinct_times(msgs@),
                        no_empty_batches(msgs@),
                    decreases en - e,
                {
                    let ev = events.remove(0);
                    let ghost evspec = ev;
                    proof {
                        assert(evs.skip(e as int)[0] == evs[e as int]);
                        assert(evspec == evs[e as int]);
                        assert(events@ =~= evs.skip(e + 1));
                        assert(evs.take(e + 1) =~= evs.take(e as int).push(evs[e as int]));
                    }
                    match ev {
                        Event::Progress(ds) => {
                            let ghost dpre = deltas@;
                            let ghost ds0 = ds@;
                            let mut ds = ds;
                            deltas.append(&mut ds);
                            proof {
                                lemma_source_progress_push(evs.take(e as int), evspec);
                                assert(deltas@ =~= seed0 + all_progress(orig.take(s as int))
                                    + source_progress(evs.take(e + 1)));
                                assert forall|u: u64|
                                    #[trigger] buffered_at(msgs@, u) == msgs_at(
                                        orig.take(s as int),
                                        u,
                                    ) + source_msgs_at(evs.take(e + 1), u) by {
                                    lemma_source_msgs_push(evs.take(e as int), evspec, u);
                                    assert(source_msgs_at(evs.take(e + 1), u) =~= source_msgs_at(
                                        evs.take(e as int),
                                        u,
                                    ));
                                }
                            }
                        },
                        Event::Messages(t, data) => {
                            let ghost d0 = data@;
                            buffer_push(&mut msgs, t, data);
                            proof {
                                lemma_source_progress_push(evs.take(e as int), evspec);
                                assert(deltas@ =~= seed0 + all_progress(orig.take(s as int))
                                    + source_progress(evs.take(e + 1)));
                                assert forall|u: u64|
                                    #[trigger] buffered_at(msgs@, u) == msgs_at(
                                        orig.take(s as int),
                                        u,
                                    ) + source_msgs_at(evs.take(e + 1), u) by {
                                    lemma_source_msgs_push(evs.take(e as int), evspec, u);
                                    assert(buffered_at(msgs@, u) =~= msgs_at(orig.take(s as int), u)
                                        + source_msgs_at(evs.take(e + 1), u));
                                }
                            }
                        },
                    }
                    e = e + 1;
                }
                proof {
                    assert(evs.take(en as int) =~= evs);
                    assert(orig.take(s + 1) =~= orig.take(s as int).push(orig[s as int]));
                    lemma_all_progress_push(orig.take(s as int), orig[s as int]);
                    assert(deltas@ =~= seed0 + all_progress(orig.take(s + 1)));
                    assert forall|u: u64|
                        #[trigger] buffered_at(msgs@, u) == msgs_at(orig.take(s + 1), u) by {
                        lemma_msgs_at_push(orig.take(s as int), orig[s as int], u);
                        assert(buffered_at(msgs@, u) =~= msgs_at(orig.take(s + 1), u));
                    }
                }
                s = s + 1;
            }
            proof {
                assert(orig.take(total as int) =~= orig);
                assert(deltas@ == seed0 + all_progress(orig));
            }
            // Apply phase: either every delta fits and the frontier takes
            // them all, or no count changes and the activation is refused.
            let ok = self.frontier.apply_all(&deltas);
            if !ok {
                proof {
                    if !self.started {
                        lemma_counts_zero_empty(self.frontier);
                    }
                }
                return None;
            }
            self.started = true;
            proof {
                assert forall|u: u64|
                    #[trigger] buffered_at(msgs@, u) == msgs_at(orig, u) by {
                    assert(buffered_at(msgs@, u) =~= msgs_at(orig, u));
                }
            }
            Some(Activation { progress: deltas, messages: msgs, reactivate: true })
        } else {
            // Shutdown observed: emit the seed if the operator never ran,
            // then retract every outstanding count exactly once.
            let mut progress: Vec<(u64, i64)> = Vec::new();
            let ghost started0 = self.started;
            if !self.started {
                let d = (self.num_sources as i64) - 1;
                progress.push((INITIAL_TIMESTAMP, d));
                proof {
                    assert(self.frontier.count_of(INITIAL_TIMESTAMP) == 0);
                }
                self.frontier.update(INITIAL_TIMESTAMP, d);
                self.started = true;
            }
            proof {
                assert(progress@ =~= seed0);
            }
            let ghost mid = self.frontier;
            let mut retr = self.frontier.drain();
            let ghost retr0 = retr@;
            progress.append(&mut retr);
            proof {
                assert(progress@ == seed0 + retr0);
                assert forall|u: u64|
                    #[trigger] sum_at(progress@, u) == -old(self).frontier.count_of(u) by {
                    lemma_sum_at_concat(seed0, retr0, u);
                    if !started0 {
                        let d = (old(self).num_sources - 1) as i64;
                        assert(seed0 =~= Seq::<(u64, i64)>::empty().push((INITIAL_TIMESTAMP, d)));
                        crate::frontier::lemma_sum_at_push(
                            Seq::<(u64, i64)>::empty(),
                            (INITIAL_TIMESTAMP, d),
                            u,
                        );
                    }
                    assert(sum_at(retr0, u) == -mid.count_of(u));
                }
                if started0 {
                    assert(progress@ =~= retr0);
                }
                if !started0 {
                    let d = (old(self).num_sources - 1) as i64;
                    if d == 0 {
                        lemma_counts_zero_empty(mid);
                        assert(retr0.len() == 0);
                        assert(progress@ =~= seq![(INITIAL_TIMESTAMP, 0i64)]);
                    } else {
                        lemma_single_entry(mid, INITIAL_TIMESTAMP, d);
                        assert(retr0.len() == 1);
                        assert(retr0[0].0 == INITIAL_TIMESTAMP);
                        assert(retr0[0].1 as int == -(d as int));
                        assert(progress@ =~= seq![
                            (INITIAL_TIMESTAMP, d),
                            (INITIAL_TIMESTAMP, (1 - old(self).num_sources) as i64),
                        ]);
                    }
                }
            }
            Some(Activation { progress, messages: Vec::new(), reactivate: false })
        }
    }
}


/// `msgs_at` distributes over concatenation of the per-source batches.
pub proof fn lemma_msgs_at_concat<D>(a: Seq<Vec<Event<D>>>, b: Seq<Vec<Event<D>>>, t: u64)
    ensures
        msgs_at(a + b, t) == msgs_at(a, t) + msgs_at(b, t),
    decreases b.len(),
{
    if b.len() == 0 {
        assert(a + b =~= a);
        assert(msgs_at(a, t) + msgs_at(b, t) =~= msgs_at(a, t));
    } else {
        assert((a + b).drop_last() =~= a + b.drop_last());
        lemma_msgs_at_concat(a, b.drop_last(), t);
        assert(msgs_at(a + b, t) =~= msgs_at(a, t) + msgs_at(b, t));
    }
}

/// Per-source order preservation: at every timestamp, what the operator
/// flushes downstream is the earlier sources' payloads, then source `s`'s
/// payloads exactly in the order that source produced them, then the later
/// sources' payloads. One source's payloads are never reordered, and no
/// other source's payloads interleave with them.
pub proof fn lemma_per_source_order<D>(batches: Seq<Vec<Event<D>>>, s: int, t: u64)
    requires
        0 <= s < batches.len(),
    ensures
        msgs_at(batches, t) == msgs_at(batches.take(s), t) + source_msgs_at(batches[s]@, t)
            + msgs_at(batches.skip(s + 1), t),
{
    let a = batches.take(s).push(batches[s]);
    assert(batches =~= a + batches.skip(s + 1));
    lemma_msgs_at_concat(a, batches.skip(s + 1), t);
    lemma_msgs_at_push(batches.take(s), batches[s], t);
    assert(msgs_at(batches, t) =~= msgs_at(batches.take(s), t) + source_msgs_at(batches[s]@, t)
        + msgs_at(batches.skip(s + 1), t));
}

/// The sum, over a lifetime of activations, of the deltas emitted at `t`.
pub open spec fn lifetime_sum(emitted: Seq<Seq<(u64, i64)>>, t: u64) -> int
    decreases emitted.len(),
{
    if emitted.len() == 0 {
        0
    } else {
        lifetime_sum(emitted.drop_last(), t) + sum_at(emitted.last(), t)
    }
}

/// A chained lifetime's emissions telescope: when each activation changes
/// the tracked count by the sum of what it emits, the total emitted equals
/// the final count minus the initial one.
pub proof fn lemma_lifetime_sum_chain(emitted: Seq<Seq<(u64, i64)>>, counts: Seq<int>, t: u64)
    requires
        counts.len() == emitted.len() + 1,
        forall|k: int|
            0 <= k < emitted.len() ==> counts[k + 1] == counts[k] + sum_at(
                #[trigger] emitted[k],
                t,
            ),
    ensures
        lifetime_sum(emitted, t) == counts[counts.len() - 1] - counts[0],
    decreases emitted.len(),
{
    if emitted.len() > 0 {
        let em0 = emitted.drop_last();
        let cs0 = counts.drop_last();
        assert forall|k: int|
            0 <= k < em0.len() implies cs0[k + 1] == cs0[k] + sum_at(#[trigger] em0[k], t) by {
            assert(em0[k] == emitted[k]);
        }
        lemma_lifetime_sum_chain(em0, cs0, t);
        assert(emitted.last() == emitted[emitted.len() - 1]);
    }
}

/// Frontier zero-sum: each activation's emitted deltas change the tracked
/// outstanding count at `t` by exactly their sum (an ensures of
/// `ReplayOperator::activate`), a fresh operator's count is zero (an ensures
/// of `ReplayOperator::new`), and an activation that observes shutdown
/// leaves the count zero. Over any such lifetime, the deltas the operator
/// emits — forwarded progress and shutdown retractions together — sum to
/// zero at every timestamp.
pub proof fn lemma_frontier_zero_sum(emitted: Seq<Seq<(u64, i64)>>, counts: Seq<int>, t: u64)
    requires
        counts.len() == emitted.len() + 1,
        counts[0] == 0,
        counts[counts.len() - 1] == 0,
        forall|k: int|
            0 <= k < emitted.len() ==> counts[k + 1] == counts[k] + sum_at(
                #[trigger] emitted[k],
                t,
            ),
    ensures
        lifetime_sum(emitted, t) == 0,
{
    lemma_lifetime_sum_chain(emitted, counts, t);
}

} // verus!
