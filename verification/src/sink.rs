//! The partition batch sink: the public driver of the egress core.
//!
//! `start_send` routes each event to its partition's batch, creating the
//! partition and arming its linger timer on first sight and parking the
//! event in the one-slot overflow buffer when the batch refuses it.
//! `poll_flush` decides which partitions are ready to dispatch, finalizes
//! their batches and hands them to the service sink, honouring the service's
//! back-pressure budget and, in ordered mode, holding a partition's next
//! dispatch until its previous one has resolved. `complete` feeds a request
//! completion back in and returns the ack count released in sequence order.
//!
//! The driver is a deterministic state machine: the current time, the
//! service's readiness and the completions enter as plain values, and an
//! asynchronous host performs the actual calls between polls.

use vstd::prelude::*;

use crate::batch::{events_for, lemma_events_for_push, Batch, BatchSettings, Event, PushResult};
use crate::partition::{
    batch_lookup, find_pkey, lemma_lookup_push, lemma_lookup_remove, lemma_lookup_update,
    lemma_parts_events_nonneg, lemma_parts_events_push, lemma_parts_events_remove,
    lemma_parts_events_update, lemma_state_lookup_at, parts_events, pkeys_unique, state_lookup,
    PartitionState,
};
use crate::service::{contains_seqno, sum_counts, DispatchRequest, ServiceConn, ServiceSink};
use crate::status::{Response, ServiceLogic, SinkError, StdServiceLogic};

verus! {

/// What a poll of the sink reports: the sink is quiescent, it still holds
/// work it cannot dispatch yet, or the service's readiness check failed.
#[derive(Debug)]
pub enum SinkPoll {
    Ready,
    Pending,
    Failed(SinkError),
}

/// The outcome of one poll: the report, and the dispatches decided on during
/// it, which the host must now send. Dispatches decided before a readiness
/// failure are still listed.
#[derive(Debug)]
pub struct FlushResult {
    pub poll: SinkPoll,
    pub dispatches: Vec<DispatchRequest>,
}

/// The events dispatched under key `k`, in dispatch order: the batches of
/// `log` whose recorded key is `k`, concatenated.
pub open spec fn dispatched_rec(log: Seq<Seq<Event>>, keys: Seq<u64>, k: u64) -> Seq<Event>
    decreases log.len(),
{
    if log.len() == 0 {
        Seq::empty()
    } else if keys[log.len() - 1] == k {
        dispatched_rec(log.drop_last(), keys.drop_last(), k) + log.last()
    } else {
        dispatched_rec(log.drop_last(), keys.drop_last(), k)
    }
}

pub proof fn lemma_dispatched_push(
    log: Seq<Seq<Event>>,
    keys: Seq<u64>,
    b: Seq<Event>,
    k2: u64,
    k: u64,
)
    requires
        keys.len() == log.len(),
    ensures
        dispatched_rec(log.push(b), keys.push(k2), k) == if k2 == k {
            dispatched_rec(log, keys, k) + b
        } else {
            dispatched_rec(log, keys, k)
        },
{
    assert(log.push(b).drop_last() =~= log);
    assert(keys.push(k2).drop_last() =~= keys);
    assert(keys.push(k2)[log.push(b).len() - 1] == k2);
}

/// The batches of a dispatch list, in order.
pub open spec fn items_of(ds: Seq<DispatchRequest>) -> Seq<Seq<Event>> {
    ds.map_values(|d: DispatchRequest| d.items@)
}

/// The partition keys of a dispatch list, in order.
pub open spec fn keys_of(ds: Seq<DispatchRequest>) -> Seq<u64> {
    ds.map_values(|d: DispatchRequest| d.key)
}

pub proof fn lemma_dispatch_list_push(ds: Seq<DispatchRequest>, d: DispatchRequest)
    ensures
        items_of(ds.push(d)) == items_of(ds).push(d.items@),
        keys_of(ds.push(d)) == keys_of(ds).push(d.key),
{
    assert(items_of(ds.push(d)) =~= items_of(ds).push(d.items@));
    assert(keys_of(ds.push(d)) =~= keys_of(ds).push(d.key));
}

pub proof fn lemma_dispatch_list_empty()
    ensures
        items_of(Seq::<DispatchRequest>::empty()) == Seq::<Seq<Event>>::empty(),
        keys_of(Seq::<DispatchRequest>::empty()) == Seq::<u64>::empty(),
{
    assert(items_of(Seq::<DispatchRequest>::empty()) =~= Seq::<Seq<Event>>::empty());
    assert(keys_of(Seq::<DispatchRequest>::empty()) =~= Seq::<u64>::empty());
}

/// The batches dispatched under key `k` in `ds`, in dispatch order.
pub open spec fn dispatches_for(ds: Seq<DispatchRequest>, k: u64) -> Seq<Seq<Event>>
    decreases ds.len(),
{
    if ds.len() == 0 {
        Seq::empty()
    } else if ds.last().key == k {
        dispatches_for(ds.drop_last(), k).push(ds.last().items@)
    } else {
        dispatches_for(ds.drop_last(), k)
    }
}

pub proof fn lemma_dispatches_for_push(ds: Seq<DispatchRequest>, d: DispatchRequest, k: u64)
    ensures
        dispatches_for(ds.push(d), k) == if d.key == k {
            dispatches_for(ds, k).push(d.items@)
        } else {
            dispatches_for(ds, k)
        },
{
    assert(ds.push(d).drop_last() =~= ds);
    assert(ds.push(d).last() == d);
}

/// No two entries of the in-flight map carry the same partition key.
pub open spec fn entry_keys_unique(g: Seq<(u64, u64)>) -> bool {
    forall|i: int, j: int| 0 <= i < j < g.len() ==> (#[trigger] g[i]).0 != (#[trigger] g[j]).0
}

/// The in-flight map ties key `k` to dispatch `q`.
pub open spec fn in_flight_maps(g: Seq<(u64, u64)>, k: u64, q: u64) -> bool {
    exists|i: int| 0 <= i < g.len() && #[trigger] g[i] == (k, q)
}

/// Key `k` is held back: an entry for `k` names a dispatch that has not
/// resolved yet.
pub open spec fn key_held<SL>(g: Seq<(u64, u64)>, s: ServiceSink<SL>, k: u64) -> bool {
    exists|i: int| 0 <= i < g.len() && (#[trigger] g[i]).0 == k && s.outstanding(g[i].1)
}

/// Removing the one entry of key `k` from an in-flight map with unique
/// keys: the rest survives unchanged and no entry of key `k` remains.
pub proof fn lemma_in_flight_remove_facts(g0: Seq<(u64, u64)>, x: int, k: u64)
    requires
        entry_keys_unique(g0),
        0 <= x < g0.len(),
        g0[x].0 == k,
    ensures
        entry_keys_unique(g0.remove(x)),
        forall|a: int| 0 <= a < g0.remove(x).len() ==> (#[trigger] g0.remove(x)[a]).0 != k,
        forall|w: int|
            0 <= w < g0.len() && (#[trigger] g0[w]).0 != k ==> exists|a: int|
                0 <= a < g0.remove(x).len() && #[trigger] g0.remove(x)[a] == g0[w],
        forall|a: int|
            #![trigger g0.remove(x)[a]]
            0 <= a < g0.remove(x).len() ==> exists|w: int|
                0 <= w < g0.len() && #[trigger] g0[w] == g0.remove(x)[a],
{
    let g1 = g0.remove(x);
    assert forall|a: int| 0 <= a < g1.len() implies (#[trigger] g1[a]).0 != k by {
        let sa: int = if a < x {
            a
        } else {
            a + 1
        };
        assert(g1[a] == g0[sa]);
        if sa != x {
            assert(g0[sa].0 != g0[x].0);
        }
    }
    assert forall|a: int, b: int| 0 <= a < b < g1.len() implies (#[trigger] g1[a]).0 != (
    #[trigger] g1[b]).0 by {
        let sa: int = if a < x {
            a
        } else {
            a + 1
        };
        let sb: int = if b < x {
            b
        } else {
            b + 1
        };
        assert(g1[a] == g0[sa]);
        assert(g1[b] == g0[sb]);
    }
    assert forall|w: int| 0 <= w < g0.len() && (#[trigger] g0[w]).0 != k implies exists|a: int|
        0 <= a < g1.len() && #[trigger] g1[a] == g0[w] by {
        let a: int = if w < x {
            w
        } else {
            w - 1
        };
        assert(g1[a] == g0[w]);
    }
    assert forall|a: int| #![trigger g1[a]] 0 <= a < g1.len() implies exists|w: int|
        0 <= w < g0.len() && #[trigger] g0[w] == g1[a] by {
        let sa: int = if a < x {
            a
        } else {
            a + 1
        };
        assert(g0[sa] == g1[a]);
    }
}

/// After pushing the new entry `(k, seqno)` onto an in-flight map cleared
/// of key `k`, the map is sound again and no other key's holding changed.
#[verifier::spinoff_prover]
#[verifier::rlimit(100)]
pub proof fn lemma_in_flight_after_push<SL>(
    s: ServiceSink<SL>,
    keys: Seq<u64>,
    g0: Seq<(u64, u64)>,
    g1: Seq<(u64, u64)>,
    g2: Seq<(u64, u64)>,
    k: u64,
    seqno: u64,
)
    requires
        s.wf(),
        keys.len() == s.seq_head,
        seqno < s.seq_head,
        keys[seqno as int] == k,
        entry_keys_unique(g0),
        forall|a: int|
            0 <= a < g0.len() ==> (#[trigger] g0[a]).1 < s.seq_head && keys[g0[a].1 as int]
                == g0[a].0 && g0[a].1 != seqno,
        forall|q: u64|
            #[trigger] s.outstanding(q) && q != seqno ==> in_flight_maps(g0, keys[q as int], q),
        !(exists|a: int| 0 <= a < g0.len() && (#[trigger] g0[a]).0 == k && s.outstanding(g0[a].1)),
        entry_keys_unique(g1),
        forall|a: int| 0 <= a < g1.len() ==> (#[trigger] g1[a]).0 != k,
        forall|w: int|
            0 <= w < g0.len() && (#[trigger] g0[w]).0 != k ==> exists|a: int|
                0 <= a < g1.len() && #[trigger] g1[a] == g0[w],
        forall|a: int|
            #![trigger g1[a]]
            0 <= a < g1.len() ==> exists|w: int| 0 <= w < g0.len() && #[trigger] g0[w] == g1[a],
        g2 == g1.push((k, seqno)),
    ensures
        entry_keys_unique(g2),
        forall|a: int|
            0 <= a < g2.len() ==> (#[trigger] g2[a]).1 < s.seq_head && keys[g2[a].1 as int]
                == g2[a].0,
        forall|q: u64| #[trigger] s.outstanding(q) ==> in_flight_maps(g2, keys[q as int], q),
        forall|k2: u64| k2 != k ==> key_held(g2, s, k2) == key_held(g0, s, k2),
{
    assert(g2[g2.len() - 1] == (k, seqno));
    assert forall|a: int, b: int| 0 <= a < b < g2.len() implies (#[trigger] g2[a]).0 != (
    #[trigger] g2[b]).0 by {
        if b < g1.len() {
            assert(g2[a] == g1[a]);
            assert(g2[b] == g1[b]);
        } else {
            assert(g2[a] == g1[a]);
            assert(g1[a].0 != k);
        }
    }
    assert forall|a: int| 0 <= a < g2.len() implies (#[trigger] g2[a]).1 < s.seq_head && keys[
        g2[a].1 as int] == g2[a].0 by {
        if a < g1.len() {
            assert(g2[a] == g1[a]);
            let w = choose|w: int| 0 <= w < g0.len() && #[trigger] g0[w] == g1[a];
            assert(g0[w].1 < s.seq_head);
            assert(keys[g0[w].1 as int] == g0[w].0);
        }
    }
    assert forall|q: u64| #[trigger] s.outstanding(q) implies in_flight_maps(g2, keys[q as int], q) by {
        if q == seqno {
            assert(g2[g2.len() - 1] == (k, q));
        } else {
            let kq = keys[q as int];
            assert(in_flight_maps(g0, kq, q));
            let w = choose|w: int| 0 <= w < g0.len() && #[trigger] g0[w] == (kq, q);
            if kq == k {
                assert(g0[w].0 == k && s.outstanding(g0[w].1));
                assert(false);
            }
            let a = choose|a: int| 0 <= a < g1.len() && #[trigger] g1[a] == g0[w];
            assert(g2[a] == (kq, q));
        }
    }
    assert forall|k2: u64| k2 != k implies key_held(g2, s, k2) == key_held(g0, s, k2) by {
        if key_held(g2, s, k2) {
            let a = choose|a: int|
                0 <= a < g2.len() && (#[trigger] g2[a]).0 == k2 && s.outstanding(g2[a].1);
            assert(a < g1.len());
            assert(g2[a] == g1[a]);
            let w = choose|w: int| 0 <= w < g0.len() && #[trigger] g0[w] == g1[a];
            assert(g0[w].0 == k2 && s.outstanding(g0[w].1));
            assert(key_held(g0, s, k2));
        }
        if key_held(g0, s, k2) {
            let w = choose|w: int|
                0 <= w < g0.len() && (#[trigger] g0[w]).0 == k2 && s.outstanding(g0[w].1);
            let a = choose|a: int| 0 <= a < g1.len() && #[trigger] g1[a] == g0[w];
            assert(g2[a] == g0[w]);
            assert(g2[a].0 == k2 && s.outstanding(g2[a].1));
            assert(key_held(g2, s, k2));
        }
    }
}

/// One in-flight map update, whole: the entry of key `k`, known resolved,
/// is dropped if present, and the new dispatch `(k, seqno)` is recorded.
#[verifier::spinoff_prover]
#[verifier::rlimit(100)]
pub proof fn lemma_in_flight_update<SL>(
    s: ServiceSink<SL>,
    keys: Seq<u64>,
    g0: Seq<(u64, u64)>,
    g2: Seq<(u64, u64)>,
    k: u64,
    seqno: u64,
    x: Option<int>,
)
    requires
        s.wf(),
        keys.len() == s.seq_head,
        seqno < s.seq_head,
        keys[seqno as int] == k,
        entry_keys_unique(g0),
        forall|a: int|
            0 <= a < g0.len() ==> (#[trigger] g0[a]).1 < s.seq_head && keys[g0[a].1 as int]
                == g0[a].0 && g0[a].1 != seqno,
        forall|q: u64|
            #[trigger] s.outstanding(q) && q != seqno ==> in_flight_maps(g0, keys[q as int], q),
        !(exists|a: int| 0 <= a < g0.len() && (#[trigger] g0[a]).0 == k && s.outstanding(g0[a].1)),
        match x {
            Some(x) => 0 <= x < g0.len() && g0[x].0 == k && g2 == g0.remove(x).push((k, seqno)),
            None => (forall|a: int| 0 <= a < g0.len() ==> (#[trigger] g0[a]).0 != k) && g2
                == g0.push((k, seqno)),
        },
    ensures
        entry_keys_unique(g2),
        forall|a: int|
            0 <= a < g2.len() ==> (#[trigger] g2[a]).1 < s.seq_head && keys[g2[a].1 as int]
                == g2[a].0,
        forall|q: u64| #[trigger] s.outstanding(q) ==> in_flight_maps(g2, keys[q as int], q),
        forall|k2: u64| k2 != k ==> key_held(g2, s, k2) == key_held(g0, s, k2),
{
    match x {
        Some(x) => {
            lemma_in_flight_remove_facts(g0, x, k);
            lemma_in_flight_after_push(s, keys, g0, g0.remove(x), g2, k, seqno);
        },
        None => {
            assert(g2[g2.len() - 1] == (k, seqno));
            assert forall|a: int, b: int| 0 <= a < b < g2.len() implies (#[trigger] g2[a]).0 != (
            #[trigger] g2[b]).0 by {
                if b < g0.len() {
                    assert(g2[a] == g0[a]);
                    assert(g2[b] == g0[b]);
                } else {
                    assert(g2[a] == g0[a]);
                    assert(g0[a].0 != k);
                }
            }
            assert forall|a: int| 0 <= a < g2.len() implies (#[trigger] g2[a]).1 < s.seq_head
                && keys[g2[a].1 as int] == g2[a].0 by {
                if a < g0.len() {
                    assert(g2[a] == g0[a]);
                }
            }
            assert forall|q: u64| #[trigger] s.outstanding(q) implies in_flight_maps(
                g2,
                keys[q as int],
                q,
            ) by {
                if q == seqno {
                    assert(g2[g2.len() - 1] == (k, q));
                } else {
                    let kq = keys[q as int];
                    assert(in_flight_maps(g0, kq, q));
                    let w = choose|w: int| 0 <= w < g0.len() && #[trigger] g0[w] == (kq, q);
                    assert(g2[w] == (kq, q));
                }
            }
            assert forall|k2: u64| k2 != k implies key_held(g2, s, k2) == key_held(g0, s, k2) by {
                if key_held(g2, s, k2) {
                    let a = choose|a: int|
                        0 <= a < g2.len() && (#[trigger] g2[a]).0 == k2 && s.outstanding(g2[a].1);
                    assert(a < g0.len());
                    assert(g2[a] == g0[a]);
                    assert(key_held(g0, s, k2));
                }
                if key_held(g0, s, k2) {
                    let w = choose|w: int|
                        0 <= w < g0.len() && (#[trigger] g0[w]).0 == k2 && s.outstanding(g0[w].1);
                    assert(g2[w] == g0[w]);
                    assert(g2[w].0 == k2 && s.outstanding(g2[w].1));
                    assert(key_held(g2, s, k2));
                }
            }
        },
    }
}

/// Find the index of the in-flight entry for key `k`, if any.
fn find_key(g: &Vec<(u64, u64)>, k: u64) -> (r: Option<usize>)
    ensures
        match r {
            Some(i) => i < g@.len() && g@[i as int].0 == k,
            None => forall|i: int| 0 <= i < g@.len() ==> (#[trigger] g@[i]).0 != k,
        },
{
    let mut i: usize = 0;
    while i < g.len()
        invariant
            i <= g@.len(),
            forall|j: int| 0 <= j < i ==> (#[trigger] g@[j]).0 != k,
        decreases g@.len() - i,
    {
        if g[i].0 == k {
            return Some(i);
        }
        i = i + 1;
    }
    None
}

/// The partition batch sink.
///
/// It owns the partition table, the one-slot overflow buffer, and the
/// service sink's dispatch bookkeeping. `accepted` records every event ever
/// accepted, `dispatch_keys` the partition key of every dispatch; together
/// with the service's dispatch log they state the sink's conservation law:
/// per key, dispatched events followed by still-live events are exactly the
/// accepted events, in order.
pub struct PartitionBatchSink<SL> {
    pub service: ServiceSink<SL>,
    pub buffer: Option<Event>,
    pub settings: BatchSettings,
    pub timeout: u64,
    pub partitions: Vec<(u64, PartitionState)>,
    pub in_flight: Option<Vec<(u64, u64)>>,
    pub closing: bool,
    pub live_events: usize,
    pub accepted: Ghost<Seq<Event>>,
    pub dispatch_keys: Ghost<Seq<u64>>,
}

impl<SL> PartitionBatchSink<SL> {
    pub open spec fn has_partition(self, k: u64) -> bool {
        state_lookup(self.partitions@, k) is Some
    }

    pub open spec fn partition_state(self, k: u64) -> PartitionState {
        state_lookup(self.partitions@, k)->Some_0
    }

    /// Whether the live partition of `e.key` would absorb `e`.
    pub open spec fn partition_fits(self, e: Event) -> bool {
        self.has_partition(e.key) && self.partition_state(e.key).batch.fits(e)
    }

    /// The contribution of the overflow buffer to key `k`.
    pub open spec fn buffer_part(self, k: u64) -> Seq<Event> {
        match self.buffer {
            Some(e) => if e.key == k {
                seq![e]
            } else {
                Seq::empty()
            },
            None => Seq::empty(),
        }
    }

    /// The accepted events of key `k` still held by the sink, in order: the
    /// partition's batch, then the overflow slot.
    pub open spec fn live_for(self, k: u64) -> Seq<Event> {
        batch_lookup(self.partitions@, k) + self.buffer_part(k)
    }

    /// The events of key `k` dispatched so far, in dispatch order.
    pub open spec fn dispatched_for(self, k: u64) -> Seq<Event> {
        dispatched_rec(self.service.log@, self.dispatch_keys@, k)
    }

    /// All events of key `k` ever accepted, in order.
    pub open spec fn accepted_for(self, k: u64) -> Seq<Event> {
        events_for(self.accepted@, k)
    }

    /// Conservation: per key, what was dispatched followed by what is still
    /// live is exactly what was accepted.
    pub open spec fn conserved(self) -> bool {
        forall|k: u64| #[trigger] self.dispatched_for(k) + self.live_for(k) == self.accepted_for(k)
    }

    pub open spec fn parts_wf(self) -> bool {
        forall|i: int|
            0 <= i < self.partitions@.len() ==> {
                let p = #[trigger] self.partitions@[i];
                &&& p.1.batch.wf()
                &&& p.1.batch.settings == self.settings
                &&& p.1.batch.items@.len() >= 1
                &&& forall|j: int|
                    0 <= j < p.1.batch.items@.len() ==> (#[trigger] p.1.batch.items@[j]).key
                        == p.0
            }
    }

    /// In ordered mode the in-flight map is sound: its entries name real
    /// dispatches under their own key, one entry per key, and every
    /// dispatch still in flight is held under its key.
    pub open spec fn in_flight_wf(self) -> bool {
        match self.in_flight {
            None => true,
            Some(g) => {
                &&& entry_keys_unique(g@)
                &&& forall|i: int|
                    0 <= i < g@.len() ==> (#[trigger] g@[i]).1 < self.service.seq_head
                        && self.dispatch_keys@[g@[i].1 as int] == g@[i].0
                &&& forall|q: u64|
                    #[trigger] self.service.outstanding(q) ==> in_flight_maps(
                        g@,
                        self.dispatch_keys@[q as int],
                        q,
                    )
            },
        }
    }

    pub open spec fn wf(self) -> bool {
        &&& self.settings.wf()
        &&& self.service.wf()
        &&& self.dispatch_keys@.len() == self.service.seq_head
        &&& pkeys_unique(self.partitions@)
        &&& self.parts_wf()
        &&& self.in_flight_wf()
        &&& self.live_events == parts_events(self.partitions@) + self.buffer_part_count()
        &&& self.conserved()
    }

    pub open spec fn buffer_part_count(self) -> int {
        if self.buffer is Some {
            1
        } else {
            0
        }
    }

    /// Whether the partition state `st` is ready to dispatch on its own
    /// terms at time `now`: the sink is closing and the batch is non-empty,
    /// or the batch reached a limit, or its linger expired.
    pub open spec fn due(self, st: PartitionState, now: u64) -> bool {
        ||| (self.closing && st.batch.items@.len() > 0)
        ||| st.batch.full
        ||| now >= st.deadline
    }

    /// Whether ordered mode holds key `k` back: its previous dispatch is
    /// still unresolved.
    pub open spec fn held(self, k: u64) -> bool {
        match self.in_flight {
            None => false,
            Some(g) => key_held(g@, self.service, k),
        }
    }

    /// Whether the partition of key `k` would be dispatched at time `now`.
    pub open spec fn ready_to_dispatch(self, k: u64, now: u64) -> bool {
        match state_lookup(self.partitions@, k) {
            Some(st) => self.due(st, now) && !self.held(k),
            None => false,
        }
    }

    /// Whether a batch freshly created at time `now` would be due at `now`
    /// itself: the sink is closing, a single event already fills it, or the
    /// linger is zero.
    pub open spec fn fresh_due(self, now: u64) -> bool {
        ||| self.closing
        ||| self.settings.max_events == 1
        ||| self.timeout == 0
    }

    /// The state of a partition whose batch was freshly created at `now` and
    /// holds the one event `e`.
    pub open spec fn fresh_singleton(self, st: PartitionState, e: Event, now: u64) -> bool {
        &&& st.batch.items@ == seq![e]
        &&& st.batch.bytes == e.byte_size
        &&& st.batch.full == (self.settings.max_events == 1)
        &&& st.batch.settings == self.settings
        &&& st.deadline == now + self.timeout
    }

    /// What the first dispatch of key `k` during one flush call may carry,
    /// judged at the state `self` the call began in: the whole batch of a
    /// partition that was due and not held back at entry, or, when the key
    /// had no live partition, the buffered overflow event re-accepted into a
    /// fresh batch that was due at once.
    pub open spec fn first_dispatch_ok(self, items: Seq<Event>, k: u64, now: u64) -> bool {
        if self.has_partition(k) {
            &&& items == self.partition_state(k).batch.items@
            &&& self.ready_to_dispatch(k, now)
        } else {
            &&& self.buffer matches Some(e) && e.key == k && items == seq![e]
            &&& !self.held(k)
            &&& self.fresh_due(now)
        }
    }

    /// What a second dispatch of key `k` during one flush call may carry:
    /// only the buffered overflow event, re-accepted after the key's batch
    /// went out, in a fresh batch that was due at once. Ordered mode never
    /// allows it: the first dispatch still holds the key.
    pub open spec fn second_dispatch_ok(self, items: Seq<Event>, k: u64, now: u64) -> bool {
        &&& self.buffer matches Some(e) && e.key == k && items == seq![e]
        &&& self.has_partition(k)
        &&& self.in_flight is None
        &&& self.fresh_due(now)
    }

    /// How one flush call, begun at state `self` at time `now`, has treated
    /// key `k`: which dispatches it made for the key — each the whole batch
    /// of a partition that was due and not held back when it left — and
    /// where the key's partition and overflow event stand in `post`. A key
    /// dispatches at most twice per call, the second time only for its
    /// re-accepted overflow event.
    pub open spec fn key_progress(
        self,
        post: Self,
        ds: Seq<DispatchRequest>,
        k: u64,
        now: u64,
    ) -> bool {
        let dk = dispatches_for(ds, k);
        &&& dk.len() <= 2
        &&& (dk.len() >= 1 ==> self.first_dispatch_ok(dk[0], k, now))
        &&& (dk.len() == 2 ==> self.second_dispatch_ok(dk[1], k, now))
        &&& (self.in_flight is Some && dk.len() >= 1 ==> post.held(k))
        &&& if self.buffer_part(k).len() == 0 {
            &&& dk.len() <= 1
            &&& (dk.len() == 0 ==> state_lookup(post.partitions@, k) == state_lookup(
                self.partitions@,
                k,
            ) && post.held(k) == self.held(k))
            &&& (dk.len() == 1 ==> state_lookup(post.partitions@, k) is None)
        } else {
            let e = self.buffer->Some_0;
            if post.buffer == self.buffer {
                &&& dk.len() <= 1
                &&& (dk.len() == 0 ==> state_lookup(post.partitions@, k) == state_lookup(
                    self.partitions@,
                    k,
                ) && post.held(k) == self.held(k))
                &&& (dk.len() == 1 ==> self.has_partition(k) && state_lookup(
                    post.partitions@,
                    k,
                ) is None)
            } else if self.has_partition(k) {
                ||| (dk.len() == 1 && (state_lookup(post.partitions@, k) matches Some(st)
                    && self.fresh_singleton(st, e, now)))
                ||| (dk.len() == 2 && state_lookup(post.partitions@, k) is None)
            } else {
                ||| (dk.len() == 0 && (state_lookup(post.partitions@, k) matches Some(st)
                    && self.fresh_singleton(st, e, now)) && post.held(k) == self.held(k))
                ||| (dk.len() == 1 && state_lookup(post.partitions@, k) is None)
            }
        }
    }

    /// A flush step has stalled: every surviving partition is not yet due,
    /// held back by per-partition ordering, or beyond the service's budget,
    /// and the buffered overflow event still has a live partition that
    /// refused it.
    pub open spec fn flush_stalled(self, now: u64, budget: usize) -> bool {
        &&& forall|i: int|
            0 <= i < self.partitions@.len() ==> {
                let p = #[trigger] self.partitions@[i];
                ||| !self.due(p.1, now)
                ||| self.held(p.0)
                ||| budget == 0
            }
        &&& (self.buffer matches Some(e) ==> self.has_partition(e.key))
    }

    /// The sink holds nothing any more: no buffered event, no partition,
    /// nothing in flight.
    pub open spec fn quiescent(self) -> bool {
        &&& self.buffer is None
        &&& self.partitions@.len() == 0
        &&& self.service.in_flight@.len() == 0
    }

    /// In ordered mode no stale entry survives a flush step: each in-flight
    /// map entry's partition is live or its dispatch is still outstanding,
    /// so the map cannot grow without bound.
    pub open spec fn in_flight_compact(self) -> bool {
        match self.in_flight {
            None => true,
            Some(g) => forall|i: int|
                0 <= i < g@.len() ==> self.has_partition((#[trigger] g@[i]).0)
                    || self.service.outstanding(g@[i].1),
        }
    }

    pub fn new_with_logic(settings: BatchSettings, timeout: u64, logic: SL) -> (r: Self)
        requires
            settings.wf(),
        ensures
            r.wf(),
            r.settings == settings,
            r.timeout == timeout,
            r.service.logic == logic,
            !r.closing,
            r.in_flight is None,
            r.buffer is None,
            r.partitions@.len() == 0,
            r.live_events == 0,
            r.accepted@ =~= Seq::<Event>::empty(),
            r.service.seq_head == 0,
            r.service.seq_tail == 0,
            r.service.released@ == 0,
    {
        let r = PartitionBatchSink {
            service: ServiceSink::new_with_logic(logic),
            buffer: None,
            settings,
            timeout,
            partitions: Vec::new(),
            in_flight: None,
            closing: false,
            live_events: 0,
            accepted: Ghost(Seq::empty()),
            dispatch_keys: Ghost(Seq::empty()),
        };
        proof {
            assert forall|k: u64| #[trigger] r.dispatched_for(k) + r.live_for(k)
                == r.accepted_for(k) by {
                assert(r.dispatched_for(k) + r.live_for(k) =~= r.accepted_for(k));
            }
        }
        r
    }

    /// Enforce per-partition ordering of requests from here on. Must be
    /// enabled before anything is in flight.
    pub fn ordered(&mut self)
        requires
            old(self).wf(),
            old(self).service.in_flight@.len() == 0,
        ensures
            final(self).wf(),
            *final(self) == (PartitionBatchSink { in_flight: final(self).in_flight, ..*old(self) }),
            final(self).in_flight matches Some(g) && g@.len() == 0,
    {
        self.in_flight = Some(Vec::new());
        proof {
            assert forall|q: u64| #[trigger] self.service.outstanding(q) implies in_flight_maps(
                self.in_flight->Some_0@,
                self.dispatch_keys@[q as int],
                q,
            ) by {
                assert(!contains_seqno(self.service.in_flight@, q));
            }
            assert forall|k: u64| #[trigger] self.dispatched_for(k) + self.live_for(k)
                == self.accepted_for(k) by {
                assert(old(self).dispatched_for(k) + old(self).live_for(k) == old(
                    self,
                ).accepted_for(k));
            }
        }
    }

    pub fn logic(&self) -> (r: &SL)
        ensures
            r == &self.service.logic,
    {
        &self.service.logic
    }

    /// Whether the sink can accept another event: the overflow slot is free.
    pub fn can_accept(&self) -> (r: bool)
        ensures
            r == (self.buffer is None),
    {
        self.buffer.is_none()
    }

    pub fn is_closing(&self) -> (r: bool)
        ensures
            r == self.closing,
    {
        self.closing
    }

    /// Number of events accepted but not yet dispatched.
    pub fn live_event_count(&self) -> (r: usize)
        ensures
            r == self.live_events,
    {
        self.live_events
    }

    pub fn partition_count(&self) -> (r: usize)
        ensures
            r == self.partitions@.len(),
    {
        self.partitions.len()
    }

    pub fn service(&self) -> (r: &ServiceSink<SL>)
        ensures
            r == &self.service,
    {
        &self.service
    }

    /// Accept one event: route it to its partition's batch, creating the
    /// partition with a fresh batch and an armed linger timer if the key is
    /// new, and parking the event in the overflow slot if the batch refuses
    /// it. May only be called while the overflow slot is free.
    pub fn start_send(&mut self, item: Event, now: u64)
        requires
            old(self).wf(),
            old(self).buffer is None,
            old(self).live_events < usize::MAX,
            now <= u64::MAX - old(self).timeout,
        ensures
            final(self).wf(),
            final(self).accepted@ == old(self).accepted@.push(item),
            final(self).service == old(self).service,
            final(self).dispatch_keys == old(self).dispatch_keys,
            final(self).in_flight == old(self).in_flight,
            final(self).closing == old(self).closing,
            final(self).settings == old(self).settings,
            final(self).timeout == old(self).timeout,
            final(self).live_events == old(self).live_events + 1,
            final(self).has_partition(item.key),
            !old(self).has_partition(item.key) ==> {
                &&& final(self).partition_state(item.key).batch.items@ =~= seq![item]
                &&& final(self).partition_state(item.key).batch.full == (old(
                    self,
                ).settings.max_events == 1)
                &&& final(self).partition_state(item.key).deadline == now + old(self).timeout
                &&& final(self).buffer is None
                &&& final(self).partitions@.len() == old(self).partitions@.len() + 1
            },
            old(self).partition_fits(item) ==> {
                &&& final(self).partition_state(item.key).batch.items@ == old(
                    self,
                ).partition_state(item.key).batch.items@.push(item)
                &&& final(self).partition_state(item.key).batch.full == (old(
                    self,
                ).partition_state(item.key).batch.full || old(self).partition_state(
                    item.key,
                ).batch.items@.len() + 1 == old(self).settings.max_events)
                &&& final(self).partition_state(item.key).deadline == old(self).partition_state(
                    item.key,
                ).deadline
                &&& final(self).buffer is None
                &&& final(self).partitions@.len() == old(self).partitions@.len()
            },
            (old(self).has_partition(item.key) && !old(self).partition_fits(item)) ==> {
                &&& final(self).buffer == Some(item)
                &&& final(self).partition_state(item.key).batch.items@ == old(
                    self,
                ).partition_state(item.key).batch.items@
                &&& final(self).partition_state(item.key).batch.full
                &&& final(self).partitions@.len() == old(self).partitions@.len()
            },
            forall|k: u64|
                k != item.key ==> state_lookup(final(self).partitions@, k) == state_lookup(
                    old(self).partitions@,
                    k,
                ),
    {
        let found = find_pkey(&self.partitions, item.key);
        match found {
            Some(i) => {
                let (k, mut st) = self.partitions.remove(i);
                let res = st.batch.push(item);
                let overflowed = matches!(res, PushResult::Overflow(_));
                self.partitions.insert(i, (k, st));
                if overflowed {
                    self.buffer = Some(item);
                }
                self.live_events = self.live_events + 1;
                proof {
                    self.accepted = Ghost(self.accepted@.push(item));
                    let parts0 = old(self).partitions@;
                    let entry = (k, st);
                    assert(self.partitions@ =~= parts0.update(i as int, entry));
                    lemma_parts_events_update(parts0, i as int, entry);
                    assert forall|k2: u64|
                        state_lookup(self.partitions@, k2) == if parts0[i as int].0 == k2 {
                            Some(entry.1)
                        } else {
                            state_lookup(parts0, k2)
                        } by {
                        lemma_lookup_update(parts0, i as int, entry.1, k2);
                    }
                    assert(pkeys_unique(self.partitions@)) by {
                        lemma_lookup_update(parts0, i as int, entry.1, item.key);
                    }
                    assert forall|ii: int| 0 <= ii < self.partitions@.len() implies {
                        let p = #[trigger] self.partitions@[ii];
                        &&& p.1.batch.wf()
                        &&& p.1.batch.settings == self.settings
                        &&& p.1.batch.items@.len() >= 1
                        &&& forall|j: int|
                            0 <= j < p.1.batch.items@.len() ==> (
                            #[trigger] p.1.batch.items@[j]).key == p.0
                    } by {
                        if ii != i {
                            assert(self.partitions@[ii] == parts0[ii]);
                        } else {
                            let p = self.partitions@[ii];
                            assert forall|j: int| 0 <= j < p.1.batch.items@.len() implies (
                            #[trigger] p.1.batch.items@[j]).key == p.0 by {
                                if j < parts0[i as int].1.batch.items@.len() {
                                    assert(parts0[i as int].1.batch.items@[j].key == k);
                                }
                            }
                        }
                    }
                    assert forall|k2: u64| #[trigger] self.dispatched_for(k2) + self.live_for(k2)
                        == self.accepted_for(k2) by {
                        assert(old(self).dispatched_for(k2) + old(self).live_for(k2) == old(
                            self,
                        ).accepted_for(k2));
                        lemma_events_for_push(old(self).accepted@, item, k2);
                        if k2 == item.key {
                            assert(self.dispatched_for(k2) + self.live_for(k2)
                                =~= self.accepted_for(k2));
                        } else {
                            assert(self.dispatched_for(k2) + self.live_for(k2)
                                =~= self.accepted_for(k2));
                        }
                    }
                }
            },
            None => {
                let mut b = Batch::new(self.settings);
                let _res = b.push(item);
                let st = PartitionState { batch: b, deadline: now + self.timeout };
                self.partitions.push((item.key, st));
                self.live_events = self.live_events + 1;
                proof {
                    self.accepted = Ghost(self.accepted@.push(item));
                    let parts0 = old(self).partitions@;
                    let entry = (item.key, st);
                    lemma_parts_events_push(parts0, entry);
                    assert forall|k2: u64|
                        state_lookup(self.partitions@, k2) == if item.key == k2 {
                            Some(entry.1)
                        } else {
                            state_lookup(parts0, k2)
                        } by {
                        lemma_lookup_push(parts0, entry, k2);
                    }
                    assert(pkeys_unique(self.partitions@)) by {
                        lemma_lookup_push(parts0, entry, item.key);
                    }
                    assert forall|ii: int| 0 <= ii < self.partitions@.len() implies {
                        let p = #[trigger] self.partitions@[ii];
                        &&& p.1.batch.wf()
                        &&& p.1.batch.settings == self.settings
                        &&& p.1.batch.items@.len() >= 1
                        &&& forall|j: int|
                            0 <= j < p.1.batch.items@.len() ==> (
                            #[trigger] p.1.batch.items@[j]).key == p.0
                    } by {
                        if ii < parts0.len() {
                            assert(self.partitions@[ii] == parts0[ii]);
                        }
                    }
                    assert forall|k2: u64| #[trigger] self.dispatched_for(k2) + self.live_for(k2)
                        == self.accepted_for(k2) by {
                        assert(old(self).dispatched_for(k2) + old(self).live_for(k2) == old(
                            self,
                        ).accepted_for(k2));
                        lemma_events_for_push(old(self).accepted@, item, k2);
                        if k2 == item.key {
                            assert(self.dispatched_for(k2) + self.live_for(k2)
                                =~= self.accepted_for(k2));
                        } else {
                            assert(self.dispatched_for(k2) + self.live_for(k2)
                                =~= self.accepted_for(k2));
                        }
                    }
                }
            },
        }
    }

    /// The host reports that dispatch `seqno` has completed. Returns the ack
    /// count to release upstream now; zero while an earlier dispatch is
    /// still outstanding.
    pub fn complete(&mut self, seqno: u64) -> (acked: usize)
        requires
            old(self).wf(),
        ensures
            final(self).wf(),
            final(self).service.seq_head == old(self).service.seq_head,
            final(self).service.log == old(self).service.log,
            final(self).service.logic == old(self).service.logic,
            final(self).accepted == old(self).accepted,
            final(self).dispatch_keys == old(self).dispatch_keys,
            final(self).partitions == old(self).partitions,
            final(self).buffer == old(self).buffer,
            final(self).in_flight == old(self).in_flight,
            final(self).closing == old(self).closing,
            final(self).settings == old(self).settings,
            final(self).timeout == old(self).timeout,
            final(self).live_events == old(self).live_events,
            !old(self).service.outstanding(seqno) ==> *final(self) == *old(self) && acked == 0,
            old(self).service.outstanding(seqno) ==> {
                &&& old(self).service.seq_tail <= final(self).service.seq_tail
                &&& final(self).service.seq_tail <= final(self).service.seq_head
                &&& final(self).service.released@ == old(self).service.released@ + acked
                &&& acked == sum_counts(
                    old(self).service.log@.subrange(
                        old(self).service.seq_tail as int,
                        final(self).service.seq_tail as int,
                    ),
                )
                &&& final(self).service.unacked == old(self).service.unacked - acked
                &&& forall|q: u64|
                    final(self).service.outstanding(q) == (old(self).service.outstanding(q) && q
                        != seqno)
                &&& (final(self).service.seq_tail < final(self).service.seq_head
                    ==> final(self).service.outstanding(final(self).service.seq_tail))
            },
    {
        let acked = self.service.complete(seqno);
        proof {
            if old(self).service.outstanding(seqno) {
                match &self.in_flight {
                    None => {},
                    Some(g) => {
                        assert forall|q: u64| #[trigger] self.service.outstanding(q) implies
                            in_flight_maps(g@, self.dispatch_keys@[q as int], q) by {
                            assert(old(self).service.outstanding(q));
                        }
                    },
                }
            }
            assert forall|k2: u64| #[trigger] self.dispatched_for(k2) + self.live_for(k2)
                == self.accepted_for(k2) by {
                assert(old(self).dispatched_for(k2) + old(self).live_for(k2) == old(
                    self,
                ).accepted_for(k2));
                assert(self.service.log@ == old(self).service.log@);
            }
        }
        acked
    }
    /// One flush step, the heart of the driver. Dispatches every partition
    /// that is due and, in ordered mode, not held, while the service's
    /// budget lasts; reinserts the buffered overflow event once its
    /// partition is gone; reports `Ready` exactly when the sink holds
    /// nothing any more. The host must now send the returned dispatches.
    /// Every dispatch carries the whole batch of one partition that was due
    /// and not held back when it left (the `key_progress` clause), and under
    /// `Pending` every survivor is not yet due, held, or beyond the budget,
    /// while a still-buffered overflow event has a live partition.
    pub fn poll_flush(&mut self, now: u64, conn: &mut ServiceConn) -> (r: FlushResult)
        requires
            old(self).wf(),
            now <= u64::MAX - old(self).timeout,
            old(self).service.seq_head + old(self).partitions@.len() + 1 <= u64::MAX,
            old(self).service.unacked + old(self).live_events <= usize::MAX,
        ensures
            final(self).wf(),
            final(self).accepted == old(self).accepted,
            final(self).closing == old(self).closing,
            final(self).settings == old(self).settings,
            final(self).timeout == old(self).timeout,
            final(self).service.logic == old(self).service.logic,
            final(self).service.seq_tail == old(self).service.seq_tail,
            final(self).service.released == old(self).service.released,
            (final(self).in_flight is Some) == (old(self).in_flight is Some),
            final(conn).error == old(conn).error,
            r.dispatches@.len() <= old(conn).budget,
            final(conn).budget == old(conn).budget - r.dispatches@.len(),
            final(self).service.seq_head == old(self).service.seq_head + r.dispatches@.len(),
            final(self).service.log@ == old(self).service.log@ + items_of(r.dispatches@),
            final(self).dispatch_keys@ == old(self).dispatch_keys@ + keys_of(r.dispatches@),
            old(self).buffer is None ==> final(self).buffer is None,
            final(self).buffer is Some ==> final(self).buffer == old(self).buffer,
            forall|q: u64|
                final(self).service.outstanding(q) == (old(self).service.outstanding(q) || old(
                    self,
                ).service.seq_head <= q < final(self).service.seq_head),
            forall|i: int|
                0 <= i < r.dispatches@.len() ==> {
                    let d = #[trigger] r.dispatches@[i];
                    &&& d.wf()
                    &&& d.items@.len() >= 1
                    &&& d.seqno == old(self).service.seq_head + i
                    &&& forall|j: int|
                        0 <= j < d.items@.len() ==> (#[trigger] d.items@[j]).key == d.key
                },
            forall|k: u64|
                #[trigger] old(self).key_progress(*final(self), r.dispatches@, k, now),
            match r.poll {
                SinkPoll::Ready => final(self).quiescent() && final(self).in_flight_compact(),
                SinkPoll::Pending => final(self).flush_stalled(now, final(conn).budget)
                    && !(final(self).quiescent()) && final(self).in_flight_compact(),
                SinkPoll::Failed(_) => old(conn).error is Some,
            },
    {
        let mut dispatches: Vec<DispatchRequest> = Vec::new();
        proof {
            lemma_dispatch_list_empty();
            assert(self.service.log@ =~= old(self).service.log@ + items_of(dispatches@));
            assert(self.dispatch_keys@ =~= old(self).dispatch_keys@ + keys_of(dispatches@));
            assert forall|k: u64|
                #[trigger] old(self).key_progress(*self, dispatches@, k, now) by {
                assert(dispatches_for(dispatches@, k) =~= Seq::<Seq<Event>>::empty());
            }
        }
        loop
            invariant
                self.wf(),
                self.accepted == old(self).accepted,
                self.closing == old(self).closing,
                self.settings == old(self).settings,
                self.timeout == old(self).timeout,
                self.service.logic == old(self).service.logic,
                self.service.seq_tail == old(self).service.seq_tail,
                self.service.released == old(self).service.released,
                (self.in_flight is Some) == (old(self).in_flight is Some),
                conn.error == old(conn).error,
                dispatches@.len() <= old(conn).budget,
                conn.budget == old(conn).budget - dispatches@.len(),
                self.service.log@ == old(self).service.log@ + items_of(dispatches@),
                self.dispatch_keys@ == old(self).dispatch_keys@ + keys_of(dispatches@),
                self.buffer == old(self).buffer || (old(self).buffer is Some && self.buffer
                    is None),
                forall|q: u64|
                    self.service.outstanding(q) == (old(self).service.outstanding(q) || old(
                        self,
                    ).service.seq_head <= q < self.service.seq_head),
                forall|k: u64| #[trigger] old(self).key_progress(*self, dispatches@, k, now),
                forall|i: int|
                    0 <= i < dispatches@.len() ==> {
                        let d = #[trigger] dispatches@[i];
                        &&& d.wf()
                        &&& d.items@.len() >= 1
                        &&& d.seqno == old(self).service.seq_head + i
                        &&& forall|j: int|
                            0 <= j < d.items@.len() ==> (#[trigger] d.items@[j]).key == d.key
                    },
                self.service.seq_head == old(self).service.seq_head + dispatches@.len(),
                self.service.seq_head + self.partitions@.len() + self.buffer_part_count()
                    <= u64::MAX,
                self.service.unacked + self.live_events <= usize::MAX,
                now <= u64::MAX - self.timeout,
            decreases 2 * self.partitions@.len() + 3 * self.buffer_part_count(),
        {
            if self.buffer.is_none() && self.partitions.len() == 0 {
                let ghost pre_gc_top = *self;
                self.gc_in_flight();
                proof {
                    assert forall|k: u64|
                        #[trigger] old(self).key_progress(*self, dispatches@, k, now) by {
                        assert(old(self).key_progress(pre_gc_top, dispatches@, k, now));
                        assert(self.held(k) == pre_gc_top.held(k));
                    }
                }
                if self.service.in_flight.len() == 0 {
                    proof {
                        assert(self.quiescent());
                    }
                    return FlushResult { poll: SinkPoll::Ready, dispatches };
                }
                proof {
                    assert(!self.quiescent());
                    assert(self.flush_stalled(now, conn.budget));
                }
                return FlushResult { poll: SinkPoll::Pending, dispatches };
            }
            let ready = self.compute_ready(now);
            let ghost round0 = *self;
            proof {
                assert(round0.buffer is Some || round0.partitions@.len() > 0);
            }
            let ghost len0 = dispatches@.len();
            let ghost budget0 = conn.budget;
            let mut consumed = false;
            let mut j: usize = 0;
            while j < ready.len()
                invariant
                    self.wf(),
                    self.accepted == old(self).accepted,
                    self.closing == old(self).closing,
                    self.settings == old(self).settings,
                    self.timeout == old(self).timeout,
                    self.service.logic == old(self).service.logic,
                    self.service.seq_tail == old(self).service.seq_tail,
                    self.service.released == old(self).service.released,
                    (self.in_flight is Some) == (old(self).in_flight is Some),
                    conn.error == old(conn).error,
                    dispatches@.len() <= old(conn).budget,
                    conn.budget == old(conn).budget - dispatches@.len(),
                    self.service.log@ == old(self).service.log@ + items_of(dispatches@),
                    self.dispatch_keys@ == old(self).dispatch_keys@ + keys_of(dispatches@),
                    self.buffer == old(self).buffer || (old(self).buffer is Some && self.buffer
                        is None),
                    forall|q: u64|
                        self.service.outstanding(q) == (old(self).service.outstanding(q) || old(
                            self,
                        ).service.seq_head <= q < self.service.seq_head),
                    forall|k: u64| #[trigger] old(self).key_progress(*self, dispatches@, k, now),
                    forall|i: int|
                        0 <= i < dispatches@.len() ==> {
                            let d = #[trigger] dispatches@[i];
                            &&& d.wf()
                            &&& d.items@.len() >= 1
                            &&& d.seqno == old(self).service.seq_head + i
                            &&& forall|jx: int|
                                0 <= jx < d.items@.len() ==> (#[trigger] d.items@[jx]).key
                                    == d.key
                        },
                    self.service.seq_head == old(self).service.seq_head + dispatches@.len(),
                    self.service.seq_head + self.partitions@.len() + self.buffer_part_count()
                        <= u64::MAX,
                    self.service.unacked + self.live_events <= usize::MAX,
                    now <= u64::MAX - self.timeout,
                    j <= ready@.len(),
                    round0.wf(),
                    round0.closing == old(self).closing,
                    round0.buffer is Some || round0.partitions@.len() > 0,
                    forall|a: int|
                        0 <= a < ready@.len() ==> round0.ready_to_dispatch(
                            #[trigger] ready@[a],
                            now,
                        ),
                    forall|jj: int|
                        0 <= jj < round0.partitions@.len() ==> (round0.ready_to_dispatch(
                            (#[trigger] round0.partitions@[jj]).0,
                            now,
                        ) ==> ready@.contains(round0.partitions@[jj].0)),
                    forall|a: int, b: int| 0 <= a < b < ready@.len() ==> ready@[a] != ready@[b],
                    len0 <= dispatches@.len(),
                    consumed == (dispatches@.len() > len0),
                    !consumed ==> *self == round0,
                    !consumed ==> (j == 0 || conn.budget == 0),
                    self.buffer == round0.buffer,
                    self.partitions@.len() + (dispatches@.len() - len0)
                        == round0.partitions@.len(),
                    forall|jj: int|
                        j <= jj < ready@.len() ==> state_lookup(
                            self.partitions@,
                            #[trigger] ready@[jj],
                        ) == state_lookup(round0.partitions@, ready@[jj]),
                    forall|jj: int| j <= jj < ready@.len() ==> !self.held(#[trigger] ready@[jj]),
                ensures
                    self.wf(),
                    self.accepted == old(self).accepted,
                    self.closing == old(self).closing,
                    self.settings == old(self).settings,
                    self.timeout == old(self).timeout,
                    self.service.logic == old(self).service.logic,
                    self.service.seq_tail == old(self).service.seq_tail,
                    self.service.released == old(self).service.released,
                    (self.in_flight is Some) == (old(self).in_flight is Some),
                    conn.error == old(conn).error,
                    dispatches@.len() <= old(conn).budget,
                    conn.budget == old(conn).budget - dispatches@.len(),
                    self.service.log@ == old(self).service.log@ + items_of(dispatches@),
                    self.dispatch_keys@ == old(self).dispatch_keys@ + keys_of(dispatches@),
                    self.buffer == old(self).buffer || (old(self).buffer is Some && self.buffer
                        is None),
                    forall|q: u64|
                        self.service.outstanding(q) == (old(self).service.outstanding(q) || old(
                            self,
                        ).service.seq_head <= q < self.service.seq_head),
                    forall|k: u64| #[trigger] old(self).key_progress(*self, dispatches@, k, now),
                    forall|i: int|
                        0 <= i < dispatches@.len() ==> {
                            let d = #[trigger] dispatches@[i];
                            &&& d.wf()
                            &&& d.items@.len() >= 1
                            &&& d.seqno == old(self).service.seq_head + i
                            &&& forall|jx: int|
                                0 <= jx < d.items@.len() ==> (#[trigger] d.items@[jx]).key
                                    == d.key
                        },
                    self.service.seq_head == old(self).service.seq_head + dispatches@.len(),
                    self.service.seq_head + self.partitions@.len() + self.buffer_part_count()
                        <= u64::MAX,
                    self.service.unacked + self.live_events <= usize::MAX,
                    consumed == (dispatches@.len() > len0),
                    !consumed ==> *self == round0,
                    !consumed ==> (conn.budget == 0 || ready@.len() == 0),
                    self.buffer == round0.buffer,
                    round0.buffer is Some || round0.partitions@.len() > 0,
                    self.partitions@.len() + (dispatches@.len() - len0)
                        == round0.partitions@.len(),
                decreases ready@.len() - j,
            {
                match &conn.error {
                    Some(err) => {
                        return FlushResult { poll: SinkPoll::Failed(err.clone()), dispatches };
                    },
                    None => {},
                }
                if conn.budget == 0 {
                    break ;
                }
                let key = ready[j];
                let found = find_pkey(&self.partitions, key);
                match found {
                    Some(idx) => {
                        conn.budget = conn.budget - 1;
                        proof {
                            assert(state_lookup(round0.partitions@, key) is Some);
                            assert(self.partitions@[idx as int].0 == key);
                        }
                        let ghost pre = *self;
                        let ghost dispatches_pre = dispatches@;
                        let d = self.dispatch_one(idx);
                        dispatches.push(d);
                        consumed = true;
                        proof {
                            lemma_dispatch_list_push(dispatches_pre, d);
                            assert(self.service.log@ =~= old(self).service.log@ + items_of(
                                dispatches@,
                            ));
                            assert(self.dispatch_keys@ =~= old(self).dispatch_keys@ + keys_of(
                                dispatches@,
                            ));
                            assert forall|i: int| 0 <= i < dispatches@.len() implies {
                                let dd = #[trigger] dispatches@[i];
                                &&& dd.wf()
                                &&& dd.items@.len() >= 1
                                &&& dd.seqno == old(self).service.seq_head + i
                                &&& forall|jx: int|
                                    0 <= jx < dd.items@.len() ==> (
                                    #[trigger] dd.items@[jx]).key == dd.key
                            } by {
                                if i < dispatches_pre.len() {
                                    assert(dispatches@[i] == dispatches_pre[i]);
                                }
                            }
                            assert forall|jj: int|
                                j + 1 <= jj < ready@.len() implies state_lookup(
                                self.partitions@,
                                #[trigger] ready@[jj],
                            ) == state_lookup(round0.partitions@, ready@[jj]) by {
                                assert(ready@[jj] != key);
                                assert(state_lookup(pre.partitions@, ready@[jj])
                                    == state_lookup(round0.partitions@, ready@[jj]));
                            }
                            assert forall|jj: int| j + 1 <= jj < ready@.len() implies !self.held(
                                #[trigger] ready@[jj],
                            ) by {
                                assert(ready@[jj] != key);
                                assert(!pre.held(ready@[jj]));
                            }
                            assert forall|q: u64|
                                self.service.outstanding(q) == (old(self).service.outstanding(q)
                                    || old(self).service.seq_head <= q
                                    < self.service.seq_head) by {
                                assert(self.service.outstanding(q) == (pre.service.outstanding(q)
                                    || q == d.seqno));
                            }
                            let st_pre = pre.partitions@[idx as int].1;
                            assert(state_lookup(pre.partitions@, key) == Some(st_pre));
                            assert(d.items@ == st_pre.batch.items@);
                            assert(!pre.held(key));
                            assert(round0.ready_to_dispatch(key, now));
                            assert(state_lookup(round0.partitions@, key) == Some(st_pre));
                            assert(round0.due(st_pre, now));
                            assert(round0.closing == old(self).closing);
                            assert forall|k2: u64|
                                #[trigger] old(self).key_progress(
                                    *self,
                                    dispatches@,
                                    k2,
                                    now,
                                ) by {
                                lemma_dispatches_for_push(dispatches_pre, d, k2);
                                assert(old(self).key_progress(pre, dispatches_pre, k2, now));
                                if k2 != key {
                                    assert(state_lookup(self.partitions@, k2) == state_lookup(
                                        pre.partitions@,
                                        k2,
                                    ));
                                    assert(self.held(k2) == pre.held(k2));
                                    assert(self.buffer == pre.buffer);
                                } else {
                                    let dk_pre = dispatches_for(dispatches_pre, key);
                                    if old(self).buffer_part(key).len() == 0 {
                                        assert(dk_pre.len() == 0);
                                        assert(state_lookup(pre.partitions@, key)
                                            == state_lookup(old(self).partitions@, key));
                                        assert(old(self).partition_state(key) == st_pre);
                                        assert(pre.held(key) == old(self).held(key));
                                        assert(old(self).due(st_pre, now) == round0.due(
                                            st_pre,
                                            now,
                                        ));
                                        assert(old(self).ready_to_dispatch(key, now));
                                        assert(old(self).first_dispatch_ok(
                                            d.items@,
                                            key,
                                            now,
                                        ));
                                    } else {
                                        let e = old(self).buffer->Some_0;
                                        if pre.buffer == old(self).buffer {
                                            assert(dk_pre.len() == 0);
                                            assert(state_lookup(pre.partitions@, key)
                                                == state_lookup(old(self).partitions@, key));
                                            assert(old(self).partition_state(key) == st_pre);
                                            assert(pre.held(key) == old(self).held(key));
                                            assert(old(self).due(st_pre, now) == round0.due(
                                                st_pre,
                                                now,
                                            ));
                                            assert(old(self).ready_to_dispatch(key, now));
                                            assert(old(self).first_dispatch_ok(
                                                d.items@,
                                                key,
                                                now,
                                            ));
                                        } else if old(self).has_partition(key) {
                                            assert(dk_pre.len() == 1);
                                            assert(old(self).fresh_singleton(st_pre, e, now));
                                            assert(d.items@ == seq![e]);
                                            assert(old(self).in_flight is None) by {
                                                if old(self).in_flight is Some {
                                                    assert(pre.held(key));
                                                }
                                            }
                                            assert(old(self).fresh_due(now)) by {
                                                if !old(self).closing
                                                    && old(self).settings.max_events != 1 {
                                                    assert(!st_pre.batch.full);
                                                    assert(now >= st_pre.deadline);
                                                }
                                            }
                                            assert(old(self).second_dispatch_ok(
                                                d.items@,
                                                key,
                                                now,
                                            ));
                                            assert(dispatches_for(dispatches@, key)[0]
                                                == dk_pre[0]);
                                        } else {
                                            assert(dk_pre.len() == 0);
                                            assert(old(self).fresh_singleton(st_pre, e, now));
                                            assert(d.items@ == seq![e]);
                                            assert(pre.held(key) == old(self).held(key));
                                            assert(old(self).fresh_due(now)) by {
                                                if !old(self).closing
                                                    && old(self).settings.max_events != 1 {
                                                    assert(!st_pre.batch.full);
                                                    assert(now >= st_pre.deadline);
                                                }
                                            }
                                            assert(old(self).first_dispatch_ok(
                                                d.items@,
                                                key,
                                                now,
                                            ));
                                        }
                                    }
                                    assert(state_lookup(self.partitions@, key) is None);
                                }
                            }
                        }
                    },
                    None => {
                        proof {
                            assert(state_lookup(round0.partitions@, key) is Some);
                            assert(false);
                        }
                    },
                }
                j = j + 1;
            }
            if consumed {
                continue ;
            }
            let ghost pre_gc = *self;
            self.gc_in_flight();
            proof {
                assert forall|k2: u64|
                    #[trigger] old(self).key_progress(*self, dispatches@, k2, now) by {
                    assert(old(self).key_progress(pre_gc, dispatches@, k2, now));
                    assert(self.held(k2) == pre_gc.held(k2));
                }
            }
            if self.buffer.is_some() {
                let ghost pre_re = *self;
                let moved = self.reinsert_buffer(now);
                if moved {
                    proof {
                        let e = pre_re.buffer->Some_0;
                        assert(pre_re.buffer == old(self).buffer);
                        assert forall|k2: u64|
                            #[trigger] old(self).key_progress(*self, dispatches@, k2, now) by {
                            assert(old(self).key_progress(pre_re, dispatches@, k2, now));
                            assert(self.service == pre_re.service);
                            assert(self.in_flight == pre_re.in_flight);
                            assert(self.held(k2) == pre_re.held(k2));
                            if k2 != e.key {
                                assert(state_lookup(self.partitions@, k2) == state_lookup(
                                    pre_re.partitions@,
                                    k2,
                                ));
                            } else {
                                assert(state_lookup(pre_re.partitions@, e.key) is None);
                                assert(state_lookup(self.partitions@, e.key) matches Some(st)
                                    && pre_re.fresh_singleton(st, e, now));
                                assert(state_lookup(self.partitions@, e.key) matches Some(st)
                                    && old(self).fresh_singleton(st, e, now));
                            }
                        }
                    }
                    continue ;
                }
                proof {
                    assert(*self == pre_re);
                    assert(state_lookup(self.partitions@, self.buffer->Some_0.key) is Some);
                }
            }
            proof {
                assert(self.partitions@ == round0.partitions@);
                assert(self.buffer == round0.buffer);
                assert(!self.quiescent());
                assert(self.in_flight_compact());
                assert forall|i: int| 0 <= i < self.partitions@.len() implies {
                    let p = #[trigger] self.partitions@[i];
                    !self.due(p.1, now) || self.held(p.0) || conn.budget == 0
                } by {
                    if conn.budget != 0 {
                        assert(ready@.len() == 0);
                        let p = self.partitions@[i];
                        assert(round0.partitions@[i] == p);
                        assert(!round0.ready_to_dispatch(round0.partitions@[i].0, now));
                        lemma_state_lookup_at(round0.partitions@, i);
                        assert(self.held(p.0) == pre_gc.held(p.0));
                        assert(pre_gc.held(p.0) == round0.held(p.0));
                        assert(self.due(p.1, now) == round0.due(p.1, now));
                    }
                }
                assert(self.flush_stalled(now, conn.budget));
            }
            return FlushResult { poll: SinkPoll::Pending, dispatches };
        }
    }

    /// Whether the sink can accept another event. If the overflow slot is
    /// occupied, a full flush step is attempted first (with the same
    /// guarantees as `poll_flush`); the sink is ready exactly when the slot
    /// is free afterwards. Under `Pending` the flush has stalled: the
    /// buffered event's partition is live but not yet dispatchable, so the
    /// event genuinely cannot be absorbed yet. With a free slot the sink is
    /// left untouched.
    pub fn poll_ready(&mut self, now: u64, conn: &mut ServiceConn) -> (r: FlushResult)
        requires
            old(self).wf(),
            now <= u64::MAX - old(self).timeout,
            old(self).service.seq_head + old(self).partitions@.len() + 1 <= u64::MAX,
            old(self).service.unacked + old(self).live_events <= usize::MAX,
        ensures
            final(self).wf(),
            final(self).accepted == old(self).accepted,
            final(self).closing == old(self).closing,
            final(self).settings == old(self).settings,
            final(self).timeout == old(self).timeout,
            final(self).service.logic == old(self).service.logic,
            final(self).service.seq_tail == old(self).service.seq_tail,
            final(self).service.released == old(self).service.released,
            (final(self).in_flight is Some) == (old(self).in_flight is Some),
            final(conn).error == old(conn).error,
            r.dispatches@.len() <= old(conn).budget,
            final(conn).budget == old(conn).budget - r.dispatches@.len(),
            final(self).service.seq_head == old(self).service.seq_head + r.dispatches@.len(),
            final(self).service.log@ == old(self).service.log@ + items_of(r.dispatches@),
            final(self).dispatch_keys@ == old(self).dispatch_keys@ + keys_of(r.dispatches@),
            old(self).buffer is None ==> *final(self) == *old(self) && r.dispatches@.len() == 0
                && r.poll is Ready,
            final(self).buffer is Some ==> final(self).buffer == old(self).buffer,
            forall|q: u64|
                final(self).service.outstanding(q) == (old(self).service.outstanding(q) || old(
                    self,
                ).service.seq_head <= q < final(self).service.seq_head),
            forall|i: int|
                0 <= i < r.dispatches@.len() ==> {
                    let d = #[trigger] r.dispatches@[i];
                    &&& d.wf()
                    &&& d.items@.len() >= 1
                    &&& d.seqno == old(self).service.seq_head + i
                    &&& forall|j: int|
                        0 <= j < d.items@.len() ==> (#[trigger] d.items@[j]).key == d.key
                },
            forall|k: u64|
                #[trigger] old(self).key_progress(*final(self), r.dispatches@, k, now),
            old(self).buffer is Some && !(r.poll matches SinkPoll::Failed(_))
                ==> final(self).flush_stalled(now, final(conn).budget)
                || final(self).quiescent(),
            old(self).buffer is Some && !(r.poll matches SinkPoll::Failed(_))
                ==> final(self).in_flight_compact(),
            match r.poll {
                SinkPoll::Ready => final(self).buffer is None,
                SinkPoll::Pending => final(self).buffer is Some && final(self).flush_stalled(
                    now,
                    final(conn).budget,
                ) && final(self).in_flight_compact(),
                SinkPoll::Failed(_) => old(conn).error is Some,
            },
    {
        if self.buffer.is_some() {
            let fr = self.poll_flush(now, conn);
            if matches!(fr.poll, SinkPoll::Failed(_)) {
                return fr;
            }
            let poll = if self.buffer.is_some() {
                SinkPoll::Pending
            } else {
                SinkPoll::Ready
            };
            FlushResult { poll, dispatches: fr.dispatches }
        } else {
            proof {
                lemma_dispatch_list_empty();
                assert(self.service.log@ =~= old(self).service.log@ + items_of(
                    Seq::<DispatchRequest>::empty(),
                ));
                assert(self.dispatch_keys@ =~= old(self).dispatch_keys@ + keys_of(
                    Seq::<DispatchRequest>::empty(),
                ));
                assert forall|k: u64|
                    #[trigger] old(self).key_progress(
                        *self,
                        Seq::<DispatchRequest>::empty(),
                        k,
                        now,
                    ) by {
                    assert(dispatches_for(Seq::<DispatchRequest>::empty(), k)
                        =~= Seq::<Seq<Event>>::empty());
                }
            }
            FlushResult { poll: SinkPoll::Ready, dispatches: Vec::new() }
        }
    }

    /// Begin a graceful close and take one flush step: from now on every
    /// non-empty batch is due regardless of fullness or linger, so under
    /// `Pending` only ordered-mode holding or the service's budget keeps a
    /// partition waiting. The flush step carries the same guarantees as
    /// `poll_flush`, judged at the closing state.
    pub fn poll_close(&mut self, now: u64, conn: &mut ServiceConn) -> (r: FlushResult)
        requires
            old(self).wf(),
            now <= u64::MAX - old(self).timeout,
            old(self).service.seq_head + old(self).partitions@.len() + 1 <= u64::MAX,
            old(self).service.unacked + old(self).live_events <= usize::MAX,
        ensures
            final(self).wf(),
            final(self).closing,
            final(self).accepted == old(self).accepted,
            final(self).settings == old(self).settings,
            final(self).timeout == old(self).timeout,
            final(self).service.logic == old(self).service.logic,
            final(self).service.seq_tail == old(self).service.seq_tail,
            final(self).service.released == old(self).service.released,
            (final(self).in_flight is Some) == (old(self).in_flight is Some),
            final(conn).error == old(conn).error,
            r.dispatches@.len() <= old(conn).budget,
            final(conn).budget == old(conn).budget - r.dispatches@.len(),
            final(self).service.seq_head == old(self).service.seq_head + r.dispatches@.len(),
            final(self).service.log@ == old(self).service.log@ + items_of(r.dispatches@),
            final(self).dispatch_keys@ == old(self).dispatch_keys@ + keys_of(r.dispatches@),
            old(self).buffer is None ==> final(self).buffer is None,
            final(self).buffer is Some ==> final(self).buffer == old(self).buffer,
            forall|q: u64|
                final(self).service.outstanding(q) == (old(self).service.outstanding(q) || old(
                    self,
                ).service.seq_head <= q < final(self).service.seq_head),
            forall|i: int|
                0 <= i < r.dispatches@.len() ==> {
                    let d = #[trigger] r.dispatches@[i];
                    &&& d.wf()
                    &&& d.items@.len() >= 1
                    &&& d.seqno == old(self).service.seq_head + i
                    &&& forall|j: int|
                        0 <= j < d.items@.len() ==> (#[trigger] d.items@[j]).key == d.key
                },
            forall|k: u64|
                #![trigger dispatches_for(r.dispatches@, k)]
                (PartitionBatchSink { closing: true, ..*old(self) }).key_progress(
                    *final(self),
                    r.dispatches@,
                    k,
                    now,
                ),
            match r.poll {
                SinkPoll::Ready => final(self).quiescent() && final(self).in_flight_compact(),
                SinkPoll::Pending => {
                    &&& final(self).flush_stalled(now, final(conn).budget)
                    &&& !(final(self).quiescent())
                    &&& final(self).in_flight_compact()
                    &&& forall|i: int|
                        0 <= i < final(self).partitions@.len() ==> final(self).held(
                            (#[trigger] final(self).partitions@[i]).0,
                        ) || final(conn).budget == 0
                },
                SinkPoll::Failed(_) => old(conn).error is Some,
            },
    {
        self.closing = true;
        proof {
            assert forall|k: u64| #[trigger] self.dispatched_for(k) + self.live_for(k)
                == self.accepted_for(k) by {
                assert(old(self).dispatched_for(k) + old(self).live_for(k) == old(
                    self,
                ).accepted_for(k));
            }
            assert(*self == (PartitionBatchSink { closing: true, ..*old(self) }));
        }
        let r = self.poll_flush(now, conn);
        proof {
            if matches!(r.poll, SinkPoll::Pending) {
                assert forall|i: int| 0 <= i < self.partitions@.len() implies self.held(
                    (#[trigger] self.partitions@[i]).0,
                ) || conn.budget == 0 by {
                    lemma_closing_all_due(*self, i, now);
                }
            }
        }
        r
    }

    /// The keys of the partitions that would dispatch at time `now`:
    /// exactly those that are due and, in ordered mode, not held.
    fn compute_ready(&self, now: u64) -> (ready: Vec<u64>)
        requires
            self.wf(),
        ensures
            forall|a: int|
                0 <= a < ready@.len() ==> self.ready_to_dispatch(#[trigger] ready@[a], now),
            forall|j: int|
                0 <= j < self.partitions@.len() ==> (self.ready_to_dispatch(
                    (#[trigger] self.partitions@[j]).0,
                    now,
                ) ==> ready@.contains(self.partitions@[j].0)),
            forall|a: int, b: int| 0 <= a < b < ready@.len() ==> ready@[a] != ready@[b],
    {
        let mut ready: Vec<u64> = Vec::new();
        let mut j: usize = 0;
        while j < self.partitions.len()
            invariant
                self.wf(),
                j <= self.partitions@.len(),
                forall|a: int|
                    0 <= a < ready@.len() ==> self.ready_to_dispatch(#[trigger] ready@[a], now),
                forall|jj: int|
                    0 <= jj < j ==> (self.ready_to_dispatch(
                        (#[trigger] self.partitions@[jj]).0,
                        now,
                    ) ==> ready@.contains(self.partitions@[jj].0)),
                forall|a: int|
                    0 <= a < ready@.len() ==> exists|jj: int|
                        0 <= jj < j && (#[trigger] ready@[a]) == self.partitions@[jj].0,
                forall|a: int, b: int| 0 <= a < b < ready@.len() ==> ready@[a] != ready@[b],
            decreases self.partitions@.len() - j,
        {
            let p_key = self.partitions[j].0;
            let st = &self.partitions[j].1;
            let is_due = (self.closing && st.batch.num_items() > 0) || st.batch.was_full() || now
                >= st.deadline;
            let is_held = match &self.in_flight {
                None => false,
                Some(g) => {
                    match find_key(g, p_key) {
                        None => false,
                        Some(gi) => self.service.is_outstanding(g[gi].1),
                    }
                },
            };
            proof {
                lemma_state_lookup_at(self.partitions@, j as int);
                assert(is_due == self.due(self.partitions@[j as int].1, now));
                match self.in_flight {
                    None => {},
                    Some(_) => {
                        let g = self.in_flight->Some_0;
                        if !is_held && self.held(p_key) {
                            let w = choose|w: int|
                                0 <= w < g@.len() && (#[trigger] g@[w]).0 == p_key
                                    && self.service.outstanding(g@[w].1);
                            assert(g@[w].0 == p_key);
                        }
                    },
                }
                assert(is_held ==> self.held(p_key));
                assert(!is_held ==> !self.held(p_key));
            }
            if is_due && !is_held {
                let ghost ready0 = ready@;
                ready.push(p_key);
                proof {
                    assert(ready@ == ready0.push(p_key));
                    assert forall|a: int, b: int| 0 <= a < b < ready@.len() implies ready@[a]
                        != ready@[b] by {
                        if b == ready@.len() - 1 {
                            let jja = choose|jj: int|
                                0 <= jj < j && (#[trigger] ready0[a]) == self.partitions@[jj].0;
                            assert(self.partitions@[jja].0 != self.partitions@[j as int].0);
                        }
                    }
                    assert forall|jj: int|
                        0 <= jj < j + 1 && self.ready_to_dispatch(
                            (#[trigger] self.partitions@[jj]).0,
                            now,
                        ) implies ready@.contains(self.partitions@[jj].0) by {
                        if jj < j {
                            assert(ready0.contains(self.partitions@[jj].0));
                            let a = choose|a: int|
                                0 <= a < ready0.len() && ready0[a] == self.partitions@[jj].0;
                            assert(ready@[a] == self.partitions@[jj].0);
                        } else {
                            assert(ready@[ready@.len() - 1] == self.partitions@[jj].0);
                        }
                    }
                }
            } else {
                proof {
                    assert(!self.ready_to_dispatch(self.partitions@[j as int].0, now));
                }
            }
            j = j + 1;
        }
        ready
    }

    /// Dispatch the partition at index `i`: remove it from the table,
    /// finalize its batch, record the dispatch with the service sink, and in
    /// ordered mode hold the partition on the new request.
    #[verifier::rlimit(100)]
    fn dispatch_one(&mut self, i: usize) -> (d: DispatchRequest)
        requires
            old(self).wf(),
            i < old(self).partitions@.len(),
            old(self).service.seq_head < u64::MAX,
            old(self).service.unacked + old(self).live_events <= usize::MAX,
            !old(self).held(old(self).partitions@[i as int].0),
        ensures
            final(self).wf(),
            d.wf(),
            d.key == old(self).partitions@[i as int].0,
            d.seqno == old(self).service.seq_head,
            d.items@ == old(self).partitions@[i as int].1.batch.items@,
            d.count == d.items@.len(),
            d.items@.len() >= 1,
            forall|j: int| 0 <= j < d.items@.len() ==> (#[trigger] d.items@[j]).key == d.key,
            final(self).partitions@ == old(self).partitions@.remove(i as int),
            final(self).buffer == old(self).buffer,
            final(self).accepted == old(self).accepted,
            final(self).closing == old(self).closing,
            final(self).settings == old(self).settings,
            final(self).timeout == old(self).timeout,
            (final(self).in_flight is Some) == (old(self).in_flight is Some),
            final(self).service.logic == old(self).service.logic,
            final(self).service.seq_head == old(self).service.seq_head + 1,
            final(self).service.seq_tail == old(self).service.seq_tail,
            final(self).service.released == old(self).service.released,
            final(self).service.unacked == old(self).service.unacked + d.count,
            final(self).live_events == old(self).live_events - d.count,
            final(self).service.log@ == old(self).service.log@.push(d.items@),
            final(self).dispatch_keys@ == old(self).dispatch_keys@.push(d.key),
            forall|q: u64|
                final(self).service.outstanding(q) == (old(self).service.outstanding(q) || q
                    == d.seqno),
            forall|k: u64| k != d.key ==> final(self).held(k) == old(self).held(k),
            old(self).in_flight is Some ==> final(self).held(d.key),
            forall|k: u64|
                k != d.key ==> state_lookup(final(self).partitions@, k) == state_lookup(
                    old(self).partitions@,
                    k,
                ),
            state_lookup(final(self).partitions@, d.key) is None,
    {
        let ghost parts0 = old(self).partitions@;
        let (k, st) = self.partitions.remove(i);
        proof {
            lemma_state_lookup_at(parts0, i as int);
            lemma_parts_events_remove(parts0, i as int);
            lemma_parts_events_nonneg(self.partitions@);
        }
        let count = st.batch.num_items();
        let enc = st.batch.finish();
        let byte_size = enc.byte_size;
        let seqno = self.service.call(&enc);
        self.live_events = self.live_events - count;
        proof {
            self.dispatch_keys = Ghost(self.dispatch_keys@.push(k));
        }
        proof {
            if old(self).in_flight is Some {
                let g0 = old(self).in_flight->Some_0@;
                assert forall|a: int| 0 <= a < g0.len() implies (#[trigger] g0[a]).1
                    < self.service.seq_head && self.dispatch_keys@[g0[a].1 as int] == g0[a].0
                    && g0[a].1 != seqno by {
                    assert(g0[a].1 < old(self).service.seq_head);
                    assert(old(self).dispatch_keys@[g0[a].1 as int] == g0[a].0);
                }
                assert forall|q: u64| #[trigger] self.service.outstanding(q) && q != seqno
                    implies in_flight_maps(g0, self.dispatch_keys@[q as int], q) by {
                    assert(old(self).service.outstanding(q));
                    crate::service::lemma_outstanding_bound(old(self).service, q);
                    assert(self.dispatch_keys@[q as int] == old(self).dispatch_keys@[q as int]);
                }
                assert(!(exists|a: int|
                    0 <= a < g0.len() && (#[trigger] g0[a]).0 == k && self.service.outstanding(
                        g0[a].1,
                    ))) by {
                    if exists|a: int|
                        0 <= a < g0.len() && (#[trigger] g0[a]).0 == k && self.service.outstanding(
                            g0[a].1,
                        ) {
                        let a = choose|a: int|
                            0 <= a < g0.len() && (#[trigger] g0[a]).0 == k
                                && self.service.outstanding(g0[a].1);
                        assert(g0[a].1 < old(self).service.seq_head);
                        assert(old(self).service.outstanding(g0[a].1));
                        assert(old(self).held(k));
                    }
                }
            }
        }
        self.track_in_flight(k, seqno);
        let d = DispatchRequest { seqno, key: k, items: enc.items, count, byte_size };
        proof {
            if old(self).in_flight is Some {
                let g2 = self.in_flight->Some_0@;
                assert(in_flight_maps(g2, k, seqno));
                let x = choose|x: int| 0 <= x < g2.len() && #[trigger] g2[x] == (k, seqno);
                assert(self.service.outstanding(seqno));
                assert(g2[x].0 == k && self.service.outstanding(g2[x].1));
                assert(self.held(k));
            }
        }
        proof {
            let partsn = self.partitions@;
            assert forall|k2: u64|
                state_lookup(partsn, k2) == (if k2 == k {
                    None::<PartitionState>
                } else {
                    state_lookup(parts0, k2)
                }) by {
                lemma_lookup_remove(parts0, i as int, k2);
            }
            assert(pkeys_unique(partsn)) by {
                lemma_lookup_remove(parts0, i as int, k);
            }
            assert forall|ii: int| 0 <= ii < partsn.len() implies {
                let p = #[trigger] partsn[ii];
                &&& p.1.batch.wf()
                &&& p.1.batch.settings == self.settings
                &&& p.1.batch.items@.len() >= 1
                &&& forall|j: int|
                    0 <= j < p.1.batch.items@.len() ==> (#[trigger] p.1.batch.items@[j]).key
                        == p.0
            } by {
                let si: int = if ii < i {
                    ii
                } else {
                    ii + 1
                };
                assert(partsn[ii] == parts0[si]);
            }
            assert forall|k2: u64| #[trigger] self.dispatched_for(k2) + self.live_for(k2)
                == self.accepted_for(k2) by {
                assert(old(self).dispatched_for(k2) + old(self).live_for(k2) == old(
                    self,
                ).accepted_for(k2));
                lemma_dispatched_push(
                    old(self).service.log@,
                    old(self).dispatch_keys@,
                    parts0[i as int].1.batch.items@,
                    k,
                    k2,
                );
                assert(self.dispatched_for(k2) + self.live_for(k2) =~= self.accepted_for(k2));
            }
        }
        d
    }

    /// In ordered mode, record that the new dispatch `seqno` now holds key
    /// `k`, replacing the key's resolved previous entry.
    #[verifier::rlimit(100)]
    fn track_in_flight(&mut self, k: u64, seqno: u64)
        requires
            old(self).dispatch_keys@.len() == old(self).service.seq_head,
            old(self).service.wf(),
            seqno < old(self).service.seq_head,
            old(self).dispatch_keys@[seqno as int] == k,
            match old(self).in_flight {
                None => true,
                Some(g) => {
                    &&& entry_keys_unique(g@)
                    &&& forall|a: int|
                        0 <= a < g@.len() ==> (#[trigger] g@[a]).1 < old(self).service.seq_head
                            && old(self).dispatch_keys@[g@[a].1 as int] == g@[a].0 && g@[a].1
                            != seqno
                    &&& forall|q: u64|
                        #[trigger] old(self).service.outstanding(q) && q != seqno ==> in_flight_maps(
                            g@,
                            old(self).dispatch_keys@[q as int],
                            q,
                        )
                    &&& !(exists|a: int|
                        0 <= a < g@.len() && (#[trigger] g@[a]).0 == k
                            && old(self).service.outstanding(g@[a].1))
                },
            },
        ensures
            *final(self) == (PartitionBatchSink { in_flight: final(self).in_flight, ..*old(self) }),
            (final(self).in_flight is Some) == (old(self).in_flight is Some),
            final(self).in_flight_wf(),
            forall|k2: u64| k2 != k ==> final(self).held(k2) == old(self).held(k2),
            old(self).in_flight is Some ==> in_flight_maps(final(self).in_flight->Some_0@, k, seqno),
    {
        let in_flight_opt = self.in_flight.take();
        match in_flight_opt {
            None => {},
            Some(mut g) => {
                let ghost g0 = g@;
                let gi = find_key(&g, k);
                match gi {
                    Some(x) => {
                        g.remove(x);
                    },
                    None => {},
                }
                g.push((k, seqno));
                self.in_flight = Some(g);
                proof {
                    let g2 = self.in_flight->Some_0@;
                    assert(g2[g2.len() - 1] == (k, seqno));
                    assert(in_flight_maps(g2, k, seqno));
                    match gi {
                        Some(x) => {
                            lemma_in_flight_update(
                                self.service,
                                self.dispatch_keys@,
                                g0,
                                self.in_flight->Some_0@,
                                k,
                                seqno,
                                Some(x as int),
                            );
                        },
                        None => {
                            lemma_in_flight_update(
                                self.service,
                                self.dispatch_keys@,
                                g0,
                                self.in_flight->Some_0@,
                                k,
                                seqno,
                                None,
                            );
                        },
                    }
                }
            },
        }
    }

    /// Drop in-flight entries whose partition is gone and whose request
    /// has resolved. Which keys are held back does not change.
    #[verifier::rlimit(100)]
    fn gc_in_flight(&mut self)
        requires
            old(self).wf(),
        ensures
            final(self).wf(),
            *final(self) == (PartitionBatchSink { in_flight: final(self).in_flight, ..*old(self) }),
            (final(self).in_flight is Some) == (old(self).in_flight is Some),
            forall|k: u64| final(self).held(k) == old(self).held(k),
            final(self).in_flight_compact(),
    {
        let in_flight_opt = self.in_flight.take();
        match in_flight_opt {
            None => {},
            Some(g) => {
                let ghost g0 = g@;
                let mut kept: Vec<(u64, u64)> = Vec::new();
                let mut idx: usize = 0;
                while idx < g.len()
                    invariant
                        idx <= g@.len(),
                        g@ == g0,
                        entry_keys_unique(g0),
                        self.in_flight is None,
                        self.partitions == old(self).partitions,
                        self.service == old(self).service,
                        self.buffer == old(self).buffer,
                        self.accepted == old(self).accepted,
                        self.dispatch_keys == old(self).dispatch_keys,
                        self.closing == old(self).closing,
                        self.settings == old(self).settings,
                        self.timeout == old(self).timeout,
                        self.live_events == old(self).live_events,
                        pkeys_unique(self.partitions@),
                        forall|a: int|
                            0 <= a < kept@.len() ==> exists|jj: int|
                                0 <= jj < idx && #[trigger] kept@[a] == g0[jj],
                        forall|jj: int|
                            0 <= jj < idx && self.service.outstanding((#[trigger] g0[jj]).1)
                                ==> exists|a: int|
                                0 <= a < kept@.len() && #[trigger] kept@[a] == g0[jj],
                        entry_keys_unique(kept@),
                        forall|a: int|
                            0 <= a < kept@.len() ==> state_lookup(
                                self.partitions@,
                                (#[trigger] kept@[a]).0,
                            ) is Some || self.service.outstanding(kept@[a].1),
                    decreases g@.len() - idx,
                {
                    let e = g[idx];
                    let keep = find_pkey(&self.partitions, e.0).is_some()
                        || self.service.is_outstanding(e.1);
                    let ghost kept0 = kept@;
                    if keep {
                        kept.push(e);
                    }
                    proof {
                        assert forall|a: int|
                            0 <= a < kept@.len() implies state_lookup(
                            self.partitions@,
                            (#[trigger] kept@[a]).0,
                        ) is Some || self.service.outstanding(kept@[a].1) by {
                            if a < kept0.len() {
                                assert(kept@[a] == kept0[a]);
                            } else {
                                assert(kept@[a] == e);
                            }
                        }
                        assert forall|a: int| 0 <= a < kept@.len() implies exists|jj: int|
                            0 <= jj < idx + 1 && #[trigger] kept@[a] == g0[jj] by {
                            if a < kept0.len() {
                                assert(kept@[a] == kept0[a]);
                                let jj = choose|jj: int|
                                    0 <= jj < idx && #[trigger] kept0[a] == g0[jj];
                                assert(kept@[a] == g0[jj]);
                            } else {
                                assert(kept@[a] == g0[idx as int]);
                            }
                        }
                        assert forall|jj: int|
                            0 <= jj < idx + 1 && self.service.outstanding((
                            #[trigger] g0[jj]).1) implies exists|a: int|
                            0 <= a < kept@.len() && #[trigger] kept@[a] == g0[jj] by {
                            if jj < idx {
                                let a = choose|a: int|
                                    0 <= a < kept0.len() && #[trigger] kept0[a] == g0[jj];
                                assert(kept@[a] == g0[jj]);
                            } else {
                                assert(kept@[kept@.len() - 1] == g0[idx as int]);
                            }
                        }
                        assert forall|a: int, b: int| 0 <= a < b < kept@.len() implies (
                        #[trigger] kept@[a]).0 != (#[trigger] kept@[b]).0 by {
                            if b == kept@.len() - 1 && kept@.len() > kept0.len() {
                                let jj = choose|jj: int|
                                    0 <= jj < idx && #[trigger] kept0[a] == g0[jj];
                                assert(g0[jj].0 != g0[idx as int].0);
                            } else {
                                assert(kept@[a] == kept0[a]);
                                assert(kept@[b] == kept0[b]);
                            }
                        }
                    }
                    idx = idx + 1;
                }
                self.in_flight = Some(kept);
                proof {
                    let g2 = self.in_flight->Some_0@;
                    assert(g2 == kept@);
                    assert forall|a: int|
                        0 <= a < g2.len() implies self.has_partition((#[trigger] g2[a]).0)
                        || self.service.outstanding(g2[a].1) by {
                        assert(state_lookup(self.partitions@, kept@[a].0) is Some
                            || self.service.outstanding(kept@[a].1));
                    }
                    assert forall|a: int| 0 <= a < g2.len() implies (#[trigger] g2[a]).1
                        < self.service.seq_head && self.dispatch_keys@[g2[a].1 as int]
                        == g2[a].0 by {
                        let jj = choose|jj: int| 0 <= jj < g0.len() && #[trigger] g2[a] == g0[jj];
                        assert(g0[jj].1 < self.service.seq_head);
                    }
                    assert forall|q: u64| #[trigger] self.service.outstanding(q) implies
                        in_flight_maps(g2, self.dispatch_keys@[q as int], q) by {
                        assert(in_flight_maps(g0, self.dispatch_keys@[q as int], q));
                        let w = choose|w: int|
                            0 <= w < g0.len() && #[trigger] g0[w] == (
                            self.dispatch_keys@[q as int],
                            q,
                            );
                        assert(self.service.outstanding(g0[w].1));
                        let a = choose|a: int| 0 <= a < g2.len() && #[trigger] g2[a] == g0[w];
                        assert(g2[a] == (self.dispatch_keys@[q as int], q));
                    }
                    assert forall|k2: u64| self.held(k2) == old(self).held(k2) by {
                        if self.held(k2) {
                            let a = choose|a: int|
                                0 <= a < g2.len() && (#[trigger] g2[a]).0 == k2
                                    && self.service.outstanding(g2[a].1);
                            let jj = choose|jj: int|
                                0 <= jj < g0.len() && #[trigger] g2[a] == g0[jj];
                            assert(g0[jj].0 == k2 && self.service.outstanding(g0[jj].1));
                            assert(old(self).held(k2));
                        }
                        if old(self).held(k2) {
                            let w = choose|w: int|
                                0 <= w < g0.len() && (#[trigger] g0[w]).0 == k2
                                    && old(self).service.outstanding(g0[w].1);
                            let a = choose|a: int| 0 <= a < g2.len() && #[trigger] g2[a] == g0[w];
                            assert(g2[a].0 == k2 && self.service.outstanding(g2[a].1));
                            assert(self.held(k2));
                        }
                    }
                    assert forall|k2: u64| #[trigger] self.dispatched_for(k2) + self.live_for(k2)
                        == self.accepted_for(k2) by {
                        assert(old(self).dispatched_for(k2) + old(self).live_for(k2) == old(
                            self,
                        ).accepted_for(k2));
                    }
                }
            },
        }
    }

    /// Move the buffered overflow event into a fresh partition of its own
    /// key, provided that key's previous partition has been dispatched.
    fn reinsert_buffer(&mut self, now: u64) -> (moved: bool)
        requires
            old(self).wf(),
            old(self).buffer is Some,
            now <= u64::MAX - old(self).timeout,
        ensures
            final(self).wf(),
            !moved ==> *final(self) == *old(self),
            moved == (state_lookup(old(self).partitions@, old(self).buffer->Some_0.key)
                is None),
            moved ==> {
                &&& final(self).buffer is None
                &&& final(self).partitions@.len() == old(self).partitions@.len() + 1
                &&& final(self).accepted == old(self).accepted
                &&& final(self).service == old(self).service
                &&& final(self).dispatch_keys == old(self).dispatch_keys
                &&& final(self).in_flight == old(self).in_flight
                &&& final(self).closing == old(self).closing
                &&& final(self).settings == old(self).settings
                &&& final(self).timeout == old(self).timeout
                &&& final(self).live_events == old(self).live_events
                &&& (state_lookup(final(self).partitions@, old(self).buffer->Some_0.key)
                    matches Some(st) && old(self).fresh_singleton(
                    st,
                    old(self).buffer->Some_0,
                    now,
                ))
                &&& forall|k: u64|
                    k != old(self).buffer->Some_0.key ==> state_lookup(
                        final(self).partitions@,
                        k,
                    ) == state_lookup(old(self).partitions@, k)
            },
    {
        let e = self.buffer.unwrap();
        match find_pkey(&self.partitions, e.key) {
            Some(_) => false,
            None => {
                let mut b = Batch::new(self.settings);
                let _res = b.push(e);
                let st = PartitionState { batch: b, deadline: now + self.timeout };
                self.partitions.push((e.key, st));
                self.buffer = None;
                proof {
                    let parts0 = old(self).partitions@;
                    let entry = (e.key, st);
                    lemma_parts_events_push(parts0, entry);
                    assert forall|k2: u64|
                        state_lookup(self.partitions@, k2) == (if e.key == k2 {
                            Some(entry.1)
                        } else {
                            state_lookup(parts0, k2)
                        }) by {
                        lemma_lookup_push(parts0, entry, k2);
                    }
                    assert(pkeys_unique(self.partitions@)) by {
                        lemma_lookup_push(parts0, entry, e.key);
                    }
                    assert forall|ii: int| 0 <= ii < self.partitions@.len() implies {
                        let p = #[trigger] self.partitions@[ii];
                        &&& p.1.batch.wf()
                        &&& p.1.batch.settings == self.settings
                        &&& p.1.batch.items@.len() >= 1
                        &&& forall|j: int|
                            0 <= j < p.1.batch.items@.len() ==> (
                            #[trigger] p.1.batch.items@[j]).key == p.0
                    } by {
                        if ii < parts0.len() {
                            assert(self.partitions@[ii] == parts0[ii]);
                        }
                    }
                    assert forall|k2: u64| #[trigger] self.dispatched_for(k2) + self.live_for(k2)
                        == self.accepted_for(k2) by {
                        assert(old(self).dispatched_for(k2) + old(self).live_for(k2) == old(
                            self,
                        ).accepted_for(k2));
                        assert(self.dispatched_for(k2) + self.live_for(k2)
                            =~= self.accepted_for(k2));
                    }
                    assert(state_lookup(self.partitions@, e.key) == Some(entry.1));
                    assert(entry.1.batch.items@ =~= seq![e]);
                    assert(old(self).fresh_singleton(entry.1, e, now));
                }
                true
            },
        }
    }
}

impl<R: Response> PartitionBatchSink<StdServiceLogic<R>> {
    /// A partition batch sink with the standard status policy.
    pub fn new(settings: BatchSettings, timeout: u64) -> (r: Self)
        requires
            settings.wf(),
        ensures
            r.wf(),
            r.settings == settings,
            r.timeout == timeout,
            !r.closing,
            r.in_flight is None,
            r.buffer is None,
            r.partitions@.len() == 0,
            r.live_events == 0,
            r.accepted@ =~= Seq::<Event>::empty(),
            r.service.seq_head == 0,
            r.service.seq_tail == 0,
            r.service.released@ == 0,
    {
        Self::new_with_logic(settings, timeout, StdServiceLogic::default())
    }
}

/// A batching sink over a single partition: the same driver with every
/// event routed to one fixed key.
pub struct BatchSink<SL> {
    pub inner: PartitionBatchSink<SL>,
}

impl<SL> BatchSink<SL> {
    pub open spec fn wf(self) -> bool {
        self.inner.wf()
    }

    pub fn new_with_logic(settings: BatchSettings, timeout: u64, logic: SL) -> (r: Self)
        requires
            settings.wf(),
        ensures
            r.wf(),
            r.inner.settings == settings,
            r.inner.timeout == timeout,
            r.inner.service.logic == logic,
            !r.inner.closing,
            r.inner.in_flight is None,
            r.inner.buffer is None,
            r.inner.partitions@.len() == 0,
            r.inner.live_events == 0,
            r.inner.accepted@ =~= Seq::<Event>::empty(),
            r.inner.service.seq_head == 0,
            r.inner.service.released@ == 0,
    {
        BatchSink { inner: PartitionBatchSink::new_with_logic(settings, timeout, logic) }
    }

    /// The dispatch bookkeeping, for inspection.
    pub fn get_ref(&self) -> (r: &ServiceSink<SL>)
        ensures
            r == &self.inner.service,
    {
        &self.inner.service
    }

    pub fn can_accept(&self) -> (r: bool)
        ensures
            r == (self.inner.buffer is None),
    {
        self.inner.can_accept()
    }

    /// Accept one event into the single batch; its partition key is ignored
    /// and replaced by the sink's one fixed key.
    pub fn start_send(&mut self, item: Event, now: u64)
        requires
            old(self).wf(),
            old(self).inner.buffer is None,
            old(self).inner.live_events < usize::MAX,
            now <= u64::MAX - old(self).inner.timeout,
        ensures
            final(self).wf(),
            final(self).inner.accepted@ == old(self).inner.accepted@.push(
                (Event { key: 0, value: item.value, byte_size: item.byte_size }),
            ),
            final(self).inner.live_events == old(self).inner.live_events + 1,
            final(self).inner.service == old(self).inner.service,
            final(self).inner.dispatch_keys == old(self).inner.dispatch_keys,
            final(self).inner.in_flight == old(self).inner.in_flight,
            final(self).inner.closing == old(self).inner.closing,
            final(self).inner.settings == old(self).inner.settings,
            final(self).inner.timeout == old(self).inner.timeout,
            final(self).inner.has_partition(0),
            !old(self).inner.has_partition(0) ==> {
                &&& final(self).inner.partition_state(0).batch.items@ =~= seq![
                    (Event { key: 0, value: item.value, byte_size: item.byte_size }),
                ]
                &&& final(self).inner.partition_state(0).batch.full == (old(
                    self,
                ).inner.settings.max_events == 1)
                &&& final(self).inner.partition_state(0).deadline == now + old(self).inner.timeout
                &&& final(self).inner.buffer is None
                &&& final(self).inner.partitions@.len() == old(self).inner.partitions@.len() + 1
            },
            old(self).inner.partition_fits(
                (Event { key: 0, value: item.value, byte_size: item.byte_size }),
            ) ==> {
                &&& final(self).inner.partition_state(0).batch.items@ == old(
                    self,
                ).inner.partition_state(0).batch.items@.push(
                    (Event { key: 0, value: item.value, byte_size: item.byte_size }),
                )
                &&& final(self).inner.partition_state(0).batch.full == (old(
                    self,
                ).inner.partition_state(0).batch.full || old(self).inner.partition_state(
                    0,
                ).batch.items@.len() + 1 == old(self).inner.settings.max_events)
                &&& final(self).inner.partition_state(0).deadline == old(
                    self,
                ).inner.partition_state(0).deadline
                &&& final(self).inner.buffer is None
                &&& final(self).inner.partitions@.len() == old(self).inner.partitions@.len()
            },
            (old(self).inner.has_partition(0) && !old(self).inner.partition_fits(
                (Event { key: 0, value: item.value, byte_size: item.byte_size }),
            )) ==> {
                &&& final(self).inner.buffer == Some(
                    (Event { key: 0, value: item.value, byte_size: item.byte_size }),
                )
                &&& final(self).inner.partition_state(0).batch.items@ == old(
                    self,
                ).inner.partition_state(0).batch.items@
                &&& final(self).inner.partition_state(0).batch.full
                &&& final(self).inner.partitions@.len() == old(self).inner.partitions@.len()
            },
            forall|k: u64|
                k != 0 ==> state_lookup(final(self).inner.partitions@, k) == state_lookup(
                    old(self).inner.partitions@,
                    k,
                ),
    {
        let e = Event { key: 0, value: item.value, byte_size: item.byte_size };
        self.inner.start_send(e, now);
    }

    /// Whether the sink can accept another event, with the same guarantees
    /// as the partitioned driver's readiness poll.
    pub fn poll_ready(&mut self, now: u64, conn: &mut ServiceConn) -> (r: FlushResult)
        requires
            old(self).wf(),
            now <= u64::MAX - old(self).inner.timeout,
            old(self).inner.service.seq_head + old(self).inner.partitions@.len() + 1
                <= u64::MAX,
            old(self).inner.service.unacked + old(self).inner.live_events <= usize::MAX,
        ensures
            final(self).wf(),
            final(self).inner.accepted == old(self).inner.accepted,
            final(self).inner.closing == old(self).inner.closing,
            final(self).inner.settings == old(self).inner.settings,
            final(self).inner.timeout == old(self).inner.timeout,
            final(self).inner.service.logic == old(self).inner.service.logic,
            final(self).inner.service.seq_tail == old(self).inner.service.seq_tail,
            final(self).inner.service.released == old(self).inner.service.released,
            (final(self).inner.in_flight is Some) == (old(self).inner.in_flight is Some),
            final(conn).error == old(conn).error,
            r.dispatches@.len() <= old(conn).budget,
            final(conn).budget == old(conn).budget - r.dispatches@.len(),
            final(self).inner.service.seq_head == old(self).inner.service.seq_head
                + r.dispatches@.len(),
            final(self).inner.service.log@ == old(self).inner.service.log@ + items_of(
                r.dispatches@,
            ),
            final(self).inner.dispatch_keys@ == old(self).inner.dispatch_keys@ + keys_of(
                r.dispatches@,
            ),
            old(self).inner.buffer is None ==> *final(self) == *old(self) && r.dispatches@.len()
                == 0 && r.poll is Ready,
            final(self).inner.buffer is Some ==> final(self).inner.buffer == old(
                self,
            ).inner.buffer,
            forall|q: u64|
                final(self).inner.service.outstanding(q) == (old(self).inner.service.outstanding(
                    q,
                ) || old(self).inner.service.seq_head <= q < final(self).inner.service.seq_head),
            forall|i: int|
                0 <= i < r.dispatches@.len() ==> {
                    let d = #[trigger] r.dispatches@[i];
                    &&& d.wf()
                    &&& d.items@.len() >= 1
                    &&& d.seqno == old(self).inner.service.seq_head + i
                    &&& forall|j: int|
                        0 <= j < d.items@.len() ==> (#[trigger] d.items@[j]).key == d.key
                },
            forall|k: u64|
                #[trigger] old(self).inner.key_progress(
                    final(self).inner,
                    r.dispatches@,
                    k,
                    now,
                ),
            old(self).inner.buffer is Some && !(r.poll matches SinkPoll::Failed(_))
                ==> final(self).inner.flush_stalled(now, final(conn).budget)
                || final(self).inner.quiescent(),
            old(self).inner.buffer is Some && !(r.poll matches SinkPoll::Failed(_))
                ==> final(self).inner.in_flight_compact(),
            match r.poll {
                SinkPoll::Ready => final(self).inner.buffer is None,
                SinkPoll::Pending => {
                    &&& final(self).inner.buffer is Some
                    &&& final(self).inner.flush_stalled(now, final(conn).budget)
                    &&& final(self).inner.in_flight_compact()
                },
                SinkPoll::Failed(_) => old(conn).error is Some,
            },
    {
        self.inner.poll_ready(now, conn)
    }

    /// One flush step of the single-partition driver, with the same
    /// guarantees as the partitioned one: each dispatch carries the whole
    /// batch, only when it was due, and under `Pending` the survivors are
    /// not yet dispatchable.
    pub fn poll_flush(&mut self, now: u64, conn: &mut ServiceConn) -> (r: FlushResult)
        requires
            old(self).wf(),
            now <= u64::MAX - old(self).inner.timeout,
            old(self).inner.service.seq_head + old(self).inner.partitions@.len() + 1
                <= u64::MAX,
            old(self).inner.service.unacked + old(self).inner.live_events <= usize::MAX,
        ensures
            final(self).wf(),
            final(self).inner.accepted == old(self).inner.accepted,
            final(self).inner.closing == old(self).inner.closing,
            final(self).inner.settings == old(self).inner.settings,
            final(self).inner.timeout == old(self).inner.timeout,
            final(self).inner.service.logic == old(self).inner.service.logic,
            final(self).inner.service.seq_tail == old(self).inner.service.seq_tail,
            final(self).inner.service.released == old(self).inner.service.released,
            (final(self).inner.in_flight is Some) == (old(self).inner.in_flight is Some),
            final(conn).error == old(conn).error,
            r.dispatches@.len() <= old(conn).budget,
            final(conn).budget == old(conn).budget - r.dispatches@.len(),
            final(self).inner.service.seq_head == old(self).inner.service.seq_head
                + r.dispatches@.len(),
            final(self).inner.service.log@ == old(self).inner.service.log@ + items_of(
                r.dispatches@,
            ),
            final(self).inner.dispatch_keys@ == old(self).inner.dispatch_keys@ + keys_of(
                r.dispatches@,
            ),
            old(self).inner.buffer is None ==> final(self).inner.buffer is None,
            final(self).inner.buffer is Some ==> final(self).inner.buffer == old(
                self,
            ).inner.buffer,
            forall|q: u64|
                final(self).inner.service.outstanding(q) == (old(self).inner.service.outstanding(
                    q,
                ) || old(self).inner.service.seq_head <= q < final(self).inner.service.seq_head),
            forall|i: int|
                0 <= i < r.dispatches@.len() ==> {
                    let d = #[trigger] r.dispatches@[i];
                    &&& d.wf()
                    &&& d.items@.len() >= 1
                    &&& d.seqno == old(self).inner.service.seq_head + i
                    &&& forall|j: int|
                        0 <= j < d.items@.len() ==> (#[trigger] d.items@[j]).key == d.key
                },
            forall|k: u64|
                #[trigger] old(self).inner.key_progress(
                    final(self).inner,
                    r.dispatches@,
                    k,
                    now,
                ),
            match r.poll {
                SinkPoll::Ready => final(self).inner.quiescent()
                    && final(self).inner.in_flight_compact(),
                SinkPoll::Pending => final(self).inner.flush_stalled(now, final(conn).budget)
                    && !(final(self).inner.quiescent()) && final(self).inner.in_flight_compact(),
                SinkPoll::Failed(_) => old(conn).error is Some,
            },
    {
        self.inner.poll_flush(now, conn)
    }

    /// Begin a graceful close and take one flush step, with the same
    /// guarantees as the partitioned driver's close.
    pub fn poll_close(&mut self, now: u64, conn: &mut ServiceConn) -> (r: FlushResult)
        requires
            old(self).wf(),
            now <= u64::MAX - old(self).inner.timeout,
            old(self).inner.service.seq_head + old(self).inner.partitions@.len() + 1
                <= u64::MAX,
            old(self).inner.service.unacked + old(self).inner.live_events <= usize::MAX,
        ensures
            final(self).wf(),
            final(self).inner.closing,
            final(self).inner.accepted == old(self).inner.accepted,
            final(self).inner.settings == old(self).inner.settings,
            final(self).inner.timeout == old(self).inner.timeout,
            final(self).inner.service.logic == old(self).inner.service.logic,
            final(self).inner.service.seq_tail == old(self).inner.service.seq_tail,
            final(self).inner.service.released == old(self).inner.service.released,
            (final(self).inner.in_flight is Some) == (old(self).inner.in_flight is Some),
            final(conn).error == old(conn).error,
            r.dispatches@.len() <= old(conn).budget,
            final(conn).budget == old(conn).budget - r.dispatches@.len(),
            final(self).inner.service.seq_head == old(self).inner.service.seq_head
                + r.dispatches@.len(),
            final(self).inner.service.log@ == old(self).inner.service.log@ + items_of(
                r.dispatches@,
            ),
            final(self).inner.dispatch_keys@ == old(self).inner.dispatch_keys@ + keys_of(
                r.dispatches@,
            ),
            old(self).inner.buffer is None ==> final(self).inner.buffer is None,
            final(self).inner.buffer is Some ==> final(self).inner.buffer == old(
                self,
            ).inner.buffer,
            forall|q: u64|
                final(self).inner.service.outstanding(q) == (old(self).inner.service.outstanding(
                    q,
                ) || old(self).inner.service.seq_head <= q < final(self).inner.service.seq_head),
            forall|i: int|
                0 <= i < r.dispatches@.len() ==> {
                    let d = #[trigger] r.dispatches@[i];
                    &&& d.wf()
                    &&& d.items@.len() >= 1
                    &&& d.seqno == old(self).inner.service.seq_head + i
                    &&& forall|j: int|
                        0 <= j < d.items@.len() ==> (#[trigger] d.items@[j]).key == d.key
                },
            forall|k: u64|
                #![trigger dispatches_for(r.dispatches@, k)]
                (PartitionBatchSink { closing: true, ..old(self).inner }).key_progress(
                    final(self).inner,
                    r.dispatches@,
                    k,
                    now,
                ),
            match r.poll {
                SinkPoll::Ready => final(self).inner.quiescent()
                    && final(self).inner.in_flight_compact(),
                SinkPoll::Pending => {
                    &&& final(self).inner.flush_stalled(now, final(conn).budget)
                    &&& !(final(self).inner.quiescent())
                    &&& final(self).inner.in_flight_compact()
                    &&& forall|i: int|
                        0 <= i < final(self).inner.partitions@.len() ==> final(self).inner.held(
                            (#[trigger] final(self).inner.partitions@[i]).0,
                        ) || final(conn).budget == 0
                },
                SinkPoll::Failed(_) => old(conn).error is Some,
            },
    {
        self.inner.poll_close(now, conn)
    }

    /// The host reports that dispatch `seqno` completed; returns the ack
    /// count released in sequence order, with the partitioned driver's full
    /// completion guarantees: the ack tail advances over the freshly
    /// completed prefix, and only `seqno` leaves the in-flight set.
    pub fn complete(&mut self, seqno: u64) -> (acked: usize)
        requires
            old(self).wf(),
        ensures
            final(self).wf(),
            final(self).inner.service.seq_head == old(self).inner.service.seq_head,
            final(self).inner.service.log == old(self).inner.service.log,
            final(self).inner.service.logic == old(self).inner.service.logic,
            final(self).inner.accepted == old(self).inner.accepted,
            final(self).inner.dispatch_keys == old(self).inner.dispatch_keys,
            final(self).inner.partitions == old(self).inner.partitions,
            final(self).inner.buffer == old(self).inner.buffer,
            final(self).inner.in_flight == old(self).inner.in_flight,
            final(self).inner.closing == old(self).inner.closing,
            final(self).inner.settings == old(self).inner.settings,
            final(self).inner.timeout == old(self).inner.timeout,
            final(self).inner.live_events == old(self).inner.live_events,
            final(self).inner.service.released@ == old(self).inner.service.released@ + acked,
            !old(self).inner.service.outstanding(seqno) ==> *final(self) == *old(self) && acked
                == 0,
            old(self).inner.service.outstanding(seqno) ==> {
                &&& old(self).inner.service.seq_tail <= final(self).inner.service.seq_tail
                &&& final(self).inner.service.seq_tail <= final(self).inner.service.seq_head
                &&& acked == sum_counts(
                    old(self).inner.service.log@.subrange(
                        old(self).inner.service.seq_tail as int,
                        final(self).inner.service.seq_tail as int,
                    ),
                )
                &&& final(self).inner.service.unacked == old(self).inner.service.unacked - acked
                &&& forall|q: u64|
                    final(self).inner.service.outstanding(q) == (old(
                        self,
                    ).inner.service.outstanding(q) && q != seqno)
                &&& (final(self).inner.service.seq_tail < final(self).inner.service.seq_head
                    ==> final(self).inner.service.outstanding(final(self).inner.service.seq_tail))
            },
    {
        let acked = self.inner.complete(seqno);
        proof {
            if !old(self).inner.service.outstanding(seqno) {
                assert(acked == 0);
            }
        }
        acked
    }
}

impl<R: Response> BatchSink<StdServiceLogic<R>> {
    /// A single-partition batching sink with the standard status policy.
    pub fn new(settings: BatchSettings, timeout: u64) -> (r: Self)
        requires
            settings.wf(),
        ensures
            r.wf(),
            r.inner.settings == settings,
            r.inner.timeout == timeout,
            !r.inner.closing,
            r.inner.buffer is None,
            r.inner.partitions@.len() == 0,
            r.inner.live_events == 0,
            r.inner.accepted@ =~= Seq::<Event>::empty(),
            r.inner.service.seq_head == 0,
            r.inner.service.released@ == 0,
    {
        BatchSink { inner: PartitionBatchSink::new(settings, timeout) }
    }
}

/// Law: no accepted event is lost or duplicated. At any well-formed state,
/// for every partition key, the events dispatched under that key followed by
/// the events still held live for it are exactly the accepted events of that
/// key, in acceptance order.
pub proof fn lemma_no_event_lost_or_duplicated<SL>(s: PartitionBatchSink<SL>, k: u64)
    requires
        s.wf(),
    ensures
        s.dispatched_for(k) + s.live_for(k) == s.accepted_for(k),
{
}

/// Law: on graceful close, once the sink is quiescent, every accepted event
/// has been dispatched exactly once: per key the dispatched events are
/// exactly the accepted ones, in order.
pub proof fn lemma_quiescent_all_dispatched<SL>(s: PartitionBatchSink<SL>, k: u64)
    requires
        s.wf(),
        s.partitions@.len() == 0,
        s.buffer is None,
    ensures
        s.dispatched_for(k) == s.accepted_for(k),
{
    assert(s.dispatched_for(k) + s.live_for(k) == s.accepted_for(k));
    assert(s.dispatched_for(k) =~= s.accepted_for(k));
}

/// Law: in ordered mode at most one dispatch per partition is in flight, so
/// the downstream observes each partition's batches in dispatch order.
pub proof fn lemma_ordered_one_outstanding_per_partition<SL>(
    s: PartitionBatchSink<SL>,
    q1: u64,
    q2: u64,
)
    requires
        s.wf(),
        s.in_flight is Some,
        s.service.outstanding(q1),
        s.service.outstanding(q2),
        s.dispatch_keys@[q1 as int] == s.dispatch_keys@[q2 as int],
    ensures
        q1 == q2,
{
    let g = s.in_flight->Some_0;
    let k = s.dispatch_keys@[q1 as int];
    assert(in_flight_maps(g@, k, q1));
    assert(in_flight_maps(g@, k, q2));
    let i1 = choose|i: int| 0 <= i < g@.len() && #[trigger] g@[i] == (k, q1);
    let i2 = choose|i: int| 0 <= i < g@.len() && #[trigger] g@[i] == (k, q2);
    if i1 != i2 {
        assert(g@[i1].0 != g@[i2].0);
    }
}

/// Law: a batch capped at one event is full from the moment it is created by
/// an accept, so such a partition dispatches on every accept and its linger
/// never decides.
pub proof fn lemma_unit_capacity_always_full<SL>(s: PartitionBatchSink<SL>, i: int)
    requires
        s.wf(),
        s.settings.max_events == 1,
        0 <= i < s.partitions@.len(),
    ensures
        s.partitions@[i].1.batch.full,
{
    assert(s.partitions@[i].1.batch.items@.len() >= 1);
}

/// Law: while the sink is closing, every live partition is due regardless of
/// its linger timer or fullness.
pub proof fn lemma_closing_all_due<SL>(s: PartitionBatchSink<SL>, i: int, now: u64)
    requires
        s.wf(),
        s.closing,
        0 <= i < s.partitions@.len(),
    ensures
        s.due(s.partitions@[i].1, now),
{
    assert(s.partitions@[i].1.batch.items@.len() >= 1);
}

} // verus!
