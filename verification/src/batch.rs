//! The batch accumulator: a size- and byte-bounded container of events.
//!
//! A batch absorbs events with `push` until one of its configured limits
//! would be exceeded, latches a `was_full` flag once it reaches or refuses
//! at its limits, and is turned into a dispatchable [`EncodedBatch`] by
//! `finish`. `fresh` produces a new empty batch with the same configuration.

use vstd::prelude::*;

verus! {

/// One event as the sink sees it: the partition key it routes by, an opaque
/// payload identifier, and its encoded length in bytes.
#[derive(Clone, Copy, Debug, PartialEq, Eq, Structural)]
pub struct Event {
    pub key: u64,
    pub value: u64,
    pub byte_size: usize,
}

/// Total encoded size of a sequence of events.
pub open spec fn size_sum(s: Seq<Event>) -> int
    decreases s.len(),
{
    if s.len() == 0 {
        0
    } else {
        size_sum(s.drop_last()) + s.last().byte_size
    }
}

/// The events of `s` whose partition key is `k`, in their order in `s`.
pub open spec fn events_for(s: Seq<Event>, k: u64) -> Seq<Event>
    decreases s.len(),
{
    if s.len() == 0 {
        Seq::empty()
    } else if s.last().key == k {
        events_for(s.drop_last(), k).push(s.last())
    } else {
        events_for(s.drop_last(), k)
    }
}

pub proof fn lemma_size_sum_nonneg(s: Seq<Event>)
    ensures
        size_sum(s) >= 0,
    decreases s.len(),
{
    if s.len() > 0 {
        lemma_size_sum_nonneg(s.drop_last());
    }
}

pub proof fn lemma_size_sum_push(s: Seq<Event>, e: Event)
    ensures
        size_sum(s.push(e)) == size_sum(s) + e.byte_size,
{
    assert(s.push(e).drop_last() =~= s);
}

pub proof fn lemma_events_for_push(s: Seq<Event>, e: Event, k: u64)
    ensures
        events_for(s.push(e), k) == if e.key == k {
            events_for(s, k).push(e)
        } else {
            events_for(s, k)
        },
{
    assert(s.push(e).drop_last() =~= s);
}

/// The configured limits of a batch: a cap on the number of events and a cap
/// on their total encoded bytes.
#[derive(Clone, Copy, Debug, PartialEq, Eq, Structural)]
pub struct BatchSettings {
    pub max_events: usize,
    pub max_bytes: usize,
}

impl BatchSettings {
    /// A configuration makes sense only if a batch can hold at least one event.
    pub open spec fn wf(self) -> bool {
        self.max_events >= 1
    }

    /// Replace the event-count cap.
    pub fn events(self, limit: usize) -> (r: Self)
        requires
            limit >= 1,
        ensures
            r.max_events == limit,
            r.max_bytes == self.max_bytes,
            r.wf(),
    {
        BatchSettings { max_events: limit, max_bytes: self.max_bytes }
    }

    /// Replace the byte cap.
    pub fn bytes(self, limit: usize) -> (r: Self)
        ensures
            r.max_events == self.max_events,
            r.max_bytes == limit,
            self.wf() ==> r.wf(),
    {
        BatchSettings { max_events: self.max_events, max_bytes: limit }
    }
}

impl Default for BatchSettings {
    /// The default configuration caps nothing: both limits sit at the
    /// machine's maximum.
    fn default() -> (r: Self)
        ensures
            r.max_events == usize::MAX,
            r.max_bytes == usize::MAX,
            r.wf(),
    {
        BatchSettings { max_events: usize::MAX, max_bytes: usize::MAX }
    }
}

/// The outcome of pushing one event into a batch: either the batch absorbed
/// it, or the batch refused it and hands it back unchanged.
#[derive(Debug)]
pub enum PushResult {
    Fits,
    Overflow(Event),
}

/// A partially filled batch for one partition.
#[derive(Debug)]
pub struct Batch {
    pub items: Vec<Event>,
    pub bytes: usize,
    pub full: bool,
    pub settings: BatchSettings,
}

impl Batch {
    pub open spec fn wf(self) -> bool {
        &&& self.settings.wf()
        &&& self.items@.len() <= self.settings.max_events
        &&& self.bytes == size_sum(self.items@)
        &&& (self.full ==> self.items@.len() >= 1)
        &&& (self.items@.len() >= self.settings.max_events ==> self.full)
    }

    /// Whether one more event would be absorbed: the event-count cap leaves
    /// room, and either the batch is still empty (a lone oversize event is
    /// accepted) or the byte cap leaves room.
    pub open spec fn fits(self, e: Event) -> bool {
        &&& self.items@.len() < self.settings.max_events
        &&& (self.items@.len() == 0 || size_sum(self.items@) + e.byte_size
            <= self.settings.max_bytes)
    }

    pub fn new(settings: BatchSettings) -> (r: Self)
        requires
            settings.wf(),
        ensures
            r.wf(),
            r.settings == settings,
            r.items@ =~= Seq::<Event>::empty(),
            r.bytes == 0,
            !r.full,
    {
        Batch { items: Vec::new(), bytes: 0, full: false, settings }
    }

    /// A new empty batch with the same configuration. The copy is not full
    /// and holds nothing.
    pub fn fresh(&self) -> (r: Self)
        requires
            self.settings.wf(),
        ensures
            r.wf(),
            r.settings == self.settings,
            r.items@ =~= Seq::<Event>::empty(),
            r.bytes == 0,
            !r.full,
    {
        Batch { items: Vec::new(), bytes: 0, full: false, settings: self.settings }
    }

    pub fn is_empty(&self) -> (r: bool)
        ensures
            r == (self.items@.len() == 0),
    {
        self.items.len() == 0
    }

    pub fn num_items(&self) -> (r: usize)
        ensures
            r == self.items@.len(),
    {
        self.items.len()
    }

    /// Whether the batch has reached or refused at one of its limits.
    pub fn was_full(&self) -> (r: bool)
        ensures
            r == self.full,
    {
        self.full
    }

    /// Absorb `e` if both limits leave room, else refuse it. A refusal hands
    /// the event back and leaves the stored items and byte count exactly as
    /// they were; it only latches the `full` flag.
    pub fn push(&mut self, e: Event) -> (r: PushResult)
        requires
            old(self).wf(),
        ensures
            final(self).wf(),
            final(self).settings == old(self).settings,
            old(self).fits(e) ==> {
                &&& matches!(r, PushResult::Fits)
                &&& final(self).items@ == old(self).items@.push(e)
                &&& final(self).bytes == old(self).bytes + e.byte_size
                &&& final(self).full == (old(self).full || old(self).items@.len() + 1
                    == old(self).settings.max_events)
            },
            !old(self).fits(e) ==> {
                &&& matches!(r, PushResult::Overflow(e2) if e2 == e)
                &&& final(self).items@ == old(self).items@
                &&& final(self).bytes == old(self).bytes
                &&& final(self).full
            },
    {
        let len = self.items.len();
        proof {
            lemma_size_sum_nonneg(self.items@);
        }
        if len < self.settings.max_events
            && (len == 0
                || (self.bytes <= self.settings.max_bytes
                    && e.byte_size <= self.settings.max_bytes - self.bytes)) {
            proof {
                lemma_size_sum_push(self.items@, e);
            }
            self.items.push(e);
            self.bytes = self.bytes + e.byte_size;
            if self.items.len() == self.settings.max_events {
                self.full = true;
            }
            PushResult::Fits
        } else {
            self.full = true;
            PushResult::Overflow(e)
        }
    }

    /// Finalize the batch into its dispatchable form. The encoded batch
    /// carries the events in producer order, their count, and their total
    /// encoded size.
    pub fn finish(self) -> (r: EncodedBatch)
        requires
            self.wf(),
        ensures
            r.wf(),
            r.items@ == self.items@,
            r.count == self.items@.len(),
            r.byte_size == self.bytes,
    {
        let count = self.items.len();
        EncodedBatch { items: self.items, count, byte_size: self.bytes }
    }
}

/// A finalized batch: the request payload handed to the service, together
/// with its item count and total encoded size. The contained events double as
/// the merged finalizer handles: resolving the batch assigns one terminal
/// status to each of them.
#[derive(Debug)]
pub struct EncodedBatch {
    pub items: Vec<Event>,
    pub count: usize,
    pub byte_size: usize,
}

impl EncodedBatch {
    pub open spec fn wf(self) -> bool {
        &&& self.count == self.items@.len()
        &&& self.byte_size == size_sum(self.items@)
    }
}

} // verus!
