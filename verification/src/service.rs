//! The service sink: sequence numbers, in-flight dispatches, and ordered
//! acknowledgement release.
//!
//! Every dispatched batch is assigned a monotonic sequence number. The host
//! performs the actual service call and reports each completion back through
//! [`ServiceSink::complete`]; completions may arrive in any order, but ack
//! counts are released to the upstream acker strictly in sequence order: a
//! completed dispatch is buffered in `pending_acks` until every dispatch
//! before it has completed, and then released together with them.

use vstd::prelude::*;

use crate::batch::{size_sum, EncodedBatch, Event};
use crate::status::{EventStatus, Response, ServiceLogic, SinkError, StdServiceLogic};

verus! {

/// Sum of the `usize` components of a sequence of `(seqno, count)` pairs.
pub open spec fn pair_sum(s: Seq<(u64, usize)>) -> int
    decreases s.len(),
{
    if s.len() == 0 {
        0
    } else {
        pair_sum(s.drop_last()) + s.last().1
    }
}

/// Total number of events over a sequence of dispatched batches.
pub open spec fn sum_counts(s: Seq<Seq<Event>>) -> int
    decreases s.len(),
{
    if s.len() == 0 {
        0
    } else {
        sum_counts(s.drop_last()) + s.last().len()
    }
}

/// Whether some entry of `s` carries the sequence number `q`.
pub open spec fn contains_seqno(s: Seq<(u64, usize)>, q: u64) -> bool {
    exists|i: int| 0 <= i < s.len() && (#[trigger] s[i]).0 == q
}

/// No two entries of `s` carry the same sequence number.
pub open spec fn seqnos_unique(s: Seq<(u64, usize)>) -> bool {
    forall|i: int, j: int|
        0 <= i < j < s.len() ==> (#[trigger] s[i]).0 != (#[trigger] s[j]).0
}

/// No sequence number appears in both `a` and `b`.
pub open spec fn seqnos_disjoint(a: Seq<(u64, usize)>, b: Seq<(u64, usize)>) -> bool {
    forall|i: int, j: int|
        0 <= i < a.len() && 0 <= j < b.len() ==> (#[trigger] a[i]).0 != (#[trigger] b[j]).0
}

pub proof fn lemma_pair_sum_nonneg(s: Seq<(u64, usize)>)
    ensures
        pair_sum(s) >= 0,
    decreases s.len(),
{
    if s.len() > 0 {
        lemma_pair_sum_nonneg(s.drop_last());
    }
}

pub proof fn lemma_pair_sum_push(s: Seq<(u64, usize)>, p: (u64, usize))
    ensures
        pair_sum(s.push(p)) == pair_sum(s) + p.1,
{
    assert(s.push(p).drop_last() =~= s);
}

pub proof fn lemma_pair_sum_remove(s: Seq<(u64, usize)>, i: int)
    requires
        0 <= i < s.len(),
    ensures
        pair_sum(s.remove(i)) == pair_sum(s) - s[i].1,
    decreases s.len(),
{
    if i == s.len() - 1 {
        assert(s.remove(i) =~= s.drop_last());
    } else {
        assert(s.remove(i).drop_last() =~= s.drop_last().remove(i));
        assert(s.remove(i).last() == s.last());
        lemma_pair_sum_remove(s.drop_last(), i);
    }
}

pub proof fn lemma_contains_push(s: Seq<(u64, usize)>, p: (u64, usize), q: u64)
    ensures
        contains_seqno(s.push(p), q) == (contains_seqno(s, q) || p.0 == q),
{
    if contains_seqno(s, q) {
        let i = choose|i: int| 0 <= i < s.len() && (#[trigger] s[i]).0 == q;
        assert(s.push(p)[i].0 == q);
    }
    if p.0 == q {
        assert(s.push(p)[s.len() as int].0 == q);
    }
    if contains_seqno(s.push(p), q) {
        let i = choose|i: int| 0 <= i < s.push(p).len() && (#[trigger] s.push(p)[i]).0 == q;
        if i < s.len() {
            assert(s[i].0 == q);
        }
    }
}

pub proof fn lemma_contains_remove(s: Seq<(u64, usize)>, idx: int, q: u64)
    requires
        0 <= idx < s.len(),
        seqnos_unique(s),
    ensures
        contains_seqno(s.remove(idx), q) == (contains_seqno(s, q) && s[idx].0 != q),
{
    let r = s.remove(idx);
    if contains_seqno(r, q) {
        let i = choose|i: int| 0 <= i < r.len() && (#[trigger] r[i]).0 == q;
        if i < idx {
            assert(s[i].0 == q);
            assert(s[i].0 != s[idx].0);
        } else {
            assert(s[i + 1].0 == q);
            assert(s[idx].0 != s[i + 1].0);
        }
    }
    if contains_seqno(s, q) && s[idx].0 != q {
        let i = choose|i: int| 0 <= i < s.len() && (#[trigger] s[i]).0 == q;
        if i < idx {
            assert(r[i].0 == q);
        } else {
            assert(r[i - 1].0 == q);
        }
    }
}

pub proof fn lemma_unique_remove(s: Seq<(u64, usize)>, idx: int)
    requires
        0 <= idx < s.len(),
        seqnos_unique(s),
    ensures
        seqnos_unique(s.remove(idx)),
{
    let r = s.remove(idx);
    assert forall|i: int, j: int| 0 <= i < j < r.len() implies (#[trigger] r[i]).0 != (
    #[trigger] r[j]).0 by {
        let si: int = if i < idx {
            i
        } else {
            i + 1
        };
        let sj: int = if j < idx {
            j
        } else {
            j + 1
        };
        assert(r[i] == s[si]);
        assert(r[j] == s[sj]);
    }
}

pub proof fn lemma_sum_counts_succ(s: Seq<Seq<Event>>, a: int, b: int)
    requires
        0 <= a <= b < s.len(),
    ensures
        sum_counts(s.subrange(a, b + 1)) == sum_counts(s.subrange(a, b)) + s[b].len(),
{
    assert(s.subrange(a, b + 1).drop_last() =~= s.subrange(a, b));
    assert(s.subrange(a, b + 1).last() == s[b]);
}

/// Find the index of the entry carrying sequence number `q`, if any.
fn find_entry(v: &Vec<(u64, usize)>, q: u64) -> (r: Option<usize>)
    ensures
        match r {
            Some(i) => i < v@.len() && v@[i as int].0 == q,
            None => !contains_seqno(v@, q),
        },
{
    let mut i: usize = 0;
    while i < v.len()
        invariant
            i <= v@.len(),
            forall|j: int| 0 <= j < i ==> (#[trigger] v@[j]).0 != q,
        decreases v@.len() - i,
    {
        if v[i].0 == q {
            return Some(i);
        }
        i = i + 1;
    }
    None
}

/// The state the host hands the sink about the downstream service at each
/// poll: how many further requests the service will accept right now, and
/// whether its readiness check failed.
#[derive(Debug)]
pub struct ServiceConn {
    pub budget: usize,
    pub error: Option<SinkError>,
}

impl ServiceConn {
    pub open spec fn failing(self) -> bool {
        self.error is Some
    }

    /// A connection that accepts any number of requests.
    pub fn always_ready() -> (r: Self)
        ensures
            r.budget == usize::MAX,
            !r.failing(),
    {
        ServiceConn { budget: usize::MAX, error: None }
    }

    /// A connection that accepts up to `budget` requests before reporting
    /// back-pressure.
    pub fn with_budget(budget: usize) -> (r: Self)
        ensures
            r.budget == budget,
            !r.failing(),
    {
        ServiceConn { budget, error: None }
    }

    /// A connection whose readiness check fails with `error`.
    pub fn failed(error: SinkError) -> (r: Self)
        ensures
            r.budget == 0,
            r.failing(),
    {
        ServiceConn { budget: 0, error: Some(error) }
    }
}

/// One dispatch as handed to the host: the sequence number the sink assigned,
/// the partition it came from, and the finalized batch.
#[derive(Debug)]
pub struct DispatchRequest {
    pub seqno: u64,
    pub key: u64,
    pub items: Vec<Event>,
    pub count: usize,
    pub byte_size: usize,
}

impl DispatchRequest {
    pub open spec fn wf(self) -> bool {
        &&& self.count == self.items@.len()
        &&& self.byte_size == size_sum(self.items@)
    }

    /// Resolve the batch's merged finalizer: every contained event receives
    /// the same terminal status.
    pub fn resolve(&self, status: EventStatus) -> (r: Vec<(u64, EventStatus)>)
        ensures
            r@.len() == self.items@.len(),
            forall|i: int|
                0 <= i < r@.len() ==> #[trigger] r@[i] == (self.items@[i].value, status),
    {
        let mut r: Vec<(u64, EventStatus)> = Vec::new();
        let mut i: usize = 0;
        while i < self.items.len()
            invariant
                i <= self.items@.len(),
                r@.len() == i,
                forall|j: int|
                    0 <= j < i ==> #[trigger] r@[j] == (self.items@[j].value, status),
            decreases self.items@.len() - i,
        {
            r.push((self.items[i].value, status));
            i = i + 1;
        }
        r
    }
}

/// The dispatch bookkeeping around the downstream service.
///
/// `seq_head` is the next sequence number to assign, `seq_tail` the next one
/// whose ack is owed upstream. `in_flight` holds the dispatches the host has
/// not yet reported complete, `pending_acks` the completed ones a lower
/// sequence number still holds back. `log` records, per sequence number, the
/// events of that dispatch; `released` the total ack count handed back so
/// far. `unacked` mirrors the event count of the window `seq_tail..seq_head`.
pub struct ServiceSink<SL> {
    pub logic: SL,
    pub seq_head: u64,
    pub seq_tail: u64,
    pub in_flight: Vec<(u64, usize)>,
    pub pending_acks: Vec<(u64, usize)>,
    pub unacked: usize,
    pub log: Ghost<Seq<Seq<Event>>>,
    pub released: Ghost<int>,
}

impl<SL> ServiceSink<SL> {
    /// Whether the dispatch `q` has been made but not yet reported complete.
    pub open spec fn outstanding(self, q: u64) -> bool {
        contains_seqno(self.in_flight@, q)
    }

    /// Whether the dispatch `q` has completed but its ack is still held back.
    pub open spec fn ack_buffered(self, q: u64) -> bool {
        contains_seqno(self.pending_acks@, q)
    }

    pub open spec fn entries_wf(self, s: Seq<(u64, usize)>) -> bool {
        forall|i: int|
            0 <= i < s.len() ==> {
                let p = #[trigger] s[i];
                &&& self.seq_tail <= p.0 < self.seq_head
                &&& p.1 == self.log@[p.0 as int].len()
            }
    }

    pub open spec fn wf(self) -> bool {
        &&& self.seq_tail <= self.seq_head
        &&& self.log@.len() == self.seq_head
        &&& self.entries_wf(self.in_flight@)
        &&& self.entries_wf(self.pending_acks@)
        &&& seqnos_unique(self.in_flight@)
        &&& seqnos_unique(self.pending_acks@)
        &&& seqnos_disjoint(self.in_flight@, self.pending_acks@)
        &&& forall|q: u64|
            self.seq_tail <= q < self.seq_head ==> self.outstanding(q) || self.ack_buffered(q)
        &&& self.unacked == pair_sum(self.in_flight@) + pair_sum(self.pending_acks@)
        &&& self.released@ == sum_counts(self.log@.subrange(0, self.seq_tail as int))
    }

    pub fn new_with_logic(logic: SL) -> (r: Self)
        ensures
            r.wf(),
            r.logic == logic,
            r.seq_head == 0,
            r.seq_tail == 0,
            r.unacked == 0,
            r.in_flight@.len() == 0,
            r.pending_acks@.len() == 0,
            r.log@ =~= Seq::<Seq<Event>>::empty(),
            r.released@ == 0,
    {
        let r = ServiceSink {
            logic,
            seq_head: 0,
            seq_tail: 0,
            in_flight: Vec::new(),
            pending_acks: Vec::new(),
            unacked: 0,
            log: Ghost(Seq::empty()),
            released: Ghost(0),
        };
        proof {
            assert(r.log@.subrange(0, 0) =~= Seq::<Seq<Event>>::empty());
        }
        r
    }

    pub fn logic(&self) -> (r: &SL)
        ensures
            r == &self.logic,
    {
        &self.logic
    }

    pub fn is_outstanding(&self, seqno: u64) -> (r: bool)
        ensures
            r == self.outstanding(seqno),
    {
        find_entry(&self.in_flight, seqno).is_some()
    }

    /// How many dispatched events have not yet had their ack released.
    pub fn unacked(&self) -> (r: usize)
        ensures
            r == self.unacked,
    {
        self.unacked
    }

    pub fn seq_head(&self) -> (r: u64)
        ensures
            r == self.seq_head,
    {
        self.seq_head
    }

    /// Record the dispatch of a finalized batch: assign it the next sequence
    /// number and add it to the in-flight set. The host performs the actual
    /// service call and later reports its completion via `complete`.
    pub fn call(&mut self, batch: &EncodedBatch) -> (seqno: u64)
        requires
            old(self).wf(),
            old(self).seq_head < u64::MAX,
            old(self).unacked + batch.count <= usize::MAX,
            batch.wf(),
        ensures
            final(self).wf(),
            seqno == old(self).seq_head,
            final(self).seq_head == old(self).seq_head + 1,
            final(self).seq_tail == old(self).seq_tail,
            final(self).logic == old(self).logic,
            final(self).log@ == old(self).log@.push(batch.items@),
            final(self).released@ == old(self).released@,
            final(self).unacked == old(self).unacked + batch.count,
            final(self).in_flight@ == old(self).in_flight@.push((seqno, batch.count)),
            final(self).pending_acks@ == old(self).pending_acks@,
            forall|q: u64|
                final(self).outstanding(q) == (old(self).outstanding(q) || q == seqno),
    {
        let seqno = self.seq_head;
        self.seq_head = self.seq_head + 1;
        self.in_flight.push((seqno, batch.count));
        self.unacked = self.unacked + batch.count;
        proof {
            self.log = Ghost(self.log@.push(batch.items@));
            lemma_pair_sum_push(old(self).in_flight@, (seqno, batch.count));
            assert(self.log@.subrange(0, self.seq_tail as int) =~= old(self).log@.subrange(
                0,
                old(self).seq_tail as int,
            ));
            assert forall|q: u64| self.outstanding(q) == (old(self).outstanding(q) || q
                == seqno) by {
                lemma_contains_push(old(self).in_flight@, (seqno, batch.count), q);
            }
            assert forall|i: int| 0 <= i < self.in_flight@.len() implies {
                let p = #[trigger] self.in_flight@[i];
                &&& self.seq_tail <= p.0 < self.seq_head
                &&& p.1 == self.log@[p.0 as int].len()
            } by {
                if i < old(self).in_flight@.len() {
                    assert(self.in_flight@[i] == old(self).in_flight@[i]);
                }
            }
        }
        seqno
    }

    /// The host reports that dispatch `seqno` has completed. Returns the ack
    /// count to release upstream now: zero if an earlier dispatch is still
    /// outstanding, else the event count of the maximal freshly completed
    /// prefix of the sequence. A sequence number that is not in flight is
    /// ignored.
    pub fn complete(&mut self, seqno: u64) -> (acked: usize)
        requires
            old(self).wf(),
        ensures
            final(self).wf(),
            final(self).seq_head == old(self).seq_head,
            final(self).logic == old(self).logic,
            final(self).log == old(self).log,
            !old(self).outstanding(seqno) ==> *final(self) == *old(self) && acked == 0,
            old(self).outstanding(seqno) ==> {
                &&& old(self).seq_tail <= final(self).seq_tail <= final(self).seq_head
                &&& final(self).released@ == old(self).released@ + acked
                &&& acked == sum_counts(
                    old(self).log@.subrange(old(self).seq_tail as int, final(self).seq_tail as int),
                )
                &&& final(self).unacked == old(self).unacked - acked
                &&& forall|q: u64|
                    final(self).outstanding(q) == (old(self).outstanding(q) && q != seqno)
                &&& (final(self).seq_tail < final(self).seq_head ==> final(self).outstanding(
                    final(self).seq_tail,
                ))
            },
    {
        let found = find_entry(&self.in_flight, seqno);
        match found {
            None => 0,
            Some(i) => {
                let entry = self.in_flight.remove(i);
                self.pending_acks.push(entry);
                proof {
                    lemma_pair_sum_remove(old(self).in_flight@, i as int);
                    lemma_pair_sum_push(old(self).pending_acks@, entry);
                    lemma_unique_remove(old(self).in_flight@, i as int);
                    assert forall|q: u64| self.outstanding(q) == (old(self).outstanding(q) && q
                        != seqno) by {
                        lemma_contains_remove(old(self).in_flight@, i as int, q);
                    }
                    assert forall|q: u64| self.ack_buffered(q) == (old(self).ack_buffered(q) || q
                        == seqno) by {
                        lemma_contains_push(old(self).pending_acks@, entry, q);
                    }
                    assert forall|ii: int, j: int|
                        0 <= ii < self.pending_acks@.len() && 0 <= j
                            < self.pending_acks@.len() && ii < j implies (
                    #[trigger] self.pending_acks@[ii]).0 != (#[trigger] self.pending_acks@[j]).0 by {
                        if j == self.pending_acks@.len() - 1 {
                            assert(self.pending_acks@[ii] == old(self).pending_acks@[ii]);
                            assert(!old(self).ack_buffered(seqno));
                        }
                    }
                    assert forall|ii: int, j: int|
                        0 <= ii < self.in_flight@.len() && 0 <= j
                            < self.pending_acks@.len() implies (#[trigger] self.in_flight@[ii]).0
                        != (#[trigger] self.pending_acks@[j]).0 by {
                        lemma_contains_remove(
                            old(self).in_flight@,
                            i as int,
                            self.pending_acks@[j].0,
                        );
                        if j < old(self).pending_acks@.len() {
                            assert(self.pending_acks@[j] == old(self).pending_acks@[j]);
                        }
                    }
                    assert forall|ii: int| 0 <= ii < self.in_flight@.len() implies {
                        let p = #[trigger] self.in_flight@[ii];
                        &&& self.seq_tail <= p.0 < self.seq_head
                        &&& p.1 == self.log@[p.0 as int].len()
                    } by {
                        if ii < i {
                            assert(self.in_flight@[ii] == old(self).in_flight@[ii]);
                        } else {
                            assert(self.in_flight@[ii] == old(self).in_flight@[ii + 1]);
                        }
                    }
                    assert forall|ii: int| 0 <= ii < self.pending_acks@.len() implies {
                        let p = #[trigger] self.pending_acks@[ii];
                        &&& self.seq_tail <= p.0 < self.seq_head
                        &&& p.1 == self.log@[p.0 as int].len()
                    } by {
                        if ii < old(self).pending_acks@.len() {
                            assert(self.pending_acks@[ii] == old(self).pending_acks@[ii]);
                        }
                    }
                }
                let ghost entry_state = *self;
                let mut acked: usize = 0;
                loop
                    invariant
                        self.wf(),
                        self.seq_head == entry_state.seq_head,
                        self.logic == entry_state.logic,
                        self.log == entry_state.log,
                        entry_state.seq_tail <= self.seq_tail,
                        self.released@ == entry_state.released@ + acked,
                        acked == sum_counts(
                            self.log@.subrange(entry_state.seq_tail as int, self.seq_tail as int),
                        ),
                        self.unacked == entry_state.unacked - acked,
                        acked <= entry_state.unacked,
                        self.in_flight@ == entry_state.in_flight@,
                    ensures
                        self.wf(),
                        self.seq_head == entry_state.seq_head,
                        self.logic == entry_state.logic,
                        self.log == entry_state.log,
                        entry_state.seq_tail <= self.seq_tail,
                        self.released@ == entry_state.released@ + acked,
                        acked == sum_counts(
                            self.log@.subrange(entry_state.seq_tail as int, self.seq_tail as int),
                        ),
                        self.unacked == entry_state.unacked - acked,
                        self.in_flight@ == entry_state.in_flight@,
                        !self.ack_buffered(self.seq_tail),
                    decreases self.pending_acks@.len(),
                {
                    let t = find_entry(&self.pending_acks, self.seq_tail);
                    match t {
                        None => {
                            break ;
                        },
                        Some(j) => {
                            let ghost before = *self;
                            let pair = self.pending_acks.remove(j);
                            let n = pair.1;
                            proof {
                                assert(before.wf());
                                assert(pair == before.pending_acks@[j as int]);
                                assert(pair.0 == before.seq_tail);
                                assert(before.seq_tail < before.seq_head);
                                assert(pair.1 == before.log@[before.seq_tail as int].len());
                                lemma_pair_sum_remove(before.pending_acks@, j as int);
                                lemma_pair_sum_nonneg(self.pending_acks@);
                                lemma_pair_sum_nonneg(self.in_flight@);
                            }
                            acked = acked + n;
                            self.unacked = self.unacked - n;
                            self.seq_tail = self.seq_tail + 1;
                            proof {
                                self.released = Ghost(self.released@ + n);
                                lemma_unique_remove(before.pending_acks@, j as int);
                                lemma_sum_counts_succ(
                                    self.log@,
                                    0,
                                    before.seq_tail as int,
                                );
                                lemma_sum_counts_succ(
                                    self.log@,
                                    entry_state.seq_tail as int,
                                    before.seq_tail as int,
                                );
                                assert forall|q: u64| self.ack_buffered(q) == (
                                before.ack_buffered(q) && q != before.seq_tail) by {
                                    lemma_contains_remove(before.pending_acks@, j as int, q);
                                }
                                assert forall|ii: int| 0 <= ii < self.pending_acks@.len() implies {
                                    let p = #[trigger] self.pending_acks@[ii];
                                    &&& self.seq_tail <= p.0 < self.seq_head
                                    &&& p.1 == self.log@[p.0 as int].len()
                                } by {
                                    let si: int = if ii < j {
                                        ii
                                    } else {
                                        ii + 1
                                    };
                                    assert(self.pending_acks@[ii] == before.pending_acks@[si]);
                                    if si != j as int {
                                        assert(before.pending_acks@[si].0
                                            != before.pending_acks@[j as int].0);
                                    }
                                }
                                assert forall|ii: int| 0 <= ii < self.in_flight@.len() implies {
                                    let p = #[trigger] self.in_flight@[ii];
                                    &&& self.seq_tail <= p.0 < self.seq_head
                                    &&& p.1 == self.log@[p.0 as int].len()
                                } by {
                                    assert(before.in_flight@[ii].0 != before.pending_acks@[j
                                        as int].0);
                                }
                                assert forall|ii: int, jj: int|
                                    0 <= ii < self.in_flight@.len() && 0 <= jj
                                        < self.pending_acks@.len() implies (
                                #[trigger] self.in_flight@[ii]).0 != (
                                #[trigger] self.pending_acks@[jj]).0 by {
                                    let sj: int = if jj < j {
                                        jj
                                    } else {
                                        jj + 1
                                    };
                                    assert(self.pending_acks@[jj] == before.pending_acks@[sj]);
                                }
                                assert forall|q: u64|
                                    self.seq_tail <= q < self.seq_head implies self.outstanding(q)
                                    || self.ack_buffered(q) by {
                                    assert(before.outstanding(q) || before.ack_buffered(q));
                                }
                                lemma_sum_counts_succ(self.log@, 0, before.seq_tail as int);
                                assert(self.released@ == sum_counts(
                                    self.log@.subrange(0, self.seq_tail as int),
                                ));
                            }
                        },
                    }
                }
                proof {
                    if self.seq_tail < self.seq_head {
                        assert(self.outstanding(self.seq_tail) || self.ack_buffered(
                            self.seq_tail,
                        ));
                    }
                }
                acked
            },
        }
    }
}

impl<R: Response> ServiceSink<StdServiceLogic<R>> {
    /// A service sink with the standard status policy.
    pub fn new() -> (r: Self)
        ensures
            r.wf(),
            r.seq_head == 0,
            r.seq_tail == 0,
            r.unacked == 0,
            r.in_flight@.len() == 0,
            r.pending_acks@.len() == 0,
            r.log@ =~= Seq::<Seq<Event>>::empty(),
            r.released@ == 0,
    {
        Self::new_with_logic(StdServiceLogic::default())
    }
}

/// A dispatch that is still in flight lies in the unacknowledged window.
pub proof fn lemma_outstanding_bound<SL>(s: ServiceSink<SL>, q: u64)
    requires
        s.wf(),
        s.outstanding(q),
    ensures
        s.seq_tail <= q < s.seq_head,
{
    let i = choose|i: int| 0 <= i < s.in_flight@.len() && (#[trigger] s.in_flight@[i]).0 == q;
    assert(s.in_flight@[i].0 == q);
}

/// Law: acknowledgements are released in strict sequence order. At any
/// well-formed state the total released to the acker is exactly the event
/// count of the dispatches `0 .. seq_tail`, and every dispatch at or beyond
/// `seq_tail` is still in flight or has its ack held back.
pub proof fn lemma_acks_released_in_order<SL>(s: ServiceSink<SL>)
    requires
        s.wf(),
    ensures
        s.released@ == sum_counts(s.log@.subrange(0, s.seq_tail as int)),
        forall|q: u64| s.seq_tail <= q < s.seq_head ==> s.outstanding(q) || s.ack_buffered(q),
{
}

} // verus!
