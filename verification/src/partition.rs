//! The partition table: an insertion-ordered association list from partition
//! key to partition state, with the lookup function and lemmas the sink's
//! proofs rest on.

use vstd::prelude::*;

use crate::batch::{Batch, Event};

verus! {

/// The live state of one partition: its accumulating batch and the absolute
/// deadline of its linger timer, armed when the partition was created.
#[derive(Debug)]
pub struct PartitionState {
    pub batch: Batch,
    pub deadline: u64,
}

/// The state stored under key `k`, if any. The table never holds a key
/// twice, so the match from the end is the only match.
pub open spec fn state_lookup(parts: Seq<(u64, PartitionState)>, k: u64) -> Option<
    PartitionState,
>
    decreases parts.len(),
{
    if parts.len() == 0 {
        None
    } else if parts.last().0 == k {
        Some(parts.last().1)
    } else {
        state_lookup(parts.drop_last(), k)
    }
}

/// The items of the batch stored under key `k`, or the empty sequence.
pub open spec fn batch_lookup(parts: Seq<(u64, PartitionState)>, k: u64) -> Seq<Event> {
    match state_lookup(parts, k) {
        Some(st) => st.batch.items@,
        None => Seq::empty(),
    }
}

/// No two entries of the table carry the same key.
pub open spec fn pkeys_unique(parts: Seq<(u64, PartitionState)>) -> bool {
    forall|i: int, j: int|
        0 <= i < j < parts.len() ==> (#[trigger] parts[i]).0 != (#[trigger] parts[j]).0
}

/// Total number of events held across all batches of the table.
pub open spec fn parts_events(parts: Seq<(u64, PartitionState)>) -> int
    decreases parts.len(),
{
    if parts.len() == 0 {
        0
    } else {
        parts_events(parts.drop_last()) + parts.last().1.batch.items@.len()
    }
}

pub proof fn lemma_parts_events_nonneg(parts: Seq<(u64, PartitionState)>)
    ensures
        parts_events(parts) >= 0,
    decreases parts.len(),
{
    if parts.len() > 0 {
        lemma_parts_events_nonneg(parts.drop_last());
    }
}

pub proof fn lemma_parts_events_push(parts: Seq<(u64, PartitionState)>, p: (u64, PartitionState))
    ensures
        parts_events(parts.push(p)) == parts_events(parts) + p.1.batch.items@.len(),
{
    assert(parts.push(p).drop_last() =~= parts);
}

pub proof fn lemma_parts_events_remove(parts: Seq<(u64, PartitionState)>, i: int)
    requires
        0 <= i < parts.len(),
    ensures
        parts_events(parts.remove(i)) == parts_events(parts) - parts[i].1.batch.items@.len(),
    decreases parts.len(),
{
    if i == parts.len() - 1 {
        assert(parts.remove(i) =~= parts.drop_last());
    } else {
        assert(parts.remove(i).drop_last() =~= parts.drop_last().remove(i));
        assert(parts.remove(i).last() == parts.last());
        lemma_parts_events_remove(parts.drop_last(), i);
    }
}

pub proof fn lemma_parts_events_update(
    parts: Seq<(u64, PartitionState)>,
    i: int,
    p: (u64, PartitionState),
)
    requires
        0 <= i < parts.len(),
    ensures
        parts_events(parts.update(i, p)) == parts_events(parts) - parts[i].1.batch.items@.len()
            + p.1.batch.items@.len(),
    decreases parts.len(),
{
    let parts2 = parts.update(i, p);
    if i == parts.len() - 1 {
        assert(parts2.drop_last() =~= parts.drop_last());
        assert(parts2.last() == p);
    } else {
        assert(parts2.drop_last() =~= parts.drop_last().update(i, p));
        assert(parts2.last() == parts.last());
        lemma_parts_events_update(parts.drop_last(), i, p);
    }
}

/// The entry at index `i` is what lookup by its key finds.
pub proof fn lemma_state_lookup_at(parts: Seq<(u64, PartitionState)>, i: int)
    requires
        pkeys_unique(parts),
        0 <= i < parts.len(),
    ensures
        state_lookup(parts, parts[i].0) == Some(parts[i].1),
    decreases parts.len(),
{
    if i == parts.len() - 1 {
    } else {
        assert(parts[i].0 != parts[parts.len() - 1].0);
        assert forall|a: int, b: int|
            0 <= a < b < parts.drop_last().len() implies (#[trigger] parts.drop_last()[a]).0 != (
        #[trigger] parts.drop_last()[b]).0 by {
            assert(parts.drop_last()[a] == parts[a]);
            assert(parts.drop_last()[b] == parts[b]);
        }
        lemma_state_lookup_at(parts.drop_last(), i);
    }
}

/// A key that no entry carries looks up to nothing.
pub proof fn lemma_state_lookup_missing(parts: Seq<(u64, PartitionState)>, k: u64)
    requires
        forall|i: int| 0 <= i < parts.len() ==> (#[trigger] parts[i]).0 != k,
    ensures
        state_lookup(parts, k) is None,
    decreases parts.len(),
{
    if parts.len() > 0 {
        assert(parts[parts.len() - 1].0 != k);
        assert forall|i: int| 0 <= i < parts.drop_last().len() implies (
        #[trigger] parts.drop_last()[i]).0 != k by {
            assert(parts.drop_last()[i] == parts[i]);
        }
        lemma_state_lookup_missing(parts.drop_last(), k);
    }
}

/// A successful lookup names some entry of the table.
pub proof fn lemma_state_lookup_index(parts: Seq<(u64, PartitionState)>, k: u64)
    requires
        state_lookup(parts, k) is Some,
    ensures
        exists|i: int|
            0 <= i < parts.len() && (#[trigger] parts[i]).0 == k && parts[i].1 == state_lookup(
                parts,
                k,
            )->Some_0,
    decreases parts.len(),
{
    if parts.last().0 == k {
        assert(parts[parts.len() - 1].0 == k);
    } else {
        lemma_state_lookup_index(parts.drop_last(), k);
        let i = choose|i: int|
            0 <= i < parts.drop_last().len() && (#[trigger] parts.drop_last()[i]).0 == k
                && parts.drop_last()[i].1 == state_lookup(parts.drop_last(), k)->Some_0;
        assert(parts[i].0 == k);
    }
}

/// Updating the entry at index `i` in place changes only its own key's
/// lookup.
pub proof fn lemma_lookup_update(
    parts: Seq<(u64, PartitionState)>,
    i: int,
    st: PartitionState,
    k: u64,
)
    requires
        pkeys_unique(parts),
        0 <= i < parts.len(),
    ensures
        pkeys_unique(parts.update(i, (parts[i].0, st))),
        state_lookup(parts.update(i, (parts[i].0, st)), k) == if parts[i].0 == k {
            Some(st)
        } else {
            state_lookup(parts, k)
        },
{
    let parts2 = parts.update(i, (parts[i].0, st));
    assert forall|a: int, b: int|
        0 <= a < b < parts2.len() implies (#[trigger] parts2[a]).0 != (#[trigger] parts2[b]).0 by {
        assert(parts2[a].0 == parts[a].0);
        assert(parts2[b].0 == parts[b].0);
        assert(parts[a].0 != parts[b].0);
    }
    if parts[i].0 == k {
        lemma_state_lookup_at(parts2, i);
    } else {
        match state_lookup(parts, k) {
            Some(_) => {
                lemma_state_lookup_index(parts, k);
                let w = choose|w: int|
                    0 <= w < parts.len() && (#[trigger] parts[w]).0 == k && parts[w].1
                        == state_lookup(parts, k)->Some_0;
                lemma_state_lookup_at(parts2, w);
            },
            None => {
                assert forall|a: int| 0 <= a < parts2.len() implies (#[trigger] parts2[a]).0
                    != k by {
                    if parts2[a].0 == k {
                        lemma_state_lookup_at(parts, a);
                    }
                }
                lemma_state_lookup_missing(parts2, k);
            },
        }
    }
}

/// Removing the entry at index `i` empties its own key's lookup and changes
/// no other key's.
pub proof fn lemma_lookup_remove(parts: Seq<(u64, PartitionState)>, i: int, k: u64)
    requires
        pkeys_unique(parts),
        0 <= i < parts.len(),
    ensures
        pkeys_unique(parts.remove(i)),
        state_lookup(parts.remove(i), k) == if parts[i].0 == k {
            None::<PartitionState>
        } else {
            state_lookup(parts, k)
        },
{
    let parts2 = parts.remove(i);
    assert forall|a: int, b: int|
        0 <= a < b < parts2.len() implies (#[trigger] parts2[a]).0 != (#[trigger] parts2[b]).0 by {
        let sa: int = if a < i {
            a
        } else {
            a + 1
        };
        let sb: int = if b < i {
            b
        } else {
            b + 1
        };
        assert(parts2[a] == parts[sa]);
        assert(parts2[b] == parts[sb]);
    }
    if parts[i].0 == k {
        assert forall|a: int| 0 <= a < parts2.len() implies (#[trigger] parts2[a]).0 != k by {
            let sa: int = if a < i {
                a
            } else {
                a + 1
            };
            assert(parts2[a] == parts[sa]);
            assert(parts[sa].0 != parts[i].0 || sa == i);
        }
        lemma_state_lookup_missing(parts2, k);
    } else {
        match state_lookup(parts, k) {
            Some(_) => {
                lemma_state_lookup_index(parts, k);
                let w = choose|w: int|
                    0 <= w < parts.len() && (#[trigger] parts[w]).0 == k && parts[w].1
                        == state_lookup(parts, k)->Some_0;
                let w2: int = if w < i {
                    w
                } else {
                    w - 1
                };
                assert(parts2[w2] == parts[w]);
                lemma_state_lookup_at(parts2, w2);
            },
            None => {
                assert forall|a: int| 0 <= a < parts2.len() implies (#[trigger] parts2[a]).0
                    != k by {
                    let sa: int = if a < i {
                        a
                    } else {
                        a + 1
                    };
                    assert(parts2[a] == parts[sa]);
                    if parts2[a].0 == k {
                        lemma_state_lookup_at(parts, sa);
                    }
                }
                lemma_state_lookup_missing(parts2, k);
            },
        }
    }
}

/// Appending an entry with a key the table does not hold adds exactly that
/// key's lookup.
pub proof fn lemma_lookup_push(parts: Seq<(u64, PartitionState)>, p: (u64, PartitionState), k: u64)
    requires
        pkeys_unique(parts),
        state_lookup(parts, p.0) is None,
    ensures
        pkeys_unique(parts.push(p)),
        state_lookup(parts.push(p), k) == if p.0 == k {
            Some(p.1)
        } else {
            state_lookup(parts, k)
        },
{
    let parts2 = parts.push(p);
    assert(parts2.drop_last() =~= parts);
    assert forall|a: int, b: int|
        0 <= a < b < parts2.len() implies (#[trigger] parts2[a]).0 != (#[trigger] parts2[b]).0 by {
        if b < parts.len() {
            assert(parts2[a] == parts[a]);
            assert(parts2[b] == parts[b]);
        } else {
            assert(parts2[a] == parts[a]);
            assert(parts2[b] == p);
            if parts[a].0 == p.0 {
                lemma_state_lookup_at(parts, a);
            }
        }
    }
}

/// Find the index of the entry carrying key `k`, if any.
pub fn find_pkey(parts: &Vec<(u64, PartitionState)>, k: u64) -> (r: Option<usize>)
    requires
        pkeys_unique(parts@),
    ensures
        match r {
            Some(i) => i < parts@.len() && parts@[i as int].0 == k && state_lookup(parts@, k)
                == Some(parts@[i as int].1),
            None => state_lookup(parts@, k) is None,
        },
{
    let mut i: usize = 0;
    while i < parts.len()
        invariant
            i <= parts@.len(),
            forall|j: int| 0 <= j < i ==> (#[trigger] parts@[j]).0 != k,
            pkeys_unique(parts@),
        decreases parts@.len() - i,
    {
        if parts[i].0 == k {
            proof {
                lemma_state_lookup_at(parts@, i as int);
            }
            return Some(i);
        }
        i = i + 1;
    }
    proof {
        lemma_state_lookup_missing(parts@, k);
    }
    None
}

} // verus!
