//! Optimistic-concurrency bulk import: each desired key is read, then
//! written conditioned on the modification index that read observed. A key
//! the store does not hold is a create (expected index 0); one it holds is
//! an update at the observed index; a rejected conditional write is a
//! detected race, reported for that key alone. Keys are independent: no
//! cross-key atomicity, and one key's failure never aborts the rest.
//!
//! The store calls themselves happen outside; this module holds every
//! decision: which expected index a write must carry, how one key's events
//! classify, and how a batch's outcomes aggregate.
//!
//! Policy on an unreachable store: unreachability is handled per key, never
//! fatally. A key whose initial read fails is reported as a transport
//! failure and the batch goes on — so a store that is down altogether
//! yields a report in which every key failed, not an abort.

use vstd::prelude::*;
use crate::flat::FlatMapping;

verus! {

/// What the store answered when the importer read one key.
#[derive(Clone, Copy, PartialEq, Eq, Structural, Debug)]
pub enum FetchResult {
    /// The key is absent.
    NotFound,
    /// The key exists; its current modification index.
    Found(u64),
    /// The store could not be reached for this key.
    Transport,
}

/// What the store answered to one conditional write.
#[derive(Clone, Copy, PartialEq, Eq, Structural, Debug)]
pub enum PutResult {
    /// The write landed.
    Done,
    /// The write was rejected: the key's index no longer matched.
    Conflict,
    /// The store could not be reached for this write.
    Transport,
}

/// Why one key of an import did not land.
#[derive(Clone, Copy, PartialEq, Eq, Structural, Debug)]
pub enum FailReason {
    /// A store call for this key failed outright.
    Transport,
    /// The key changed between the importer's read and its write.
    Conflict,
}

/// The events one key's read-then-conditional-write produced.
#[derive(Clone, Copy, PartialEq, Eq, Structural, Debug)]
pub enum KeyEvents {
    /// The initial read failed; no write was attempted.
    FetchFailed,
    /// The key was absent; a create (expected index 0) was answered so.
    Absent(PutResult),
    /// The key was present at this index; an update at it was answered so.
    Present(u64, PutResult),
}

/// How one key fared.
#[derive(Clone, Copy, PartialEq, Eq, Structural, Debug)]
pub enum KeyOutcome {
    Created,
    Updated,
    Failed(FailReason),
}

/// The expected index the conditional write for a key must carry, from
/// what the read observed: 0 for an absent key — the write must create —
/// else the observed index; no write at all when the read itself failed.
pub open spec fn plan_spec(f: FetchResult) -> Result<u64, FailReason> {
    match f {
        FetchResult::NotFound => Ok(0u64),
        FetchResult::Found(i) => Ok(i),
        FetchResult::Transport => Err(FailReason::Transport),
    }
}

/// Decides the conditional write for one key.
pub fn plan_write(f: &FetchResult) -> (r: Result<u64, FailReason>)
    ensures
        r == plan_spec(*f),
{
    match f {
        FetchResult::NotFound => Ok(0u64),
        FetchResult::Found(i) => Ok(*i),
        FetchResult::Transport => Err(FailReason::Transport),
    }
}

/// How one key's events classify: created only when an absent key's write
/// landed, updated only when a present key's write landed; a rejected
/// write is a conflict failure, an unreachable store a transport failure.
pub open spec fn outcome_spec(ev: KeyEvents) -> KeyOutcome {
    match ev {
        KeyEvents::FetchFailed => KeyOutcome::Failed(FailReason::Transport),
        KeyEvents::Absent(p) => match p {
            PutResult::Done => KeyOutcome::Created,
            PutResult::Conflict => KeyOutcome::Failed(FailReason::Conflict),
            PutResult::Transport => KeyOutcome::Failed(FailReason::Transport),
        },
        KeyEvents::Present(_, p) => match p {
            PutResult::Done => KeyOutcome::Updated,
            PutResult::Conflict => KeyOutcome::Failed(FailReason::Conflict),
            PutResult::Transport => KeyOutcome::Failed(FailReason::Transport),
        },
    }
}

/// Classifies one key's events. A write's result is never
/// assumed: only an answered, accepted write counts as success.
pub fn key_outcome(ev: &KeyEvents) -> (r: KeyOutcome)
    ensures
        r == outcome_spec(*ev),
{
    match ev {
        KeyEvents::FetchFailed => KeyOutcome::Failed(FailReason::Transport),
        KeyEvents::Absent(p) => match p {
            PutResult::Done => KeyOutcome::Created,
            PutResult::Conflict => KeyOutcome::Failed(FailReason::Conflict),
            PutResult::Transport => KeyOutcome::Failed(FailReason::Transport),
        },
        KeyEvents::Present(_, p) => match p {
            PutResult::Done => KeyOutcome::Updated,
            PutResult::Conflict => KeyOutcome::Failed(FailReason::Conflict),
            PutResult::Transport => KeyOutcome::Failed(FailReason::Transport),
        },
    }
}

/// How many keys of a batch were created.
pub open spec fn count_created(evs: Seq<KeyEvents>) -> int
    decreases evs.len(),
{
    if evs.len() == 0 {
        0
    } else {
        count_created(evs.drop_last()) + if outcome_spec(evs.last()) is Created {
            1int
        } else {
            0int
        }
    }
}

/// How many keys of a batch were updated.
pub open spec fn count_updated(evs: Seq<KeyEvents>) -> int
    decreases evs.len(),
{
    if evs.len() == 0 {
        0
    } else {
        count_updated(evs.drop_last()) + if outcome_spec(evs.last()) is Updated {
            1int
        } else {
            0int
        }
    }
}

/// The failures of a batch, in key order: each failed key with its reason.
pub open spec fn failures_of(ks: Seq<Seq<char>>, evs: Seq<KeyEvents>) -> Seq<
    (Seq<char>, FailReason),
>
    decreases evs.len(),
{
    if evs.len() == 0 {
        Seq::empty()
    } else {
        failures_of(ks.drop_last(), evs.drop_last()) + match outcome_spec(evs.last()) {
            KeyOutcome::Failed(r) => seq![(ks.last(), r)],
            _ => Seq::empty(),
        }
    }
}

/// The keys of a desired mapping, in order.
pub open spec fn keys_of(ps: Seq<(String, String)>) -> Seq<Seq<char>> {
    ps.map_values(|p: (String, String)| p.0@)
}

/// The failures a run reports, as character sequences.
pub open spec fn failed_view(v: Seq<(String, FailReason)>) -> Seq<(Seq<char>, FailReason)> {
    v.map_values(|p: (String, FailReason)| (p.0@, p.1))
}

/// The aggregate report of one import batch: counts, and the failed keys
/// with their reasons, in the order walked.
pub struct ImportOutcome {
    pub created: u64,
    pub updated: u64,
    pub failed: Vec<(String, FailReason)>,
}

/// Aggregates one import batch: the desired mapping's keys, walked
/// in order, each classified by the events the store answered for it. A
/// partially applied batch is an expected, fully reported outcome: counts
/// and failures say exactly which keys landed and which did not.
pub fn run_import(desired: &FlatMapping, events: &Vec<KeyEvents>) -> (r: ImportOutcome)
    requires
        events@.len() == desired.pairs@.len(),
    ensures
        r.created == count_created(events@),
        r.updated == count_updated(events@),
        failed_view(r.failed@) == failures_of(keys_of(desired.pairs@), events@),
{
    let mut created: u64 = 0;
    let mut updated: u64 = 0;
    let mut failed: Vec<(String, FailReason)> = Vec::new();
    let n = desired.pairs.len();
    let ghost ks = keys_of(desired.pairs@);
    let mut i: usize = 0;
    proof {
        assert(failed_view(failed@) =~= failures_of(ks.take(0), events@.take(0)));
    }
    while i < n
        invariant
            i <= n,
            n == desired.pairs@.len(),
            events@.len() == n,
            ks == keys_of(desired.pairs@),
            created == count_created(events@.take(i as int)),
            updated == count_updated(events@.take(i as int)),
            created + updated + failed@.len() == i,
            failed_view(failed@) == failures_of(ks.take(i as int), events@.take(i as int)),
        decreases n - i,
    {
        proof {
            assert(events@.take(i + 1).drop_last() =~= events@.take(i as int));
            assert(events@.take(i + 1).last() == events@[i as int]);
            assert(ks.take(i + 1).drop_last() =~= ks.take(i as int));
            assert(ks.take(i + 1).last() == ks[i as int]);
        }
        let ghost failed0 = failed@;
        match key_outcome(&events[i]) {
            KeyOutcome::Created => {
                created = created + 1;
            },
            KeyOutcome::Updated => {
                updated = updated + 1;
            },
            KeyOutcome::Failed(reason) => {
                let key = desired.pairs[i].0.clone();
                failed.push((key, reason));
                proof {
                    assert(failed_view(failed@) =~= failed_view(failed0) + seq![
                        (ks[i as int], reason),
                    ]);
                }
            },
        }
        i = i + 1;
    }
    proof {
        assert(events@.take(n as int) =~= events@);
        assert(ks.take(n as int) =~= ks);
    }
    ImportOutcome { created, updated, failed }
}

/// Rerunning an import over an unchanged store is pure update: when every
/// key is already present and every conditional write lands, the batch
/// creates nothing, updates every key, and reports no failures.
pub proof fn lemma_import_idempotent(ks: Seq<Seq<char>>, evs: Seq<KeyEvents>)
    requires
        forall|i: int| 0 <= i < evs.len() ==> (#[trigger] evs[i]) matches KeyEvents::Present(
            _,
            PutResult::Done,
        ),
    ensures
        count_created(evs) == 0,
        count_updated(evs) == evs.len(),
        failures_of(ks, evs).len() == 0,
    decreases evs.len(),
{
    if evs.len() > 0 {
        assert(evs.last() == evs[evs.len() - 1]);
        assert(forall|i: int|
            0 <= i < evs.drop_last().len() ==> (#[trigger] evs.drop_last()[i]) == evs[i]);
        lemma_import_idempotent(ks.drop_last(), evs.drop_last());
        assert(outcome_spec(evs.last()) is Updated);
    }
}

/// Every failing key is reported, with its reason, under its own key.
pub proof fn lemma_failure_reported(ks: Seq<Seq<char>>, evs: Seq<KeyEvents>, i: int, r: FailReason)
    requires
        ks.len() == evs.len(),
        0 <= i < evs.len(),
        outcome_spec(evs[i]) == KeyOutcome::Failed(r),
    ensures
        failures_of(ks, evs).contains((ks[i], r)),
    decreases evs.len(),
{
    if i == evs.len() - 1 {
        let fs = failures_of(ks, evs);
        assert(fs.last() == (ks[i], r));
        assert(fs.contains((ks[i], r)));
    } else {
        assert(ks.drop_last()[i] == ks[i]);
        assert(evs.drop_last()[i] == evs[i]);
        lemma_failure_reported(ks.drop_last(), evs.drop_last(), i, r);
        let f0 = failures_of(ks.drop_last(), evs.drop_last());
        let j = choose|j: int| 0 <= j < f0.len() && f0[j] == (ks[i], r);
        assert(failures_of(ks, evs)[j] == (ks[i], r));
        assert(failures_of(ks, evs).contains((ks[i], r)));
    }
}

/// A key's contribution to the counts is its own: dropping it from the
/// batch subtracts exactly its outcome.
pub proof fn lemma_counts_remove(evs: Seq<KeyEvents>, j: int)
    requires
        0 <= j < evs.len(),
    ensures
        count_created(evs) == count_created(evs.remove(j)) + if outcome_spec(
            evs[j],
        ) is Created {
            1int
        } else {
            0int
        },
        count_updated(evs) == count_updated(evs.remove(j)) + if outcome_spec(
            evs[j],
        ) is Updated {
            1int
        } else {
            0int
        },
    decreases evs.len(),
{
    if j == evs.len() - 1 {
        assert(evs.remove(j) =~= evs.drop_last());
        assert(evs.last() == evs[j]);
    } else {
        assert(evs.remove(j).drop_last() =~= evs.drop_last().remove(j));
        assert(evs.drop_last()[j] == evs[j]);
        lemma_counts_remove(evs.drop_last(), j);
        assert(evs.remove(j).last() == evs.last()) by {
            assert(evs.remove(j)[evs.len() - 2] == evs[evs.len() - 1]);
        }
    }
}

/// Race detection is per key: a conflicting conditional write is reported
/// for exactly its own key, and every other key's outcome is untouched —
/// two batches that differ only in that key's events agree on all the rest.
pub proof fn lemma_race_isolated(
    ks: Seq<Seq<char>>,
    evs1: Seq<KeyEvents>,
    evs2: Seq<KeyEvents>,
    j: int,
)
    requires
        ks.len() == evs1.len(),
        evs1.len() == evs2.len(),
        0 <= j < evs1.len(),
        forall|i: int| 0 <= i < evs1.len() && i != j ==> #[trigger] evs1[i] == evs2[i],
        outcome_spec(evs2[j]) == KeyOutcome::Failed(FailReason::Conflict),
    ensures
        failures_of(ks, evs2).contains((ks[j], FailReason::Conflict)),
        evs1.remove(j) == evs2.remove(j),
        failures_of(ks.remove(j), evs1.remove(j)) == failures_of(ks.remove(j), evs2.remove(j)),
        count_created(evs2) == count_created(evs1.remove(j)),
        count_updated(evs2) == count_updated(evs1.remove(j)),
{
    lemma_failure_reported(ks, evs2, j, FailReason::Conflict);
    assert(evs1.remove(j) =~= evs2.remove(j)) by {
        assert forall|i: int| 0 <= i < evs1.len() - 1 implies evs1.remove(j)[i] == evs2.remove(
            j,
        )[i] by {
            if i < j {
                assert(evs1.remove(j)[i] == evs1[i]);
                assert(evs2.remove(j)[i] == evs2[i]);
            } else {
                assert(evs1.remove(j)[i] == evs1[i + 1]);
                assert(evs2.remove(j)[i] == evs2[i + 1]);
            }
        }
    }
    lemma_counts_remove(evs2, j);
}

} // verus!
