//! What the ways of merging batches have in common.

use crate::fixed_bytes::TxHash;
use crate::num::U256;
use crate::transaction::{Hashed, PendingTransaction, SimulationError};
use vstd::prelude::*;

verus! {

/// What the machine that executes transactions reports to a merge.
pub enum Event {
    /// nothing was done yet
    Start,
    /// the transaction was checked against the state, with these reasons to leave it out
    Checked(Vec<SimulationError>),
    /// the transaction was executed
    Executed {
        /// the gas that it used
        gas_used: u64,
        /// the priority fee that it paid
        reward: U256,
    },
}

/// What a merge wants done next.
#[derive(Clone, Copy, Debug)]
pub enum Action {
    /// check whether the transaction can go into the block
    Check(PendingTransaction),
    /// execute the transaction as the next one of the block
    Execute(PendingTransaction),
    /// nothing: no transaction is left
    Finish,
}

/// Where a merge stands between two events.
#[derive(Clone, Copy, Debug)]
pub enum Phase {
    /// nothing was asked for yet
    Idle,
    /// the head of a batch is being checked
    Checking { batch: usize, tx: PendingTransaction },
    /// the head of a batch is being executed
    Executing { batch: usize, tx: PendingTransaction },
    /// no transaction is left
    Finished,
}

impl Phase {
    /// Whether an event is an answer to what was asked for.
    pub open spec fn expects(self, event: Event) -> bool {
        match (self, event) {
            (Phase::Idle, Event::Start) => true,
            (Phase::Checking { .. }, Event::Checked(_)) => true,
            (Phase::Executing { .. }, Event::Executed { .. }) => true,
            _ => false,
        }
    }
}

/// The contents of nested vectors.
pub open spec fn nested<T>(v: Seq<Vec<T>>) -> Seq<Seq<T>> {
    v.map_values(|b: Vec<T>| b@)
}

/// A batch without its leading transactions that were dealt with already.
pub open spec fn drop_seen<T: Hashed>(batch: Seq<T>, seen: Seq<TxHash>) -> Seq<T>
    decreases batch.len(),
{
    if batch.len() > 0 && seen.contains(batch[0].id()) {
        drop_seen(batch.skip(1), seen)
    } else {
        batch
    }
}

/// All batches without their leading transactions that were dealt with already.
pub open spec fn drop_seen_all<T: Hashed>(batches: Seq<Seq<T>>, seen: Seq<TxHash>) -> Seq<Seq<T>> {
    batches.map_values(|b: Seq<T>| drop_seen(b, seen))
}

/// Whether a hash occurs in a list.
pub fn contains_hash(list: &Vec<TxHash>, hash: &TxHash) -> (r: bool)
    ensures
        r == list@.contains(*hash),
{
    let mut i: usize = 0;
    while i < list.len()
        invariant
            0 <= i <= list@.len(),
            forall|j: int| 0 <= j < i ==> list@[j] != *hash,
        decreases list@.len() - i,
    {
        if list[i] == *hash {
            assert(list@[i as int] == *hash);
            return true;
        }
        i = i + 1;
    }
    false
}

pub proof fn lemma_drop_seen_skip<T: Hashed>(batch: Seq<T>, seen: Seq<TxHash>, cut: int)
    requires
        0 <= cut <= batch.len(),
        forall|j: int| 0 <= j < cut ==> seen.contains((#[trigger] batch[j]).id()),
    ensures
        drop_seen(batch, seen) == drop_seen(batch.skip(cut), seen),
    decreases cut,
{
    if cut == 0 {
        assert(batch.skip(0) =~= batch);
    } else {
        assert(seen.contains(batch[0].id()));
        let rest = batch.skip(1);
        assert forall|j: int| 0 <= j < cut - 1 implies seen.contains((#[trigger] rest[j]).id()) by {
            assert(rest[j] == batch[j + 1]);
        }
        lemma_drop_seen_skip(rest, seen, cut - 1);
        assert(rest.skip(cut - 1) =~= batch.skip(cut));
    }
}

/// Removes the leading transactions of a batch that were dealt with already.
pub fn drop_seen_prefix(batch: &mut Vec<PendingTransaction>, seen: &Vec<TxHash>)
    ensures
        final(batch)@ == drop_seen(old(batch)@, seen@),
{
    let ghost all = batch@;
    let mut split: usize = 0;
    while split < batch.len() && contains_hash(seen, &batch[split].hash())
        invariant
            batch@ == all,
            0 <= split <= all.len(),
            forall|j: int| 0 <= j < split ==> seen@.contains((#[trigger] all[j]).id()),
        decreases all.len() - split,
    {
        split = split + 1;
    }
    let rest = batch.split_off(split);
    *batch = rest;
    proof {
        assert(rest@ =~= all.skip(split as int));
        lemma_drop_seen_skip(all, seen@, split as int);
    }
}

/// Removes the leading transactions of every batch that were dealt with already.
pub fn drop_seen_prefixes(batches: &mut Vec<Vec<PendingTransaction>>, seen: &Vec<TxHash>)
    ensures
        nested(final(batches)@) == drop_seen_all(nested(old(batches)@), seen@),
{
    let ghost before = batches@;
    let mut i: usize = 0;
    while i < batches.len()
        invariant
            batches@.len() == before.len(),
            0 <= i <= before.len(),
            forall|j: int| 0 <= j < i ==> (#[trigger] batches@[j])@ == drop_seen(before[j]@, seen@),
            forall|j: int| i <= j < before.len() ==> batches@[j] == before[j],
        decreases before.len() - i,
    {
        drop_seen_prefix(&mut batches[i], seen);
        i = i + 1;
    }
    assert(nested(batches@) =~= drop_seen_all(nested(before), seen@));
}

/// A merge that was not begun takes a start, one that has a transaction checked takes reasons, and one
/// that has a transaction executed takes the result; a finished one takes nothing more.
pub proof fn law_events_fit_the_phase(phase: Phase, event: Event)
    ensures
        phase.expects(event) <==> {
            ||| phase is Idle && event is Start
            ||| phase is Checking && event is Checked
            ||| phase is Executing && event is Executed
        },
{
}

/// Nested lists keep their order and their contents.
pub proof fn law_nested_lists<T>(v: Seq<Vec<T>>, i: int)
    ensures
        nested(v).len() == v.len(),
        0 <= i < v.len() ==> nested(v)[i] == v[i]@,
{
}

/// Of a batch exactly the leading transactions are dropped that were dealt with: what is left is the end
/// of the batch that begins with the first other one.
pub proof fn law_dealt_with_transactions_leave_the_front<T: Hashed>(batch: Seq<T>, seen: Seq<TxHash>, cut: int)
    requires
        0 <= cut <= batch.len(),
        forall|j: int| 0 <= j < cut ==> seen.contains((#[trigger] batch[j]).id()),
        cut < batch.len() ==> !seen.contains(batch[cut].id()),
    ensures
        drop_seen(batch, seen) == batch.skip(cut),
{
    lemma_drop_seen_skip(batch, seen, cut);
}

} // verus!
