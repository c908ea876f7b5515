//! Proposers take turns: the block takes the head of one batch after the other.
//!
//! The priority fee of a transaction goes to the proposer whose turn it was. With strict
//! attribution it goes to the proposer that is responsible for the transaction's hash, if that
//! proposer has the transaction in its batch too.

use crate::concurrent_proposer::batches::{
    drop_seen_prefixes, Action, Event, Phase,
};
use crate::fixed_bytes::TxHash;
use crate::num::U256;
use crate::transaction::{Hashed, PendingTransaction, SimulationError, TransactionExecutionOutcome};
use vstd::prelude::*;

verus! {

/// The place that lies `distance` turns after `start`, in a circle of `count` places.
pub open spec fn turn(start: int, distance: int, count: int) -> int {
    if start + distance < count {
        start + distance
    } else {
        start + distance - count
    }
}

/// The first place with a transaction, going round from `start`, at least `distance` turns away.
pub open spec fn next_turn(
    batches: Seq<Seq<PendingTransaction>>,
    start: int,
    distance: int,
) -> Option<int>
    decreases batches.len() - distance,
{
    if distance >= batches.len() {
        None
    } else if batches[turn(start, distance, batches.len() as int)].len() > 0 {
        Some(turn(start, distance, batches.len() as int))
    } else {
        next_turn(batches, start, distance + 1)
    }
}

/// Whether a batch holds a transaction with a given hash.
pub open spec fn batch_holds(batch: Seq<PendingTransaction>, hash: TxHash) -> bool {
    exists|i: int| 0 <= i < batch.len() && (#[trigger] batch[i]).id() == hash
}

/// The proposer that is responsible for a hash: the hash as a number, modulo the proposers.
pub open spec fn responsible_batch(hash: TxHash, count: int) -> int {
    crate::num::be_bytes_value(hash@) as int % count
}

/// The state of a merge in which proposers take turns.
#[verifier::ext_equal]
pub struct CyclingModel {
    /// whether fees go to the responsible proposer
    pub strict: bool,
    /// what is left of each batch
    pub batches: Seq<Seq<PendingTransaction>>,
    /// the transactions of the block
    pub block: Seq<PendingTransaction>,
    /// the transactions that were dealt with
    pub seen: Seq<TxHash>,
    /// the priority fees of each proposer
    pub fees: Seq<nat>,
    /// the transactions that were left out
    pub failing: Seq<(TxHash, TransactionExecutionOutcome)>,
    /// the proposer whose turn is next
    pub next: int,
    pub phase: Phase,
}

impl CyclingModel {
    /// The state before the first turn.
    pub open spec fn initial(strict: bool, batches: Seq<Seq<PendingTransaction>>) -> CyclingModel {
        CyclingModel {
            strict,
            batches,
            block: Seq::empty(),
            seen: Seq::empty(),
            fees: Seq::new(batches.len(), |i: int| 0),
            failing: Seq::empty(),
            next: 0,
            phase: Phase::Idle,
        }
    }

    /// Whether the state is one of a merge of at least one batch.
    pub open spec fn well_formed(self) -> bool {
        &&& 0 < self.batches.len() <= usize::MAX
        &&& self.fees.len() == self.batches.len()
        &&& 0 <= self.next < self.batches.len()
        &&& match self.phase {
            Phase::Checking { batch, tx } => batch < self.batches.len(),
            Phase::Executing { batch, tx } => batch < self.batches.len(),
            _ => true,
        }
    }

    /// The next turn: transactions that were dealt with leave the heads of the batches, and the
    /// next batch with a transaction offers its head.
    pub open spec fn advance(self) -> (CyclingModel, Action) {
        let batches = crate::concurrent_proposer::batches::drop_seen_all(self.batches, self.seen);
        let count = batches.len() as int;
        match next_turn(batches, self.next, 0) {
            None => (
                CyclingModel {
                    batches,
                    next: turn(self.next, 1, count),
                    phase: Phase::Finished,
                    ..self
                },
                Action::Finish,
            ),
            Some(batch) => (
                CyclingModel {
                    batches,
                    next: turn(batch, 1, count),
                    phase: Phase::Checking { batch: batch as usize, tx: batches[batch][0] },
                    ..self
                },
                Action::Check(batches[batch][0]),
            ),
        }
    }

    /// The proposer that gets the fee of a transaction that came from a given batch.
    pub open spec fn attributed(self, batch: int, hash: TxHash) -> int {
        let responsible = responsible_batch(hash, self.batches.len() as int);
        if self.strict && batch_holds(self.batches[responsible], hash) {
            responsible
        } else {
            batch
        }
    }

    /// The transaction goes into the block and its fee to a proposer.
    pub open spec fn include_tx(self, batch: int, tx: PendingTransaction, reward: nat) -> CyclingModel {
        let i = self.attributed(batch, tx.id());
        CyclingModel {
            block: self.block.push(tx),
            seen: self.seen.push(tx.id()),
            fees: self.fees.update(i, crate::num::u256_add(self.fees[i], reward)),
            ..self
        }
    }

    /// The transaction is left out for a reason.
    pub open spec fn reject_tx(self, tx: PendingTransaction, error: SimulationError) -> CyclingModel {
        CyclingModel {
            seen: self.seen.push(tx.id()),
            failing: self.failing.push((tx.id(), error.outcome(tx))),
            ..self
        }
    }

    /// The answer to an event.
    pub open spec fn step(self, event: Event) -> (CyclingModel, Action)
        recommends
            self.phase.expects(event),
    {
        match (self.phase, event) {
            (Phase::Checking { batch, tx }, Event::Checked(errors)) => if errors@.len() == 0 {
                (CyclingModel { phase: Phase::Executing { batch, tx }, ..self }, Action::Execute(tx))
            } else {
                self.reject_tx(tx, errors@[0]).advance()
            },
            (
                Phase::Executing { batch, tx },
                Event::Executed { gas_used, reward },
            ) => self.include_tx(batch as int, tx, reward@).advance(),
            _ => self.advance(),
        }
    }
}

pub proof fn lemma_next_turn(batches: Seq<Seq<PendingTransaction>>, start: int, distance: int)
    requires
        0 <= start < batches.len(),
        0 <= distance,
    ensures
        match next_turn(batches, start, distance) {
            Some(i) => 0 <= i < batches.len() && batches[i].len() > 0,
            None => forall|d: int|
                distance <= d < batches.len() ==> (#[trigger] batches[turn(
                    start,
                    d,
                    batches.len() as int,
                )]).len() == 0,
        },
    decreases batches.len() - distance,
{
    if distance < batches.len() && batches[turn(start, distance, batches.len() as int)].len() == 0 {
        lemma_next_turn(batches, start, distance + 1);
    }
}

proof fn lemma_skip_empty_turns(batches: Seq<Seq<PendingTransaction>>, start: int, distance: int)
    requires
        0 <= start < batches.len(),
        0 <= distance <= batches.len(),
        forall|d: int|
            0 <= d < distance ==> (#[trigger] batches[turn(start, d, batches.len() as int)]).len() == 0,
    ensures
        next_turn(batches, start, 0) == next_turn(batches, start, distance),
    decreases distance,
{
    if distance > 0 {
        lemma_skip_empty_turns(batches, start, distance - 1);
        assert(batches[turn(start, distance - 1, batches.len() as int)].len() == 0);
    }
}

/// Whether no transaction is offered exactly where every batch is empty.
pub proof fn lemma_no_turn_iff_all_empty(batches: Seq<Seq<PendingTransaction>>, start: int)
    requires
        0 <= start < batches.len(),
    ensures
        next_turn(batches, start, 0) is None <==> forall|i: int|
            0 <= i < batches.len() ==> (#[trigger] batches[i]).len() == 0,
{
    let count = batches.len() as int;
    lemma_next_turn(batches, start, 0);
    if next_turn(batches, start, 0) is None {
        assert forall|i: int| 0 <= i < batches.len() implies (#[trigger] batches[i]).len() == 0 by {
            let d = if i >= start { i - start } else { i + count - start };
            assert(batches[turn(start, d, count)].len() == 0);
        }
    }
}

/// The place one turn further.
fn successor(place: usize, count: usize) -> (r: usize)
    requires
        place < count,
    ensures
        r == turn(place as int, 1, count as int),
{
    proof {
        if place + 1 < count {
            vstd::arithmetic::div_mod::lemma_small_mod((place + 1) as nat, count as nat);
        } else {
            vstd::arithmetic::div_mod::lemma_mod_self_0(count as int);
        }
    }
    (place + 1) % count
}

fn holds_transaction(batch: &Vec<PendingTransaction>, hash: &TxHash) -> (r: bool)
    ensures
        r == batch_holds(batch@, *hash),
{
    let mut i: usize = 0;
    while i < batch.len()
        invariant
            0 <= i <= batch@.len(),
            forall|j: int| 0 <= j < i ==> (#[trigger] batch@[j]).id() != *hash,
        decreases batch@.len() - i,
    {
        if batch[i].hash() == *hash {
            assert(batch@[i as int].id() == *hash);
            return true;
        }
        i = i + 1;
    }
    false
}

/// A merge in which proposers take turns.
pub struct Cycling {
    strict: bool,
    batches: Vec<Vec<PendingTransaction>>,
    block: Vec<PendingTransaction>,
    seen: Vec<TxHash>,
    priority_fees_per_batch: Vec<U256>,
    failing_transactions: Vec<(TxHash, TransactionExecutionOutcome)>,
    next_batch_index: usize,
    phase: Phase,
}

impl View for Cycling {
    type V = CyclingModel;

    closed spec fn view(&self) -> CyclingModel {
        CyclingModel {
            strict: self.strict,
            batches: crate::concurrent_proposer::batches::nested(self.batches@),
            block: self.block@,
            seen: self.seen@,
            fees: self.priority_fees_per_batch@.map_values(|f: U256| f@),
            failing: self.failing_transactions@,
            next: self.next_batch_index as int,
            phase: self.phase,
        }
    }
}

impl Cycling {
    /// A merge of batches that is about to begin.
    pub fn new(strict: bool, batches: Vec<Vec<PendingTransaction>>) -> (r: Cycling)
        requires
            batches@.len() > 0,
        ensures
            r@ == CyclingModel::initial(strict, crate::concurrent_proposer::batches::nested(batches@)),
            r@.well_formed(),
    {
        let mut fees: Vec<U256> = Vec::new();
        while fees.len() < batches.len()
            invariant
                fees@.len() <= batches@.len(),
                forall|i: int| 0 <= i < fees@.len() ==> (#[trigger] fees@[i])@ == 0,
            decreases batches@.len() - fees@.len(),
        {
            fees.push(U256::zero());
        }
        let r = Cycling {
            strict,
            batches,
            block: Vec::new(),
            seen: Vec::new(),
            priority_fees_per_batch: fees,
            failing_transactions: Vec::new(),
            next_batch_index: 0,
            phase: Phase::Idle,
        };
        assert(r@ =~= CyclingModel::initial(
            strict,
            crate::concurrent_proposer::batches::nested(batches@),
        ));
        r
    }

    fn advance(&mut self) -> (action: Action)
        requires
            old(self)@.well_formed(),
        ensures
            final(self)@.well_formed(),
            (final(self)@, action) == old(self)@.advance(),
    {
        let ghost start = self.next_batch_index as int;
        drop_seen_prefixes(&mut self.batches, &self.seen);
        let ghost batches = crate::concurrent_proposer::batches::nested(self.batches@);
        assert(batches.len() == old(self)@.batches.len());
        let count = self.batches.len();
        let mut selected: usize = self.next_batch_index;
        let mut turns: usize = 0;
        while turns < count && self.batches[selected].len() == 0
            invariant
                batches == crate::concurrent_proposer::batches::nested(self.batches@),
                count == batches.len(),
                self@ == (CyclingModel { batches, ..old(self)@ }),
                0 <= start < count,
                0 <= turns <= count,
                selected == turn(start, turns as int, count as int) || turns == count,
                selected < count,
                forall|d: int|
                    0 <= d < turns ==> (#[trigger] batches[turn(start, d, count as int)]).len() == 0,
            decreases count - turns,
        {
            assert(batches[selected as int] == self.batches@[selected as int]@);
            turns = turns + 1;
            selected = successor(selected, count);
        }
        proof {
            lemma_skip_empty_turns(batches, start, turns as int);
            lemma_next_turn(batches, start, turns as int);
        }
        if turns == count {
            self.next_batch_index = successor(self.next_batch_index, count);
            self.phase = Phase::Finished;
            Action::Finish
        } else {
            assert(batches[selected as int] == self.batches@[selected as int]@);
            let tx = self.batches[selected][0];
            self.next_batch_index = successor(selected, count);
            self.phase = Phase::Checking { batch: selected, tx };
            Action::Check(tx)
        }
    }

    fn attributed_batch(&self, batch: usize, hash: &TxHash) -> (r: usize)
        requires
            self@.well_formed(),
            batch < self@.batches.len(),
        ensures
            r == self@.attributed(batch as int, *hash),
            r < self@.batches.len(),
    {
        if !self.strict {
            return batch;
        }
        let hash_as_number = U256::from_fixed_bytes(*hash);
        let responsible = hash_as_number.rem(U256::from_usize(self.batches.len())).to_usize();
        assert(self@.batches[responsible as int] == self.batches@[responsible as int]@);
        if holds_transaction(&self.batches[responsible], hash) {
            responsible
        } else {
            batch
        }
    }

    /// Takes in what was done and tells what to do next.
    pub fn step(&mut self, event: Event) -> (action: Action)
        requires
            old(self)@.well_formed(),
            old(self)@.phase.expects(event),
        ensures
            final(self)@.well_formed(),
            (final(self)@, action) == old(self)@.step(event),
    {
        match (self.phase, event) {
            (Phase::Checking { batch, tx }, Event::Checked(errors)) => {
                if errors.len() == 0 {
                    self.phase = Phase::Executing { batch, tx };
                    return Action::Execute(tx);
                }
                let tx_hash = tx.hash();
                self.seen.push(tx_hash);
                self.failing_transactions.push((tx_hash, errors[0].into_outcome(tx)));
                assert(self@ =~= old(self)@.reject_tx(tx, errors@[0]));
            },
            (Phase::Executing { batch, tx }, Event::Executed { gas_used: _, reward }) => {
                let tx_hash = tx.hash();
                let attributed = self.attributed_batch(batch, &tx_hash);
                self.block.push(tx);
                self.seen.push(tx_hash);
                let fee = self.priority_fees_per_batch[attributed].plus(reward);
                self.priority_fees_per_batch[attributed] = fee;
                assert(self@ =~= old(self)@.include_tx(batch as int, tx, reward@));
            },
            _ => {},
        }
        self.advance()
    }

    /// The transactions of the block so far.
    pub fn block(&self) -> (r: &Vec<PendingTransaction>)
        ensures
            r@ == self@.block,
    {
        &self.block
    }

    pub(crate) fn into_parts(self) -> (r: (Vec<(TxHash, TransactionExecutionOutcome)>, Vec<U256>))
        ensures
            r.0@ == self@.failing,
            r.1@.map_values(|f: U256| f@) == self@.fees,
    {
        (self.failing_transactions, self.priority_fees_per_batch)
    }
}

} // verus!
