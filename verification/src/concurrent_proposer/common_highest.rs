//! The block takes the best paid head of all batches, and the fees are shared.
//!
//! Every proposer is credited with the gas of those transactions of its batch that went into the
//! block, whoever offered them first.

use crate::concurrent_proposer::batches;
use crate::concurrent_proposer::batches::{Action, Event, Phase};
use crate::fixed_bytes::TxHash;
use crate::num;
use crate::table;
use crate::table::Table;
use crate::transaction;
use crate::transaction::{Hashed, PendingTransaction, SimulationError, TransactionExecutionOutcome};
use vstd::prelude::*;

verus! {

/// The hashes of transactions that were dealt with.
pub open spec fn hashes(seen: Seq<(TxHash, u64)>) -> Seq<TxHash> {
    seen.map_values(|e: (TxHash, u64)| e.0)
}

/// The gas that a transaction used that was dealt with.
pub open spec fn gas_of(seen: Seq<(TxHash, u64)>, hash: TxHash) -> u64 {
    table::entries_map(seen)[hash]
}

/// A credit after the gas of the leading transactions of a batch that were dealt with already.
pub open spec fn credit_seen(batch: Seq<PendingTransaction>, seen: Seq<(TxHash, u64)>, credit: u64) -> u64
    decreases batch.len(),
{
    if batch.len() > 0 && hashes(seen).contains(batch[0].id()) {
        credit_seen(batch.skip(1), seen, num::u64_sat_add(credit, gas_of(seen, batch[0].id())))
    } else {
        credit
    }
}

/// The price that the head of a batch pays.
pub open spec fn head_price(batch: Seq<PendingTransaction>, base_fee: u128) -> u128 {
    transaction::effective_price(batch[0].transaction, base_fee)
}

/// Of the first `count` batches the one whose head pays most, and the last of those that pay the
/// same.
pub open spec fn best_head(
    batches: Seq<Seq<PendingTransaction>>,
    base_fee: u128,
    count: int,
) -> Option<int>
    decreases count,
{
    if count <= 0 {
        None
    } else if batches[count - 1].len() == 0 {
        best_head(batches, base_fee, count - 1)
    } else {
        match best_head(batches, base_fee, count - 1) {
            None => Some(count - 1),
            Some(best) => if head_price(batches[best], base_fee) <= head_price(
                batches[count - 1],
                base_fee,
            ) {
                Some(count - 1)
            } else {
                Some(best)
            },
        }
    }
}

/// Whether the head of a batch has a given hash.
pub open spec fn heads_with(batch: Seq<PendingTransaction>, hash: TxHash) -> bool {
    batch.len() > 0 && batch[0].id() == hash
}

/// The batches without the heads that have a given hash.
pub open spec fn without_head(
    batches: Seq<Seq<PendingTransaction>>,
    hash: TxHash,
) -> Seq<Seq<PendingTransaction>> {
    batches.map_values(
        |b: Seq<PendingTransaction>|
            if heads_with(b, hash) {
                b.skip(1)
            } else {
                b
            },
    )
}

/// The state of a merge by price.
#[verifier::ext_equal]
pub struct CommonHighestModel {
    pub base_fee: u128,
    /// what is left of each batch
    pub batches: Seq<Seq<PendingTransaction>>,
    /// the transactions of the block
    pub block: Seq<PendingTransaction>,
    /// the transactions that were dealt with, and the gas that they used
    pub seen: Seq<(TxHash, u64)>,
    /// the gas that each proposer is credited with
    pub gas_contributed: Seq<u64>,
    /// the transactions that were left out
    pub failing: Seq<(TxHash, TransactionExecutionOutcome)>,
    pub phase: Phase,
}

impl CommonHighestModel {
    /// The state before the first transaction.
    pub open spec fn initial(base_fee: u128, batches: Seq<Seq<PendingTransaction>>) -> CommonHighestModel {
        CommonHighestModel {
            base_fee,
            batches,
            block: Seq::empty(),
            seen: Seq::empty(),
            gas_contributed: Seq::new(batches.len(), |i: int| 0),
            failing: Seq::empty(),
            phase: Phase::Idle,
        }
    }

    /// Whether each proposer has a credit.
    pub open spec fn well_formed(self) -> bool {
        &&& self.batches.len() <= usize::MAX
        &&& self.gas_contributed.len() == self.batches.len()
    }

    /// Transactions that were dealt with leave the heads of the batches, for a credit of their gas.
    pub open spec fn cleaned(self) -> CommonHighestModel {
        CommonHighestModel {
            batches: batches::drop_seen_all(self.batches, hashes(self.seen)),
            gas_contributed: Seq::new(
                self.gas_contributed.len(),
                |i: int| credit_seen(self.batches[i], self.seen, self.gas_contributed[i]),
            ),
            ..self
        }
    }

    /// The next transaction: the best paid head.
    pub open spec fn advance(self) -> (CommonHighestModel, Action) {
        let m = self.cleaned();
        match best_head(m.batches, m.base_fee, m.batches.len() as int) {
            None => (CommonHighestModel { phase: Phase::Finished, ..m }, Action::Finish),
            Some(batch) => (
                CommonHighestModel {
                    phase: Phase::Checking { batch: batch as usize, tx: m.batches[batch][0] },
                    ..m
                },
                Action::Check(m.batches[batch][0]),
            ),
        }
    }

    /// The transaction goes into the block, its gas is credited to all proposers that have it at the
    /// head of their batch, and it leaves the heads of the batches.
    pub open spec fn include_tx(self, tx: PendingTransaction, gas_used: u64) -> CommonHighestModel {
        CommonHighestModel {
            block: self.block.push(tx),
            seen: table::entries_put(self.seen, tx.id(), gas_used),
            gas_contributed: Seq::new(
                self.gas_contributed.len(),
                |i: int|
                    if heads_with(self.batches[i], tx.id()) {
                        num::u64_sat_add(self.gas_contributed[i], gas_used)
                    } else {
                        self.gas_contributed[i]
                    },
            ),
            batches: without_head(self.batches, tx.id()),
            ..self
        }
    }

    /// The transaction is left out for a reason, and leaves the heads of the batches.
    pub open spec fn reject_tx(self, tx: PendingTransaction, error: SimulationError) -> CommonHighestModel {
        CommonHighestModel {
            seen: table::entries_put(self.seen, tx.id(), 0),
            failing: self.failing.push((tx.id(), error.outcome(tx))),
            batches: without_head(self.batches, tx.id()),
            ..self
        }
    }

    /// The answer to an event.
    pub open spec fn step(self, event: Event) -> (CommonHighestModel, Action)
        recommends
            self.phase.expects(event),
    {
        match (self.phase, event) {
            (Phase::Checking { batch, tx }, Event::Checked(errors)) => if errors@.len() == 0 {
                (CommonHighestModel { phase: Phase::Executing { batch, tx }, ..self }, Action::Execute(tx))
            } else {
                self.reject_tx(tx, errors@[0]).advance()
            },
            (
                Phase::Executing { batch, tx },
                Event::Executed { gas_used, reward },
            ) => self.include_tx(tx, gas_used).advance(),
            _ => self.advance(),
        }
    }
}

/// The chosen head is one of a batch, no head pays more, and those of later batches pay less.
pub proof fn law_best_paid_head_wins(batches: Seq<Seq<PendingTransaction>>, base_fee: u128, count: int)
    requires
        0 <= count <= batches.len(),
    ensures
        match best_head(batches, base_fee, count) {
            None => forall|j: int| 0 <= j < count ==> (#[trigger] batches[j]).len() == 0,
            Some(i) => {
                &&& 0 <= i < count
                &&& batches[i].len() > 0
                &&& forall|j: int|
                    0 <= j < count && (#[trigger] batches[j]).len() > 0 ==> {
                        let price = transaction::effective_price(batches[j][0].transaction, base_fee);
                        let best = transaction::effective_price(batches[i][0].transaction, base_fee);
                        &&& price <= best
                        &&& j > i ==> price < best
                    }
            },
        },
    decreases count,
{
    if count > 0 {
        law_best_paid_head_wins(batches, base_fee, count - 1);
    }
}

pub proof fn lemma_hashes(seen: Seq<(TxHash, u64)>, hash: TxHash)
    requires
        table::keys_distinct(seen),
    ensures
        hashes(seen).contains(hash) <==> table::entries_map(seen).contains_key(hash),
{
    table::lemma_entries_map(seen);
    assert(table::entries_map(seen).contains_key(hash) <==> table::has_key(seen, hash));
    if hashes(seen).contains(hash) {
        let i = choose|i: int| 0 <= i < hashes(seen).len() && hashes(seen)[i] == hash;
        assert(seen[i].0 == hash);
    }
    if table::has_key(seen, hash) {
        let i = choose|i: int| 0 <= i < seen.len() && (#[trigger] seen[i]).0 == hash;
        assert(hashes(seen)[i] == hash);
    }
}

/// A merge by price with shared fees.
pub struct CommonHighest {
    base_fee: u128,
    batches: Vec<Vec<PendingTransaction>>,
    block: Vec<PendingTransaction>,
    seen: Table<32, u64>,
    gas_contributed: Vec<u64>,
    failing_transactions: Vec<(TxHash, TransactionExecutionOutcome)>,
    phase: Phase,
}

impl View for CommonHighest {
    type V = CommonHighestModel;

    closed spec fn view(&self) -> CommonHighestModel {
        CommonHighestModel {
            base_fee: self.base_fee,
            batches: batches::nested(self.batches@),
            block: self.block@,
            seen: self.seen.entries(),
            gas_contributed: self.gas_contributed@,
            failing: self.failing_transactions@,
            phase: self.phase,
        }
    }
}

/// Removes the leading transactions of a batch that were dealt with already, and credits their gas.
fn credit_seen_prefix(batch: &mut Vec<PendingTransaction>, seen: &Table<32, u64>, credit: u64) -> (r: u64)
    ensures
        final(batch)@ == batches::drop_seen(old(batch)@, hashes(seen.entries())),
        r == credit_seen(old(batch)@, seen.entries(), credit),
{
    let ghost all = batch@;
    let ghost gone = seen.entries();
    let mut sum: u64 = credit;
    let mut split: usize = 0;
    proof {
        assert(all.skip(0) =~= all);
    }
    loop
        invariant
            batch@ == all,
            gone == seen.entries(),
            0 <= split <= all.len(),
            forall|j: int| 0 <= j < split ==> hashes(gone).contains((#[trigger] all[j]).id()),
            credit_seen(all, gone, credit) == credit_seen(all.skip(split as int), gone, sum),
        ensures
            split == all.len() || !hashes(gone).contains(all[split as int].id()),
        decreases all.len() - split,
    {
        if split == batch.len() {
            break;
        }
        let gas_used = seen.get(&batch[split].hash());
        proof {
            lemma_hashes(gone, all[split as int].id());
        }
        match gas_used {
            None => {
                break;
            },
            Some(gas) => {
                assert(all.skip(split as int)[0] == all[split as int]);
                assert(all.skip(split as int).skip(1) =~= all.skip(split + 1));
                sum = sum.saturating_add(*gas);
                split = split + 1;
            },
        }
    }
    let rest = batch.split_off(split);
    *batch = rest;
    proof {
        assert(rest@ =~= all.skip(split as int));
        batches::lemma_drop_seen_skip(all, hashes(gone), split as int);
    }
    sum
}

/// Removes the heads that have a given hash.
fn remove_heads(batches: &mut Vec<Vec<PendingTransaction>>, hash: &TxHash)
    ensures
        batches::nested(final(batches)@) == without_head(batches::nested(old(batches)@), *hash),
{
    let ghost before = batches@;
    let mut i: usize = 0;
    while i < batches.len()
        invariant
            batches@.len() == before.len(),
            0 <= i <= before.len(),
            forall|j: int|
                0 <= j < i ==> (#[trigger] batches@[j])@ == if heads_with(before[j]@, *hash) {
                    before[j]@.skip(1)
                } else {
                    before[j]@
                },
            forall|j: int| i <= j < before.len() ==> batches@[j] == before[j],
        decreases before.len() - i,
    {
        if batches[i].len() > 0 && batches[i][0].hash() == *hash {
            batches[i].remove(0);
            assert(batches@[i as int]@ =~= before[i as int]@.skip(1));
        }
        i = i + 1;
    }
    assert(batches::nested(batches@) =~= without_head(batches::nested(before), *hash));
}

impl CommonHighest {
    /// A merge of batches that is about to begin.
    pub fn new(base_fee: u128, batches: Vec<Vec<PendingTransaction>>) -> (r: CommonHighest)
        ensures
            r@ == CommonHighestModel::initial(base_fee, batches::nested(batches@)),
            r@.well_formed(),
    {
        let mut gas_contributed: Vec<u64> = Vec::new();
        while gas_contributed.len() < batches.len()
            invariant
                gas_contributed@.len() <= batches@.len(),
                forall|i: int| 0 <= i < gas_contributed@.len() ==> gas_contributed@[i] == 0,
            decreases batches@.len() - gas_contributed@.len(),
        {
            gas_contributed.push(0);
        }
        let r = CommonHighest {
            base_fee,
            batches,
            block: Vec::new(),
            seen: Table::new(),
            gas_contributed,
            failing_transactions: Vec::new(),
            phase: Phase::Idle,
        };
        assert(r@ =~= CommonHighestModel::initial(base_fee, batches::nested(batches@)));
        r
    }

    fn clean_up(&mut self)
        requires
            old(self)@.well_formed(),
        ensures
            final(self)@ == old(self)@.cleaned(),
    {
        let ghost before = self@;
        let ghost batches0 = self.batches@;
        let ghost gas0 = self.gas_contributed@;
        let mut i: usize = 0;
        while i < self.batches.len()
            invariant
                before.well_formed(),
                before.batches == batches::nested(batches0),
                before.gas_contributed == gas0,
                self@ == (CommonHighestModel {
                    batches: self@.batches,
                    gas_contributed: self@.gas_contributed,
                    ..before
                }),
                self.batches@.len() == batches0.len(),
                self.gas_contributed@.len() == batches0.len(),
                0 <= i <= batches0.len(),
                forall|j: int|
                    0 <= j < i ==> (#[trigger] self.batches@[j])@ == batches::drop_seen(
                        batches0[j]@,
                        hashes(before.seen),
                    ),
                forall|j: int|
                    0 <= j < i ==> #[trigger] self.gas_contributed@[j] == credit_seen(
                        batches0[j]@,
                        before.seen,
                        gas0[j],
                    ),
                forall|j: int| i <= j < batches0.len() ==> self.batches@[j] == batches0[j],
                forall|j: int| i <= j < batches0.len() ==> self.gas_contributed@[j] == gas0[j],
            decreases batches0.len() - i,
        {
            let credit = credit_seen_prefix(&mut self.batches[i], &self.seen, self.gas_contributed[i]);
            self.gas_contributed[i] = credit;
            i = i + 1;
        }
        assert(self@ =~= before.cleaned()) by {
            assert(self@.batches =~= before.cleaned().batches);
            assert(self@.gas_contributed =~= before.cleaned().gas_contributed);
        }
    }

    fn best_batch(&self) -> (r: Option<usize>)
        requires
            self@.well_formed(),
        ensures
            match r {
                None => best_head(self@.batches, self@.base_fee, self@.batches.len() as int) is None,
                Some(i) => best_head(self@.batches, self@.base_fee, self@.batches.len() as int) == Some(
                    i as int,
                ) && i < self@.batches.len() && self@.batches[i as int].len() > 0,
            },
    {
        let mut best: Option<(usize, u128)> = None;
        let mut i: usize = 0;
        while i < self.batches.len()
            invariant
                0 <= i <= self.batches@.len(),
                match best {
                    None => best_head(self@.batches, self@.base_fee, i as int) is None,
                    Some((b, price)) => {
                        &&& best_head(self@.batches, self@.base_fee, i as int) == Some(b as int)
                        &&& b < self@.batches.len()
                        &&& self@.batches[b as int].len() > 0
                        &&& price == head_price(self@.batches[b as int], self@.base_fee)
                    },
                },
            decreases self.batches@.len() - i,
        {
            assert(self@.batches[i as int] == self.batches@[i as int]@);
            if self.batches[i].len() > 0 {
                let price = self.batches[i][0].transaction.effective_gas_price(self.base_fee);
                best = match best {
                    None => Some((i, price)),
                    Some((b, highest)) => if highest <= price {
                        Some((i, price))
                    } else {
                        Some((b, highest))
                    },
                };
            }
            i = i + 1;
        }
        match best {
            None => None,
            Some((b, _)) => Some(b),
        }
    }

    fn advance(&mut self) -> (action: Action)
        requires
            old(self)@.well_formed(),
        ensures
            final(self)@.well_formed(),
            (final(self)@, action) == old(self)@.advance(),
    {
        self.clean_up();
        match self.best_batch() {
            None => {
                self.phase = Phase::Finished;
                Action::Finish
            },
            Some(batch) => {
                assert(self@.batches[batch as int] == self.batches@[batch as int]@);
                let tx = self.batches[batch][0];
                self.phase = Phase::Checking { batch, tx };
                Action::Check(tx)
            },
        }
    }

    fn credit_heads(&mut self, hash: &TxHash, gas_used: u64)
        requires
            old(self)@.well_formed(),
        ensures
            final(self)@ == (CommonHighestModel {
                gas_contributed: Seq::new(
                    old(self)@.gas_contributed.len(),
                    |i: int|
                        if heads_with(old(self)@.batches[i], *hash) {
                            num::u64_sat_add(old(self)@.gas_contributed[i], gas_used)
                        } else {
                            old(self)@.gas_contributed[i]
                        },
                ),
                ..old(self)@
            }),
    {
        let ghost before = self@;
        let mut i: usize = 0;
        while i < self.batches.len()
            invariant
                before.well_formed(),
                self@ == (CommonHighestModel { gas_contributed: self@.gas_contributed, ..before }),
                self@.gas_contributed.len() == before.gas_contributed.len(),
                0 <= i <= before.batches.len(),
                forall|j: int|
                    0 <= j < i ==> #[trigger] self@.gas_contributed[j] == if heads_with(
                        before.batches[j],
                        *hash,
                    ) {
                        num::u64_sat_add(before.gas_contributed[j], gas_used)
                    } else {
                        before.gas_contributed[j]
                    },
                forall|j: int|
                    i <= j < before.batches.len() ==> self@.gas_contributed[j] == before.gas_contributed[j],
            decreases before.batches.len() - i,
        {
            assert(before.batches[i as int] == self.batches@[i as int]@);
            if self.batches[i].len() > 0 && self.batches[i][0].hash() == *hash {
                let credit = self.gas_contributed[i].saturating_add(gas_used);
                self.gas_contributed[i] = credit;
            }
            i = i + 1;
        }
        assert(self@.gas_contributed =~= Seq::new(
            before.gas_contributed.len(),
            |i: int|
                if heads_with(before.batches[i], *hash) {
                    num::u64_sat_add(before.gas_contributed[i], gas_used)
                } else {
                    before.gas_contributed[i]
                },
        ));
    }

    /// Takes in what was done and tells what to do next.
    pub fn step(&mut self, event: Event) -> (action: Action)
        requires
            old(self)@.well_formed(),
            old(self)@.phase.expects(event),
        ensures
            final(self)@.well_formed(),
            (final(self)@, action) == old(self)@.step(event),
    {
        match (self.phase, event) {
            (Phase::Checking { batch, tx }, Event::Checked(errors)) => {
                if errors.len() == 0 {
                    self.phase = Phase::Executing { batch, tx };
                    return Action::Execute(tx);
                }
                let tx_hash = tx.hash();
                self.seen.insert(tx_hash, 0);
                self.failing_transactions.push((tx_hash, errors[0].into_outcome(tx)));
                remove_heads(&mut self.batches, &tx_hash);
                assert(self@ =~= old(self)@.reject_tx(tx, errors@[0]));
            },
            (Phase::Executing { batch: _, tx }, Event::Executed { gas_used, reward: _ }) => {
                let tx_hash = tx.hash();
                self.block.push(tx);
                self.seen.insert(tx_hash, gas_used);
                self.credit_heads(&tx_hash, gas_used);
                remove_heads(&mut self.batches, &tx_hash);
                assert(self@ =~= old(self)@.include_tx(tx, gas_used));
            },
            _ => {},
        }
        assert(self@.well_formed());
        self.advance()
    }

    /// The transactions of the block so far.
    pub fn block(&self) -> (r: &Vec<PendingTransaction>)
        ensures
            r@ == self@.block,
    {
        &self.block
    }

    /// The gas that each proposer is credited with so far.
    pub fn gas_contributed(&self) -> (r: &Vec<u64>)
        ensures
            r@ == self@.gas_contributed,
    {
        &self.gas_contributed
    }

    pub(crate) fn into_parts(self) -> (r: (Vec<(TxHash, TransactionExecutionOutcome)>, Vec<u64>))
        ensures
            r.0@ == self@.failing,
            r.1@ == self@.gas_contributed,
    {
        (self.failing_transactions, self.gas_contributed)
    }
}

} // verus!
