//! The block takes the best paid head of all batches, as long as proposers keep to their share.
//!
//! A proposer that used up its share of the block's gas is passed over while another one has not.
//! Every proposer is credited with the gas of those transactions of its batch that went into the
//! block, as soon as they are removed from the front of the batch.

use crate::concurrent_proposer::batches;
use crate::concurrent_proposer::common_highest;
use crate::fixed_bytes::TxHash;
use crate::num;
use crate::table;
use crate::table::Table;
use crate::transaction;
use crate::transaction::{
    Hashed, InvalidTransactionError, PendingTransaction, TransactError, TransactionExecutionOutcome,
    TypedTransaction,
};
use std::collections::HashMap;
use vstd::prelude::*;

verus! {

/// What the machine that executes transactions reports to a merge.
#[derive(Clone, Copy, Debug)]
pub enum Report {
    /// nothing was done yet
    Start,
    /// whether the transaction is valid
    Validated(Result<(), InvalidTransactionError>),
    /// the gas that the execution of the transaction used, or why it failed
    Transacted(Result<u64, TransactError>),
}

/// What a merge wants done next.
#[derive(Clone, Copy, Debug)]
pub enum Request {
    /// check whether the transaction is valid in the current state
    Validate(PendingTransaction),
    /// execute the transaction as the next one of the block
    Execute(PendingTransaction),
    /// nothing: no transaction is left
    Finish,
}

/// Where a merge stands between two reports.
#[derive(Clone, Copy, Debug)]
pub enum Stage {
    /// nothing was asked for yet
    Idle,
    /// the head of a batch is being validated
    Validating { batch: usize, tx: PendingTransaction },
    /// the head of a batch is being executed
    Executing { batch: usize, tx: PendingTransaction },
    /// no transaction is left
    Finished,
}

impl Stage {
    /// Whether a report is an answer to what was asked for.
    pub open spec fn expects(self, report: Report) -> bool {
        match (self, report) {
            (Stage::Idle, Report::Start) => true,
            (Stage::Validating { .. }, Report::Validated(_)) => true,
            (Stage::Executing { .. }, Report::Transacted(_)) => true,
            _ => false,
        }
    }
}

/// The gas that a proposer is credited with.
pub open spec fn usage_of(gas_usage: Map<usize, u128>, batch: int) -> u128 {
    if gas_usage.contains_key(batch as usize) {
        gas_usage[batch as usize]
    } else {
        0
    }
}

/// The heads of the first `count` batches, each with its batch; where `limit` is given, only those
/// of proposers that are credited with less gas.
pub open spec fn heads(
    batches: Seq<Seq<TypedTransaction>>,
    gas_usage: Map<usize, u128>,
    limit: Option<u128>,
    count: int,
) -> Seq<(usize, TypedTransaction)>
    decreases count,
{
    if count <= 0 {
        Seq::empty()
    } else {
        let front = heads(batches, gas_usage, limit, count - 1);
        let i = count - 1;
        if batches[i].len() > 0 && (limit matches Some(l) ==> usage_of(gas_usage, i) < l) {
            front.push((i as usize, batches[i][0]))
        } else {
            front
        }
    }
}

/// The heads among which the next transaction is chosen: those of proposers below the limit, or all
/// heads where there is none such.
pub open spec fn candidates(
    batches: Seq<Seq<TypedTransaction>>,
    gas_usage: Map<usize, u128>,
    limit: u128,
) -> Seq<(usize, TypedTransaction)> {
    let primary = heads(batches, gas_usage, Some(limit), batches.len() as int);
    if primary.len() > 0 {
        primary
    } else {
        heads(batches, gas_usage, None, batches.len() as int)
    }
}

/// Of the first `count` candidates the one that pays most, and the last of those that pay the same.
pub open spec fn best_candidate(
    candidates: Seq<(usize, TypedTransaction)>,
    base_fee: u128,
    count: int,
) -> int
    decreases count,
{
    if count <= 1 {
        0
    } else {
        let best = best_candidate(candidates, base_fee, count - 1);
        if transaction::effective_price(candidates[best].1, base_fee) <= transaction::effective_price(
            candidates[count - 1].1,
            base_fee,
        ) {
            count - 1
        } else {
            best
        }
    }
}

/// The heads of all batches, or of those whose proposers are credited with less than a limit of gas
/// where there is any.
pub fn get_heads(
    batches: &Vec<Vec<TypedTransaction>>,
    gas_usage: &HashMap<usize, u128>,
    batch_limit: u128,
) -> (r: Vec<(usize, TypedTransaction)>)
    ensures
        r@ == candidates(batches::nested(batches@), gas_usage@, batch_limit),
{
    broadcast use vstd::std_specs::hash::group_hash_axioms;

    let ghost all = batches::nested(batches@);
    let mut primary: Vec<(usize, TypedTransaction)> = Vec::new();
    let mut secondary: Vec<(usize, TypedTransaction)> = Vec::new();
    let mut i: usize = 0;
    while i < batches.len()
        invariant
            all == batches::nested(batches@),
            0 <= i <= batches@.len(),
            primary@ == heads(all, gas_usage@, Some(batch_limit), i as int),
            secondary@ == heads(all, gas_usage@, None, i as int),
        decreases batches@.len() - i,
    {
        broadcast use vstd::std_specs::hash::group_hash_axioms;

        assert(all[i as int] == batches@[i as int]@);
        if batches[i].len() > 0 {
            let used: u128 = match gas_usage.get(&i) {
                Some(gas) => *gas,
                None => 0,
            };
            if used < batch_limit {
                primary.push((i, batches[i][0]));
            }
            secondary.push((i, batches[i][0]));
        }
        i = i + 1;
    }
    if primary.len() > 0 {
        primary
    } else {
        secondary
    }
}

/// A credit after the gas of the leading transactions of a batch that were dealt with already.
pub open spec fn credit_front(batch: Seq<TypedTransaction>, included: Seq<(TxHash, u64)>, credit: u128) -> u128
    decreases batch.len(),
{
    if batch.len() > 0 && common_highest::hashes(included).contains(batch[0].id()) {
        credit_front(
            batch.skip(1),
            included,
            num::u128_sat_add(credit, common_highest::gas_of(included, batch[0].id()) as u128),
        )
    } else {
        credit
    }
}

/// The gas that each proposer is credited with, after the gas of the leading transactions of its
/// batch that were dealt with already. A proposer without any credit has no entry.
pub open spec fn credited(
    batches: Seq<Seq<TypedTransaction>>,
    included: Seq<(TxHash, u64)>,
    gas_usage: Map<usize, u128>,
) -> Map<usize, u128> {
    Map::new(
        |k: usize|
            gas_usage.contains_key(k) || (k < batches.len() && credit_front(
                batches[k as int],
                included,
                usage_of(gas_usage, k as int),
            ) > 0),
        |k: usize|
            if k < batches.len() {
                credit_front(batches[k as int], included, usage_of(gas_usage, k as int))
            } else {
                gas_usage[k]
            },
    )
}

/// Removes the leading transactions of each batch that were dealt with already, and credits each
/// proposer with the gas of those that it loses.
pub fn cleanup_batches_for_inclusion(
    batches: Vec<Vec<TypedTransaction>>,
    included: &Table<32, u64>,
    gas_usage: &mut HashMap<usize, u128>,
) -> (r: Vec<Vec<TypedTransaction>>)
    ensures
        batches::nested(r@) == batches::drop_seen_all(
            batches::nested(batches@),
            common_highest::hashes(included.entries()),
        ),
        final(gas_usage)@ == credited(
            batches::nested(batches@),
            included.entries(),
            old(gas_usage)@,
        ),
{
    broadcast use vstd::std_specs::hash::group_hash_axioms;

    let ghost before = batches@;
    let ghost all = batches::nested(before);
    let ghost gone = common_highest::hashes(included.entries());
    let ghost usage = gas_usage@;
    let mut rest = batches;
    let mut i: usize = 0;
    assert(gas_usage@ =~= credited(all.take(0), included.entries(), usage));
    while i < rest.len()
        invariant
            gone == common_highest::hashes(included.entries()),
            all == batches::nested(before),
            rest@.len() == before.len(),
            0 <= i <= before.len(),
            forall|j: int| 0 <= j < i ==> (#[trigger] rest@[j])@ == batches::drop_seen(before[j]@, gone),
            forall|j: int| i <= j < before.len() ==> rest@[j] == before[j],
            gas_usage@ == credited(all.take(i as int), included.entries(), usage),
        decreases before.len() - i,
    {
        broadcast use vstd::std_specs::hash::group_hash_axioms;

        let ghost so_far = gas_usage@;
        let used: u128 = match gas_usage.get(&i) {
            Some(gas) => *gas,
            None => 0,
        };
        assert(used == usage_of(usage, i as int));
        let credit = drop_included_prefix(&mut rest[i], included, used);
        assert(all[i as int] == before[i as int]@);
        if credit != used {
            gas_usage.insert(i, credit);
        }
        proof {
            lemma_credited_step(all, included.entries(), usage, i);
            assert(gas_usage@ =~= credited(all.take(i + 1), included.entries(), usage));
        }
        i = i + 1;
    }
    assert(batches::nested(rest@) =~= batches::drop_seen_all(all, gone));
    assert(all.take(all.len() as int) =~= all);
    rest
}

/// One more batch changes the credit of its proposer at most.
proof fn lemma_credited_step(
    batches: Seq<Seq<TypedTransaction>>,
    included: Seq<(TxHash, u64)>,
    gas_usage: Map<usize, u128>,
    i: usize,
)
    requires
        i < batches.len(),
    ensures
        ({
            let front = credited(batches.take(i as int), included, gas_usage);
            let used = usage_of(gas_usage, i as int);
            let credit = credit_front(batches[i as int], included, used);
            credited(batches.take(i + 1), included, gas_usage) == if credit != used {
                front.insert(i, credit)
            } else {
                front
            }
        }),
{
    let front = credited(batches.take(i as int), included, gas_usage);
    let used = usage_of(gas_usage, i as int);
    let credit = credit_front(batches[i as int], included, used);
    lemma_credit_grows(batches[i as int], included, used);
    let want = if credit != used {
        front.insert(i, credit)
    } else {
        front
    };
    let all = credited(batches.take(i + 1), included, gas_usage);
    assert forall|k: usize| #[trigger] all.contains_key(k) <==> want.contains_key(k) by {
        if k < i {
            assert(batches.take(i + 1)[k as int] == batches.take(i as int)[k as int]);
        }
    }
    assert forall|k: usize| all.contains_key(k) implies #[trigger] all[k] == want[k] by {
        if k < i {
            assert(batches.take(i + 1)[k as int] == batches.take(i as int)[k as int]);
        }
    }
    assert(all =~= want);
}

pub proof fn lemma_credit_grows(batch: Seq<TypedTransaction>, included: Seq<(TxHash, u64)>, credit: u128)
    ensures
        credit_front(batch, included, credit) >= credit,
    decreases batch.len(),
{
    if batch.len() > 0 && common_highest::hashes(included).contains(batch[0].id()) {
        lemma_credit_grows(
            batch.skip(1),
            included,
            num::u128_sat_add(credit, common_highest::gas_of(included, batch[0].id()) as u128),
        );
    }
}

/// The credit of a proposer after cleaning up is its credit before and the gas that leaves the front
/// of its batch.
pub proof fn lemma_credited(
    batches: Seq<Seq<TypedTransaction>>,
    included: Seq<(TxHash, u64)>,
    gas_usage: Map<usize, u128>,
    i: int,
)
    requires
        0 <= i < batches.len() <= usize::MAX,
    ensures
        usage_of(credited(batches, included, gas_usage), i) == credit_front(
            batches[i],
            included,
            usage_of(gas_usage, i),
        ),
{
    lemma_credit_grows(batches[i], included, usage_of(gas_usage, i));
}

fn drop_included_prefix(batch: &mut Vec<TypedTransaction>, included: &Table<32, u64>, credit: u128) -> (r: u128)
    ensures
        final(batch)@ == batches::drop_seen(old(batch)@, common_highest::hashes(included.entries())),
        r == credit_front(old(batch)@, included.entries(), credit),
{
    let ghost all = batch@;
    let ghost entries = included.entries();
    let ghost gone = common_highest::hashes(entries);
    let mut sum: u128 = credit;
    let mut split: usize = 0;
    assert(all.skip(0) =~= all);
    loop
        invariant
            batch@ == all,
            entries == included.entries(),
            gone == common_highest::hashes(entries),
            0 <= split <= all.len(),
            forall|j: int| 0 <= j < split ==> gone.contains((#[trigger] all[j]).id()),
            credit_front(all, entries, credit) == credit_front(all.skip(split as int), entries, sum),
        ensures
            split == all.len() || !gone.contains(all[split as int].id()),
        decreases all.len() - split,
    {
        if split == batch.len() {
            break;
        }
        let gas_used = included.get(&batch[split].hash());
        proof {
            common_highest::lemma_hashes(entries, all[split as int].id());
        }
        match gas_used {
            None => {
                break;
            },
            Some(gas) => {
                assert(all.skip(split as int)[0] == all[split as int]);
                assert(all.skip(split as int).skip(1) =~= all.skip(split + 1));
                sum = sum.saturating_add(*gas as u128);
                split = split + 1;
            },
        }
    }
    let rest = batch.split_off(split);
    *batch = rest;
    proof {
        assert(rest@ =~= all.skip(split as int));
        batches::lemma_drop_seen_skip(all, gone, split as int);
    }
    sum
}

/// The number of transactions in all batches.
pub open spec fn total_len<T>(batches: Seq<Seq<T>>) -> nat
    decreases batches.len(),
{
    if batches.len() == 0 {
        0
    } else {
        total_len(batches.drop_last()) + batches.last().len()
    }
}

pub proof fn lemma_drop_seen_len<T: Hashed>(batch: Seq<T>, seen: Seq<TxHash>)
    ensures
        batches::drop_seen(batch, seen).len() <= batch.len(),
        batch.len() > 0 && seen.contains(batch[0].id()) ==> batches::drop_seen(batch, seen).len()
            < batch.len(),
    decreases batch.len(),
{
    if batch.len() > 0 && seen.contains(batch[0].id()) {
        lemma_drop_seen_len(batch.skip(1), seen);
    }
}

pub proof fn lemma_total_len_drop<T: Hashed>(batches: Seq<Seq<T>>, seen: Seq<TxHash>)
    ensures
        total_len(batches::drop_seen_all(batches, seen)) <= total_len(batches),
        (exists|i: int|
            0 <= i < batches.len() && (#[trigger] batches[i]).len() > 0 && seen.contains(batches[i][0].id()))
            ==> total_len(batches::drop_seen_all(batches, seen)) < total_len(batches),
    decreases batches.len(),
{
    if batches.len() > 0 {
        let front = batches.drop_last();
        let dropped = batches::drop_seen_all(batches, seen);
        lemma_total_len_drop(front, seen);
        lemma_drop_seen_len(batches.last(), seen);
        assert(dropped.drop_last() =~= batches::drop_seen_all(front, seen));
        if exists|i: int|
            0 <= i < batches.len() && (#[trigger] batches[i]).len() > 0 && seen.contains(batches[i][0].id()) {
            let i = choose|i: int|
                0 <= i < batches.len() && (#[trigger] batches[i]).len() > 0 && seen.contains(
                    batches[i][0].id(),
                );
            if i < front.len() {
                assert(front[i] == batches[i]);
            }
        }
    }
}

/// Each candidate is the head of its batch.
pub proof fn lemma_heads(
    batches: Seq<Seq<TypedTransaction>>,
    gas_usage: Map<usize, u128>,
    limit: Option<u128>,
    count: int,
)
    requires
        0 <= count <= batches.len() <= usize::MAX,
    ensures
        forall|k: int|
            0 <= k < heads(batches, gas_usage, limit, count).len() ==> {
                let head = #[trigger] heads(batches, gas_usage, limit, count)[k];
                &&& head.0 < count
                &&& batches[head.0 as int].len() > 0
                &&& batches[head.0 as int][0] == head.1
                &&& limit matches Some(l) ==> usage_of(gas_usage, head.0 as int) < l
            },
    decreases count,
{
    if count > 0 {
        lemma_heads(batches, gas_usage, limit, count - 1);
        let front = heads(batches, gas_usage, limit, count - 1);
        let all = heads(batches, gas_usage, limit, count);
        assert forall|k: int| 0 <= k < all.len() implies {
            let head = #[trigger] all[k];
            &&& head.0 < count
            &&& batches[head.0 as int].len() > 0
            &&& batches[head.0 as int][0] == head.1
            &&& limit matches Some(l) ==> usage_of(gas_usage, head.0 as int) < l
        } by {
            if k < front.len() {
                assert(all[k] == front[k]);
            }
        }
    }
}

/// Without a limit there is a candidate exactly where some batch has a transaction.
pub proof fn lemma_heads_none(batches: Seq<Seq<TypedTransaction>>, gas_usage: Map<usize, u128>, count: int)
    requires
        0 <= count <= batches.len(),
    ensures
        heads(batches, gas_usage, None, count).len() == 0 <==> forall|i: int|
            0 <= i < count ==> (#[trigger] batches[i]).len() == 0,
    decreases count,
{
    if count > 0 {
        lemma_heads_none(batches, gas_usage, count - 1);
    }
}

/// The chosen candidate pays no less than any other, and more than those behind it.
pub proof fn law_best_paid_candidate_wins(
    candidates: Seq<(usize, TypedTransaction)>,
    base_fee: u128,
    count: int,
)
    requires
        0 < count <= candidates.len(),
    ensures
        0 <= best_candidate(candidates, base_fee, count) < count,
        forall|k: int|
            0 <= k < count ==> {
                let best = best_candidate(candidates, base_fee, count);
                let price = transaction::effective_price((#[trigger] candidates[k]).1, base_fee);
                &&& price <= transaction::effective_price(candidates[best].1, base_fee)
                &&& k > best ==> price < transaction::effective_price(candidates[best].1, base_fee)
            },
    decreases count,
{
    if count > 1 {
        law_best_paid_candidate_wins(candidates, base_fee, count - 1);
    }
}

/// The state of a merge by price and share.
#[verifier::ext_equal]
pub struct CyclingHighestModel {
    /// the gas of the block
    pub gas_limit: u64,
    /// the blob gas of the block
    pub blob_gas_limit: u64,
    pub base_fee: u128,
    /// what is left of each batch
    pub batches: Seq<Seq<TypedTransaction>>,
    /// the transactions of the block
    pub block: Seq<TypedTransaction>,
    /// the transactions that were dealt with, and the gas that they used
    pub included: Seq<(TxHash, u64)>,
    /// the gas that each proposer is credited with
    pub gas_usage: Map<usize, u128>,
    pub gas_used: u64,
    pub blob_gas_used: u64,
    /// the transactions that were left out
    pub failing: Seq<(TxHash, TransactionExecutionOutcome)>,
    pub stage: Stage,
}

/// A transaction with its sender.
pub open spec fn pending(tx: TypedTransaction) -> PendingTransaction {
    PendingTransaction { transaction: tx, sender: tx.signer->Some_0 }
}

impl CyclingHighestModel {
    /// The state before the first transaction.
    pub open spec fn initial(
        gas_limit: u64,
        blob_gas_limit: u64,
        base_fee: u128,
        batches: Seq<Seq<TypedTransaction>>,
    ) -> CyclingHighestModel {
        CyclingHighestModel {
            gas_limit,
            blob_gas_limit,
            base_fee,
            batches,
            block: Seq::empty(),
            included: Seq::empty(),
            gas_usage: Map::empty(),
            gas_used: 0,
            blob_gas_used: 0,
            failing: Seq::empty(),
            stage: Stage::Idle,
        }
    }

    /// Whether the state is one of a merge of at least one batch, and each transaction is signed.
    pub open spec fn well_formed(self) -> bool {
        &&& 0 < self.batches.len() <= usize::MAX
        &&& forall|i: int, j: int|
            0 <= i < self.batches.len() && 0 <= j < self.batches[i].len() ==> (
            #[trigger] self.batches[i][j]).signer is Some
    }

    /// The gas up to which a proposer is preferred: a fourth of the proposer's part of the block.
    pub open spec fn batch_limit(self) -> u128 {
        (self.gas_limit as int / 4 / self.batches.len() as int) as u128
    }

    /// Transactions that were dealt with leave the heads of the batches, for a credit of their gas.
    pub open spec fn cleaned(self) -> CyclingHighestModel {
        CyclingHighestModel {
            batches: batches::drop_seen_all(self.batches, common_highest::hashes(self.included)),
            gas_usage: credited(self.batches, self.included, self.gas_usage),
            ..self
        }
    }

    /// The next transaction with its batch.
    pub open spec fn winner(self) -> Option<(usize, TypedTransaction)> {
        let heads = candidates(self.batches, self.gas_usage, self.batch_limit());
        if heads.len() == 0 {
            None
        } else {
            Some(heads[best_candidate(heads, self.base_fee, heads.len() as int)])
        }
    }

    /// Why the block has no room for a transaction.
    pub open spec fn no_room(self, tx: TypedTransaction) -> Option<TransactionExecutionOutcome> {
        if num::u64_sat_add(self.gas_used, tx.gas_limit) > self.gas_limit {
            Some(TransactionExecutionOutcome::BlockGasExhausted(pending(tx)))
        } else if num::u64_sat_add(self.blob_gas_used, tx.blob_gas_or_zero())
            > self.blob_gas_limit {
            Some(TransactionExecutionOutcome::BlobGasExhausted(pending(tx)))
        } else {
            None
        }
    }

    /// The transaction is left out.
    pub open spec fn leave_out(
        self,
        tx: TypedTransaction,
        outcome: TransactionExecutionOutcome,
    ) -> CyclingHighestModel {
        CyclingHighestModel {
            included: table::entries_put(self.included, tx.id(), 0),
            failing: self.failing.push((tx.id(), outcome)),
            ..self
        }
    }

    /// The transaction goes into the block. Its gas is credited when the batches are cleaned up.
    pub open spec fn include_tx(self, tx: TypedTransaction, gas: u64) -> CyclingHighestModel {
        CyclingHighestModel {
            block: self.block.push(tx),
            included: table::entries_put(self.included, tx.id(), gas),
            gas_used: num::u64_sat_add(self.gas_used, gas),
            blob_gas_used: num::u64_sat_add(self.blob_gas_used, tx.blob_gas_or_zero()),
            ..self
        }
    }

    /// The next transaction that the block has room for, after all that it has none for were left
    /// out.
    pub open spec fn advance(self) -> (CyclingHighestModel, Request)
        decreases
            total_len(batches::drop_seen_all(self.batches, common_highest::hashes(self.included))),
        when self.batches.len() <= usize::MAX
    {
        let m = self.cleaned();
        match m.winner() {
            None => (CyclingHighestModel { stage: Stage::Finished, ..m }, Request::Finish),
            Some((batch, tx)) => match m.no_room(tx) {
                Some(outcome) => {
                    proof {
                        m.lemma_leave_out_shrinks(batch, tx, outcome);
                    }
                    m.leave_out(tx, outcome).advance()
                },
                None => (
                    CyclingHighestModel {
                        stage: Stage::Validating { batch, tx: pending(tx) },
                        ..m
                    },
                    Request::Validate(pending(tx)),
                ),
            },
        }
    }

    /// The answer to a report.
    pub open spec fn step(self, report: Report) -> (CyclingHighestModel, Request)
        recommends
            self.stage.expects(report),
    {
        match (self.stage, report) {
            (Stage::Validating { batch, tx }, Report::Validated(valid)) => match valid {
                Ok(_) => (
                    CyclingHighestModel { stage: Stage::Executing { batch, tx }, ..self },
                    Request::Execute(tx),
                ),
                Err(e) => self.leave_out(
                    tx.transaction,
                    TransactionExecutionOutcome::Invalid(tx, e),
                ).advance(),
            },
            (Stage::Executing { batch, tx }, Report::Transacted(result)) => match result {
                Ok(gas) => self.include_tx(tx.transaction, gas).advance(),
                Err(e) => self.leave_out(tx.transaction, e.outcome(tx)).advance(),
            },
            _ => self.advance(),
        }
    }

    /// The next transaction is the head of its batch.
    pub proof fn lemma_winner(self)
        requires
            self.batches.len() <= usize::MAX,
        ensures
            match self.winner() {
                None => forall|i: int| 0 <= i < self.batches.len() ==> (#[trigger] self.batches[i]).len() == 0,
                Some((batch, tx)) => {
                    &&& batch < self.batches.len()
                    &&& self.batches[batch as int].len() > 0
                    &&& self.batches[batch as int][0] == tx
                },
            },
    {
        let count = self.batches.len() as int;
        lemma_heads(self.batches, self.gas_usage, Some(self.batch_limit()), count);
        lemma_heads(self.batches, self.gas_usage, None, count);
        lemma_heads_none(self.batches, self.gas_usage, count);
        let c = candidates(self.batches, self.gas_usage, self.batch_limit());
        if c.len() > 0 {
            law_best_paid_candidate_wins(c, self.base_fee, c.len() as int);
        }
    }

    /// Leaving out the next transaction leaves fewer.
    pub proof fn lemma_leave_out_shrinks(
        self,
        batch: usize,
        tx: TypedTransaction,
        outcome: TransactionExecutionOutcome,
    )
        requires
            self.batches.len() <= usize::MAX,
            self.winner() == Some((batch, tx)),
        ensures
            ({
                let n = self.leave_out(tx, outcome);
                total_len(batches::drop_seen_all(n.batches, common_highest::hashes(n.included))) < total_len(
                    self.batches,
                )
            }),
    {
        self.lemma_winner();
        let n = self.leave_out(tx, outcome);
        let gone = common_highest::hashes(n.included);
        lemma_put_contains(self.included, tx.id(), 0);
        assert(self.batches[batch as int].len() > 0 && gone.contains(self.batches[batch as int][0].id()));
        lemma_total_len_drop(n.batches, gone);
    }
}

pub proof fn lemma_put_contains(seen: Seq<(TxHash, u64)>, hash: TxHash, gas: u64)
    ensures
        common_highest::hashes(table::entries_put(seen, hash, gas)).contains(hash),
{
    let after = table::entries_put(seen, hash, gas);
    if table::has_key(seen, hash) {
        let i = choose|i: int| 0 <= i < seen.len() && (#[trigger] seen[i]).0 == hash;
        assert(common_highest::hashes(after)[i] == hash);
    } else {
        assert(common_highest::hashes(after)[seen.len() as int] == hash);
    }
}

/// What is left of a batch is an end of it.
proof fn lemma_drop_seen_suffix<T: Hashed>(batch: Seq<T>, seen: Seq<TxHash>)
    ensures
        batches::drop_seen(batch, seen).len() <= batch.len(),
        batches::drop_seen(batch, seen) == batch.skip(
            batch.len() - batches::drop_seen(batch, seen).len(),
        ),
    decreases batch.len(),
{
    if batch.len() > 0 && seen.contains(batch[0].id()) {
        lemma_drop_seen_suffix(batch.skip(1), seen);
        let d = batches::drop_seen(batch, seen);
        assert(batch.skip(1).skip(batch.len() - 1 - d.len()) =~= batch.skip(batch.len() - d.len()));
    } else {
        assert(batch.skip(0) =~= batch);
    }
}

impl CyclingHighestModel {
    /// Cleaning up keeps the state well formed.
    pub proof fn lemma_cleaned(self)
        requires
            self.well_formed(),
        ensures
            self.cleaned().well_formed(),
    {
        let gone = common_highest::hashes(self.included);
        let m = self.cleaned();
        assert forall|i: int, j: int|
            0 <= i < m.batches.len() && 0 <= j < m.batches[i].len() implies (
        #[trigger] m.batches[i][j]).signer is Some by {
            lemma_drop_seen_suffix(self.batches[i], gone);
            let cut = self.batches[i].len() - m.batches[i].len();
            assert(m.batches[i][j] == self.batches[i][j + cut]);
        }
    }
}

/// A merge by price and share.
pub struct CyclingHighest {
    gas_limit: u64,
    blob_gas_limit: u64,
    base_fee: u128,
    batches: Vec<Vec<TypedTransaction>>,
    block: Vec<TypedTransaction>,
    included_txs: Table<32, u64>,
    gas_usage_per_proposer: HashMap<usize, u128>,
    gas_used: u64,
    blob_gas_used: u64,
    failing_tx: Vec<(TxHash, TransactionExecutionOutcome)>,
    stage: Stage,
}

impl View for CyclingHighest {
    type V = CyclingHighestModel;

    closed spec fn view(&self) -> CyclingHighestModel {
        CyclingHighestModel {
            gas_limit: self.gas_limit,
            blob_gas_limit: self.blob_gas_limit,
            base_fee: self.base_fee,
            batches: batches::nested(self.batches@),
            block: self.block@,
            included: self.included_txs.entries(),
            gas_usage: self.gas_usage_per_proposer@,
            gas_used: self.gas_used,
            blob_gas_used: self.blob_gas_used,
            failing: self.failing_tx@,
            stage: self.stage,
        }
    }
}

fn best_head(heads: &Vec<(usize, TypedTransaction)>, base_fee: u128) -> (r: usize)
    requires
        heads@.len() > 0,
    ensures
        r == best_candidate(heads@, base_fee, heads@.len() as int),
        r < heads@.len(),
{
    let mut best: usize = 0;
    let mut highest: u128 = heads[0].1.effective_gas_price(base_fee);
    let mut i: usize = 1;
    while i < heads.len()
        invariant
            1 <= i <= heads@.len(),
            best < i,
            best == best_candidate(heads@, base_fee, i as int),
            highest == transaction::effective_price(heads@[best as int].1, base_fee),
        decreases heads@.len() - i,
    {
        let price = heads[i].1.effective_gas_price(base_fee);
        if highest <= price {
            best = i;
            highest = price;
        }
        i = i + 1;
    }
    best
}

impl CyclingHighest {
    /// A merge of batches that is about to begin.
    pub fn new(
        gas_limit: u64,
        blob_gas_limit: u64,
        base_fee: u128,
        batches: Vec<Vec<TypedTransaction>>,
    ) -> (r: CyclingHighest)
        requires
            batches@.len() > 0,
            forall|i: int, j: int|
                0 <= i < batches@.len() && 0 <= j < batches@[i]@.len() ==> (
                #[trigger] batches@[i]@[j]).signer is Some,
        ensures
            r@ == CyclingHighestModel::initial(
                gas_limit,
                blob_gas_limit,
                base_fee,
                batches::nested(batches@),
            ),
            r@.well_formed(),
    {
        broadcast use vstd::std_specs::hash::group_hash_axioms;

        let r = CyclingHighest {
            gas_limit,
            blob_gas_limit,
            base_fee,
            batches,
            block: Vec::new(),
            included_txs: Table::new(),
            gas_usage_per_proposer: HashMap::new(),
            gas_used: 0,
            blob_gas_used: 0,
            failing_tx: Vec::new(),
            stage: Stage::Idle,
        };
        assert(r@ =~= CyclingHighestModel::initial(
            gas_limit,
            blob_gas_limit,
            base_fee,
            batches::nested(batches@),
        ));
        assert(r@.batches.len() == r.batches.len());
        assert forall|i: int, j: int|
            0 <= i < r@.batches.len() && 0 <= j < r@.batches[i].len() implies (
        #[trigger] r@.batches[i][j]).signer is Some by {
            assert(r@.batches[i][j] == batches@[i]@[j]);
        }
        r
    }

    fn leave_out(&mut self, tx: TypedTransaction, outcome: TransactionExecutionOutcome)
        ensures
            final(self)@ == old(self)@.leave_out(tx, outcome),
    {
        self.included_txs.insert(tx.hash, 0);
        self.failing_tx.push((tx.hash, outcome));
    }

    fn advance(&mut self) -> (request: Request)
        requires
            old(self)@.well_formed(),
        ensures
            final(self)@.well_formed(),
            (final(self)@, request) == old(self)@.advance(),
    {
        loop
            invariant
                self@.well_formed(),
                self@.advance() == old(self)@.advance(),
            decreases total_len(
                batches::drop_seen_all(self@.batches, common_highest::hashes(self@.included)),
            ),
        {
            let ghost before = self@;
            let mut batches: Vec<Vec<TypedTransaction>> = Vec::new();
            std::mem::swap(&mut batches, &mut self.batches);
            self.batches = cleanup_batches_for_inclusion(
                batches,
                &self.included_txs,
                &mut self.gas_usage_per_proposer,
            );
            proof {
                before.lemma_cleaned();
                assert(self@ =~= before.cleaned());
                self@.lemma_winner();
            }
            let number_batches = self.batches.len() as u64;
            let limit = (self.gas_limit / 4 / number_batches) as u128;
            assert(limit == self@.batch_limit());
            let heads = get_heads(&self.batches, &self.gas_usage_per_proposer, limit);
            if heads.len() == 0 {
                self.stage = Stage::Finished;
                return Request::Finish;
            }
            let (batch, tx) = heads[best_head(&heads, self.base_fee)];
            assert(self@.winner() == Some((batch, tx)));
            assert(self@.batches[batch as int][0].signer is Some);
            let pending_tx = PendingTransaction::new(tx).unwrap();
            let max_block_gas = self.gas_used.saturating_add(tx.gas_limit);
            if max_block_gas > self.gas_limit {
                let outcome = TransactionExecutionOutcome::BlockGasExhausted(pending_tx);
                proof {
                    self@.lemma_leave_out_shrinks(batch, tx, outcome);
                }
                self.leave_out(tx, outcome);
                continue;
            }
            let max_blob_gas = self.blob_gas_used.saturating_add(tx.blob_gas_used());
            if max_blob_gas > self.blob_gas_limit {
                let outcome = TransactionExecutionOutcome::BlobGasExhausted(pending_tx);
                proof {
                    self@.lemma_leave_out_shrinks(batch, tx, outcome);
                }
                self.leave_out(tx, outcome);
                continue;
            }
            self.stage = Stage::Validating { batch, tx: pending_tx };
            return Request::Validate(pending_tx);
        }
    }

    /// Takes in what was done and tells what to do next.
    pub fn step(&mut self, report: Report) -> (request: Request)
        requires
            old(self)@.well_formed(),
            old(self)@.stage.expects(report),
        ensures
            final(self)@.well_formed(),
            (final(self)@, request) == old(self)@.step(report),
    {
        broadcast use vstd::std_specs::hash::group_hash_axioms;

        match (self.stage, report) {
            (Stage::Validating { batch, tx }, Report::Validated(valid)) => {
                match valid {
                    Ok(_) => {
                        self.stage = Stage::Executing { batch, tx };
                        return Request::Execute(tx);
                    },
                    Err(e) => {
                        self.leave_out(tx.transaction, TransactionExecutionOutcome::Invalid(tx, e));
                    },
                }
            },
            (Stage::Executing { batch: _, tx }, Report::Transacted(result)) => {
                match result {
                    Ok(gas) => {
                        self.block.push(tx.transaction);
                        self.included_txs.insert(tx.transaction.hash, gas);
                        self.gas_used = self.gas_used.saturating_add(gas);
                        self.blob_gas_used = self.blob_gas_used.saturating_add(
                            tx.transaction.blob_gas_used(),
                        );
                        assert(self@ =~= old(self)@.include_tx(tx.transaction, gas));
                    },
                    Err(e) => {
                        self.leave_out(tx.transaction, e.into_outcome(tx));
                    },
                }
            },
            _ => {},
        }
        self.advance()
    }

    /// The transactions of the block so far.
    pub fn block(&self) -> (r: &Vec<TypedTransaction>)
        ensures
            r@ == self@.block,
    {
        &self.block
    }

    pub(crate) fn into_parts(self) -> (r: (
        Vec<(TxHash, TransactionExecutionOutcome)>,
        HashMap<usize, u128>,
    ))
        ensures
            r.0@ == self@.failing,
            r.1@ == self@.gas_usage,
    {
        (self.failing_tx, self.gas_usage_per_proposer)
    }
}

} // verus!
