//! What holds of every merge by price and share.

use crate::concurrent_proposer::batches;
use crate::concurrent_proposer::common_highest;
use crate::concurrent_proposer::common_highest_laws;
use crate::concurrent_proposer::cycling_highest;
use crate::concurrent_proposer::cycling_highest::{CyclingHighestModel, Report, Request, Stage};
use crate::concurrent_proposer::decisions;
use crate::fixed_bytes::TxHash;
use crate::num;
use crate::table;
use crate::transaction;
use crate::transaction::{Hashed, PendingTransaction, TransactionExecutionOutcome, TypedTransaction};
use vstd::prelude::*;

verus! {

/// The state that a merge reaches by a sequence of reports.
pub open spec fn run(start: CyclingHighestModel, reports: Seq<Report>) -> CyclingHighestModel
    decreases reports.len(),
{
    if reports.len() == 0 {
        start
    } else {
        run(start, reports.drop_last()).step(reports.last()).0
    }
}

/// Whether each report of a sequence is an answer to what the merge asked for.
pub open spec fn legal(start: CyclingHighestModel, reports: Seq<Report>) -> bool
    decreases reports.len(),
{
    reports.len() == 0 || {
        &&& legal(start, reports.drop_last())
        &&& run(start, reports.drop_last()).stage.expects(reports.last())
    }
}

/// Whether a state is one before the first transaction.
pub open spec fn is_start(m: CyclingHighestModel) -> bool {
    &&& m.well_formed()
    &&& m == CyclingHighestModel::initial(m.gas_limit, m.blob_gas_limit, m.base_fee, m.batches)
}

/// The blob gas of transactions.
pub open spec fn blob_gas(block: Seq<TypedTransaction>) -> nat
    decreases block.len(),
{
    if block.len() == 0 {
        0
    } else {
        blob_gas(block.drop_last()) + block.last().blob_gas_or_zero() as nat
    }
}

/// Whether a transaction is the head of a batch, was not dealt with, and has room in the block.
pub open spec fn offered(m: CyclingHighestModel, batch: int, tx: PendingTransaction) -> bool {
    &&& 0 <= batch < m.batches.len()
    &&& m.batches[batch].len() > 0
    &&& m.batches[batch][0] == tx.transaction
    &&& tx == cycling_highest::pending(tx.transaction)
    &&& !common_highest::hashes(m.included).contains(tx.id())
    &&& m.no_room(tx.transaction) is None
}

/// The gas of all transactions of a batch, held at the largest value.
pub open spec fn batch_gas(batch: Seq<TypedTransaction>, included: Seq<(TxHash, u64)>) -> u128
    decreases batch.len(),
{
    if batch.len() == 0 {
        0
    } else {
        num::u128_sat_add(
            batch_gas(batch.drop_last(), included),
            common_highest::gas_of(included, batch.last().id()) as u128,
        )
    }
}

/// What left the front of a batch.
spec fn front(batch: Seq<TypedTransaction>, rest: Seq<TypedTransaction>) -> Seq<TypedTransaction> {
    batch.take(batch.len() - rest.len())
}

/// Whether each proposer is credited with the gas of what left the front of its batch.
spec fn credits_hold(
    batches: Seq<Seq<TypedTransaction>>,
    rests: Seq<Seq<TypedTransaction>>,
    included: Seq<(TxHash, u64)>,
    gas_usage: Map<usize, u128>,
) -> bool {
    forall|i: int|
        0 <= i < batches.len() ==> cycling_highest::usage_of(gas_usage, i) == batch_gas(
            #[trigger] front(batches[i], rests[i]),
            included,
        )
}

/// What holds before and after each choice.
spec fn base_inv(start: CyclingHighestModel, m: CyclingHighestModel) -> bool {
    &&& m.well_formed()
    &&& m.gas_limit == start.gas_limit
    &&& m.blob_gas_limit == start.blob_gas_limit
    &&& m.batches.len() == start.batches.len()
    &&& table::keys_distinct(m.included)
    &&& forall|i: int|
        0 <= i < start.batches.len() ==> decisions::is_rest(
            #[trigger] start.batches[i],
            m.batches[i],
            common_highest::hashes(m.included),
        )
    &&& decisions::decided_once(m.block, m.failing, common_highest::hashes(m.included))
    &&& forall|h: TxHash| #[trigger]
        common_highest::hashes(m.included).contains(h) ==> decisions::in_batches(start.batches, h)
    &&& credits_hold(start.batches, m.batches, m.included, m.gas_usage)
    &&& forall|h: TxHash| #[trigger]
        decisions::in_failing(m.failing, h) ==> common_highest::gas_of(m.included, h) == 0
    &&& m.blob_gas_limit < u64::MAX ==> m.blob_gas_used == blob_gas(m.block)
    &&& m.blob_gas_used <= m.blob_gas_limit
}

spec fn merge_inv(start: CyclingHighestModel, m: CyclingHighestModel) -> bool {
    &&& base_inv(start, m)
    &&& match m.stage {
        Stage::Validating { batch, tx } => offered(m, batch as int, tx),
        Stage::Executing { batch, tx } => offered(m, batch as int, tx),
        Stage::Finished => forall|i: int| 0 <= i < m.batches.len() ==> (#[trigger] m.batches[i]).len() == 0,
        Stage::Idle => true,
    }
}

proof fn lemma_credit_front(
    batch: Seq<TypedTransaction>,
    rest: Seq<TypedTransaction>,
    included: Seq<(TxHash, u64)>,
    credit: u128,
)
    requires
        decisions::is_rest(batch, rest, common_highest::hashes(included)),
        credit == batch_gas(batch.take(batch.len() - rest.len()), included),
    ensures
        ({
            let d = batches::drop_seen(rest, common_highest::hashes(included));
            cycling_highest::credit_front(rest, included, credit) == batch_gas(
                batch.take(batch.len() - d.len()),
                included,
            )
        }),
    decreases rest.len(),
{
    if rest.len() > 0 && common_highest::hashes(included).contains(rest[0].id()) {
        let cut = batch.len() - rest.len();
        let shorter = rest.skip(1);
        assert(shorter =~= batch.skip(cut + 1));
        assert(rest[0] == batch[cut]);
        assert(batch.take(cut + 1).drop_last() =~= batch.take(cut));
        let more = num::u128_sat_add(
            credit,
            common_highest::gas_of(included, rest[0].id()) as u128,
        );
        lemma_credit_front(batch, shorter, included, more);
    }
}

/// A new entry keeps the gas of transactions that were dealt with before.
proof fn lemma_batch_gas_put(batch: Seq<TypedTransaction>, included: Seq<(TxHash, u64)>, hash: TxHash, gas: u64)
    requires
        table::keys_distinct(included),
        !common_highest::hashes(included).contains(hash),
        forall|j: int|
            0 <= j < batch.len() ==> common_highest::hashes(included).contains(
                (#[trigger] batch[j]).id(),
            ),
    ensures
        batch_gas(batch, table::entries_put(included, hash, gas)) == batch_gas(batch, included),
    decreases batch.len(),
{
    if batch.len() > 0 {
        lemma_batch_gas_put(batch.drop_last(), included, hash, gas);
        table::lemma_entries_put(included, hash, gas);
        assert(common_highest::hashes(included).contains(batch[batch.len() - 1].id()));
    }
}

proof fn lemma_cleaned(start: CyclingHighestModel, m: CyclingHighestModel)
    requires
        base_inv(start, m),
    ensures
        base_inv(start, m.cleaned()),
        forall|i: int|
            0 <= i < start.batches.len() && (#[trigger] m.cleaned().batches[i]).len() > 0
                ==> !common_highest::hashes(m.included).contains(m.cleaned().batches[i][0].id()),
{
    let seen = common_highest::hashes(m.included);
    m.lemma_cleaned();
    let c = m.cleaned();
    assert forall|i: int| 0 <= i < start.batches.len() implies decisions::is_rest(
        #[trigger] start.batches[i],
        c.batches[i],
        seen,
    ) by {
        decisions::lemma_drop_seen_is_rest(start.batches[i], m.batches[i], seen);
    }
    assert forall|i: int| 0 <= i < start.batches.len() implies cycling_highest::usage_of(c.gas_usage, i)
        == batch_gas(#[trigger] front(start.batches[i], c.batches[i]), c.included) by {
        assert(decisions::is_rest(start.batches[i], m.batches[i], seen));
        assert(cycling_highest::usage_of(m.gas_usage, i) == batch_gas(front(start.batches[i], m.batches[i]), m.included));
        cycling_highest::lemma_credited(m.batches, m.included, m.gas_usage, i);
        lemma_credit_front(
            start.batches[i],
            m.batches[i],
            m.included,
            cycling_highest::usage_of(m.gas_usage, i),
        );
    }
    assert forall|i: int| 0 <= i < start.batches.len() && (#[trigger] c.batches[i]).len() > 0 implies !seen.contains(
        c.batches[i][0].id(),
    ) by {
        assert(decisions::is_rest(start.batches[i], m.batches[i], seen));
        decisions::lemma_drop_seen_is_rest(start.batches[i], m.batches[i], seen);
    }
}

/// The head of a batch occurs in the batches.
proof fn lemma_head_in_batches(start: CyclingHighestModel, m: CyclingHighestModel, batch: int)
    requires
        base_inv(start, m),
        0 <= batch < m.batches.len(),
        m.batches[batch].len() > 0,
    ensures
        decisions::in_batches(start.batches, m.batches[batch][0].id()),
{
    let whole = start.batches[batch];
    let cut = whole.len() - m.batches[batch].len();
    assert(decisions::is_rest(whole, m.batches[batch], common_highest::hashes(m.included)));
    assert(start.batches[batch][cut] == m.batches[batch][0]);
    assert(start.batches[batch][cut].id() == m.batches[batch][0].id());
}

/// One more transaction that was dealt with keeps the batches in order.
proof fn lemma_put(
    start: CyclingHighestModel,
    m: CyclingHighestModel,
    hash: TxHash,
    gas: u64,
)
    requires
        base_inv(start, m),
        !common_highest::hashes(m.included).contains(hash),
        decisions::in_batches(start.batches, hash),
    ensures
        ({
            let after = table::entries_put(m.included, hash, gas);
            let seen = common_highest::hashes(after);
            &&& seen == common_highest::hashes(m.included).push(hash)
            &&& table::keys_distinct(after)
            &&& forall|i: int|
                0 <= i < start.batches.len() ==> decisions::is_rest(
                    #[trigger] start.batches[i],
                    m.batches[i],
                    seen,
                )
            &&& forall|h: TxHash| #[trigger] seen.contains(h) ==> decisions::in_batches(start.batches, h)
            &&& credits_hold(start.batches, m.batches, after, m.gas_usage)
            &&& table::entries_map(after) == table::entries_map(m.included).insert(hash, gas)
        }),
{
    let before = common_highest::hashes(m.included);
    let after = common_highest::hashes(table::entries_put(m.included, hash, gas));
    common_highest_laws::lemma_hashes_put(m.included, hash, gas);
    assert forall|i: int| 0 <= i < start.batches.len() implies decisions::is_rest(
        #[trigger] start.batches[i],
        m.batches[i],
        after,
    ) by {
        decisions::lemma_is_rest_push(start.batches[i], m.batches[i], before, hash);
    }
    assert forall|h: TxHash| #[trigger] after.contains(h) implies decisions::in_batches(start.batches, h) by {
        decisions::lemma_contains_push(before, hash, h);
    }
    assert forall|i: int| 0 <= i < start.batches.len() implies cycling_highest::usage_of(m.gas_usage, i)
        == batch_gas(
        #[trigger] front(start.batches[i], m.batches[i]),
        table::entries_put(m.included, hash, gas),
    ) by {
        let gone = front(start.batches[i], m.batches[i]);
        assert(decisions::is_rest(start.batches[i], m.batches[i], before));
        assert forall|j: int| 0 <= j < gone.len() implies before.contains((#[trigger] gone[j]).id()) by {
            assert(gone[j] == start.batches[i][j]);
        }
        lemma_batch_gas_put(gone, m.included, hash, gas);
    }
}

proof fn lemma_leave_out(
    start: CyclingHighestModel,
    m: CyclingHighestModel,
    batch: int,
    outcome: TransactionExecutionOutcome,
)
    requires
        base_inv(start, m),
        0 <= batch < m.batches.len(),
        m.batches[batch].len() > 0,
        !common_highest::hashes(m.included).contains(m.batches[batch][0].id()),
    ensures
        base_inv(start, m.leave_out(m.batches[batch][0], outcome)),
{
    let tx = m.batches[batch][0];
    lemma_head_in_batches(start, m, batch);
    lemma_put(start, m, tx.id(), 0);
    decisions::lemma_decided_reject(
        m.block,
        m.failing,
        common_highest::hashes(m.included),
        (tx.id(), outcome),
    );
    let n = m.leave_out(tx, outcome);
    assert forall|h: TxHash| #[trigger] decisions::in_failing(n.failing, h) implies common_highest::gas_of(
        n.included,
        h,
    ) == 0 by {
        decisions::lemma_failing_push(m.failing, (tx.id(), outcome), h);
    }
}

proof fn lemma_advance(start: CyclingHighestModel, m: CyclingHighestModel)
    requires
        base_inv(start, m),
    ensures
        merge_inv(start, m.advance().0),
    decreases
        cycling_highest::total_len(
            batches::drop_seen_all(m.batches, common_highest::hashes(m.included)),
        ),
{
    let c = m.cleaned();
    lemma_cleaned(start, m);
    c.lemma_winner();
    match c.winner() {
        None => {},
        Some((batch, tx)) => {
            assert(c.batches[batch as int].len() > 0);
            match c.no_room(tx) {
                Some(outcome) => {
                    c.lemma_leave_out_shrinks(batch, tx, outcome);
                    lemma_leave_out(start, c, batch as int, outcome);
                    lemma_advance(start, c.leave_out(tx, outcome));
                },
                None => {},
            }
        },
    }
}

proof fn lemma_step(start: CyclingHighestModel, m: CyclingHighestModel, report: Report)
    requires
        merge_inv(start, m),
        m.stage.expects(report),
    ensures
        merge_inv(start, m.step(report).0),
{
    match (m.stage, report) {
        (Stage::Validating { batch, tx }, Report::Validated(valid)) => {
            match valid {
                Ok(_) => {},
                Err(e) => {
                    let outcome = TransactionExecutionOutcome::Invalid(tx, e);
                    lemma_leave_out(start, m, batch as int, outcome);
                    lemma_advance(start, m.leave_out(tx.transaction, outcome));
                },
            }
        },
        (Stage::Executing { batch, tx }, Report::Transacted(result)) => {
            match result {
                Ok(gas) => {
                    lemma_include(start, m, batch, tx, gas);
                    lemma_advance(start, m.include_tx(tx.transaction, gas));
                },
                Err(e) => {
                    lemma_leave_out(start, m, batch as int, e.outcome(tx));
                    lemma_advance(start, m.leave_out(tx.transaction, e.outcome(tx)));
                },
            }
        },
        _ => {
            lemma_advance(start, m);
        },
    }
}

proof fn lemma_run(start: CyclingHighestModel, reports: Seq<Report>)
    requires
        is_start(start),
        legal(start, reports),
    ensures
        merge_inv(start, run(start, reports)),
    decreases reports.len(),
{
    if reports.len() == 0 {
        assert forall|i: int| 0 <= i < start.batches.len() implies decisions::is_rest(
            #[trigger] start.batches[i],
            start.batches[i],
            common_highest::hashes(start.included),
        ) by {
            assert(start.batches[i].skip(0) =~= start.batches[i]);
        }
    } else {
        lemma_run(start, reports.drop_last());
        lemma_step(start, run(start, reports.drop_last()), reports.last());
    }
}

/// However validations and executions turn out, no transaction is dealt with twice: each hash is in
/// the block at most once, or left out at most once, never both, and comes from some batch.
pub proof fn law_each_transaction_is_decided_once(start: CyclingHighestModel, reports: Seq<Report>)
    requires
        is_start(start),
        legal(start, reports),
    ensures
        ({
            let m = run(start, reports);
            let seen = common_highest::hashes(m.included);
            &&& decisions::decided_once(m.block, m.failing, seen)
            &&& forall|h: TxHash| #[trigger] seen.contains(h) ==> decisions::in_batches(start.batches, h)
        }),
{
    lemma_run(start, reports);
}

/// A merge ends only when every transaction of every batch is in the block or was left out.
pub proof fn law_finished_merge_decided_everything(
    start: CyclingHighestModel,
    reports: Seq<Report>,
    hash: TxHash,
)
    requires
        is_start(start),
        legal(start, reports),
        run(start, reports).stage is Finished,
    ensures
        decisions::in_batches(start.batches, hash) <==> decisions::in_block(run(start, reports).block, hash)
            || decisions::in_failing(run(start, reports).failing, hash),
{
    lemma_run(start, reports);
    let m = run(start, reports);
    let seen = common_highest::hashes(m.included);
    assert(seen.contains(hash) <==> decisions::in_block(m.block, hash) || decisions::in_failing(
        m.failing,
        hash,
    ));
    if decisions::in_batches(start.batches, hash) {
        let (i, j) = choose|i: int, j: int|
            0 <= i < start.batches.len() && 0 <= j < start.batches[i].len() && (
            #[trigger] start.batches[i][j]).id() == hash;
        assert(decisions::is_rest(start.batches[i], m.batches[i], seen));
        assert(m.batches[i].len() == 0);
        assert(seen.contains(start.batches[i][j].id()));
    }
}

/// The blob gas of the block never exceeds its limit, where the limit is not the largest number,
/// which stands for any amount.
pub proof fn law_blob_gas_limit_is_kept(start: CyclingHighestModel, reports: Seq<Report>)
    requires
        is_start(start),
        legal(start, reports),
        start.blob_gas_limit < u64::MAX,
    ensures
        blob_gas(run(start, reports).block) <= start.blob_gas_limit,
        run(start, reports).blob_gas_used == blob_gas(run(start, reports).block),
{
    lemma_run(start, reports);
}

/// Whether no execution uses more gas than its transaction allows.
pub open spec fn gas_limits_kept(start: CyclingHighestModel, reports: Seq<Report>) -> bool
    decreases reports.len(),
{
    reports.len() == 0 || {
        &&& gas_limits_kept(start, reports.drop_last())
        &&& match (run(start, reports.drop_last()).stage, reports.last()) {
            (Stage::Executing { batch, tx }, Report::Transacted(Ok(gas))) => gas <= tx.transaction.gas_limit,
            _ => true,
        }
    }
}

/// The gas that the executed transactions used.
pub open spec fn gas_reported(reports: Seq<Report>) -> nat
    decreases reports.len(),
{
    if reports.len() == 0 {
        0
    } else {
        gas_reported(reports.drop_last()) + match reports.last() {
            Report::Transacted(Ok(gas)) => gas as nat,
            _ => 0,
        }
    }
}

/// Choosing a transaction uses no gas.
proof fn lemma_advance_gas(m: CyclingHighestModel)
    requires
        m.batches.len() <= usize::MAX,
    ensures
        m.advance().0.gas_used == m.gas_used,
        m.advance().0.batches.len() == m.batches.len(),
    decreases
        cycling_highest::total_len(
            batches::drop_seen_all(m.batches, common_highest::hashes(m.included)),
        ),
{
    let c = m.cleaned();
    match c.winner() {
        None => {},
        Some((batch, tx)) => match c.no_room(tx) {
            Some(outcome) => {
                c.lemma_leave_out_shrinks(batch, tx, outcome);
                lemma_advance_gas(c.leave_out(tx, outcome));
            },
            None => {},
        },
    }
}

/// The gas of the block never exceeds its limit, as long as no execution uses more gas than its
/// transaction allows, and where the limit is not the largest number, which stands for any amount.
pub proof fn law_gas_limit_is_kept(start: CyclingHighestModel, reports: Seq<Report>)
    requires
        is_start(start),
        legal(start, reports),
        start.gas_limit < u64::MAX,
        gas_limits_kept(start, reports),
    ensures
        gas_reported(reports) <= start.gas_limit,
        run(start, reports).gas_used == gas_reported(reports),
    decreases reports.len(),
{
    if reports.len() > 0 {
        law_gas_limit_is_kept(start, reports.drop_last());
        lemma_run(start, reports.drop_last());
        let m = run(start, reports.drop_last());
        match (m.stage, reports.last()) {
            (Stage::Validating { batch, tx }, Report::Validated(Err(e))) => {
                lemma_advance_gas(
                    m.leave_out(tx.transaction, TransactionExecutionOutcome::Invalid(tx, e)),
                );
            },
            (Stage::Executing { batch, tx }, Report::Transacted(Ok(gas))) => {
                lemma_advance_gas(m.include_tx(tx.transaction, gas));
            },
            (Stage::Executing { batch, tx }, Report::Transacted(Err(e))) => {
                lemma_advance_gas(m.leave_out(tx.transaction, e.outcome(tx)));
            },
            _ => {
                lemma_advance_gas(m);
            },
        }
    }
}

/// In the end each proposer is credited with the gas of all transactions of its batch that went into
/// the block, whoever offered them first: each is counted once for each time that the batch lists it,
/// and those that were left out count nothing.
pub proof fn law_credit_is_the_gas_of_the_batch(start: CyclingHighestModel, reports: Seq<Report>, i: int)
    requires
        is_start(start),
        legal(start, reports),
        run(start, reports).stage is Finished,
        0 <= i < start.batches.len(),
    ensures
        ({
            let m = run(start, reports);
            &&& cycling_highest::usage_of(m.gas_usage, i) == batch_gas(start.batches[i], m.included)
            &&& forall|h: TxHash| #[trigger]
                decisions::in_failing(m.failing, h) ==> common_highest::gas_of(m.included, h) == 0
        }),
{
    lemma_run(start, reports);
    let m = run(start, reports);
    assert(cycling_highest::usage_of(m.gas_usage, i) == batch_gas(
        front(start.batches[i], m.batches[i]),
        m.included,
    ));
    assert(m.batches[i].len() == 0);
    assert(front(start.batches[i], m.batches[i]) =~= start.batches[i]);
}

/// A merge ends: it takes in at most two reports for each transaction of the batches, and one more.
pub proof fn law_merge_ends(start: CyclingHighestModel, reports: Seq<Report>)
    requires
        is_start(start),
        legal(start, reports),
    ensures
        reports.len() <= 2 * decisions::joined(start.batches).len() + 1,
{
    lemma_reports_counted(start, reports);
    lemma_run(start, reports);
    let m = run(start, reports);
    let seen = common_highest::hashes(m.included);
    decisions::lemma_decisions_bounded(start.batches, seen);
    if let Stage::Executing { batch, tx } = m.stage {
        let more = seen.push(tx.id());
        lemma_head_in_batches(start, m, batch as int);
        decisions::lemma_no_duplicates_push(seen, tx.id());
        assert forall|h: TxHash| #[trigger] more.contains(h) implies decisions::in_batches(start.batches, h) by {
            decisions::lemma_contains_push(seen, tx.id(), h);
        }
        decisions::lemma_decisions_bounded(start.batches, more);
    }
}

/// Choosing a transaction only adds to those that were dealt with, and starts no execution.
proof fn lemma_advance_included(start: CyclingHighestModel, m: CyclingHighestModel)
    requires
        base_inv(start, m),
    ensures
        m.advance().0.included.len() >= m.included.len(),
        !(m.advance().0.stage is Executing),
        !(m.advance().0.stage is Idle),
    decreases
        cycling_highest::total_len(
            batches::drop_seen_all(m.batches, common_highest::hashes(m.included)),
        ),
{
    let c = m.cleaned();
    lemma_cleaned(start, m);
    c.lemma_winner();
    match c.winner() {
        None => {},
        Some((batch, tx)) => match c.no_room(tx) {
            Some(outcome) => {
                assert(c.batches[batch as int].len() > 0);
                c.lemma_leave_out_shrinks(batch, tx, outcome);
                lemma_leave_out(start, c, batch as int, outcome);
                lemma_advance_included(start, c.leave_out(tx, outcome));
            },
            None => {},
        },
    }
}

proof fn lemma_reports_counted(start: CyclingHighestModel, reports: Seq<Report>)
    requires
        is_start(start),
        legal(start, reports),
    ensures
        ({
            let m = run(start, reports);
            &&& reports.len() <= 2 * m.included.len() + if m.stage is Executing {
                2int
            } else {
                1
            }
            &&& m.stage is Idle ==> reports.len() == 0
        }),
    decreases reports.len(),
{
    if reports.len() > 0 {
        lemma_reports_counted(start, reports.drop_last());
        lemma_run(start, reports.drop_last());
        let m = run(start, reports.drop_last());
        match (m.stage, reports.last()) {
            (Stage::Validating { batch, tx }, Report::Validated(Err(e))) => {
                let outcome = TransactionExecutionOutcome::Invalid(tx, e);
                common_highest_laws::lemma_hashes_put(m.included, tx.id(), 0);
                lemma_leave_out(start, m, batch as int, outcome);
                lemma_advance_included(start, m.leave_out(tx.transaction, outcome));
            },
            (Stage::Executing { batch, tx }, Report::Transacted(Ok(gas))) => {
                common_highest_laws::lemma_hashes_put(m.included, tx.id(), gas);
                lemma_include(start, m, batch, tx, gas);
                lemma_advance_included(start, m.include_tx(tx.transaction, gas));
            },
            (Stage::Executing { batch, tx }, Report::Transacted(Err(e))) => {
                common_highest_laws::lemma_hashes_put(m.included, tx.id(), 0);
                lemma_leave_out(start, m, batch as int, e.outcome(tx));
                lemma_advance_included(start, m.leave_out(tx.transaction, e.outcome(tx)));
            },
            (Stage::Validating { batch, tx }, Report::Validated(Ok(_))) => {},
            _ => {
                lemma_advance_included(start, m);
            },
        }
    }
}

proof fn lemma_include(
    start: CyclingHighestModel,
    m: CyclingHighestModel,
    batch: usize,
    tx: PendingTransaction,
    gas: u64,
)
    requires
        base_inv(start, m),
        offered(m, batch as int, tx),
    ensures
        base_inv(start, m.include_tx(tx.transaction, gas)),
{
    let n = m.include_tx(tx.transaction, gas);
    lemma_head_in_batches(start, m, batch as int);
    lemma_put(start, m, tx.id(), gas);
    decisions::lemma_decided_include(
        m.block,
        m.failing,
        common_highest::hashes(m.included),
        tx.transaction,
    );
    assert(n.block.drop_last() =~= m.block);
}

/// A transaction is tried only after all that stand before it in its batch were dealt with.
pub proof fn law_batches_keep_their_order(
    start: CyclingHighestModel,
    reports: Seq<Report>,
    batch: usize,
    tx: PendingTransaction,
)
    requires
        is_start(start),
        legal(start, reports),
        run(start, reports).stage == (Stage::Validating { batch, tx }) || run(start, reports).stage == (
        Stage::Executing { batch, tx }),
    ensures
        batch < start.batches.len(),
        exists|place: int| #[trigger]
            decisions::is_next_of(
                start.batches[batch as int],
                place,
                tx.transaction,
                common_highest::hashes(run(start, reports).included),
            ),
{
    lemma_run(start, reports);
    let m = run(start, reports);
    let whole = start.batches[batch as int];
    let seen = common_highest::hashes(m.included);
    assert(decisions::is_rest(whole, m.batches[batch as int], seen));
    let place = whole.len() - m.batches[batch as int].len();
    assert(whole[place] == m.batches[batch as int][0]);
    assert(decisions::is_next_of(whole, place, tx.transaction, seen));
}

/// Some head stands among those of proposers below a limit where such a proposer has a transaction.
proof fn lemma_heads_below(
    batches: Seq<Seq<TypedTransaction>>,
    gas_usage: Map<usize, u128>,
    limit: u128,
    count: int,
    i: int,
)
    requires
        0 <= i < count <= batches.len(),
        batches[i].len() > 0,
        cycling_highest::usage_of(gas_usage, i) < limit,
    ensures
        cycling_highest::heads(batches, gas_usage, Some(limit), count).len() > 0,
    decreases count,
{
    if i < count - 1 {
        lemma_heads_below(batches, gas_usage, limit, count - 1, i);
    }
}

/// A proposer that used up its share, a fourth of the block's gas divided by the number of proposers, is
/// passed over as long as another one that has a transaction did not.
pub proof fn law_proposers_below_their_share_go_first(m: CyclingHighestModel, i: int)
    requires
        m.batches.len() <= usize::MAX,
        0 <= i < m.batches.len(),
        m.batches[i].len() > 0,
        cycling_highest::usage_of(m.gas_usage, i) < m.gas_limit as int / 4 / m.batches.len() as int,
    ensures
        m.winner() matches Some((batch, _)) && cycling_highest::usage_of(m.gas_usage, batch as int)
            < m.gas_limit as int / 4 / m.batches.len() as int,
{
    m.lemma_winner();
    if let Some((batch, tx)) = m.winner() {
        lemma_winner_is_best(m, batch, tx, i);
    }
}

/// The gas that the execution of the transaction with a given hash used, and zero where no such
/// transaction was executed.
pub open spec fn gas_spent(start: CyclingHighestModel, reports: Seq<Report>, hash: TxHash) -> nat
    decreases reports.len(),
{
    if reports.len() == 0 {
        0
    } else {
        match (run(start, reports.drop_last()).stage, reports.last()) {
            (Stage::Executing { batch, tx }, Report::Transacted(Ok(gas))) => if tx.transaction.hash == hash {
                gas as nat
            } else {
                gas_spent(start, reports.drop_last(), hash)
            },
            _ => gas_spent(start, reports.drop_last(), hash),
        }
    }
}

/// The gas with which a proposer is credited, where the transaction at a place is the first open one
/// of its batch: the gas of those before it, held at the largest value.
pub open spec fn credit_before(batch: Seq<TypedTransaction>, place: int, gas: spec_fn(TxHash) -> nat) -> nat {
    if decisions::gas_sum(batch.take(place), gas) <= u128::MAX {
        decisions::gas_sum(batch.take(place), gas)
    } else {
        u128::MAX as nat
    }
}

/// Whether the first open transaction of a batch is the one that goes next, where the transactions of
/// the block and those that were left out are given, and the gas that each one used.
///
/// The share of a proposer is a fourth of the block's gas, divided by the number of proposers. A
/// proposer that reached its share goes next only where all with an open transaction did. Among the
/// proposers that can go next none has an open transaction that pays more, and later ones pay less.
pub open spec fn goes_next(
    start: CyclingHighestModel,
    block: Seq<TypedTransaction>,
    failing: Seq<(TxHash, TransactionExecutionOutcome)>,
    gas: spec_fn(TxHash) -> nat,
    batch: int,
    place: int,
) -> bool {
    let share = start.gas_limit as int / 4 / start.batches.len() as int;
    let reached = credit_before(start.batches[batch], place, gas) >= share;
    let best = transaction::effective_price(start.batches[batch][place], start.base_fee);
    &&& 0 <= batch < start.batches.len()
    &&& decisions::is_front(start.batches[batch], place, block, failing)
    &&& forall|j: int, p: int|
        0 <= j < start.batches.len() && #[trigger] decisions::is_front(start.batches[j], p, block, failing)
            ==> {
            let below = credit_before(start.batches[j], p, gas) < share;
            let price = transaction::effective_price(start.batches[j][p], start.base_fee);
            &&& below ==> !reached
            &&& below || reached ==> price <= best
            &&& (below || reached) && j > batch ==> price < best
        }
}

/// Whether the gas that is remembered of each transaction is the given one.
spec fn remembers(included: Seq<(TxHash, u64)>, gas: spec_fn(TxHash) -> nat) -> bool {
    forall|h: TxHash| #[trigger]
        gas(h) == if common_highest::hashes(included).contains(h) {
            common_highest::gas_of(included, h) as nat
        } else {
            0
        }
}

/// Adding up with a largest value gives the plain sum, or the largest value where the sum is above.
proof fn lemma_batch_gas_is_sum(
    batch: Seq<TypedTransaction>,
    included: Seq<(TxHash, u64)>,
    gas: spec_fn(TxHash) -> nat,
)
    requires
        remembers(included, gas),
        forall|j: int|
            0 <= j < batch.len() ==> common_highest::hashes(included).contains((#[trigger] batch[j]).id()),
    ensures
        batch_gas(batch, included) == if decisions::gas_sum(batch, gas) <= u128::MAX {
            decisions::gas_sum(batch, gas) as int
        } else {
            u128::MAX as int
        },
    decreases batch.len(),
{
    if batch.len() > 0 {
        lemma_batch_gas_is_sum(batch.drop_last(), included, gas);
        assert(batch[batch.len() - 1] == batch.last());
        assert(common_highest::hashes(included).contains(batch[batch.len() - 1].id()));
        assert(gas(batch.last().id()) == common_highest::gas_of(included, batch.last().id()));
    }
}

/// All that is open in a state with new heads: where, with which credit.
proof fn lemma_open(start: CyclingHighestModel, m: CyclingHighestModel, gas: spec_fn(TxHash) -> nat, j: int)
    requires
        base_inv(start, m),
        remembers(m.included, gas),
        0 <= j < start.batches.len(),
        m.batches[j].len() > 0 ==> !common_highest::hashes(m.included).contains(m.batches[j][0].id()),
    ensures
        ({
            let place = start.batches[j].len() - m.batches[j].len();
            &&& m.batches[j].len() == 0 <==> decisions::is_done(start.batches[j], m.block, m.failing)
            &&& m.batches[j].len() > 0 ==> decisions::is_front(start.batches[j], place, m.block, m.failing)
                && start.batches[j][place] == m.batches[j][0]
            &&& forall|p: int| #[trigger]
                decisions::is_front(start.batches[j], p, m.block, m.failing) ==> p == place
                    && m.batches[j].len() > 0
            &&& cycling_highest::usage_of(m.gas_usage, j) == credit_before(start.batches[j], place, gas)
        }),
{
    let whole = start.batches[j];
    let rest = m.batches[j];
    let seen = common_highest::hashes(m.included);
    assert(decisions::is_rest(whole, rest, seen));
    decisions::lemma_rest_begins_at_front(whole, rest, m.block, m.failing, seen);
    assert(cycling_highest::usage_of(m.gas_usage, j) == batch_gas(front(whole, rest), m.included));
    let gone = front(whole, rest);
    assert forall|k: int| 0 <= k < gone.len() implies seen.contains((#[trigger] gone[k]).id()) by {
        assert(gone[k] == whole[k]);
    }
    lemma_batch_gas_is_sum(gone, m.included, gas);
    assert forall|p: int| #[trigger] decisions::is_front(whole, p, m.block, m.failing) implies p == whole.len()
        - rest.len() && rest.len() > 0 by {
        assert(0 <= p < whole.len());
    }
}

/// A head below the limit stands among the heads below it.
proof fn lemma_heads_hold(
    batches: Seq<Seq<TypedTransaction>>,
    gas_usage: Map<usize, u128>,
    limit: Option<u128>,
    count: int,
    i: int,
) -> (k: int)
    requires
        0 <= i < count <= batches.len() <= usize::MAX,
        batches[i].len() > 0,
        limit matches Some(l) ==> cycling_highest::usage_of(gas_usage, i) < l,
    ensures
        0 <= k < cycling_highest::heads(batches, gas_usage, limit, count).len(),
        cycling_highest::heads(batches, gas_usage, limit, count)[k] == (i as usize, batches[i][0]),
    decreases count,
{
    let before = cycling_highest::heads(batches, gas_usage, limit, count - 1);
    if i == count - 1 {
        before.len() as int
    } else {
        lemma_heads_hold(batches, gas_usage, limit, count - 1, i)
    }
}

/// Heads stand in the order of their batches.
proof fn lemma_heads_ascend(
    batches: Seq<Seq<TypedTransaction>>,
    gas_usage: Map<usize, u128>,
    limit: Option<u128>,
    count: int,
)
    requires
        0 <= count <= batches.len() <= usize::MAX,
    ensures
        ({
            let all = cycling_highest::heads(batches, gas_usage, limit, count);
            forall|a: int, b: int| 0 <= a < b < all.len() ==> (#[trigger] all[a]).0 < (#[trigger] all[b]).0
        }),
    decreases count,
{
    if count > 0 {
        lemma_heads_ascend(batches, gas_usage, limit, count - 1);
        cycling_highest::lemma_heads(batches, gas_usage, limit, count - 1);
        let before = cycling_highest::heads(batches, gas_usage, limit, count - 1);
        let all = cycling_highest::heads(batches, gas_usage, limit, count);
        assert forall|a: int, b: int| 0 <= a < b < all.len() implies (#[trigger] all[a]).0 < (
        #[trigger] all[b]).0 by {
            assert(all[a] == before[a]);
            if b < before.len() {
                assert(all[b] == before[b]);
            }
        }
    }
}

/// The winner of a state is the best paid head of those that can go next.
proof fn lemma_winner_is_best(m: CyclingHighestModel, batch: usize, tx: TypedTransaction, j: int)
    requires
        0 < m.batches.len() <= usize::MAX,
        m.winner() == Some((batch, tx)),
        0 <= j < m.batches.len(),
        m.batches[j].len() > 0,
    ensures
        ({
            let share = m.gas_limit as int / 4 / m.batches.len() as int;
            let reached = cycling_highest::usage_of(m.gas_usage, batch as int) >= share;
            let below = cycling_highest::usage_of(m.gas_usage, j) < share;
            let price = transaction::effective_price(m.batches[j][0], m.base_fee);
            let best = transaction::effective_price(tx, m.base_fee);
            &&& below ==> !reached
            &&& below || reached ==> price <= best
            &&& (below || reached) && j > batch ==> price < best
        }),
{
    let count = m.batches.len() as int;
    let limit = m.batch_limit();
    assert(0 <= m.gas_limit as int / 4 / count <= u64::MAX) by {
        vstd::arithmetic::div_mod::lemma_div_pos_is_pos(m.gas_limit as int / 4, count);
        vstd::arithmetic::div_mod::lemma_div_is_ordered_by_denominator(m.gas_limit as int / 4, 1, count);
    }
    let share = m.gas_limit as int / 4 / count;
    assert(limit == share);
    let c = cycling_highest::candidates(m.batches, m.gas_usage, limit);
    let primary = cycling_highest::heads(m.batches, m.gas_usage, Some(limit), count);
    let used = if primary.len() > 0 {
        Some(limit)
    } else {
        None
    };
    assert(c == cycling_highest::heads(m.batches, m.gas_usage, used, count));
    cycling_highest::lemma_heads(m.batches, m.gas_usage, used, count);
    lemma_heads_ascend(m.batches, m.gas_usage, used, count);
    cycling_highest::law_best_paid_candidate_wins(c, m.base_fee, c.len() as int);
    let w = cycling_highest::best_candidate(c, m.base_fee, c.len() as int);
    assert(c[w] == (batch, tx));
    let below = cycling_highest::usage_of(m.gas_usage, j) < share;
    let reached = cycling_highest::usage_of(m.gas_usage, batch as int) >= share;
    if below {
        lemma_heads_below(m.batches, m.gas_usage, limit, count, j);
    }
    if below || reached {
        let k = lemma_heads_hold(m.batches, m.gas_usage, used, count, j);
        assert(c[k] == (j as usize, m.batches[j][0]));
        if j > batch && k <= w {
            if k < w {
                assert(c[k].0 < c[w].0);
            }
        }
    }
}

/// The winner of a state with new heads goes next.
proof fn lemma_winner_goes_next(
    start: CyclingHighestModel,
    m: CyclingHighestModel,
    gas: spec_fn(TxHash) -> nat,
    batch: usize,
    tx: TypedTransaction,
)
    requires
        base_inv(start, m),
        m.base_fee == start.base_fee,
        remembers(m.included, gas),
        forall|i: int|
            0 <= i < start.batches.len() && (#[trigger] m.batches[i]).len() > 0
                ==> !common_highest::hashes(m.included).contains(m.batches[i][0].id()),
        m.winner() == Some((batch, tx)),
    ensures
        batch < start.batches.len(),
        ({
            let place = start.batches[batch as int].len() - m.batches[batch as int].len();
            &&& goes_next(start, m.block, m.failing, gas, batch as int, place)
            &&& start.batches[batch as int][place] == tx
        }),
{
    m.lemma_winner();
    assert(m.batches[batch as int].len() > 0);
    lemma_open(start, m, gas, batch as int);
    let place = start.batches[batch as int].len() - m.batches[batch as int].len();
    let share = start.gas_limit as int / 4 / start.batches.len() as int;
    let reached = credit_before(start.batches[batch as int], place, gas) >= share;
    let best = transaction::effective_price(tx, start.base_fee);
    assert forall|j: int, p: int|
        0 <= j < start.batches.len() && #[trigger] decisions::is_front(start.batches[j], p, m.block, m.failing) implies {
        let below = credit_before(start.batches[j], p, gas) < share;
        let price = transaction::effective_price(start.batches[j][p], start.base_fee);
        &&& below ==> !reached
        &&& below || reached ==> price <= best
        &&& (below || reached) && j > batch ==> price < best
    } by {
        assert(m.batches[j].len() > 0 ==> !common_highest::hashes(m.included).contains(m.batches[j][0].id()));
        lemma_open(start, m, gas, j);
        lemma_winner_is_best(m, batch, tx, j);
    }
}

/// Whether a transaction was left out because the block has no room for it: first the gas is looked
/// at, and then the blob gas.
pub open spec fn has_no_room(
    start: CyclingHighestModel,
    gas_used: int,
    blob_gas_used: int,
    tx: TypedTransaction,
    outcome: TransactionExecutionOutcome,
) -> bool {
    let too_much_gas = gas_used + tx.gas_limit > start.gas_limit && start.gas_limit < u64::MAX;
    let blobs = match tx.blob_gas {
        Some(gas) => gas as int,
        None => 0,
    };
    let too_much_blob_gas = blob_gas_used + blobs > start.blob_gas_limit && start.blob_gas_limit < u64::MAX;
    match outcome {
        TransactionExecutionOutcome::BlockGasExhausted(p) => p.transaction == tx && too_much_gas,
        TransactionExecutionOutcome::BlobGasExhausted(p) => p.transaction == tx && !too_much_gas
            && too_much_blob_gas,
        _ => false,
    }
}

/// Whether the block has room for a transaction.
pub open spec fn has_room(start: CyclingHighestModel, gas_used: int, blob_gas_used: int, tx: TypedTransaction) -> bool {
    let blobs = match tx.blob_gas {
        Some(gas) => gas as int,
        None => 0,
    };
    &&& gas_used + tx.gas_limit <= start.gas_limit || start.gas_limit == u64::MAX
    &&& blob_gas_used + blobs <= start.blob_gas_limit || start.blob_gas_limit == u64::MAX
}

/// Whether the entry at a place of those that were left out is the transaction that went next, without
/// room in the block.
pub open spec fn left_out_in_turn(
    start: CyclingHighestModel,
    m: CyclingHighestModel,
    gas: spec_fn(TxHash) -> nat,
    at: int,
) -> bool {
    exists|batch: int, place: int| #[trigger]
        goes_next(start, m.block, m.failing.take(at), gas, batch, place) && m.failing[at].0
            == start.batches[batch][place].hash && has_no_room(
            start,
            m.gas_used as int,
            m.blob_gas_used as int,
            start.batches[batch][place],
            m.failing[at].1,
        )
}

/// Choosing the next transaction leaves out those without room in turn, and nothing else.
proof fn lemma_advance_in_turn(start: CyclingHighestModel, m: CyclingHighestModel, gas: spec_fn(TxHash) -> nat)
    requires
        base_inv(start, m),
        m.base_fee == start.base_fee,
        remembers(m.included, gas),
    ensures
        ({
            let n = m.advance().0;
            &&& n.block == m.block
            &&& n.gas_used == m.gas_used
            &&& n.blob_gas_used == m.blob_gas_used
            &&& n.base_fee == start.base_fee
            &&& n.gas_limit == start.gas_limit
            &&& n.failing.len() >= m.failing.len()
            &&& n.failing.take(m.failing.len() as int) == m.failing
            &&& remembers(n.included, gas)
            &&& base_inv(start, n)
            &&& forall|at: int|
                m.failing.len() <= at < n.failing.len() ==> #[trigger] left_out_in_turn(start, n, gas, at)
            &&& forall|i: int|
                0 <= i < start.batches.len() && (#[trigger] n.batches[i]).len() > 0
                    ==> !common_highest::hashes(n.included).contains(n.batches[i][0].id())
            &&& match n.stage {
                Stage::Validating { batch, tx } => {
                    &&& n.winner() == Some((batch, tx.transaction))
                    &&& tx == cycling_highest::pending(tx.transaction)
                    &&& n.no_room(tx.transaction) is None
                },
                Stage::Finished => n.winner() is None,
                _ => false,
            }
        }),
    decreases
        cycling_highest::total_len(
            batches::drop_seen_all(m.batches, common_highest::hashes(m.included)),
        ),
{
    let c = m.cleaned();
    lemma_cleaned(start, m);
    c.lemma_winner();
    let n = m.advance().0;
    match c.winner() {
        None => {
            assert(n.failing.take(m.failing.len() as int) =~= m.failing);
        },
        Some((batch, tx)) => {
            assert(c.batches[batch as int].len() > 0);
            match c.no_room(tx) {
                Some(outcome) => {
                    c.lemma_leave_out_shrinks(batch, tx, outcome);
                    lemma_leave_out(start, c, batch as int, outcome);
                    let l = c.leave_out(tx, outcome);
                    common_highest_laws::lemma_hashes_put(c.included, tx.id(), 0);
                    assert forall|h: TxHash| #[trigger]
                        gas(h) == if common_highest::hashes(l.included).contains(h) {
                            common_highest::gas_of(l.included, h) as nat
                        } else {
                            0
                        } by {
                        decisions::lemma_contains_push(common_highest::hashes(c.included), tx.id(), h);
                    }
                    lemma_advance_in_turn(start, l, gas);
                    lemma_winner_goes_next(start, c, gas, batch, tx);
                    let k = m.failing.len() as int;
                    let place = start.batches[batch as int].len() - c.batches[batch as int].len();
                    assert(n.failing.take(k + 1)[k] == n.failing[k]);
                    assert(l.failing[k] == (tx.id(), outcome));
                    assert(n.failing.take(k) =~= l.failing.take(k));
                    assert(l.failing.take(k) =~= m.failing);
                    assert(goes_next(start, n.block, n.failing.take(k), gas, batch as int, place));
                    assert(left_out_in_turn(start, n, gas, k));
                    assert forall|at: int| k <= at < n.failing.len() implies #[trigger] left_out_in_turn(
                        start,
                        n,
                        gas,
                        at,
                    ) by {
                        if at > k {
                            assert(l.failing.len() <= at);
                        }
                    }
                },
                None => {
                    assert(n.failing.take(m.failing.len() as int) =~= m.failing);
                    assert(n.batches == c.batches && n.gas_usage == c.gas_usage);
                    assert(n.winner() == c.winner());
                },
            }
        },
    }
}

/// The gas that executions used, as a function of the hash.
pub open spec fn spent(start: CyclingHighestModel, reports: Seq<Report>) -> spec_fn(TxHash) -> nat {
    |hash: TxHash| gas_spent(start, reports, hash)
}

/// The state out of which the last report lets the merge choose the next transaction.
spec fn settled(m: CyclingHighestModel, report: Report) -> CyclingHighestModel {
    match (m.stage, report) {
        (Stage::Validating { batch, tx }, Report::Validated(Err(e))) => m.leave_out(
            tx.transaction,
            TransactionExecutionOutcome::Invalid(tx, e),
        ),
        (Stage::Executing { batch, tx }, Report::Transacted(Ok(gas))) => m.include_tx(tx.transaction, gas),
        (Stage::Executing { batch, tx }, Report::Transacted(Err(e))) => m.leave_out(
            tx.transaction,
            e.outcome(tx),
        ),
        _ => m,
    }
}

/// Dealing with a transaction keeps what is remembered of the gas.
proof fn lemma_put_remembers(
    included: Seq<(TxHash, u64)>,
    gas: spec_fn(TxHash) -> nat,
    more: spec_fn(TxHash) -> nat,
    hash: TxHash,
    used: u64,
)
    requires
        table::keys_distinct(included),
        !common_highest::hashes(included).contains(hash),
        remembers(included, gas),
        forall|h: TxHash| #[trigger]
            more(h) == if h == hash {
                used as nat
            } else {
                gas(h)
            },
    ensures
        remembers(table::entries_put(included, hash, used), more),
{
    let after = table::entries_put(included, hash, used);
    common_highest_laws::lemma_hashes_put(included, hash, used);
    assert forall|h: TxHash| #[trigger]
        more(h) == if common_highest::hashes(after).contains(h) {
            common_highest::gas_of(after, h) as nat
        } else {
            0
        } by {
        decisions::lemma_contains_push(common_highest::hashes(included), hash, h);
        assert(gas(h) == if common_highest::hashes(included).contains(h) {
            common_highest::gas_of(included, h) as nat
        } else {
            0
        });
    }
}

/// What is remembered of the gas is what the executions used, and no head was dealt with once the
/// merge began.
proof fn lemma_spent(start: CyclingHighestModel, reports: Seq<Report>)
    requires
        is_start(start),
        legal(start, reports),
    ensures
        remembers(run(start, reports).included, spent(start, reports)),
        run(start, reports).base_fee == start.base_fee,
        run(start, reports).gas_limit == start.gas_limit,
        reports.len() > 0 ==> forall|i: int|
            0 <= i < start.batches.len() && (#[trigger] run(start, reports).batches[i]).len() > 0
                ==> !common_highest::hashes(run(start, reports).included).contains(
                run(start, reports).batches[i][0].id(),
            ),
        reports.len() > 0 ==> !(run(start, reports).stage is Idle),
        run(start, reports).stage matches Stage::Validating { batch, tx } ==> run(start, reports).winner()
            == Some((batch, tx.transaction)),
    decreases reports.len(),
{
    let n = run(start, reports);
    let gas = spent(start, reports);
    if reports.len() == 0 {
        assert forall|h: TxHash| #[trigger]
            gas(h) == if common_highest::hashes(n.included).contains(h) {
                common_highest::gas_of(n.included, h) as nat
            } else {
                0
            } by {}
    } else {
        let shorter = reports.drop_last();
        let m = run(start, shorter);
        let before = spent(start, shorter);
        lemma_spent(start, shorter);
        lemma_run(start, shorter);
        let report = reports.last();
        match (m.stage, report) {
            (Stage::Validating { batch, tx }, Report::Validated(Ok(_))) => {
                assert forall|h: TxHash| #[trigger] gas(h) == before(h) by {}
                assert(remembers(n.included, gas)) by {
                    assert forall|h: TxHash| #[trigger]
                        gas(h) == if common_highest::hashes(n.included).contains(h) {
                            common_highest::gas_of(n.included, h) as nat
                        } else {
                            0
                        } by {
                        assert(before(h) == gas(h));
                    }
                }
            },
            (Stage::Validating { batch, tx }, Report::Validated(Err(e))) => {
                lemma_zero(start, shorter, tx);
                lemma_put_remembers(m.included, before, gas, tx.id(), 0);
                lemma_leave_out(start, m, batch as int, TransactionExecutionOutcome::Invalid(tx, e));
                lemma_advance_in_turn(start, settled(m, report), gas);
            },
            (Stage::Executing { batch, tx }, Report::Transacted(Ok(used))) => {
                lemma_put_remembers(m.included, before, gas, tx.id(), used);
                lemma_include(start, m, batch, tx, used);
                lemma_advance_in_turn(start, settled(m, report), gas);
            },
            (Stage::Executing { batch, tx }, Report::Transacted(Err(e))) => {
                lemma_zero(start, shorter, tx);
                lemma_put_remembers(m.included, before, gas, tx.id(), 0);
                lemma_leave_out(start, m, batch as int, e.outcome(tx));
                lemma_advance_in_turn(start, settled(m, report), gas);
            },
            _ => {
                assert(remembers(m.included, gas)) by {
                    assert forall|h: TxHash| #[trigger]
                        gas(h) == if common_highest::hashes(m.included).contains(h) {
                            common_highest::gas_of(m.included, h) as nat
                        } else {
                            0
                        } by {
                        assert(before(h) == gas(h));
                    }
                }
                lemma_advance_in_turn(start, m, gas);
            },
        }
    }
}

/// A transaction that is on offer used no gas.
proof fn lemma_zero(start: CyclingHighestModel, reports: Seq<Report>, tx: PendingTransaction)
    requires
        remembers(run(start, reports).included, spent(start, reports)),
        !common_highest::hashes(run(start, reports).included).contains(tx.id()),
    ensures
        gas_spent(start, reports, tx.transaction.hash) == 0,
{
    assert(spent(start, reports)(tx.id()) == gas_spent(start, reports, tx.transaction.hash));
}

/// The transaction that is offered is the one that goes next by price and share, it has room in the
/// block, and it is offered under the name of the account that signed it.
pub proof fn law_offers_keep_price_and_share(
    start: CyclingHighestModel,
    reports: Seq<Report>,
    batch: usize,
    tx: PendingTransaction,
)
    requires
        is_start(start),
        legal(start, reports),
        run(start, reports).stage == (Stage::Validating { batch, tx }),
    ensures
        ({
            let m = run(start, reports);
            &&& exists|place: int| #[trigger]
                goes_next(start, m.block, m.failing, spent(start, reports), batch as int, place)
                    && start.batches[batch as int][place] == tx.transaction
            &&& has_room(start, m.gas_used as int, m.blob_gas_used as int, tx.transaction)
            &&& tx.transaction.signer == Some(tx.sender)
        }),
{
    let m = run(start, reports);
    lemma_run(start, reports);
    lemma_spent(start, reports);
    lemma_winner_goes_next(start, m, spent(start, reports), batch, tx.transaction);
    let place = start.batches[batch as int].len() - m.batches[batch as int].len();
    assert(m.batches[batch as int][0].signer is Some);
    assert(goes_next(start, m.block, m.failing, spent(start, reports), batch as int, place));
}

/// Each proposer is credited with the gas that the executions of the leading transactions of its batch
/// used, as far as all of them were dealt with, whoever offered them.
pub proof fn law_credit_is_the_gas_of_the_leading_transactions(
    start: CyclingHighestModel,
    reports: Seq<Report>,
    i: usize,
    place: int,
)
    requires
        is_start(start),
        legal(start, reports),
        reports.len() > 0,
        i < start.batches.len(),
        ({
            let m = run(start, reports);
            ||| decisions::is_front(start.batches[i as int], place, m.block, m.failing)
            ||| decisions::is_done(start.batches[i as int], m.block, m.failing) && place
                == start.batches[i as int].len()
        }),
    ensures
        ({
            let usage = run(start, reports).gas_usage;
            let credit = credit_before(start.batches[i as int], place, spent(start, reports));
            &&& usage.contains_key(i) ==> usage[i] == credit
            &&& !usage.contains_key(i) ==> credit == 0
        }),
{
    let m = run(start, reports);
    lemma_run(start, reports);
    lemma_spent(start, reports);
    assert(m.batches[i as int].len() > 0 ==> !common_highest::hashes(m.included).contains(
        m.batches[i as int][0].id(),
    ));
    lemma_open(start, m, spent(start, reports), i as int);
}

/// What became of a transaction whose execution failed.
pub open spec fn tells_failure(
    outcome: TransactionExecutionOutcome,
    tx: PendingTransaction,
    error: transaction::TransactError,
) -> bool {
    match error {
        transaction::TransactError::Database(code) => outcome == TransactionExecutionOutcome::DatabaseError(
            tx,
            code,
        ),
        transaction::TransactError::Transaction(e) => outcome == TransactionExecutionOutcome::Invalid(tx, e),
    }
}

/// What a report changes: a valid transaction is executed next; one that is not valid, or whose
/// execution fails, is left out with the reason; an executed one is put at the end of the block, and
/// its gas is counted. All further transactions that are left out at the same time are those that go
/// next, one after the other, and have no room in the block.
pub proof fn law_reports_settle_transactions(start: CyclingHighestModel, reports: Seq<Report>)
    requires
        is_start(start),
        legal(start, reports),
        reports.len() > 0,
    ensures
        ({
            let m = run(start, reports.drop_last());
            let n = run(start, reports);
            let k = m.failing.len() as int;
            match (m.stage, reports.last()) {
                (Stage::Validating { batch, tx }, Report::Validated(Ok(_))) => {
                    &&& n.stage == (Stage::Executing { batch, tx })
                    &&& n.block == m.block
                    &&& n.failing == m.failing
                    &&& n.gas_usage == m.gas_usage
                },
                (Stage::Validating { batch, tx }, Report::Validated(Err(e))) => {
                    &&& !(n.stage is Executing)
                    &&& n.block == m.block
                    &&& n.failing.len() > k
                    &&& n.failing.take(k) == m.failing
                    &&& n.failing[k] == (tx.transaction.hash, TransactionExecutionOutcome::Invalid(tx, e))
                    &&& forall|at: int|
                        k < at < n.failing.len() ==> #[trigger] left_out_in_turn(
                            start,
                            n,
                            spent(start, reports),
                            at,
                        )
                },
                (Stage::Executing { batch, tx }, Report::Transacted(Ok(gas))) => {
                    &&& !(n.stage is Executing)
                    &&& n.block == m.block.push(tx.transaction)
                    &&& n.failing.len() >= k
                    &&& n.failing.take(k) == m.failing
                    &&& forall|at: int|
                        k <= at < n.failing.len() ==> #[trigger] left_out_in_turn(
                            start,
                            n,
                            spent(start, reports),
                            at,
                        )
                },
                (Stage::Executing { batch, tx }, Report::Transacted(Err(e))) => {
                    &&& !(n.stage is Executing)
                    &&& n.block == m.block
                    &&& n.failing.len() > k
                    &&& n.failing.take(k) == m.failing
                    &&& n.failing[k].0 == tx.transaction.hash
                    &&& tells_failure(n.failing[k].1, tx, e)
                    &&& forall|at: int|
                        k < at < n.failing.len() ==> #[trigger] left_out_in_turn(
                            start,
                            n,
                            spent(start, reports),
                            at,
                        )
                },
                _ => {
                    &&& !(n.stage is Executing)
                    &&& n.block.len() == 0
                    &&& forall|at: int|
                        0 <= at < n.failing.len() ==> #[trigger] left_out_in_turn(
                            start,
                            n,
                            spent(start, reports),
                            at,
                        )
                },
            }
        }),
{
    let shorter = reports.drop_last();
    let m = run(start, shorter);
    let n = run(start, reports);
    let gas = spent(start, reports);
    let before = spent(start, shorter);
    let report = reports.last();
    let k = m.failing.len() as int;
    lemma_run(start, shorter);
    lemma_spent(start, shorter);
    match (m.stage, report) {
        (Stage::Validating { batch, tx }, Report::Validated(Ok(_))) => {},
        (Stage::Validating { batch, tx }, Report::Validated(Err(e))) => {
            lemma_zero(start, shorter, tx);
            lemma_put_remembers(m.included, before, gas, tx.id(), 0);
            lemma_leave_out(start, m, batch as int, TransactionExecutionOutcome::Invalid(tx, e));
            lemma_advance_in_turn(start, settled(m, report), gas);
            assert(n.failing.take(k + 1)[k] == n.failing[k]);
            assert(n.failing.take(k) =~= n.failing.take(k + 1).take(k));
            assert(n.failing.take(k) =~= m.failing);
        },
        (Stage::Executing { batch, tx }, Report::Transacted(Ok(used))) => {
            lemma_put_remembers(m.included, before, gas, tx.id(), used);
            lemma_include(start, m, batch, tx, used);
            lemma_advance_in_turn(start, settled(m, report), gas);
        },
        (Stage::Executing { batch, tx }, Report::Transacted(Err(e))) => {
            lemma_zero(start, shorter, tx);
            lemma_put_remembers(m.included, before, gas, tx.id(), 0);
            lemma_leave_out(start, m, batch as int, e.outcome(tx));
            lemma_advance_in_turn(start, settled(m, report), gas);
            assert(n.failing.take(k + 1)[k] == n.failing[k]);
            assert(n.failing.take(k) =~= n.failing.take(k + 1).take(k));
            assert(n.failing.take(k) =~= m.failing);
        },
        _ => {
            assert(remembers(m.included, gas)) by {
                assert forall|h: TxHash| #[trigger]
                    gas(h) == if common_highest::hashes(m.included).contains(h) {
                        common_highest::gas_of(m.included, h) as nat
                    } else {
                        0
                    } by {
                    assert(before(h) == gas(h));
                }
            }
            lemma_reports_counted(start, shorter);
            lemma_advance_in_turn(start, m, gas);
        },
    }
}

/// The gas and the blob gas of the block are counted by what executions reported and by the blobs of
/// the transactions of the block, held at the largest value.
pub proof fn law_gas_is_counted(start: CyclingHighestModel, reports: Seq<Report>)
    requires
        is_start(start),
        legal(start, reports),
    ensures
        run(start, reports).gas_used == if gas_reported(reports) <= u64::MAX {
            gas_reported(reports) as int
        } else {
            u64::MAX as int
        },
        run(start, reports).blob_gas_used == if blob_gas(run(start, reports).block) <= u64::MAX {
            blob_gas(run(start, reports).block) as int
        } else {
            u64::MAX as int
        },
    decreases reports.len(),
{
    if reports.len() > 0 {
        let shorter = reports.drop_last();
        let m = run(start, shorter);
        let n = run(start, reports);
        law_gas_is_counted(start, shorter);
        lemma_run(start, shorter);
        lemma_spent(start, shorter);
        lemma_advance_counts(settled(m, reports.last()));
        match (m.stage, reports.last()) {
            (Stage::Executing { batch, tx }, Report::Transacted(Ok(gas))) => {
                assert(n.block.drop_last() =~= m.block);
            },
            _ => {},
        }
    }
}

/// Choosing a transaction counts no gas and leaves the block as it is.
proof fn lemma_advance_counts(m: CyclingHighestModel)
    requires
        m.batches.len() <= usize::MAX,
    ensures
        m.advance().0.gas_used == m.gas_used,
        m.advance().0.blob_gas_used == m.blob_gas_used,
        m.advance().0.block == m.block,
    decreases
        cycling_highest::total_len(
            batches::drop_seen_all(m.batches, common_highest::hashes(m.included)),
        ),
{
    let c = m.cleaned();
    match c.winner() {
        None => {},
        Some((batch, tx)) => match c.no_room(tx) {
            Some(outcome) => {
                c.lemma_leave_out_shrinks(batch, tx, outcome);
                lemma_advance_counts(c.leave_out(tx, outcome));
            },
            None => {},
        },
    }
}

/// A merge asks for what it waits for: to validate or to execute the transaction that is on offer, and
/// for nothing once it is finished.
pub proof fn law_requests_match_the_stage(m: CyclingHighestModel, report: Report)
    requires
        m.batches.len() <= usize::MAX,
    ensures
        match m.step(report).0.stage {
            Stage::Validating { batch, tx } => m.step(report).1 == Request::Validate(tx),
            Stage::Executing { batch, tx } => m.step(report).1 == Request::Execute(tx),
            Stage::Finished => m.step(report).1 is Finish,
            Stage::Idle => false,
        },
{
    lemma_advance_requests(settled(m, report));
}

proof fn lemma_advance_requests(m: CyclingHighestModel)
    requires
        m.batches.len() <= usize::MAX,
    ensures
        match m.advance().0.stage {
            Stage::Validating { batch, tx } => m.advance().1 == Request::Validate(tx),
            Stage::Finished => m.advance().1 is Finish,
            _ => false,
        },
    decreases
        cycling_highest::total_len(
            batches::drop_seen_all(m.batches, common_highest::hashes(m.included)),
        ),
{
    let c = m.cleaned();
    match c.winner() {
        None => {},
        Some((batch, tx)) => match c.no_room(tx) {
            Some(outcome) => {
                c.lemma_leave_out_shrinks(batch, tx, outcome);
                lemma_advance_requests(c.leave_out(tx, outcome));
            },
            None => {},
        },
    }
}

/// A merge that was not begun takes a start, one that has a transaction validated takes the verdict, and
/// one that has a transaction executed takes the result; a finished one takes nothing more.
pub proof fn law_reports_fit_the_stage(stage: Stage, report: Report)
    ensures
        stage.expects(report) <==> {
            ||| stage is Idle && report is Start
            ||| stage is Validating && report is Validated
            ||| stage is Executing && report is Transacted
        },
{
}

/// A merge begins with the limits, the base fee and the batches that it is given, with nothing in the
/// block, nothing left out and no credit.
pub proof fn law_merge_begins_with_what_it_is_given(
    gas_limit: u64,
    blob_gas_limit: u64,
    base_fee: u128,
    batches: Seq<Seq<TypedTransaction>>,
    i: usize,
)
    ensures
        ({
            let m = CyclingHighestModel::initial(gas_limit, blob_gas_limit, base_fee, batches);
            &&& m.gas_limit == gas_limit
            &&& m.blob_gas_limit == blob_gas_limit
            &&& m.base_fee == base_fee
            &&& m.batches == batches
            &&& m.block.len() == 0
            &&& m.failing.len() == 0
            &&& m.gas_used == 0
            &&& m.blob_gas_used == 0
            &&& !m.gas_usage.contains_key(i)
            &&& m.stage is Idle
        }),
{
}

/// Choosing a transaction gives entries to proposers with a credit only.
proof fn lemma_advance_entries(m: CyclingHighestModel)
    requires
        m.batches.len() <= usize::MAX,
        forall|k: usize| #[trigger] m.gas_usage.contains_key(k) ==> k < m.batches.len() && m.gas_usage[k] > 0,
    ensures
        forall|k: usize| #[trigger]
            m.advance().0.gas_usage.contains_key(k) ==> k < m.batches.len() && m.advance().0.gas_usage[k] > 0,
        m.advance().0.batches.len() == m.batches.len(),
    decreases
        cycling_highest::total_len(
            batches::drop_seen_all(m.batches, common_highest::hashes(m.included)),
        ),
{
    let c = m.cleaned();
    assert forall|k: usize| #[trigger] c.gas_usage.contains_key(k) implies k < m.batches.len()
        && c.gas_usage[k] > 0 by {
        if m.gas_usage.contains_key(k) {
            cycling_highest::lemma_credited(m.batches, m.included, m.gas_usage, k as int);
            cycling_highest::lemma_credit_grows(
                m.batches[k as int],
                m.included,
                cycling_highest::usage_of(m.gas_usage, k as int),
            );
        }
    }
    match c.winner() {
        None => {},
        Some((batch, tx)) => match c.no_room(tx) {
            Some(outcome) => {
                c.lemma_leave_out_shrinks(batch, tx, outcome);
                lemma_advance_entries(c.leave_out(tx, outcome));
            },
            None => {},
        },
    }
}

/// A proposer has an entry only where it handed in a batch, and its credit is not zero.
pub proof fn law_entries_are_credits(start: CyclingHighestModel, reports: Seq<Report>, i: usize)
    requires
        is_start(start),
        legal(start, reports),
    ensures
        run(start, reports).gas_usage.contains_key(i) ==> i < start.batches.len() && run(
            start,
            reports,
        ).gas_usage[i] > 0,
{
    lemma_entries(start, reports);
}

proof fn lemma_entries(start: CyclingHighestModel, reports: Seq<Report>)
    requires
        is_start(start),
        legal(start, reports),
    ensures
        forall|k: usize| #[trigger]
            run(start, reports).gas_usage.contains_key(k) ==> k < start.batches.len() && run(
                start,
                reports,
            ).gas_usage[k] > 0,
        run(start, reports).batches.len() == start.batches.len(),
    decreases reports.len(),
{
    if reports.len() > 0 {
        lemma_entries(start, reports.drop_last());
        lemma_advance_entries(settled(run(start, reports.drop_last()), reports.last()));
    }
}

} // verus!
