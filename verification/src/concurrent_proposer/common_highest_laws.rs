//! What holds of every merge by price with shared fees.

use crate::concurrent_proposer::batches;
use crate::concurrent_proposer::batches::{Event, Phase};
use crate::concurrent_proposer::common_highest;
use crate::concurrent_proposer::common_highest::CommonHighestModel;
use crate::concurrent_proposer::decisions;
use crate::fixed_bytes::TxHash;
use crate::num;
use crate::table;
use crate::transaction;
use crate::transaction::{Hashed, PendingTransaction};
use vstd::prelude::*;

verus! {

/// The state that a merge reaches by a sequence of events.
pub open spec fn run(
    base_fee: u128,
    batches: Seq<Seq<PendingTransaction>>,
    events: Seq<Event>,
) -> CommonHighestModel
    decreases events.len(),
{
    if events.len() == 0 {
        CommonHighestModel::initial(base_fee, batches)
    } else {
        run(base_fee, batches, events.drop_last()).step(events.last()).0
    }
}

/// Whether each event of a sequence is an answer to what the merge asked for.
pub open spec fn legal(base_fee: u128, batches: Seq<Seq<PendingTransaction>>, events: Seq<Event>) -> bool
    decreases events.len(),
{
    events.len() == 0 || {
        &&& legal(base_fee, batches, events.drop_last())
        &&& run(base_fee, batches, events.drop_last()).phase.expects(events.last())
    }
}

/// The gas of all transactions of a batch, held at the largest value.
pub open spec fn batch_gas(batch: Seq<PendingTransaction>, seen: Seq<(TxHash, u64)>) -> u64
    decreases batch.len(),
{
    if batch.len() == 0 {
        0
    } else {
        num::u64_sat_add(
            batch_gas(batch.drop_last(), seen),
            common_highest::gas_of(seen, batch.last().id()),
        )
    }
}

/// Whether a transaction is the head of a batch and was not dealt with.
pub open spec fn offered(m: CommonHighestModel, batch: int, tx: PendingTransaction) -> bool {
    &&& 0 <= batch < m.batches.len()
    &&& m.batches[batch].len() > 0
    &&& m.batches[batch][0] == tx
    &&& !common_highest::hashes(m.seen).contains(tx.id())
}

/// What holds of one batch: what left it was dealt with, and is credited.
spec fn batch_inv(
    batch: Seq<PendingTransaction>,
    rest: Seq<PendingTransaction>,
    seen: Seq<(TxHash, u64)>,
    credit: u64,
) -> bool {
    &&& decisions::is_rest(batch, rest, common_highest::hashes(seen))
    &&& credit == batch_gas(batch.take(batch.len() - rest.len()), seen)
}

spec fn merge_inv(batches: Seq<Seq<PendingTransaction>>, m: CommonHighestModel) -> bool {
    &&& m.well_formed()
    &&& m.batches.len() == batches.len()
    &&& table::keys_distinct(m.seen)
    &&& forall|i: int|
        0 <= i < batches.len() ==> batch_inv(
            #[trigger] batches[i],
            m.batches[i],
            m.seen,
            m.gas_contributed[i],
        )
    &&& decisions::decided_once(m.block, m.failing, common_highest::hashes(m.seen))
    &&& forall|h: TxHash| #[trigger]
        common_highest::hashes(m.seen).contains(h) ==> decisions::in_batches(batches, h)
    &&& forall|h: TxHash| #[trigger]
        decisions::in_failing(m.failing, h) ==> common_highest::gas_of(m.seen, h) == 0
    &&& match m.phase {
        Phase::Checking { batch, tx } => offered(m, batch as int, tx),
        Phase::Executing { batch, tx } => offered(m, batch as int, tx),
        Phase::Finished => forall|i: int| 0 <= i < m.batches.len() ==> (#[trigger] m.batches[i]).len() == 0,
        Phase::Idle => true,
    }
}

proof fn lemma_credit_seen(
    batch: Seq<PendingTransaction>,
    rest: Seq<PendingTransaction>,
    seen: Seq<(TxHash, u64)>,
    credit: u64,
)
    requires
        batch_inv(batch, rest, seen, credit),
    ensures
        ({
            let d = batches::drop_seen(rest, common_highest::hashes(seen));
            &&& batch_inv(batch, d, seen, common_highest::credit_seen(rest, seen, credit))
            &&& d.len() > 0 ==> !common_highest::hashes(seen).contains(d[0].id())
        }),
    decreases rest.len(),
{
    if rest.len() > 0 && common_highest::hashes(seen).contains(rest[0].id()) {
        let cut = batch.len() - rest.len();
        let shorter = rest.skip(1);
        assert(shorter =~= batch.skip(cut + 1));
        assert(rest[0] == batch[cut]);
        assert(batch.take(cut + 1).drop_last() =~= batch.take(cut));
        let more = num::u64_sat_add(credit, common_highest::gas_of(seen, rest[0].id()));
        lemma_credit_seen(batch, shorter, seen, more);
    }
}

/// A new entry keeps the gas of transactions that were dealt with before.
proof fn lemma_batch_gas_put(batch: Seq<PendingTransaction>, seen: Seq<(TxHash, u64)>, hash: TxHash, gas: u64)
    requires
        table::keys_distinct(seen),
        !common_highest::hashes(seen).contains(hash),
        forall|j: int|
            0 <= j < batch.len() ==> common_highest::hashes(seen).contains((#[trigger] batch[j]).id()),
    ensures
        batch_gas(batch, table::entries_put(seen, hash, gas)) == batch_gas(batch, seen),
    decreases batch.len(),
{
    if batch.len() > 0 {
        lemma_batch_gas_put(batch.drop_last(), seen, hash, gas);
        table::lemma_entries_put(seen, hash, gas);
        assert(common_highest::hashes(seen).contains(batch[batch.len() - 1].id()));
    }
}

/// A new entry adds its hash behind the others.
pub proof fn lemma_hashes_put(seen: Seq<(TxHash, u64)>, hash: TxHash, gas: u64)
    requires
        table::keys_distinct(seen),
        !common_highest::hashes(seen).contains(hash),
    ensures
        common_highest::hashes(table::entries_put(seen, hash, gas)) == common_highest::hashes(seen).push(hash),
        table::entries_put(seen, hash, gas).len() == seen.len() + 1,
        table::keys_distinct(table::entries_put(seen, hash, gas)),
        table::entries_map(table::entries_put(seen, hash, gas)) == table::entries_map(seen).insert(hash, gas),
{
    common_highest::lemma_hashes(seen, hash);
    table::lemma_entries_map(seen);
    table::lemma_entries_put(seen, hash, gas);
    assert(!table::has_key(seen, hash));
    assert(common_highest::hashes(table::entries_put(seen, hash, gas)) =~= common_highest::hashes(
        seen,
    ).push(hash));
}

/// Dealing with a transaction keeps what holds of a batch, whether the transaction is at its head or
/// not.
proof fn lemma_batch_decide(
    batch: Seq<PendingTransaction>,
    rest: Seq<PendingTransaction>,
    seen: Seq<(TxHash, u64)>,
    credit: u64,
    hash: TxHash,
    gas: u64,
)
    requires
        table::keys_distinct(seen),
        !common_highest::hashes(seen).contains(hash),
        batch_inv(batch, rest, seen, credit),
    ensures
        ({
            let after = table::entries_put(seen, hash, gas);
            if common_highest::heads_with(rest, hash) {
                batch_inv(batch, rest.skip(1), after, num::u64_sat_add(credit, gas))
            } else {
                batch_inv(batch, rest, after, credit)
            }
        }),
{
    let after = table::entries_put(seen, hash, gas);
    let cut = batch.len() - rest.len();
    lemma_hashes_put(seen, hash, gas);
    decisions::lemma_is_rest_push(batch, rest, common_highest::hashes(seen), hash);
    let front = batch.take(cut);
    assert forall|j: int| 0 <= j < front.len() implies common_highest::hashes(seen).contains((
    #[trigger] front[j]).id()) by {
        assert(front[j] == batch[j]);
    }
    lemma_batch_gas_put(front, seen, hash, gas);
    if common_highest::heads_with(rest, hash) {
        assert(rest[0] == batch[cut]);
        assert(batch.take(cut + 1).drop_last() =~= front);
        assert(rest.skip(1) =~= batch.skip(cut + 1));
        decisions::lemma_contains_push(common_highest::hashes(seen), hash, hash);
    }
}

proof fn lemma_advance(batches: Seq<Seq<PendingTransaction>>, m: CommonHighestModel)
    requires
        merge_inv(batches, CommonHighestModel { phase: Phase::Idle, ..m }),
    ensures
        merge_inv(batches, m.advance().0),
{
    let c = m.cleaned();
    let n = m.advance().0;
    assert forall|i: int| 0 <= i < batches.len() implies batch_inv(
        #[trigger] batches[i],
        n.batches[i],
        n.seen,
        n.gas_contributed[i],
    ) && (n.batches[i].len() > 0 ==> !common_highest::hashes(n.seen).contains(n.batches[i][0].id())) by {
        lemma_credit_seen(batches[i], m.batches[i], m.seen, m.gas_contributed[i]);
    }
    common_highest::law_best_paid_head_wins(c.batches, m.base_fee, c.batches.len() as int);
    assert(n.batches == c.batches);
    match n.phase {
        Phase::Checking { batch, tx } => {
            assert(offered(n, batch as int, tx)) by {
                assert(batch_inv(
                    batches[batch as int],
                    n.batches[batch as int],
                    n.seen,
                    n.gas_contributed[batch as int],
                ));
            }
        },
        _ => {},
    }
}

proof fn lemma_offered_in_batches(
    batches: Seq<Seq<PendingTransaction>>,
    m: CommonHighestModel,
    batch: int,
    tx: PendingTransaction,
)
    requires
        merge_inv(batches, m),
        offered(m, batch, tx),
    ensures
        decisions::in_batches(batches, tx.id()),
{
    let cut = batches[batch].len() - m.batches[batch].len();
    assert(batch_inv(batches[batch], m.batches[batch], m.seen, m.gas_contributed[batch]));
    assert(batches[batch][cut] == m.batches[batch][0]);
    assert(batches[batch][cut].id() == tx.id());
}

proof fn lemma_decide(
    batches: Seq<Seq<PendingTransaction>>,
    m: CommonHighestModel,
    n: CommonHighestModel,
    hash: TxHash,
    gas: u64,
)
    requires
        merge_inv(batches, m),
        !common_highest::hashes(m.seen).contains(hash),
        decisions::in_batches(batches, hash),
        n.seen == table::entries_put(m.seen, hash, gas),
        n.batches == common_highest::without_head(m.batches, hash),
        n.gas_contributed.len() == m.gas_contributed.len(),
        forall|i: int|
            0 <= i < m.batches.len() ==> #[trigger] n.gas_contributed[i] == if common_highest::heads_with(
                m.batches[i],
                hash,
            ) {
                num::u64_sat_add(m.gas_contributed[i], gas)
            } else {
                m.gas_contributed[i]
            },
    ensures
        forall|i: int|
            0 <= i < batches.len() ==> batch_inv(
                #[trigger] batches[i],
                n.batches[i],
                n.seen,
                n.gas_contributed[i],
            ),
        forall|h: TxHash| #[trigger]
            common_highest::hashes(n.seen).contains(h) ==> decisions::in_batches(batches, h),
        common_highest::hashes(n.seen) == common_highest::hashes(m.seen).push(hash),
        table::keys_distinct(n.seen),
        table::entries_map(n.seen) == table::entries_map(m.seen).insert(hash, gas),
{
    lemma_hashes_put(m.seen, hash, gas);
    assert forall|i: int| 0 <= i < batches.len() implies batch_inv(
        #[trigger] batches[i],
        n.batches[i],
        n.seen,
        n.gas_contributed[i],
    ) by {
        lemma_batch_decide(batches[i], m.batches[i], m.seen, m.gas_contributed[i], hash, gas);
    }
    assert forall|h: TxHash| #[trigger] common_highest::hashes(n.seen).contains(h) implies decisions::in_batches(
        batches,
        h,
    ) by {
        decisions::lemma_contains_push(common_highest::hashes(m.seen), hash, h);
    }
}

proof fn lemma_step(batches: Seq<Seq<PendingTransaction>>, m: CommonHighestModel, event: Event)
    requires
        merge_inv(batches, m),
        m.phase.expects(event),
    ensures
        merge_inv(batches, m.step(event).0),
{
    let seen = common_highest::hashes(m.seen);
    match (m.phase, event) {
        (Phase::Checking { batch, tx }, Event::Checked(errors)) => {
            if errors@.len() > 0 {
                let n = m.reject_tx(tx, errors@[0]);
                let entry = (tx.id(), errors@[0].outcome(tx));
                lemma_offered_in_batches(batches, m, batch as int, tx);
                lemma_decide(batches, m, n, tx.id(), 0);
                decisions::lemma_decided_reject(m.block, m.failing, seen, entry);
                assert forall|h: TxHash| #[trigger]
                    decisions::in_failing(n.failing, h) implies common_highest::gas_of(n.seen, h) == 0 by {
                    decisions::lemma_failing_push(m.failing, entry, h);
                }
                lemma_advance(batches, n);
            }
        },
        (Phase::Executing { batch, tx }, Event::Executed { gas_used, reward }) => {
            let n = m.include_tx(tx, gas_used);
            lemma_offered_in_batches(batches, m, batch as int, tx);
            lemma_decide(batches, m, n, tx.id(), gas_used);
            decisions::lemma_decided_include(m.block, m.failing, seen, tx);
            assert forall|h: TxHash| #[trigger]
                decisions::in_failing(n.failing, h) implies common_highest::gas_of(n.seen, h) == 0 by {
                assert(decisions::in_failing(m.failing, h));
                assert(seen.contains(h));
            }
            lemma_advance(batches, n);
        },
        _ => {
            lemma_advance(batches, m);
        },
    }
}

proof fn lemma_run(base_fee: u128, batches: Seq<Seq<PendingTransaction>>, events: Seq<Event>)
    requires
        batches.len() <= usize::MAX,
        legal(base_fee, batches, events),
    ensures
        merge_inv(batches, run(base_fee, batches, events)),
    decreases events.len(),
{
    if events.len() == 0 {
        let m = CommonHighestModel::initial(base_fee, batches);
        assert forall|i: int| 0 <= i < batches.len() implies batch_inv(
            #[trigger] batches[i],
            m.batches[i],
            m.seen,
            m.gas_contributed[i],
        ) by {
            assert(batches[i].skip(0) =~= batches[i]);
        }
    } else {
        lemma_run(base_fee, batches, events.drop_last());
        lemma_step(batches, run(base_fee, batches, events.drop_last()), events.last());
    }
}

/// However the checks and executions turn out, no transaction is dealt with twice: each hash is in
/// the block at most once, or left out at most once, never both, and comes from some batch.
pub proof fn law_each_transaction_is_decided_once(
    base_fee: u128,
    batches: Seq<Seq<PendingTransaction>>,
    events: Seq<Event>,
)
    requires
        batches.len() <= usize::MAX,
        legal(base_fee, batches, events),
    ensures
        ({
            let m = run(base_fee, batches, events);
            let seen = common_highest::hashes(m.seen);
            &&& decisions::decided_once(m.block, m.failing, seen)
            &&& forall|h: TxHash| #[trigger] seen.contains(h) ==> decisions::in_batches(batches, h)
        }),
{
    lemma_run(base_fee, batches, events);
}

/// A merge ends only when every transaction of every batch is in the block or was left out.
pub proof fn law_finished_merge_decided_everything(
    base_fee: u128,
    batches: Seq<Seq<PendingTransaction>>,
    events: Seq<Event>,
    hash: TxHash,
)
    requires
        batches.len() <= usize::MAX,
        legal(base_fee, batches, events),
        run(base_fee, batches, events).phase is Finished,
    ensures
        decisions::in_batches(batches, hash) <==> decisions::in_block(
            run(base_fee, batches, events).block,
            hash,
        ) || decisions::in_failing(run(base_fee, batches, events).failing, hash),
{
    lemma_run(base_fee, batches, events);
    let m = run(base_fee, batches, events);
    let seen = common_highest::hashes(m.seen);
    assert(seen.contains(hash) <==> decisions::in_block(m.block, hash) || decisions::in_failing(
        m.failing,
        hash,
    ));
    if decisions::in_batches(batches, hash) {
        let (i, j) = choose|i: int, j: int|
            0 <= i < batches.len() && 0 <= j < batches[i].len() && (#[trigger] batches[i][j]).id() == hash;
        assert(batch_inv(batches[i], m.batches[i], m.seen, m.gas_contributed[i]));
        assert(m.batches[i].len() == 0);
        assert(seen.contains(batches[i][j].id()));
    }
}

/// In the end a proposer is credited with the gas of all transactions that it handed in, whoever
/// offered them first, and transactions that were left out count for nothing.
pub proof fn law_credit_is_the_gas_of_the_batch(
    base_fee: u128,
    batches: Seq<Seq<PendingTransaction>>,
    events: Seq<Event>,
    i: int,
)
    requires
        batches.len() <= usize::MAX,
        legal(base_fee, batches, events),
        run(base_fee, batches, events).phase is Finished,
        0 <= i < batches.len(),
    ensures
        ({
            let m = run(base_fee, batches, events);
            &&& m.gas_contributed[i] == batch_gas(batches[i], m.seen)
            &&& forall|h: TxHash| #[trigger]
                decisions::in_failing(m.failing, h) ==> common_highest::gas_of(m.seen, h) == 0
        }),
{
    lemma_run(base_fee, batches, events);
    let m = run(base_fee, batches, events);
    assert(batch_inv(batches[i], m.batches[i], m.seen, m.gas_contributed[i]));
    assert(m.batches[i].len() == 0);
    assert(batches[i].take(batches[i].len() as int) =~= batches[i]);
}

/// A merge ends: it takes in at most two events for each transaction of the batches, and one more.
pub proof fn law_merge_ends(base_fee: u128, batches: Seq<Seq<PendingTransaction>>, events: Seq<Event>)
    requires
        batches.len() <= usize::MAX,
        legal(base_fee, batches, events),
    ensures
        events.len() <= 2 * decisions::joined(batches).len() + 1,
{
    lemma_events_counted(base_fee, batches, events);
    lemma_run(base_fee, batches, events);
    let m = run(base_fee, batches, events);
    let seen = common_highest::hashes(m.seen);
    decisions::lemma_decisions_bounded(batches, seen);
    if let Phase::Executing { batch, tx } = m.phase {
        let more = seen.push(tx.id());
        lemma_offered_in_batches(batches, m, batch as int, tx);
        decisions::lemma_no_duplicates_push(seen, tx.id());
        assert forall|h: TxHash| #[trigger] more.contains(h) implies decisions::in_batches(batches, h) by {
            decisions::lemma_contains_push(seen, tx.id(), h);
        }
        decisions::lemma_decisions_bounded(batches, more);
    }
}

proof fn lemma_events_counted(base_fee: u128, batches: Seq<Seq<PendingTransaction>>, events: Seq<Event>)
    requires
        batches.len() <= usize::MAX,
        legal(base_fee, batches, events),
    ensures
        ({
            let m = run(base_fee, batches, events);
            &&& events.len() <= 2 * m.seen.len() + if m.phase is Executing {
                2int
            } else {
                1
            }
            &&& m.phase is Idle ==> events.len() == 0
        }),
    decreases events.len(),
{
    if events.len() > 0 {
        lemma_events_counted(base_fee, batches, events.drop_last());
        lemma_run(base_fee, batches, events.drop_last());
        let m = run(base_fee, batches, events.drop_last());
        match m.phase {
            Phase::Checking { batch, tx } => {
                lemma_hashes_put(m.seen, tx.id(), 0);
            },
            Phase::Executing { batch, tx } => {
                match events.last() {
                    Event::Executed { gas_used, reward } => {
                        lemma_hashes_put(m.seen, tx.id(), gas_used);
                    },
                    _ => {},
                }
            },
            _ => {},
        }
    }
}

/// A transaction is tried only after all that stand before it in its batch were dealt with.
pub proof fn law_batches_keep_their_order(
    base_fee: u128,
    batches: Seq<Seq<PendingTransaction>>,
    events: Seq<Event>,
    batch: usize,
    tx: PendingTransaction,
)
    requires
        batches.len() <= usize::MAX,
        legal(base_fee, batches, events),
        run(base_fee, batches, events).phase == (Phase::Checking { batch, tx }) || run(
            base_fee,
            batches,
            events,
        ).phase == (Phase::Executing { batch, tx }),
    ensures
        batch < batches.len(),
        exists|place: int| #[trigger]
            decisions::is_next_of(
                batches[batch as int],
                place,
                tx,
                common_highest::hashes(run(base_fee, batches, events).seen),
            ),
{
    lemma_run(base_fee, batches, events);
    let m = run(base_fee, batches, events);
    let whole = batches[batch as int];
    assert(batch_inv(whole, m.batches[batch as int], m.seen, m.gas_contributed[batch as int]));
    let place = whole.len() - m.batches[batch as int].len();
    assert(whole[place] == m.batches[batch as int][0]);
    assert(decisions::is_next_of(whole, place, tx, common_highest::hashes(m.seen)));
}

/// The gas that the execution of the transaction with a given hash used, and zero where no such
/// transaction was executed.
pub open spec fn gas_spent(
    base_fee: u128,
    batches: Seq<Seq<PendingTransaction>>,
    events: Seq<Event>,
    hash: TxHash,
) -> nat
    decreases events.len(),
{
    if events.len() == 0 {
        0
    } else {
        match (run(base_fee, batches, events.drop_last()).phase, events.last()) {
            (Phase::Executing { batch, tx }, Event::Executed { gas_used, reward }) => if tx.transaction.hash
                == hash {
                gas_used as nat
            } else {
                gas_spent(base_fee, batches, events.drop_last(), hash)
            },
            _ => gas_spent(base_fee, batches, events.drop_last(), hash),
        }
    }
}

/// The base fee of a merge stays as it is.
proof fn lemma_base_fee(base_fee: u128, batches: Seq<Seq<PendingTransaction>>, events: Seq<Event>)
    ensures
        run(base_fee, batches, events).base_fee == base_fee,
    decreases events.len(),
{
    if events.len() > 0 {
        lemma_base_fee(base_fee, batches, events.drop_last());
    }
}

/// The gas that is remembered of each transaction is what its execution used.
proof fn lemma_gas_spent(base_fee: u128, batches: Seq<Seq<PendingTransaction>>, events: Seq<Event>, hash: TxHash)
    requires
        batches.len() <= usize::MAX,
        legal(base_fee, batches, events),
    ensures
        ({
            let m = run(base_fee, batches, events);
            gas_spent(base_fee, batches, events, hash) == if common_highest::hashes(m.seen).contains(hash) {
                common_highest::gas_of(m.seen, hash) as nat
            } else {
                0
            }
        }),
    decreases events.len(),
{
    if events.len() > 0 {
        lemma_gas_spent(base_fee, batches, events.drop_last(), hash);
        lemma_run(base_fee, batches, events.drop_last());
        let m = run(base_fee, batches, events.drop_last());
        let seen = common_highest::hashes(m.seen);
        match (m.phase, events.last()) {
            (Phase::Checking { batch, tx }, Event::Checked(errors)) => {
                lemma_hashes_put(m.seen, tx.id(), 0);
                decisions::lemma_contains_push(seen, tx.id(), hash);
            },
            (Phase::Executing { batch, tx }, Event::Executed { gas_used, reward }) => {
                lemma_hashes_put(m.seen, tx.id(), gas_used);
                decisions::lemma_contains_push(seen, tx.id(), hash);
            },
            _ => {},
        }
    }
}

/// Once the merge began, no head of a batch was dealt with.
proof fn lemma_heads_are_new(base_fee: u128, batches: Seq<Seq<PendingTransaction>>, events: Seq<Event>)
    requires
        batches.len() <= usize::MAX,
        legal(base_fee, batches, events),
        events.len() > 0,
    ensures
        ({
            let m = run(base_fee, batches, events);
            forall|i: int|
                0 <= i < batches.len() && (#[trigger] m.batches[i]).len() > 0 ==> !common_highest::hashes(
                    m.seen,
                ).contains(m.batches[i][0].id())
        }),
    decreases events.len(),
{
    let m = run(base_fee, batches, events.drop_last());
    let n = run(base_fee, batches, events);
    lemma_run(base_fee, batches, events.drop_last());
    lemma_run(base_fee, batches, events);
    lemma_events_counted(base_fee, batches, events.drop_last());
    let seen = common_highest::hashes(n.seen);
    if m.phase is Checking && n.phase is Executing {
        lemma_heads_are_new(base_fee, batches, events.drop_last());
    } else {
        let cut = match (m.phase, events.last()) {
            (Phase::Checking { batch, tx }, Event::Checked(errors)) => m.reject_tx(tx, errors@[0]),
            (Phase::Executing { batch, tx }, Event::Executed { gas_used, reward }) => m.include_tx(tx, gas_used),
            _ => m,
        };
        assert(n == cut.advance().0);
        assert forall|i: int| 0 <= i < batches.len() && (#[trigger] n.batches[i]).len() > 0 implies !seen.contains(
            n.batches[i][0].id(),
        ) by {
            decisions::lemma_drop_seen_head(cut.batches[i], seen);
        }
    }
}

/// The transaction that is offered is the first open one of its batch and the best paid of all first
/// open ones: none pays a higher effective gas price, and those of later batches pay less.
pub proof fn law_best_paid_transaction_is_offered(
    base_fee: u128,
    batches: Seq<Seq<PendingTransaction>>,
    events: Seq<Event>,
    batch: usize,
    tx: PendingTransaction,
)
    requires
        batches.len() <= usize::MAX,
        legal(base_fee, batches, events),
        run(base_fee, batches, events).phase == (Phase::Checking { batch, tx }),
    ensures
        ({
            let m = run(base_fee, batches, events);
            &&& batch < batches.len()
            &&& exists|place: int| #[trigger]
                decisions::is_front(batches[batch as int], place, m.block, m.failing)
                    && batches[batch as int][place] == tx
            &&& forall|j: int, place: int|
                0 <= j < batches.len() && #[trigger] decisions::is_front(
                    batches[j],
                    place,
                    m.block,
                    m.failing,
                ) ==> {
                    let price = transaction::effective_price(batches[j][place].transaction, base_fee);
                    &&& price <= transaction::effective_price(tx.transaction, base_fee)
                    &&& j > batch ==> price < transaction::effective_price(tx.transaction, base_fee)
                }
        }),
{
    let m = run(base_fee, batches, events);
    let seen = common_highest::hashes(m.seen);
    lemma_run(base_fee, batches, events);
    lemma_base_fee(base_fee, batches, events);
    lemma_heads_are_new(base_fee, batches, events);
    common_highest::law_best_paid_head_wins(m.batches, base_fee, batches.len() as int);
    assert forall|j: int| 0 <= j < batches.len() implies decisions::is_rest(
        #[trigger] batches[j],
        m.batches[j],
        seen,
    ) by {
        assert(batch_inv(batches[j], m.batches[j], m.seen, m.gas_contributed[j]));
    }
    decisions::lemma_rest_begins_at_front(
        batches[batch as int],
        m.batches[batch as int],
        m.block,
        m.failing,
        seen,
    );
    assert(common_highest::best_head(m.batches, base_fee, batches.len() as int) == Some(batch as int));
    assert forall|j: int, place: int|
        0 <= j < batches.len() && #[trigger] decisions::is_front(
            batches[j],
            place,
            m.block,
            m.failing,
        ) implies {
        let price = transaction::effective_price(batches[j][place].transaction, base_fee);
        &&& price <= transaction::effective_price(tx.transaction, base_fee)
        &&& j > batch ==> price < transaction::effective_price(tx.transaction, base_fee)
    } by {
        decisions::lemma_rest_begins_at_front(batches[j], m.batches[j], m.block, m.failing, seen);
        assert(decisions::decided(m.block, m.failing, batches[j][place].id()) == false);
        assert(m.batches[j].len() > 0);
    }
}

/// Adding up with a largest value gives the plain sum, or the largest value where the sum is above.
proof fn lemma_batch_gas_is_sum(
    batch: Seq<PendingTransaction>,
    seen: Seq<(TxHash, u64)>,
    gas: spec_fn(TxHash) -> nat,
)
    requires
        forall|j: int|
            0 <= j < batch.len() ==> gas((#[trigger] batch[j]).id()) == common_highest::gas_of(
                seen,
                batch[j].id(),
            ),
    ensures
        batch_gas(batch, seen) == if decisions::gas_sum(batch, gas) <= u64::MAX {
            decisions::gas_sum(batch, gas) as int
        } else {
            u64::MAX as int
        },
    decreases batch.len(),
{
    if batch.len() > 0 {
        lemma_batch_gas_is_sum(batch.drop_last(), seen, gas);
        assert(batch[batch.len() - 1] == batch.last());
        assert(gas(batch[batch.len() - 1].id()) == common_highest::gas_of(seen, batch.last().id()));
    }
}

/// A proposer is credited with the gas that the executions of the leading transactions of its batch
/// used, as far as all of them were dealt with, whoever offered them. What was left out counts nothing.
pub proof fn law_credit_is_the_gas_of_the_leading_transactions(
    base_fee: u128,
    batches: Seq<Seq<PendingTransaction>>,
    events: Seq<Event>,
    i: int,
    place: int,
)
    requires
        batches.len() <= usize::MAX,
        legal(base_fee, batches, events),
        events.len() > 0,
        0 <= i < batches.len(),
        ({
            let m = run(base_fee, batches, events);
            ||| decisions::is_front(batches[i], place, m.block, m.failing)
            ||| decisions::is_done(batches[i], m.block, m.failing) && place == batches[i].len()
        }),
    ensures
        decisions::credits_up_to(
            batches[i],
            place,
            |hash: TxHash| gas_spent(base_fee, batches, events, hash),
            run(base_fee, batches, events).gas_contributed[i] as int,
            u64::MAX as int,
        ),
{
    let m = run(base_fee, batches, events);
    let seen = common_highest::hashes(m.seen);
    let gas = |hash: TxHash| gas_spent(base_fee, batches, events, hash);
    lemma_run(base_fee, batches, events);
    lemma_heads_are_new(base_fee, batches, events);
    assert(batch_inv(batches[i], m.batches[i], m.seen, m.gas_contributed[i]));
    decisions::lemma_rest_begins_at_front(batches[i], m.batches[i], m.block, m.failing, seen);
    assert(place == batches[i].len() - m.batches[i].len());
    let front = batches[i].take(place);
    assert forall|j: int| 0 <= j < front.len() implies gas((#[trigger] front[j]).id())
        == common_highest::gas_of(m.seen, front[j].id()) by {
        assert(front[j] == batches[i][j]);
        assert(seen.contains(batches[i][j].id()));
        lemma_gas_spent(base_fee, batches, events, front[j].id());
    }
    lemma_batch_gas_is_sum(front, m.seen, gas);
}

/// What an event changes: a check without errors leads to the execution of the same transaction; one
/// with errors leaves the transaction out with the first of them; an execution puts the transaction
/// at the end of the block. Nothing else changes the block and what was left out.
pub proof fn law_events_settle_transactions(
    base_fee: u128,
    batches: Seq<Seq<PendingTransaction>>,
    events: Seq<Event>,
)
    requires
        batches.len() <= usize::MAX,
        legal(base_fee, batches, events),
        events.len() > 0,
    ensures
        ({
            let m = run(base_fee, batches, events.drop_last());
            let n = run(base_fee, batches, events);
            &&& n.gas_contributed.len() == batches.len()
            &&& match (m.phase, events.last()) {
                (Phase::Checking { batch, tx }, Event::Checked(errors)) => if errors@.len() == 0 {
                    &&& n.phase == (Phase::Executing { batch, tx })
                    &&& n.block == m.block
                    &&& n.failing == m.failing
                } else {
                    &&& !(n.phase is Executing)
                    &&& n.block == m.block
                    &&& n.failing.len() == m.failing.len() + 1
                    &&& n.failing.drop_last() == m.failing
                    &&& n.failing.last().0 == tx.transaction.hash
                    &&& decisions::tells(n.failing.last().1, tx, errors@[0])
                },
                (Phase::Executing { batch, tx }, Event::Executed { gas_used, reward }) => {
                    &&& !(n.phase is Executing)
                    &&& n.block == m.block.push(tx)
                    &&& n.failing == m.failing
                },
                _ => {
                    &&& !(n.phase is Executing)
                    &&& n.block.len() == 0
                    &&& n.failing.len() == 0
                },
            }
        }),
{
    let m = run(base_fee, batches, events.drop_last());
    let n = run(base_fee, batches, events);
    lemma_run(base_fee, batches, events.drop_last());
    lemma_run(base_fee, batches, events);
    lemma_events_counted(base_fee, batches, events.drop_last());
    if m.phase is Checking && n.failing.len() > m.failing.len() {
        assert(n.failing.drop_last() =~= m.failing);
    }
}

/// A merge asks for what it waits for: to check or to execute the transaction that is on offer, and
/// for nothing once it is finished.
pub proof fn law_actions_match_the_phase(m: CommonHighestModel, event: Event)
    ensures
        match m.step(event).0.phase {
            Phase::Checking { batch, tx } => m.step(event).1 == batches::Action::Check(tx),
            Phase::Executing { batch, tx } => m.step(event).1 == batches::Action::Execute(tx),
            Phase::Finished => m.step(event).1 is Finish,
            Phase::Idle => false,
        },
{
}

} // verus!
