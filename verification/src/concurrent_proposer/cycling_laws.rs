//! What holds of every merge in which proposers take turns.

use crate::concurrent_proposer::batches;
use crate::concurrent_proposer::batches::{Event, Phase};
use crate::concurrent_proposer::cycling;
use crate::concurrent_proposer::cycling::CyclingModel;
use crate::concurrent_proposer::decisions;
use crate::fixed_bytes::TxHash;
use crate::transaction::{Hashed, PendingTransaction};
use vstd::prelude::*;

verus! {

/// The state that a merge reaches by a sequence of events.
pub open spec fn run(strict: bool, batches: Seq<Seq<PendingTransaction>>, events: Seq<Event>) -> CyclingModel
    decreases events.len(),
{
    if events.len() == 0 {
        CyclingModel::initial(strict, batches)
    } else {
        run(strict, batches, events.drop_last()).step(events.last()).0
    }
}

/// Whether each event of a sequence is an answer to what the merge asked for.
pub open spec fn legal(strict: bool, batches: Seq<Seq<PendingTransaction>>, events: Seq<Event>) -> bool
    decreases events.len(),
{
    events.len() == 0 || {
        &&& legal(strict, batches, events.drop_last())
        &&& run(strict, batches, events.drop_last()).phase.expects(events.last())
    }
}

/// The invariant of a merge.
spec fn merge_inv(batches: Seq<Seq<PendingTransaction>>, m: CyclingModel) -> bool {
    &&& m.well_formed()
    &&& m.batches.len() == batches.len()
    &&& forall|i: int| 0 <= i < batches.len() ==> decisions::is_rest(#[trigger] batches[i], m.batches[i], m.seen)
    &&& decisions::decided_once(m.block, m.failing, m.seen)
    &&& forall|h: TxHash| #[trigger] m.seen.contains(h) ==> decisions::in_batches(batches, h)
    &&& match m.phase {
        Phase::Checking { batch, tx } => offered(m, batch as int, tx),
        Phase::Executing { batch, tx } => offered(m, batch as int, tx),
        Phase::Finished => forall|i: int| 0 <= i < m.batches.len() ==> (#[trigger] m.batches[i]).len() == 0,
        Phase::Idle => true,
    }
}

/// Whether a transaction is the head of a batch and was not dealt with.
pub open spec fn offered(m: CyclingModel, batch: int, tx: PendingTransaction) -> bool {
    &&& 0 <= batch < m.batches.len()
    &&& m.batches[batch].len() > 0
    &&& m.batches[batch][0] == tx
    &&& !m.seen.contains(tx.id())
}

proof fn lemma_advance(batches: Seq<Seq<PendingTransaction>>, m: CyclingModel)
    requires
        merge_inv(batches, CyclingModel { phase: Phase::Idle, ..m }),
    ensures
        merge_inv(batches, m.advance().0),
{
    let cleaned = batches::drop_seen_all(m.batches, m.seen);
    assert forall|i: int| 0 <= i < batches.len() implies decisions::is_rest(#[trigger] batches[i], cleaned[i], m.seen)
        && (cleaned[i].len() > 0 ==> !m.seen.contains(cleaned[i][0].id())) by {
        decisions::lemma_drop_seen_is_rest(batches[i], m.batches[i], m.seen);
    }
    cycling::lemma_next_turn(cleaned, m.next, 0);
    cycling::lemma_no_turn_iff_all_empty(cleaned, m.next);
    let n = m.advance().0;
    assert(n.batches == cleaned);
    assert(n.well_formed());
    assert forall|i: int| 0 <= i < batches.len() implies decisions::is_rest(
        #[trigger] batches[i],
        n.batches[i],
        n.seen,
    ) by {}
    match n.phase {
        Phase::Checking { batch, tx } => {
            assert(offered(n, batch as int, tx)) by {
                assert(decisions::is_rest(batches[batch as int], cleaned[batch as int], m.seen));
            }
        },
        _ => {},
    }
}

/// A transaction that is on offer occurs in the batches.
proof fn lemma_offered_in_batches(
    batches: Seq<Seq<PendingTransaction>>,
    m: CyclingModel,
    batch: int,
    tx: PendingTransaction,
)
    requires
        m.batches.len() == batches.len(),
        forall|i: int| 0 <= i < batches.len() ==> decisions::is_rest(#[trigger] batches[i], m.batches[i], m.seen),
        offered(m, batch, tx),
    ensures
        decisions::in_batches(batches, tx.id()),
{
    let cut = batches[batch].len() - m.batches[batch].len();
    assert(decisions::is_rest(batches[batch], m.batches[batch], m.seen));
    assert(batches[batch][cut] == m.batches[batch][0]);
    assert(batches[batch][cut].id() == tx.id());
}

proof fn lemma_step(batches: Seq<Seq<PendingTransaction>>, m: CyclingModel, event: Event)
    requires
        merge_inv(batches, m),
        m.phase.expects(event),
    ensures
        merge_inv(batches, m.step(event).0),
{
    match (m.phase, event) {
        (Phase::Checking { batch, tx }, Event::Checked(errors)) => {
            if errors@.len() > 0 {
                let n = m.reject_tx(tx, errors@[0]);
                decisions::lemma_decided_reject(m.block, m.failing, m.seen, (tx.id(), errors@[0].outcome(tx)));
                lemma_offered_in_batches(batches, m, batch as int, tx);
                lemma_seen_push(batches, m, n, tx.id());
                lemma_advance(batches, n);
            }
        },
        (Phase::Executing { batch, tx }, Event::Executed { gas_used, reward }) => {
            let n = m.include_tx(batch as int, tx, reward@);
            decisions::lemma_decided_include(m.block, m.failing, m.seen, tx);
            lemma_offered_in_batches(batches, m, batch as int, tx);
            lemma_seen_push(batches, m, n, tx.id());
            lemma_advance(batches, n);
        },
        _ => {
            lemma_advance(batches, m);
        },
    }
}

proof fn lemma_seen_push(
    batches: Seq<Seq<PendingTransaction>>,
    m: CyclingModel,
    n: CyclingModel,
    hash: TxHash,
)
    requires
        merge_inv(batches, m),
        n.batches == m.batches,
        n.seen == m.seen.push(hash),
        decisions::in_batches(batches, hash),
    ensures
        forall|i: int| 0 <= i < batches.len() ==> decisions::is_rest(#[trigger] batches[i], n.batches[i], n.seen),
        forall|h: TxHash| #[trigger] n.seen.contains(h) ==> decisions::in_batches(batches, h),
{
    assert forall|i: int| 0 <= i < batches.len() implies decisions::is_rest(
        #[trigger] batches[i],
        n.batches[i],
        n.seen,
    ) by {
        decisions::lemma_is_rest_push(batches[i], m.batches[i], m.seen, hash);
    }
    assert forall|h: TxHash| #[trigger] n.seen.contains(h) implies decisions::in_batches(batches, h) by {
        decisions::lemma_contains_push(m.seen, hash, h);
    }
}

proof fn lemma_run(strict: bool, batches: Seq<Seq<PendingTransaction>>, events: Seq<Event>)
    requires
        0 < batches.len() <= usize::MAX,
        legal(strict, batches, events),
    ensures
        merge_inv(batches, run(strict, batches, events)),
    decreases events.len(),
{
    if events.len() == 0 {
        let m = CyclingModel::initial(strict, batches);
        assert forall|i: int| 0 <= i < batches.len() implies decisions::is_rest(
            #[trigger] batches[i],
            m.batches[i],
            m.seen,
        ) by {
            assert(batches[i].skip(0) =~= batches[i]);
        }
    } else {
        lemma_run(strict, batches, events.drop_last());
        lemma_step(batches, run(strict, batches, events.drop_last()), events.last());
    }
}

/// However the checks and executions turn out, no transaction is dealt with twice: each hash is in
/// the block at most once, or left out at most once, never both, and comes from some batch.
pub proof fn law_each_transaction_is_decided_once(
    strict: bool,
    batches: Seq<Seq<PendingTransaction>>,
    events: Seq<Event>,
)
    requires
        0 < batches.len() <= usize::MAX,
        legal(strict, batches, events),
    ensures
        ({
            let m = run(strict, batches, events);
            &&& decisions::decided_once(m.block, m.failing, m.seen)
            &&& forall|h: TxHash| #[trigger] m.seen.contains(h) ==> decisions::in_batches(batches, h)
        }),
{
    lemma_run(strict, batches, events);
}

/// A merge ends only when every transaction of every batch is in the block or was left out.
pub proof fn law_finished_merge_decided_everything(
    strict: bool,
    batches: Seq<Seq<PendingTransaction>>,
    events: Seq<Event>,
    hash: TxHash,
)
    requires
        0 < batches.len() <= usize::MAX,
        legal(strict, batches, events),
        run(strict, batches, events).phase is Finished,
    ensures
        decisions::in_batches(batches, hash) <==> decisions::in_block(run(strict, batches, events).block, hash) || decisions::in_failing(
            run(strict, batches, events).failing,
            hash,
        ),
{
    lemma_run(strict, batches, events);
    let m = run(strict, batches, events);
    assert(m.seen.contains(hash) <==> decisions::in_block(m.block, hash) || decisions::in_failing(m.failing, hash));
    if decisions::in_batches(batches, hash) {
        let (i, j) = choose|i: int, j: int|
            0 <= i < batches.len() && 0 <= j < batches[i].len() && (#[trigger] batches[i][j]).id() == hash;
        assert(decisions::is_rest(batches[i], m.batches[i], m.seen));
        assert(m.batches[i].len() == 0);
        assert(m.seen.contains(batches[i][j].id()));
    }
}

/// The proposer that is responsible for a transaction's hash gets its fee exactly where the
/// transaction is anywhere in the batch that this proposer handed in, also where other transactions
/// have left that batch since. Else the fee goes to the proposer whose turn it was.
pub proof fn law_strict_attribution_goes_by_the_original_batches(
    batches: Seq<Seq<PendingTransaction>>,
    events: Seq<Event>,
)
    requires
        0 < batches.len() <= usize::MAX,
        legal(true, batches, events),
    ensures
        run(true, batches, events).phase matches Phase::Executing { batch, tx } ==> ({
            let responsible = cycling::responsible_batch(
                tx.id(),
                batches.len() as int,
            );
            run(true, batches, events).attributed(batch as int, tx.id())
                == if cycling::batch_holds(batches[responsible], tx.id()) {
                responsible
            } else {
                batch as int
            }
        }),
{
    lemma_run(true, batches, events);
    let m = run(true, batches, events);
    if let Phase::Executing { batch, tx } = m.phase {
        lemma_strict(true, batches, events);
        let r = cycling::responsible_batch(tx.id(), batches.len() as int);
        vstd::arithmetic::div_mod::lemma_mod_bound(
            crate::num::be_bytes_value(tx.id()@) as int,
            batches.len() as int,
        );
        let whole = batches[r];
        let rest = m.batches[r];
        let cut = whole.len() - rest.len();
        assert(decisions::is_rest(whole, rest, m.seen));
        if cycling::batch_holds(whole, tx.id()) {
            let i = choose|i: int| 0 <= i < whole.len() && (#[trigger] whole[i]).id() == tx.id();
            assert(i >= cut);
            assert(rest[i - cut].id() == tx.id());
        }
        if cycling::batch_holds(rest, tx.id()) {
            let i = choose|i: int| 0 <= i < rest.len() && (#[trigger] rest[i]).id() == tx.id();
            assert(whole[i + cut].id() == tx.id());
        }
    }
}

proof fn lemma_strict(strict: bool, batches: Seq<Seq<PendingTransaction>>, events: Seq<Event>)
    ensures
        run(strict, batches, events).strict == strict,
    decreases events.len(),
{
    if events.len() > 0 {
        lemma_strict(strict, batches, events.drop_last());
    }
}

/// The priority fees that the executed transactions paid.
pub open spec fn rewards(events: Seq<Event>) -> nat
    decreases events.len(),
{
    if events.len() == 0 {
        0
    } else {
        rewards(events.drop_last()) + match events.last() {
            Event::Executed { gas_used, reward } => reward@,
            _ => 0,
        }
    }
}

/// No priority fee is lost or made up: the credits of all proposers sum up to the fees that were
/// paid, counted in 256 bits.
pub proof fn law_rewards_are_credited(
    strict: bool,
    batches: Seq<Seq<PendingTransaction>>,
    events: Seq<Event>,
)
    requires
        0 < batches.len() <= usize::MAX,
        legal(strict, batches, events),
    ensures
        decisions::sum(run(strict, batches, events).fees) % crate::num::u256_modulus() == rewards(events)
            % crate::num::u256_modulus(),
    decreases events.len(),
{
    if events.len() == 0 {
        decisions::lemma_sum_zero(run(strict, batches, events).fees);
    } else {
        law_rewards_are_credited(strict, batches, events.drop_last());
        lemma_run(strict, batches, events.drop_last());
        let m = run(strict, batches, events.drop_last());
        match (m.phase, events.last()) {
            (Phase::Executing { batch, tx }, Event::Executed { gas_used, reward }) => {
                vstd::arithmetic::div_mod::lemma_mod_bound(
                    crate::num::be_bytes_value(tx.id()@) as int,
                    batches.len() as int,
                );
                let i = m.attributed(batch as int, tx.id());
                decisions::lemma_credit(m.fees, i, reward@, rewards(events.drop_last()));
            },
            _ => {},
        }
    }
}

/// A merge ends: it takes in at most two events for each transaction of the batches, and one more.
pub proof fn law_merge_ends(strict: bool, batches: Seq<Seq<PendingTransaction>>, events: Seq<Event>)
    requires
        0 < batches.len() <= usize::MAX,
        legal(strict, batches, events),
    ensures
        events.len() <= 2 * decisions::joined(batches).len() + 1,
{
    lemma_events_counted(strict, batches, events);
    lemma_run(strict, batches, events);
    let m = run(strict, batches, events);
    decisions::lemma_decisions_bounded(batches, m.seen);
    if let Phase::Executing { batch, tx } = m.phase {
        let more = m.seen.push(tx.id());
        lemma_offered_in_batches(batches, m, batch as int, tx);
        decisions::lemma_no_duplicates_push(m.seen, tx.id());
        assert forall|h: TxHash| #[trigger] more.contains(h) implies decisions::in_batches(batches, h) by {
            decisions::lemma_contains_push(m.seen, tx.id(), h);
        }
        decisions::lemma_decisions_bounded(batches, more);
    }
}

proof fn lemma_events_counted(strict: bool, batches: Seq<Seq<PendingTransaction>>, events: Seq<Event>)
    requires
        0 < batches.len() <= usize::MAX,
        legal(strict, batches, events),
    ensures
        ({
            let m = run(strict, batches, events);
            &&& events.len() <= 2 * m.seen.len() + if m.phase is Executing {
                2int
            } else {
                1
            }
            &&& m.phase is Idle ==> events.len() == 0
        }),
    decreases events.len(),
{
    if events.len() > 0 {
        lemma_events_counted(strict, batches, events.drop_last());
    }
}

/// A transaction is tried only after all that stand before it in its batch were dealt with.
pub proof fn law_batches_keep_their_order(
    strict: bool,
    batches: Seq<Seq<PendingTransaction>>,
    events: Seq<Event>,
    batch: usize,
    tx: PendingTransaction,
)
    requires
        0 < batches.len() <= usize::MAX,
        legal(strict, batches, events),
        run(strict, batches, events).phase == (Phase::Checking { batch, tx }) || run(
            strict,
            batches,
            events,
        ).phase == (Phase::Executing { batch, tx }),
    ensures
        batch < batches.len(),
        exists|place: int| #[trigger]
            decisions::is_next_of(batches[batch as int], place, tx, run(strict, batches, events).seen),
{
    lemma_run(strict, batches, events);
    let m = run(strict, batches, events);
    let whole = batches[batch as int];
    assert(decisions::is_rest(whole, m.batches[batch as int], m.seen));
    let place = whole.len() - m.batches[batch as int].len();
    assert(whole[place] == m.batches[batch as int][0]);
    assert(decisions::is_next_of(whole, place, tx, m.seen));
}

/// The number of turns from one proposer to the next turn of another one, or of the same one again.
pub open spec fn turns(from: int, to: int, count: int) -> int {
    if to > from {
        to - from
    } else {
        to - from + count
    }
}

/// Where a head is offered, the turn after it is that of the next proposer.
proof fn lemma_next_place(strict: bool, batches: Seq<Seq<PendingTransaction>>, events: Seq<Event>)
    requires
        0 < batches.len() <= usize::MAX,
        legal(strict, batches, events),
    ensures
        ({
            let m = run(strict, batches, events);
            let count = batches.len() as int;
            &&& m.phase matches Phase::Checking { batch, tx } ==> m.next == cycling::turn(batch as int, 1, count)
            &&& m.phase matches Phase::Executing { batch, tx } ==> m.next == cycling::turn(
                batch as int,
                1,
                count,
            )
            &&& m.phase is Idle ==> m.next == 0 && events.len() == 0
        }),
    decreases events.len(),
{
    if events.len() > 0 {
        let m = run(strict, batches, events.drop_last());
        lemma_next_place(strict, batches, events.drop_last());
        lemma_run(strict, batches, events.drop_last());
        lemma_run(strict, batches, events);
        cycling::lemma_next_turn(run(strict, batches, events).batches, m.next, 0);
    }
}

/// The chosen place is some turns away, and all places before it are empty.
proof fn lemma_first_turn(batches: Seq<Seq<PendingTransaction>>, start: int, distance: int) -> (d: int)
    requires
        0 <= start < batches.len(),
        0 <= distance,
        cycling::next_turn(batches, start, distance) is Some,
    ensures
        distance <= d < batches.len(),
        cycling::next_turn(batches, start, distance) == Some(
            cycling::turn(start, d, batches.len() as int),
        ),
        forall|e: int|
            distance <= e < d ==> (#[trigger] batches[cycling::turn(start, e, batches.len() as int)]).len()
                == 0,
    decreases batches.len() - distance,
{
    if batches[cycling::turn(start, distance, batches.len() as int)].len() > 0 {
        distance
    } else {
        lemma_first_turn(batches, start, distance + 1)
    }
}

/// After an event that settles a transaction, no head of a batch was dealt with.
proof fn lemma_heads_are_new(strict: bool, batches: Seq<Seq<PendingTransaction>>, events: Seq<Event>)
    requires
        0 < batches.len() <= usize::MAX,
        legal(strict, batches, events),
        events.len() > 0,
    ensures
        ({
            let m = run(strict, batches, events);
            forall|i: int|
                0 <= i < batches.len() && (#[trigger] m.batches[i]).len() > 0 ==> !m.seen.contains(
                    m.batches[i][0].id(),
                )
        }),
    decreases events.len(),
{
    let m = run(strict, batches, events.drop_last());
    let n = run(strict, batches, events);
    lemma_run(strict, batches, events.drop_last());
    if m.phase is Checking && n.phase is Executing {
        if events.len() > 1 {
            lemma_heads_are_new(strict, batches, events.drop_last());
        }
    } else {
        assert forall|i: int| 0 <= i < batches.len() && (#[trigger] n.batches[i]).len() > 0 implies !n.seen.contains(
            n.batches[i][0].id(),
        ) by {
            decisions::lemma_drop_seen_head(m.batches[i], n.seen);
        }
    }
}

/// Proposers take turns: after a transaction of one batch was settled, the next one that is offered is
/// the first open transaction of the next batch in the circle that has one. The batches that are passed
/// over on the way have none left.
pub proof fn law_turns_go_round(
    strict: bool,
    batches: Seq<Seq<PendingTransaction>>,
    events: Seq<Event>,
    from: usize,
    settled: PendingTransaction,
    to: usize,
    tx: PendingTransaction,
)
    requires
        0 < batches.len() <= usize::MAX,
        legal(strict, batches, events),
        events.len() > 0,
        ({
            let before = run(strict, batches, events.drop_last()).phase;
            before == (Phase::Checking { batch: from, tx: settled }) || before == (Phase::Executing {
                batch: from,
                tx: settled,
            })
        }),
        run(strict, batches, events).phase == (Phase::Checking { batch: to, tx }),
    ensures
        ({
            let m = run(strict, batches, events);
            let count = batches.len() as int;
            &&& to < count
            &&& exists|place: int| #[trigger]
                decisions::is_front(batches[to as int], place, m.block, m.failing)
                    && batches[to as int][place] == tx
            &&& forall|j: int|
                0 <= j < count && turns(from as int, j, count) < turns(from as int, to as int, count)
                    ==> decisions::is_done(#[trigger] batches[j], m.block, m.failing)
        }),
{
    let old = run(strict, batches, events.drop_last());
    let m = run(strict, batches, events);
    let count = batches.len() as int;
    lemma_run(strict, batches, events.drop_last());
    lemma_run(strict, batches, events);
    lemma_next_place(strict, batches, events.drop_last());
    lemma_heads_are_new(strict, batches, events);
    cycling::lemma_next_turn(m.batches, old.next, 0);
    let d = lemma_first_turn(m.batches, old.next, 0);
    assert forall|j: int| 0 <= j < count implies (m.batches[j].len() == 0 <==> decisions::is_done(
        #[trigger] batches[j],
        m.block,
        m.failing,
    )) by {
        decisions::lemma_rest_begins_at_front(batches[j], m.batches[j], m.block, m.failing, m.seen);
    }
    decisions::lemma_rest_begins_at_front(
        batches[to as int],
        m.batches[to as int],
        m.block,
        m.failing,
        m.seen,
    );
    assert forall|j: int|
        0 <= j < count && turns(from as int, j, count) < turns(from as int, to as int, count) implies decisions::is_done(
        #[trigger] batches[j],
        m.block,
        m.failing,
    ) by {
        let e = turns(from as int, j, count) - 1;
        assert(cycling::turn(old.next, e, count) == j);
        assert(m.batches[cycling::turn(old.next, e, count)].len() == 0);
    }
}

/// No proposer is offered a second turn in a row while another one has an open transaction.
pub proof fn law_no_two_turns_in_a_row(
    strict: bool,
    batches: Seq<Seq<PendingTransaction>>,
    events: Seq<Event>,
    batch: usize,
    settled: PendingTransaction,
    tx: PendingTransaction,
    other: int,
)
    requires
        0 < batches.len() <= usize::MAX,
        legal(strict, batches, events),
        events.len() > 0,
        ({
            let before = run(strict, batches, events.drop_last()).phase;
            before == (Phase::Checking { batch, tx: settled }) || before == (Phase::Executing {
                batch,
                tx: settled,
            })
        }),
        run(strict, batches, events).phase == (Phase::Checking { batch, tx }),
        0 <= other < batches.len(),
        other != batch,
    ensures
        decisions::is_done(
            batches[other],
            run(strict, batches, events).block,
            run(strict, batches, events).failing,
        ),
{
    law_turns_go_round(strict, batches, events, batch, settled, batch, tx);
}

/// The first turn is that of the first proposer that handed in a transaction.
pub proof fn law_first_turn_is_the_first_proposers(
    strict: bool,
    batches: Seq<Seq<PendingTransaction>>,
    event: Event,
    to: usize,
    tx: PendingTransaction,
)
    requires
        0 < batches.len() <= usize::MAX,
        legal(strict, batches, seq![event]),
        run(strict, batches, seq![event]).phase == (Phase::Checking { batch: to, tx }),
    ensures
        to < batches.len(),
        batches[to as int].len() > 0,
        tx == batches[to as int][0],
        forall|j: int| 0 <= j < to ==> (#[trigger] batches[j]).len() == 0,
{
    let events = seq![event];
    let none: Seq<Event> = Seq::empty();
    assert(events.drop_last() =~= none);
    let start = run(strict, batches, none);
    let m = run(strict, batches, events);
    lemma_run(strict, batches, none);
    assert(start == CyclingModel::initial(strict, batches));
    assert forall|j: int| 0 <= j < batches.len() implies #[trigger] m.batches[j] == batches[j] by {}
    cycling::lemma_next_turn(m.batches, 0, 0);
    let d = lemma_first_turn(m.batches, 0, 0);
    assert forall|j: int| 0 <= j < to implies (#[trigger] batches[j]).len() == 0 by {
        assert(m.batches[cycling::turn(0, j, batches.len() as int)].len() == 0);
    }
}

/// The proposer to which the fee of a transaction goes that was offered by a given one: with strict
/// attribution the responsible one, where it handed the transaction in.
pub open spec fn gets_fee(
    strict: bool,
    batches: Seq<Seq<PendingTransaction>>,
    batch: int,
    tx: PendingTransaction,
    i: int,
) -> bool {
    let responsible = crate::num::be_bytes_value(tx.transaction.hash@) as int % (batches.len() as int);
    let handed_in = exists|j: int|
        0 <= j < batches[responsible].len() && (#[trigger] batches[responsible][j]).transaction.hash
            == tx.transaction.hash;
    i == if strict && handed_in {
        responsible
    } else {
        batch
    }
}

/// What an event changes: a check without errors leads to the execution of the same transaction; one
/// with errors leaves the transaction out with the first of them; an execution puts the transaction
/// at the end of the block and adds its fee to what one proposer has, in 256 bits. Nothing else
/// changes the block, the fees and what was left out.
pub proof fn law_events_settle_transactions(strict: bool, batches: Seq<Seq<PendingTransaction>>, events: Seq<Event>)
    requires
        0 < batches.len() <= usize::MAX,
        legal(strict, batches, events),
        events.len() > 0,
    ensures
        ({
            let m = run(strict, batches, events.drop_last());
            let n = run(strict, batches, events);
            &&& n.fees.len() == batches.len()
            &&& match (m.phase, events.last()) {
                (Phase::Checking { batch, tx }, Event::Checked(errors)) => if errors@.len() == 0 {
                    &&& n.phase == (Phase::Executing { batch, tx })
                    &&& n.block == m.block
                    &&& n.failing == m.failing
                    &&& n.fees == m.fees
                } else {
                    &&& !(n.phase is Executing)
                    &&& n.block == m.block
                    &&& n.fees == m.fees
                    &&& n.failing.len() == m.failing.len() + 1
                    &&& n.failing.drop_last() == m.failing
                    &&& n.failing.last().0 == tx.transaction.hash
                    &&& decisions::tells(n.failing.last().1, tx, errors@[0])
                },
                (Phase::Executing { batch, tx }, Event::Executed { gas_used, reward }) => {
                    &&& !(n.phase is Executing)
                    &&& n.block == m.block.push(tx)
                    &&& n.failing == m.failing
                    &&& forall|i: int|
                        0 <= i < batches.len() ==> #[trigger] n.fees[i] == if gets_fee(
                            strict,
                            batches,
                            batch as int,
                            tx,
                            i,
                        ) {
                            (m.fees[i] + reward@) % crate::num::u256_modulus()
                        } else {
                            m.fees[i]
                        }
                },
                _ => {
                    &&& !(n.phase is Executing)
                    &&& n.block.len() == 0
                    &&& n.failing.len() == 0
                    &&& forall|i: int| 0 <= i < batches.len() ==> #[trigger] n.fees[i] == 0
                },
            }
        }),
{
    let m = run(strict, batches, events.drop_last());
    let n = run(strict, batches, events);
    lemma_run(strict, batches, events.drop_last());
    lemma_run(strict, batches, events);
    lemma_strict(strict, batches, events.drop_last());
    lemma_next_place(strict, batches, events.drop_last());
    match (m.phase, events.last()) {
        (Phase::Checking { batch, tx }, Event::Checked(errors)) => {
            if errors@.len() > 0 {
                assert(n.failing.drop_last() =~= m.failing);
            }
        },
        (Phase::Executing { batch, tx }, Event::Executed { gas_used, reward }) => {
            let count = batches.len() as int;
            let responsible = crate::num::be_bytes_value(tx.transaction.hash@) as int % count;
            vstd::arithmetic::div_mod::lemma_mod_bound(
                crate::num::be_bytes_value(tx.transaction.hash@) as int,
                count,
            );
            let i = m.attributed(batch as int, tx.id());
            if strict {
                law_strict_attribution_goes_by_the_original_batches(batches, events.drop_last());
                let whole = batches[responsible];
                if cycling::batch_holds(whole, tx.id()) {
                    let j = choose|j: int| 0 <= j < whole.len() && (#[trigger] whole[j]).id() == tx.id();
                    assert(batches[responsible][j].transaction.hash == tx.transaction.hash);
                }
                if exists|j: int|
                    0 <= j < whole.len() && (#[trigger] batches[responsible][j]).transaction.hash
                        == tx.transaction.hash {
                    let j = choose|j: int|
                        0 <= j < whole.len() && (#[trigger] batches[responsible][j]).transaction.hash
                            == tx.transaction.hash;
                    assert(whole[j].id() == tx.id());
                }
            }
            assert(gets_fee(strict, batches, batch as int, tx, i));
        },
        _ => {},
    }
}

/// A merge asks for what it waits for: to check or to execute the transaction that is on offer, and
/// for nothing once it is finished.
pub proof fn law_actions_match_the_phase(m: CyclingModel, event: Event)
    ensures
        match m.step(event).0.phase {
            Phase::Checking { batch, tx } => m.step(event).1 == batches::Action::Check(tx),
            Phase::Executing { batch, tx } => m.step(event).1 == batches::Action::Execute(tx),
            Phase::Finished => m.step(event).1 is Finish,
            Phase::Idle => false,
        },
{
}

} // verus!
