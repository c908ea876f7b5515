//! What it means that a merge deals with every transaction once, and what follows from it.

use crate::fixed_bytes::TxHash;
use crate::transaction::{
    Hashed, PendingTransaction, SimulationError, TransactionExecutionOutcome,
};
use vstd::prelude::*;

verus! {

/// Whether the block holds a hash.
pub open spec fn in_block<T: Hashed>(block: Seq<T>, hash: TxHash) -> bool {
    exists|i: int| 0 <= i < block.len() && (#[trigger] block[i]).id() == hash
}

/// Whether a hash was left out.
pub open spec fn in_failing(failing: Seq<(TxHash, TransactionExecutionOutcome)>, hash: TxHash) -> bool {
    exists|i: int| 0 <= i < failing.len() && (#[trigger] failing[i]).0 == hash
}

/// Whether some batch holds a hash.
pub open spec fn in_batches<T: Hashed>(batches: Seq<Seq<T>>, hash: TxHash) -> bool {
    exists|i: int, j: int|
        0 <= i < batches.len() && 0 <= j < batches[i].len() && (#[trigger] batches[i][j]).id() == hash
}

/// Whether `rest` is what `seen` leaves of a batch: an end of the batch, behind transactions that
/// were all dealt with.
pub open spec fn is_rest<T: Hashed>(
    batch: Seq<T>,
    rest: Seq<T>,
    seen: Seq<TxHash>,
) -> bool {
    let cut = batch.len() - rest.len();
    &&& cut >= 0
    &&& rest == batch.skip(cut)
    &&& forall|j: int| 0 <= j < cut ==> seen.contains((#[trigger] batch[j]).id())
}

/// Whether a transaction stands at a place of a batch, was not dealt with, and all before it were.
pub open spec fn is_next_of<T: Hashed>(batch: Seq<T>, place: int, tx: T, seen: Seq<TxHash>) -> bool {
    &&& 0 <= place < batch.len()
    &&& batch[place] == tx
    &&& !seen.contains(tx.id())
    &&& forall|j: int| 0 <= j < place ==> seen.contains((#[trigger] batch[j]).id())
}

/// Whether transactions were dealt with one at a time, each either included or left out.
pub open spec fn decided_once<T: Hashed>(
    block: Seq<T>,
    failing: Seq<(TxHash, TransactionExecutionOutcome)>,
    seen: Seq<TxHash>,
) -> bool {
    &&& seen.no_duplicates()
    &&& seen.len() == block.len() + failing.len()
    &&& forall|h: TxHash| #[trigger]
        seen.contains(h) <==> in_block(block, h) || in_failing(failing, h)
    &&& forall|h: TxHash| !(#[trigger] in_block(block, h) && in_failing(failing, h))
    &&& forall|i: int, j: int|
        0 <= i < j < block.len() ==> (#[trigger] block[i]).id() != (#[trigger] block[j]).id()
    &&& forall|i: int, j: int|
        0 <= i < j < failing.len() ==> (#[trigger] failing[i]).0 != (#[trigger] failing[j]).0
}

/// Whether a hash is in the block or was left out.
pub open spec fn decided<T: Hashed>(
    block: Seq<T>,
    failing: Seq<(TxHash, TransactionExecutionOutcome)>,
    hash: TxHash,
) -> bool {
    in_block(block, hash) || in_failing(failing, hash)
}

/// Whether the transaction at a place of a batch is the first one of the batch that is neither in the
/// block nor left out.
pub open spec fn is_front<T: Hashed>(
    batch: Seq<T>,
    place: int,
    block: Seq<T>,
    failing: Seq<(TxHash, TransactionExecutionOutcome)>,
) -> bool {
    &&& 0 <= place < batch.len()
    &&& !decided(block, failing, batch[place].id())
    &&& forall|j: int| 0 <= j < place ==> decided(block, failing, (#[trigger] batch[j]).id())
}

/// Whether all transactions of a batch are in the block or were left out.
pub open spec fn is_done<T: Hashed>(
    batch: Seq<T>,
    block: Seq<T>,
    failing: Seq<(TxHash, TransactionExecutionOutcome)>,
) -> bool {
    forall|j: int| 0 <= j < batch.len() ==> decided(block, failing, (#[trigger] batch[j]).id())
}

/// Whether what became of a transaction tells why it cannot go into the block.
pub open spec fn tells(
    outcome: TransactionExecutionOutcome,
    tx: PendingTransaction,
    error: SimulationError,
) -> bool {
    &&& error matches SimulationError::InvalidTransaction(e) ==> outcome
        == TransactionExecutionOutcome::Invalid(tx, e)
    &&& error is BlockGasExhausted ==> outcome == TransactionExecutionOutcome::BlockGasExhausted(tx)
    &&& error is BlockBlobGasExhausted ==> outcome == TransactionExecutionOutcome::BlobGasExhausted(tx)
}

/// What is left of a batch begins with the first transaction that was not dealt with, where its head
/// is new, and is empty exactly where all were.
pub proof fn lemma_rest_begins_at_front<T: Hashed>(
    batch: Seq<T>,
    rest: Seq<T>,
    block: Seq<T>,
    failing: Seq<(TxHash, TransactionExecutionOutcome)>,
    seen: Seq<TxHash>,
)
    requires
        is_rest(batch, rest, seen),
        rest.len() > 0 ==> !seen.contains(rest[0].id()),
        decided_once(block, failing, seen),
    ensures
        rest.len() == 0 <==> is_done(batch, block, failing),
        rest.len() > 0 ==> is_front(batch, batch.len() - rest.len(), block, failing)
            && batch[batch.len() - rest.len()] == rest[0],
        forall|place: int| #[trigger]
            is_front(batch, place, block, failing) ==> place == batch.len() - rest.len(),
{
    let cut = batch.len() - rest.len();
    assert forall|j: int| 0 <= j < cut implies decided(block, failing, (#[trigger] batch[j]).id()) by {
        assert(seen.contains(batch[j].id()));
    }
    if rest.len() > 0 {
        assert(batch[cut] == rest[0]);
        assert(seen.contains(rest[0].id()) <==> decided(block, failing, rest[0].id()));
        assert(!decided(block, failing, batch[cut].id()));
    }
    assert forall|place: int| #[trigger] is_front(batch, place, block, failing) implies place == cut by {
        if place < cut {
            assert(decided(block, failing, batch[place].id()));
        }
        if cut < place {
            assert(decided(block, failing, batch[cut].id()));
        }
    }
}

/// What was dealt with does not stay at the head of a batch.
pub proof fn lemma_drop_seen_head<T: Hashed>(batch: Seq<T>, seen: Seq<TxHash>)
    ensures
        ({
            let d = crate::concurrent_proposer::batches::drop_seen(batch, seen);
            d.len() > 0 ==> !seen.contains(d[0].id())
        }),
{
    assert(batch.skip(0) =~= batch);
    lemma_drop_seen_is_rest(batch, batch, seen);
}

/// Dropping dealt-with heads keeps what is left of a batch, and leaves a head that is new.
pub proof fn lemma_drop_seen_is_rest<T: Hashed>(
    batch: Seq<T>,
    rest: Seq<T>,
    seen: Seq<TxHash>,
)
    requires
        is_rest(batch, rest, seen),
    ensures
        is_rest(batch, crate::concurrent_proposer::batches::drop_seen(rest, seen), seen),
        ({
            let d = crate::concurrent_proposer::batches::drop_seen(rest, seen);
            d.len() > 0 ==> !seen.contains(d[0].id())
        }),
    decreases rest.len(),
{
    if rest.len() > 0 && seen.contains(rest[0].id()) {
        let cut = batch.len() - rest.len();
        let shorter = rest.skip(1);
        assert(shorter =~= batch.skip(cut + 1));
        assert(rest[0] == batch[cut]);
        lemma_drop_seen_is_rest(batch, shorter, seen);
    }
}

/// Dealing with one more transaction keeps what is left of a batch.
pub proof fn lemma_is_rest_push<T: Hashed>(
    batch: Seq<T>,
    rest: Seq<T>,
    seen: Seq<TxHash>,
    hash: TxHash,
)
    requires
        is_rest(batch, rest, seen),
    ensures
        is_rest(batch, rest, seen.push(hash)),
{
    let cut = batch.len() - rest.len();
    assert forall|j: int| 0 <= j < cut implies seen.push(hash).contains((#[trigger] batch[j]).id()) by {
        lemma_contains_push(seen, hash, batch[j].id());
    }
}

pub proof fn lemma_contains_push<T>(s: Seq<T>, x: T, y: T)
    ensures
        s.push(x).contains(y) <==> s.contains(y) || x == y,
{
    let p = s.push(x);
    if s.contains(y) {
        let i = choose|i: int| 0 <= i < s.len() && s[i] == y;
        assert(p[i] == y);
    }
    if x == y {
        assert(p[s.len() as int] == y);
    }
    if p.contains(y) {
        let i = choose|i: int| 0 <= i < p.len() && p[i] == y;
        if i < s.len() {
            assert(s[i] == y);
        }
    }
}

proof fn lemma_block_push<T: Hashed>(block: Seq<T>, tx: T, h: TxHash)
    ensures
        in_block(block.push(tx), h) <==> in_block(block, h) || tx.id() == h,
{
    let p = block.push(tx);
    if in_block(block, h) {
        let i = choose|i: int| 0 <= i < block.len() && (#[trigger] block[i]).id() == h;
        assert(p[i].id() == h);
    }
    if tx.id() == h {
        assert(p[block.len() as int].id() == h);
    }
    if in_block(p, h) {
        let i = choose|i: int| 0 <= i < p.len() && (#[trigger] p[i]).id() == h;
        if i < block.len() {
            assert(block[i].id() == h);
        }
    }
}

pub proof fn lemma_failing_push(
    failing: Seq<(TxHash, TransactionExecutionOutcome)>,
    entry: (TxHash, TransactionExecutionOutcome),
    h: TxHash,
)
    ensures
        in_failing(failing.push(entry), h) <==> in_failing(failing, h) || entry.0 == h,
{
    let p = failing.push(entry);
    if in_failing(failing, h) {
        let i = choose|i: int| 0 <= i < failing.len() && (#[trigger] failing[i]).0 == h;
        assert(p[i].0 == h);
    }
    if entry.0 == h {
        assert(p[failing.len() as int].0 == h);
    }
    if in_failing(p, h) {
        let i = choose|i: int| 0 <= i < p.len() && (#[trigger] p[i]).0 == h;
        if i < failing.len() {
            assert(failing[i].0 == h);
        }
    }
}

pub proof fn lemma_no_duplicates_push<T>(s: Seq<T>, x: T)
    requires
        s.no_duplicates(),
        !s.contains(x),
    ensures
        s.push(x).no_duplicates(),
{
    let p = s.push(x);
    assert forall|i: int, j: int| 0 <= i < p.len() && 0 <= j < p.len() && i != j implies p[i] != p[j] by {
        if i < s.len() && j < s.len() {
            assert(s[i] != s[j]);
        } else if i < s.len() {
            assert(s.contains(s[i]));
        } else {
            assert(s.contains(s[j]));
        }
    }
}

/// Including a new transaction keeps that each is dealt with once.
pub proof fn lemma_decided_include<T: Hashed>(
    block: Seq<T>,
    failing: Seq<(TxHash, TransactionExecutionOutcome)>,
    seen: Seq<TxHash>,
    tx: T,
)
    requires
        decided_once(block, failing, seen),
        !seen.contains(tx.id()),
    ensures
        decided_once(block.push(tx), failing, seen.push(tx.id())),
{
    let h0 = tx.id();
    let b = block.push(tx);
    lemma_no_duplicates_push(seen, h0);
    assert forall|h: TxHash| #[trigger]
        seen.push(h0).contains(h) <==> in_block(b, h) || in_failing(failing, h) by {
        lemma_contains_push(seen, h0, h);
        lemma_block_push(block, tx, h);
        assert(seen.contains(h) <==> in_block(block, h) || in_failing(failing, h));
    }
    assert forall|h: TxHash| !(#[trigger] in_block(b, h) && in_failing(failing, h)) by {
        lemma_block_push(block, tx, h);
        assert(seen.contains(h) <==> in_block(block, h) || in_failing(failing, h));
        assert(!(in_block(block, h) && in_failing(failing, h)));
    }
    assert forall|i: int, j: int| 0 <= i < j < b.len() implies (#[trigger] b[i]).id() != (
    #[trigger] b[j]).id() by {
        if j < block.len() {
            assert(block[i].id() != block[j].id());
        } else {
            assert(in_block(block, block[i].id()));
            assert(seen.contains(block[i].id()));
        }
    }
}

/// Leaving out a new transaction keeps that each is dealt with once.
pub proof fn lemma_decided_reject<T: Hashed>(
    block: Seq<T>,
    failing: Seq<(TxHash, TransactionExecutionOutcome)>,
    seen: Seq<TxHash>,
    entry: (TxHash, TransactionExecutionOutcome),
)
    requires
        decided_once(block, failing, seen),
        !seen.contains(entry.0),
    ensures
        decided_once(block, failing.push(entry), seen.push(entry.0)),
{
    let h0 = entry.0;
    let f = failing.push(entry);
    lemma_no_duplicates_push(seen, h0);
    assert forall|h: TxHash| #[trigger]
        seen.push(h0).contains(h) <==> in_block(block, h) || in_failing(f, h) by {
        lemma_contains_push(seen, h0, h);
        lemma_failing_push(failing, entry, h);
        assert(seen.contains(h) <==> in_block(block, h) || in_failing(failing, h));
    }
    assert forall|h: TxHash| !(#[trigger] in_block(block, h) && in_failing(f, h)) by {
        lemma_failing_push(failing, entry, h);
        assert(seen.contains(h) <==> in_block(block, h) || in_failing(failing, h));
    }
    assert forall|i: int, j: int| 0 <= i < j < f.len() implies (#[trigger] f[i]).0 != (#[trigger] f[j]).0 by {
        if j < failing.len() {
            assert(failing[i].0 != failing[j].0);
        } else {
            assert(in_failing(failing, failing[i].0));
            assert(seen.contains(failing[i].0));
        }
    }
}

/// The transactions of all batches, one batch behind the other.
pub open spec fn joined<T: Hashed>(batches: Seq<Seq<T>>) -> Seq<T>
    decreases batches.len(),
{
    if batches.len() == 0 {
        Seq::empty()
    } else {
        joined(batches.drop_last()) + batches.last()
    }
}

/// A transaction of some batch is one of all transactions.
proof fn lemma_in_joined<T: Hashed>(batches: Seq<Seq<T>>, i: int, j: int)
    requires
        0 <= i < batches.len(),
        0 <= j < batches[i].len(),
    ensures
        joined(batches).contains(batches[i][j]),
    decreases batches.len(),
{
    let front = joined(batches.drop_last());
    if i == batches.len() - 1 {
        assert(joined(batches)[front.len() + j] == batches[i][j]);
    } else {
        lemma_in_joined(batches.drop_last(), i, j);
        let k = choose|k: int| 0 <= k < front.len() && front[k] == batches[i][j];
        assert(joined(batches)[k] == batches[i][j]);
    }
}

/// Distinct hashes that all come from the batches are no more than the batches' transactions.
pub proof fn lemma_decisions_bounded<T: Hashed>(batches: Seq<Seq<T>>, seen: Seq<TxHash>)
    requires
        seen.no_duplicates(),
        forall|h: TxHash| #[trigger] seen.contains(h) ==> in_batches(batches, h),
    ensures
        seen.len() <= joined(batches).len(),
{
    let all = joined(batches).map_values(|p: T| p.id());
    assert forall|h: TxHash| #[trigger] seen.to_set().contains(h) implies all.to_set().contains(h) by {
        assert(seen.contains(h));
        let (i, j) = choose|i: int, j: int|
            0 <= i < batches.len() && 0 <= j < batches[i].len() && (#[trigger] batches[i][j]).id() == h;
        lemma_in_joined(batches, i, j);
        let k = choose|k: int| 0 <= k < joined(batches).len() && joined(batches)[k] == batches[i][j];
        assert(all[k] == h);
        assert(all.contains(h));
    }
    vstd::seq_lib::seq_to_set_is_finite(all);
    vstd::set_lib::lemma_len_subset(seen.to_set(), all.to_set());
    seen.unique_seq_to_set();
    all.lemma_cardinality_of_set();
}

/// The sum of a list of numbers.
pub open spec fn sum(s: Seq<nat>) -> nat
    decreases s.len(),
{
    if s.len() == 0 {
        0
    } else {
        sum(s.drop_last()) + s.last()
    }
}

/// Changing one number changes the sum by as much.
pub proof fn lemma_sum_update(s: Seq<nat>, i: int, v: nat)
    requires
        0 <= i < s.len(),
    ensures
        sum(s.update(i, v)) + s[i] == sum(s) + v,
    decreases s.len(),
{
    if i == s.len() - 1 {
        assert(s.update(i, v).drop_last() =~= s.drop_last());
    } else {
        lemma_sum_update(s.drop_last(), i, v);
        assert(s.update(i, v).drop_last() =~= s.drop_last().update(i, v));
    }
}

pub proof fn lemma_sum_zero(s: Seq<nat>)
    requires
        forall|i: int| 0 <= i < s.len() ==> s[i] == 0,
    ensures
        sum(s) == 0,
    decreases s.len(),
{
    if s.len() > 0 {
        lemma_sum_zero(s.drop_last());
    }
}

/// A fee that is credited in 256 bits shows in the sum of all credits, up to multiples of 2^256.
pub proof fn lemma_credit(fees: Seq<nat>, i: int, reward: nat, total: nat)
    requires
        0 <= i < fees.len(),
        sum(fees) % crate::num::u256_modulus() == total % crate::num::u256_modulus(),
    ensures
        sum(fees.update(i, crate::num::u256_add(fees[i], reward))) % crate::num::u256_modulus() == (total
            + reward) % crate::num::u256_modulus(),
{
    let m = crate::num::u256_modulus() as int;
    let v = crate::num::u256_add(fees[i], reward);
    lemma_sum_update(fees, i, v);
    let a = (fees[i] + reward) as int;
    vstd::arithmetic::div_mod::lemma_fundamental_div_mod(a, m);
    let after = sum(fees.update(i, v)) as int;
    assert(after == sum(fees) + reward - m * (a / m));
    vstd::arithmetic::div_mod::lemma_mod_multiples_vanish(-(a / m), (sum(fees) + reward) as int, m);
    assert(m * (-(a / m)) == -(m * (a / m))) by (nonlinear_arith);
    vstd::arithmetic::div_mod::lemma_add_mod_noop(sum(fees) as int, reward as int, m);
    vstd::arithmetic::div_mod::lemma_add_mod_noop(total as int, reward as int, m);
}

/// The gas of the transactions of a list, where the gas of each hash is given.
pub open spec fn gas_sum<T: Hashed>(list: Seq<T>, gas: spec_fn(TxHash) -> nat) -> nat
    decreases list.len(),
{
    if list.len() == 0 {
        0
    } else {
        gas_sum(list.drop_last(), gas) + gas(list.last().id())
    }
}

/// Whether a credit is the gas of the leading transactions of a batch up to a place, held at the
/// largest value.
pub open spec fn credits_up_to<T: Hashed>(
    batch: Seq<T>,
    place: int,
    gas: spec_fn(TxHash) -> nat,
    credit: int,
    largest: int,
) -> bool {
    credit == if gas_sum(batch.take(place), gas) <= largest {
        gas_sum(batch.take(place), gas) as int
    } else {
        largest
    }
}

/// A sum is that of two parts of a list, and of a single number the number itself.
pub proof fn law_sums_add_up(a: Seq<nat>, b: Seq<nat>, x: nat)
    ensures
        sum(a + b) == sum(a) + sum(b),
        sum(seq![x]) == x,
    decreases b.len(),
{
    assert(seq![x].drop_last() =~= Seq::<nat>::empty());
    assert(sum(Seq::<nat>::empty()) == 0);
    if b.len() == 0 {
        assert(a + b =~= a);
    } else {
        assert((a + b).drop_last() =~= a + b.drop_last());
        law_sums_add_up(a, b.drop_last(), x);
    }
}

} // verus!
