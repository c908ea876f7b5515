//! What holds of every batch.

use crate::batching::answer_laws;
use crate::batching::assembly;
use crate::batching::assembly::PoolModel;
use crate::batching::dependencies;
use crate::batching::dependencies::DependencyModel;
use crate::batching::locality;
use crate::batching::pricing;
use crate::batching::questions;
use crate::batching::questions::{Answer, Halt, Question};
use crate::concurrent_proposer::decisions;
use crate::fixed_bytes::{Address, TxHash};
use crate::num;
use crate::transaction::{InvalidTransactionError, PendingTransaction, SimulationError};
use crate::transaction_register;
use crate::transaction_register::RegisterModel;
use vstd::prelude::*;

verus! {

/// Whether two lists have nothing in common.
pub open spec fn disjoint(a: Seq<TxHash>, b: Seq<TxHash>) -> bool {
    forall|x: TxHash| #[trigger] a.contains(x) ==> !b.contains(x)
}

/// Whether all that waits in a map of lists is a given transaction or not used.
spec fn waits_outside(map: Map<TxHash, Seq<TxHash>>, tx: TxHash, used: Seq<TxHash>) -> bool {
    forall|k: TxHash, x: TxHash|
        #![trigger map[k].contains(x)]
        map.contains_key(k) && map[k].contains(x) ==> x == tx || !used.contains(x)
}

/// Whether all that was found is a given transaction or not used.
spec fn found_outside(d: DependencyModel, tx: TxHash, used: Seq<TxHash>) -> bool {
    &&& forall|x: TxHash| #[trigger] d.repl.contains(x) ==> x == tx || !used.contains(x)
    &&& waits_outside(d.map, tx, used)
}

pub proof fn lemma_add_contains<T>(a: Seq<T>, b: Seq<T>, x: T)
    ensures
        (a + b).contains(x) <==> a.contains(x) || b.contains(x),
{
    let all = a + b;
    if a.contains(x) {
        let i = choose|i: int| 0 <= i < a.len() && a[i] == x;
        assert(all[i] == x);
    }
    if b.contains(x) {
        let i = choose|i: int| 0 <= i < b.len() && b[i] == x;
        assert(all[a.len() + i] == x);
    }
    if all.contains(x) {
        let i = choose|i: int| 0 <= i < all.len() && all[i] == x;
        if i < a.len() {
            assert(a[i] == x);
        } else {
            assert(b[i - a.len()] == x);
        }
    }
}

proof fn lemma_filter_contains<T>(s: Seq<T>, pred: spec_fn(T) -> bool, x: T)
    ensures
        s.filter(pred).contains(x) <==> s.contains(x) && pred(x),
    decreases s.len(),
{
    reveal(Seq::filter);
    if s.len() > 0 {
        let front = s.drop_last();
        lemma_filter_contains(front, pred, x);
        assert(s =~= front.push(s.last()));
        decisions::lemma_contains_push(front, s.last(), x);
        decisions::lemma_contains_push(front.filter(pred), s.last(), x);
    }
}

proof fn lemma_append_new_contains(a: Seq<TxHash>, b: Seq<TxHash>, x: TxHash)
    ensures
        dependencies::append_new(a, b).contains(x) <==> a.contains(x) || b.contains(x),
{
    let fresh = |y: TxHash| !a.contains(y);
    lemma_filter_contains(b, fresh, x);
    lemma_add_contains(a, b.filter(fresh), x);
}

proof fn lemma_waiting_outside(
    map: Map<TxHash, Seq<TxHash>>,
    other: TxHash,
    tx: TxHash,
    used: Seq<TxHash>,
)
    requires
        forall|k: TxHash, x: TxHash|
            #![trigger map[k].contains(x)]
            map.contains_key(k) && map[k].contains(x) ==> !used.contains(x),
    ensures
        waits_outside(dependencies::waiting(map, other, tx), tx, used),
{
    let after = dependencies::waiting(map, other, tx);
    assert forall|k: TxHash, x: TxHash|
        #![trigger after[k].contains(x)]
        after.contains_key(k) && after[k].contains(x) implies x == tx || !used.contains(x) by {
        if k == other {
            decisions::lemma_contains_push(dependencies::list_of(map, other), tx, x);
            if x != tx {
                assert(map.contains_key(other) && map[other].contains(x));
            }
        } else {
            assert(map[k].contains(x));
        }
    }
}

proof fn lemma_merged_outside(
    a: Map<TxHash, Seq<TxHash>>,
    b: Map<TxHash, Seq<TxHash>>,
    tx: TxHash,
    used: Seq<TxHash>,
)
    requires
        waits_outside(a, tx, used),
        waits_outside(b, tx, used),
    ensures
        waits_outside(dependencies::merged(a, b), tx, used),
{
    let after = dependencies::merged(a, b);
    assert forall|k: TxHash, x: TxHash|
        #![trigger after[k].contains(x)]
        after.contains_key(k) && after[k].contains(x) implies x == tx || !used.contains(x) by {
        lemma_append_new_contains(dependencies::list_of(a, k), dependencies::list_of(b, k), x);
        if dependencies::list_of(a, k).contains(x) {
            assert(a.contains_key(k) && a[k].contains(x));
        } else {
            assert(b.contains_key(k) && b[k].contains(x));
        }
    }
}

/// What was found for a transaction that is not used, with more transactions used, is not used.
proof fn lemma_found_for_other(
    d: DependencyModel,
    other: TxHash,
    tx: TxHash,
    used: Seq<TxHash>,
    used_with_tx: Seq<TxHash>,
)
    requires
        forall|x: TxHash| #[trigger] used.contains(x) ==> used_with_tx.contains(x),
        !used_with_tx.contains(other),
        found_outside(d, other, used_with_tx),
    ensures
        found_outside(d.then_waiting(other, tx), tx, used),
        forall|x: TxHash| #[trigger] d.repl.contains(x) ==> !used.contains(x),
{
    assert forall|k: TxHash, x: TxHash|
        #![trigger d.map[k].contains(x)]
        d.map.contains_key(k) && d.map[k].contains(x) implies !used.contains(x) by {
        assert(x == other || !used_with_tx.contains(x));
    }
    lemma_waiting_outside(d.map, other, tx, used);
    assert forall|x: TxHash| #[trigger] d.repl.contains(x) implies !used.contains(x) by {
        assert(x == other || !used_with_tx.contains(x));
    }
}

proof fn lemma_dependencies_outside(
    register: RegisterModel,
    tx: TxHash,
    used: Seq<TxHash>,
    answers: Seq<Answer>,
    at: int,
)
    ensures
        dependencies::dependencies(register, tx, used, answers, at) matches Ok((d, _)) ==> found_outside(
            d,
            tx,
            used,
        ),
    decreases dependencies::unused(register.simulations, used.push(tx)), 1int, 0int,
{
    let used_with_tx = used.push(tx);
    assert forall|x: TxHash| #[trigger] used.contains(x) implies used_with_tx.contains(x) by {
        decisions::lemma_contains_push(used, tx, x);
    }
    if let Ok(sim) = questions::simulated(register, tx, answers, at) {
        if sim.errors@.len() > 0 {
            match sim.errors@.last() {
                SimulationError::InvalidTransaction(InvalidTransactionError::NonceTooHigh) => {
                    if sim.nonces_required@.len() > 0 && sim.nonces_required@[0].1 > 0 {
                        let nonce = (sim.nonces_required@[0].1 - 1) as u64;
                        let count = register.simulations.len() as int;
                        dependencies::lemma_with_nonce_unused(
                            register,
                            sim.sender,
                            nonce,
                            used_with_tx,
                            count,
                        );
                        if let Some(other) = register.with_nonce(sim.sender, nonce, used_with_tx, count) {
                            lemma_dependencies_outside(register, other, used_with_tx, answers, at + 1);
                            if let Ok((d, next)) = dependencies::dependencies(
                                register,
                                other,
                                used_with_tx,
                                answers,
                                at + 1,
                            ) {
                                lemma_found_for_other(d, other, tx, used, used_with_tx);
                            }
                        }
                    }
                },
                SimulationError::InvalidTransaction(InvalidTransactionError::InsufficientFunds) => {
                    if let Ok(balance) = questions::balance(sim.sender, answers, at + 1) {
                        if balance@ <= dependencies::required_funds(register, tx, sim) {
                            let missing = (dependencies::required_funds(register, tx, sim) - balance@) as nat;
                            lemma_funding_outside(
                                register,
                                tx,
                                sim.sender,
                                missing,
                                used_with_tx,
                                used,
                                0,
                                0,
                                DependencyModel::none(),
                                answers,
                                at + 2,
                            );
                        }
                    }
                },
                _ => {},
            }
        }
    }
}

proof fn lemma_funding_outside(
    register: RegisterModel,
    tx: TxHash,
    sender: Address,
    missing: nat,
    used_with_tx: Seq<TxHash>,
    used: Seq<TxHash>,
    i: int,
    found: nat,
    so_far: DependencyModel,
    answers: Seq<Answer>,
    at: int,
)
    requires
        found_outside(so_far, tx, used),
        forall|x: TxHash| #[trigger] used.contains(x) ==> used_with_tx.contains(x),
    ensures
        dependencies::funding(
            register,
            tx,
            sender,
            missing,
            used_with_tx,
            i,
            found,
            so_far,
            answers,
            at,
        ) matches Ok((d, _)) ==> found_outside(d, tx, used),
    decreases
            dependencies::unused(register.simulations, used_with_tx),
            0int,
            register.paying(sender, used_with_tx, register.simulations.len() as int).len() - i,
{
    let count = register.simulations.len() as int;
    let others = register.paying(sender, used_with_tx, count);
    if 0 <= i < others.len() {
        let other = others[i];
        if let Ok(sim) = questions::simulated(register, other, answers, at) {
            if transaction_register::pays(sim, sender) {
                let more = num::u256_sat_add(found, dependencies::paid(sim, sender));
                dependencies::lemma_paying_unused(register, sender, used_with_tx, count, i);
                lemma_dependencies_outside(register, other, used_with_tx, answers, at + 1);
                if let Ok((d, next)) = dependencies::dependencies(
                    register,
                    other,
                    used_with_tx,
                    answers,
                    at + 1,
                ) {
                    lemma_found_for_other(d, other, tx, used, used_with_tx);
                    let both = so_far.joined(d.then_waiting(other, tx));
                    lemma_merged_outside(so_far.map, d.then_waiting(other, tx).map, tx, used);
                    assert forall|x: TxHash| #[trigger] both.repl.contains(x) implies x == tx
                        || !used.contains(x) by {
                        lemma_append_new_contains(so_far.repl, d.repl, x);
                    }
                    lemma_funding_outside(
                        register,
                        tx,
                        sender,
                        missing,
                        used_with_tx,
                        used,
                        i + 1,
                        more,
                        both,
                        answers,
                        next,
                    );
                }
            } else {
                lemma_funding_outside(
                    register,
                    tx,
                    sender,
                    missing,
                    used_with_tx,
                    used,
                    i + 1,
                    found,
                    so_far,
                    answers,
                    at + 1,
                );
            }
        }
    }
}

/// What holds of a pool: nothing is in the batch twice or in the batch and includable, all in the
/// batch is registered, and `foreign` transactions occur nowhere.
spec fn pool_inv(register: RegisterModel, foreign: Seq<TxHash>, pool: PoolModel) -> bool {
    &&& pool.batch.no_duplicates()
    &&& forall|x: TxHash| #[trigger] pool.batch.contains(x) ==> register.is_signed(x)
    &&& disjoint(pool.includable, pool.batch)
    &&& disjoint(pool.includable, foreign)
    &&& disjoint(pool.batch, foreign)
    &&& forall|k: TxHash, x: TxHash|
        #![trigger pool.map[k].contains(x)]
        pool.map.contains_key(k) && pool.map[k].contains(x) ==> !foreign.contains(x)
}

proof fn lemma_with_includable(register: RegisterModel, foreign: Seq<TxHash>, pool: PoolModel, hash: TxHash)
    requires
        pool_inv(register, foreign, pool),
        !pool.batch.contains(hash),
        !foreign.contains(hash),
    ensures
        pool_inv(register, foreign, pool.with_includable(hash)),
{
    let after = pool.with_includable(hash);
    assert forall|x: TxHash| #[trigger] after.includable.contains(x) implies !after.batch.contains(x)
        && !foreign.contains(x) by {
        decisions::lemma_contains_push(pool.includable, hash, x);
    }
}

proof fn lemma_with_dependencies(
    register: RegisterModel,
    foreign: Seq<TxHash>,
    pool: PoolModel,
    d: DependencyModel,
    tx: TxHash,
    used: Seq<TxHash>,
)
    requires
        pool_inv(register, foreign, pool),
        found_outside(d, tx, used),
        !pool.batch.contains(tx),
        !foreign.contains(tx),
        forall|x: TxHash| #[trigger] foreign.contains(x) ==> used.contains(x),
        forall|x: TxHash| #[trigger] pool.batch.contains(x) ==> used.contains(x),
    ensures
        pool_inv(register, foreign, pool.with_dependencies(d)),
{
    let after = pool.with_dependencies(d);
    assert forall|x: TxHash| #[trigger] after.includable.contains(x) implies !after.batch.contains(x)
        && !foreign.contains(x) by {
        lemma_append_new_contains(pool.includable, d.repl, x);
    }
    assert forall|k: TxHash, x: TxHash|
        #![trigger after.map[k].contains(x)]
        after.map.contains_key(k) && after.map[k].contains(x) implies !foreign.contains(x) by {
        let a = dependencies::list_of(pool.map, k);
        let b = dependencies::list_of(d.map, k);
        lemma_append_new_contains(a, b, x);
        if a.contains(x) {
            assert(pool.map.contains_key(k) && pool.map[k].contains(x));
        } else {
            assert(d.map.contains_key(k) && d.map[k].contains(x));
        }
    }
}

proof fn lemma_sift_inv(
    register: RegisterModel,
    best_number: u64,
    bucket: Seq<TxHash>,
    i: int,
    already: Seq<TxHash>,
    foreign: Seq<TxHash>,
    pool: PoolModel,
    answers: Seq<Answer>,
    at: int,
)
    requires
        0 <= i,
        pool_inv(register, foreign, pool),
        pool.batch.len() == 0,
        disjoint(bucket, foreign),
        forall|x: TxHash| #[trigger] foreign.contains(x) ==> already.contains(x),
    ensures
        assembly::sift(register, best_number, bucket, i, already, pool, answers, at) matches Ok((p, _))
            ==> pool_inv(register, foreign, p),
    decreases bucket.len() - i,
{
    if i < bucket.len() {
        let hash = bucket[i];
        assert(bucket.contains(hash));
        if !register.has(hash) {
            lemma_sift_inv(
                register,
                best_number,
                bucket,
                i + 1,
                already,
                foreign,
                pool,
                answers,
                at,
            );
        } else if let Ok((can_go, next)) = locality::tried(register, best_number, hash, already, answers, at) {
            if can_go {
                lemma_with_includable(register, foreign, pool, hash);
                lemma_sift_inv(
                    register,
                    best_number,
                    bucket,
                    i + 1,
                    already,
                    foreign,
                    pool.with_includable(hash),
                    answers,
                    next,
                );
            } else {
                lemma_dependencies_outside(register, hash, already, answers, next);
                if let Ok((d, after)) = dependencies::dependencies(register, hash, already, answers, next) {
                    lemma_with_dependencies(register, foreign, pool, d, hash, already);
                    lemma_sift_inv(
                        register,
                        best_number,
                        bucket,
                        i + 1,
                        already,
                        foreign,
                        pool.with_dependencies(d),
                        answers,
                        after,
                    );
                }
            }
        }
    }
}

proof fn lemma_unlock_inv(
    register: RegisterModel,
    already: Seq<TxHash>,
    foreign: Seq<TxHash>,
    winner: TxHash,
    others: Seq<TxHash>,
    j: int,
    pool: PoolModel,
    answers: Seq<Answer>,
    at: int,
)
    requires
        0 <= j,
        pool_inv(register, foreign, pool),
        disjoint(others, foreign),
        forall|x: TxHash| #[trigger] foreign.contains(x) ==> already.contains(x),
    ensures
        assembly::unlock(register, already, winner, others, j, pool, answers, at) matches Ok((p, _))
            ==> pool_inv(register, foreign, p),
    decreases others.len() - j,
{
    if j < others.len() {
        let other = others[j];
        assert(others.contains(other));
        if pool.batch.contains(other) || pool.includable.contains(other) || assembly::waits_for_another(
            pool.map,
            winner,
            other,
        ) {
            lemma_unlock_inv(register, already, foreign, winner, others, j + 1, pool, answers, at);
        } else if let Ok(sim) = questions::simulated(register, other, answers, at) {
            if sim.errors@.len() == 0 {
                lemma_with_includable(register, foreign, pool, other);
                lemma_unlock_inv(
                    register,
                    already,
                    foreign,
                    winner,
                    others,
                    j + 1,
                    pool.with_includable(other),
                    answers,
                    at + 1,
                );
            } else {
                let used = already + pool.batch;
                lemma_dependencies_outside(register, other, used, answers, at + 1);
                if let Ok((d, next)) = dependencies::dependencies(register, other, used, answers, at + 1) {
                    assert forall|x: TxHash| #[trigger] foreign.contains(x) implies used.contains(x) by {
                        lemma_add_contains(already, pool.batch, x);
                    }
                    assert forall|x: TxHash| #[trigger] pool.batch.contains(x) implies used.contains(x) by {
                        lemma_add_contains(already, pool.batch, x);
                    }
                    lemma_with_dependencies(register, foreign, pool, d, other, used);
                    lemma_unlock_inv(
                        register,
                        already,
                        foreign,
                        winner,
                        others,
                        j + 1,
                        pool.with_dependencies(d),
                        answers,
                        next,
                    );
                }
            }
        }
    }
}

proof fn lemma_priced_hashes(register: RegisterModel, best_number: u64, list: Seq<TxHash>, count: int)
    requires
        0 <= count <= list.len(),
    ensures
        assembly::priced(register, best_number, list, count) matches Ok(prices) ==> {
            &&& prices.len() == count
            &&& forall|i: int| 0 <= i < count ==> (#[trigger] prices[i]).0 == list[i]
        },
    decreases count,
{
    if count > 0 {
        lemma_priced_hashes(register, best_number, list, count - 1);
    }
}

proof fn lemma_winner_in_list(register: RegisterModel, best_number: u64, list: Seq<TxHash>)
    requires
        list.len() > 0,
    ensures
        assembly::winner(register, best_number, list) matches Ok(hash) ==> list.contains(hash),
{
    lemma_priced_hashes(register, best_number, list, list.len() as int);
    if let Ok(prices) = assembly::priced(register, best_number, list, list.len() as int) {
        pricing::law_dearest_transaction_is_chosen(prices, prices.len() as int);
        let best = pricing::dearest(prices, prices.len() as int);
        assert(prices[best].0 == list[best]);
    }
}

proof fn lemma_without(register: RegisterModel, foreign: Seq<TxHash>, pool: PoolModel, hash: TxHash)
    requires
        pool_inv(register, foreign, pool),
        pool.includable.contains(hash),
    ensures
        pool_inv(register, foreign, pool.dropped(hash)),
        register.is_signed(hash) ==> pool_inv(register, foreign, pool.taken(hash)),
        disjoint(dependencies::list_of(pool.map, hash), foreign),
{
    let rest = assembly::without(pool.includable, hash);
    assert forall|x: TxHash| #[trigger] rest.contains(x) implies pool.includable.contains(x) && x != hash by {
        lemma_filter_contains(pool.includable, assembly::other_than(hash), x);
    }
    let taken = pool.taken(hash);
    assert forall|x: TxHash| #[trigger] taken.batch.contains(x) <==> pool.batch.contains(x) || x == hash by {
        decisions::lemma_contains_push(pool.batch, hash, x);
    }
    assert(taken.batch.no_duplicates()) by {
        assert forall|i: int, j: int|
            0 <= i < taken.batch.len() && 0 <= j < taken.batch.len() && i != j implies taken.batch[i]
            != taken.batch[j] by {
            if i == pool.batch.len() {
                assert(pool.batch.contains(pool.batch[j]));
            }
            if j == pool.batch.len() {
                assert(pool.batch.contains(pool.batch[i]));
            }
        }
    }
}

proof fn lemma_assemble_inv(
    register: RegisterModel,
    best_number: u64,
    already: Seq<TxHash>,
    foreign: Seq<TxHash>,
    pool: PoolModel,
    answers: Seq<Answer>,
    at: int,
)
    requires
        0 <= at <= answers.len(),
        pool_inv(register, foreign, pool),
        forall|x: TxHash| #[trigger] foreign.contains(x) ==> already.contains(x),
    ensures
        assembly::assemble(register, best_number, already, pool, answers, at) matches Ok((batch, _)) ==> {
            &&& batch.no_duplicates()
            &&& forall|x: TxHash| #[trigger] batch.contains(x) ==> register.is_signed(x)
            &&& disjoint(batch, foreign)
        },
    decreases answers.len() - at,
{
    if pool.includable.len() > 0 {
        if let Ok(hash) = assembly::winner(register, best_number, pool.includable) {
            lemma_winner_in_list(register, best_number, pool.includable);
            lemma_without(register, foreign, pool, hash);
            if register.is_signed(hash) {
                let tx = register.pending(hash);
                match questions::includable(tx, answers, at) {
                    Err(_) => {},
                    Ok(false) => {
                        lemma_assemble_inv(
                            register,
                            best_number,
                            already,
                            foreign,
                            pool.dropped(hash),
                            answers,
                            at + 1,
                        );
                    },
                    Ok(true) => {
                        if questions::executed(tx, answers, at + 1) is Ok {
                            let others = dependencies::list_of(pool.map, hash);
                            let taken = pool.taken(hash);
                            assembly::lemma_unlock_advances(
                                register,
                                already,
                                hash,
                                others,
                                0,
                                taken,
                                answers,
                                at + 2,
                            );
                            lemma_unlock_inv(
                                register,
                                already,
                                foreign,
                                hash,
                                others,
                                0,
                                taken,
                                answers,
                                at + 2,
                            );
                            if let Ok((open, next)) = assembly::unlock(
                                register,
                                already,
                                hash,
                                others,
                                0,
                                taken,
                                answers,
                                at + 2,
                            ) {
                                let settled = open.settled(hash);
                                assert forall|k: TxHash, x: TxHash|
                                    #![trigger settled.map[k].contains(x)]
                                    settled.map.contains_key(k) && settled.map[k].contains(
                                        x,
                                    ) implies !foreign.contains(x) by {
                                    assert(open.map[k].contains(x));
                                }
                                lemma_assemble_inv(
                                    register,
                                    best_number,
                                    already,
                                    foreign,
                                    settled,
                                    answers,
                                    next,
                                );
                            }
                        }
                    },
                }
            }
        }
    }
}

proof fn lemma_batch_inv(
    register: RegisterModel,
    best_number: u64,
    bucket: Seq<TxHash>,
    already: Seq<TxHash>,
    foreign: Seq<TxHash>,
    answers: Seq<Answer>,
)
    requires
        disjoint(bucket, foreign),
        forall|x: TxHash| #[trigger] foreign.contains(x) ==> already.contains(x),
    ensures
        assembly::batch_of(register, best_number, bucket, already, answers) matches Ok((batch, _)) ==> {
            &&& batch.no_duplicates()
            &&& forall|x: TxHash| #[trigger] batch.contains(x) ==> register.is_signed(x)
            &&& disjoint(batch, foreign)
        },
{
    let empty = PoolModel::empty();
    lemma_sift_inv(register, best_number, bucket, 0, already, foreign, empty, answers, 0);
    locality::lemma_sift_advances(register, best_number, bucket, 0, already, empty, answers, 0);
    if let Ok((pool, at)) = assembly::sift(register, best_number, bucket, 0, already, empty, answers, 0) {
        lemma_assemble_inv(register, best_number, already, foreign, pool, answers, at);
    }
}

/// No transaction is in a batch twice.
pub proof fn law_batch_has_no_duplicates(
    register: RegisterModel,
    best_number: u64,
    bucket: Seq<TxHash>,
    already: Seq<TxHash>,
    answers: Seq<Answer>,
)
    ensures
        assembly::batch_of(register, best_number, bucket, already, answers) matches Ok((batch, _))
            ==> batch.no_duplicates(),
{
    lemma_batch_inv(register, best_number, bucket, already, Seq::empty(), answers);
}

/// All transactions of a batch are registered.
pub proof fn law_batch_is_registered(
    register: RegisterModel,
    best_number: u64,
    bucket: Seq<TxHash>,
    already: Seq<TxHash>,
    answers: Seq<Answer>,
    hash: TxHash,
)
    ensures
        assembly::batch_of(register, best_number, bucket, already, answers) matches Ok((batch, _)) ==> (
        batch.contains(hash) ==> register.is_signed(hash)),
{
    lemma_batch_inv(register, best_number, bucket, already, Seq::empty(), answers);
}

/// A batch that goes behind another one holds no transaction of that one, unless the bucket does.
pub proof fn law_batch_leaves_out_what_is_included(
    register: RegisterModel,
    best_number: u64,
    bucket: Seq<TxHash>,
    already: Seq<TxHash>,
    answers: Seq<Answer>,
)
    requires
        disjoint(bucket, already),
    ensures
        assembly::batch_of(register, best_number, bucket, already, answers) matches Ok((batch, _))
            ==> disjoint(batch, already),
{
    lemma_batch_inv(register, best_number, bucket, already, already, answers);
}

/// Whether a question only looks something up.
pub open spec fn is_lookup(question: Question) -> bool {
    question is Simulate || question is Balance
}

/// Whether a computation asks nothing but to look something up.
pub(crate) open spec fn only_looks_up<T>(r: Result<(T, int), Halt>) -> bool {
    r matches Err(Halt::Ask(question)) ==> is_lookup(question)
}

proof fn lemma_dependencies_look_up(
    register: RegisterModel,
    tx: TxHash,
    used: Seq<TxHash>,
    answers: Seq<Answer>,
    at: int,
)
    ensures
        only_looks_up(dependencies::dependencies(register, tx, used, answers, at)),
    decreases dependencies::unused(register.simulations, used.push(tx)), 1int, 0int,
{
    let used_with_tx = used.push(tx);
    if let Ok(sim) = questions::simulated(register, tx, answers, at) {
        if sim.errors@.len() > 0 {
            match sim.errors@.last() {
                SimulationError::InvalidTransaction(InvalidTransactionError::NonceTooHigh) => {
                    if sim.nonces_required@.len() > 0 && sim.nonces_required@[0].1 > 0 {
                        let nonce = (sim.nonces_required@[0].1 - 1) as u64;
                        let count = register.simulations.len() as int;
                        dependencies::lemma_with_nonce_unused(
                            register,
                            sim.sender,
                            nonce,
                            used_with_tx,
                            count,
                        );
                        if let Some(other) = register.with_nonce(sim.sender, nonce, used_with_tx, count) {
                            lemma_dependencies_look_up(register, other, used_with_tx, answers, at + 1);
                        }
                    }
                },
                SimulationError::InvalidTransaction(InvalidTransactionError::InsufficientFunds) => {
                    if let Ok(balance) = questions::balance(sim.sender, answers, at + 1) {
                        if balance@ <= dependencies::required_funds(register, tx, sim) {
                            lemma_funding_looks_up(
                                register,
                                tx,
                                sim.sender,
                                (dependencies::required_funds(register, tx, sim) - balance@) as nat,
                                used_with_tx,
                                0,
                                0,
                                DependencyModel::none(),
                                answers,
                                at + 2,
                            );
                        }
                    }
                },
                _ => {},
            }
        }
    }
}

proof fn lemma_funding_looks_up(
    register: RegisterModel,
    tx: TxHash,
    sender: Address,
    missing: nat,
    used: Seq<TxHash>,
    i: int,
    found: nat,
    so_far: DependencyModel,
    answers: Seq<Answer>,
    at: int,
)
    ensures
        only_looks_up(
            dependencies::funding(register, tx, sender, missing, used, i, found, so_far, answers, at),
        ),
    decreases
            dependencies::unused(register.simulations, used),
            0int,
            register.paying(sender, used, register.simulations.len() as int).len() - i,
{
    let count = register.simulations.len() as int;
    let others = register.paying(sender, used, count);
    if 0 <= i < others.len() {
        let other = others[i];
        if let Ok(sim) = questions::simulated(register, other, answers, at) {
            if transaction_register::pays(sim, sender) {
                let more = num::u256_sat_add(found, dependencies::paid(sim, sender));
                dependencies::lemma_paying_unused(register, sender, used, count, i);
                lemma_dependencies_look_up(register, other, used, answers, at + 1);
                if let Ok((d, next)) = dependencies::dependencies(register, other, used, answers, at + 1) {
                    let both = so_far.joined(d.then_waiting(other, tx));
                    lemma_funding_looks_up(
                        register,
                        tx,
                        sender,
                        missing,
                        used,
                        i + 1,
                        more,
                        both,
                        answers,
                        next,
                    );
                }
            } else {
                lemma_funding_looks_up(
                    register,
                    tx,
                    sender,
                    missing,
                    used,
                    i + 1,
                    found,
                    so_far,
                    answers,
                    at + 1,
                );
            }
        }
    }
}

pub(crate) proof fn lemma_sift_looks_up(
    register: RegisterModel,
    best_number: u64,
    bucket: Seq<TxHash>,
    i: int,
    already: Seq<TxHash>,
    pool: PoolModel,
    answers: Seq<Answer>,
    at: int,
)
    ensures
        only_looks_up(assembly::sift(register, best_number, bucket, i, already, pool, answers, at)),
    decreases bucket.len() - i,
{
    if i < bucket.len() {
        let hash = bucket[i];
        if !register.has(hash) {
            lemma_sift_looks_up(register, best_number, bucket, i + 1, already, pool, answers, at);
        } else if let Ok((can_go, next)) = locality::tried(register, best_number, hash, already, answers, at) {
            if can_go {
                lemma_sift_looks_up(
                    register,
                    best_number,
                    bucket,
                    i + 1,
                    already,
                    pool.with_includable(hash),
                    answers,
                    next,
                );
            } else {
                lemma_dependencies_look_up(register, hash, already, answers, next);
                if let Ok((d, after)) = dependencies::dependencies(register, hash, already, answers, next) {
                    lemma_sift_looks_up(
                        register,
                        best_number,
                        bucket,
                        i + 1,
                        already,
                        pool.with_dependencies(d),
                        answers,
                        after,
                    );
                }
            }
        }
    }
}

pub(crate) proof fn lemma_unlock_looks_up(
    register: RegisterModel,
    already: Seq<TxHash>,
    winner: TxHash,
    others: Seq<TxHash>,
    j: int,
    pool: PoolModel,
    answers: Seq<Answer>,
    at: int,
)
    ensures
        only_looks_up(assembly::unlock(register, already, winner, others, j, pool, answers, at)),
    decreases others.len() - j,
{
    if j < others.len() {
        let other = others[j];
        if pool.batch.contains(other) || pool.includable.contains(other) || assembly::waits_for_another(
            pool.map,
            winner,
            other,
        ) {
            lemma_unlock_looks_up(register, already, winner, others, j + 1, pool, answers, at);
        } else if let Ok(sim) = questions::simulated(register, other, answers, at) {
            if sim.errors@.len() == 0 {
                lemma_unlock_looks_up(
                    register,
                    already,
                    winner,
                    others,
                    j + 1,
                    pool.with_includable(other),
                    answers,
                    at + 1,
                );
            } else {
                let used = already + pool.batch;
                lemma_dependencies_look_up(register, other, used, answers, at + 1);
                if let Ok((d, next)) = dependencies::dependencies(register, other, used, answers, at + 1) {
                    lemma_unlock_looks_up(
                        register,
                        already,
                        winner,
                        others,
                        j + 1,
                        pool.with_dependencies(d),
                        answers,
                        next,
                    );
                }
            }
        }
    }
}

/// Whether the last answer says that a transaction can go into the block.
pub open spec fn ends_with_approval(answers: Seq<Answer>) -> bool {
    answers.len() > 0 && (answers.last() matches Answer::Includability(errors) && errors@.len() == 0)
}

proof fn lemma_assemble_executes_approved(
    register: RegisterModel,
    best_number: u64,
    already: Seq<TxHash>,
    pool: PoolModel,
    answers: Seq<Answer>,
    at: int,
    tx: PendingTransaction,
)
    requires
        0 <= at <= answers.len(),
        assembly::assemble(register, best_number, already, pool, answers, at) == Err::<
            (Seq<TxHash>, int),
            Halt,
        >(Halt::Ask(Question::Execute(tx))),
    ensures
        at < answers.len(),
        ends_with_approval(answers),
        assembly::assemble(
            register,
            best_number,
            already,
            pool,
            answers.take(answers.len() - 1),
            at,
        ) == Err::<(Seq<TxHash>, int), Halt>(Halt::Ask(Question::CheckIncludability(tx))),
    decreases answers.len() - at,
{
    let k = answers.len() - 1;
    let shorter = answers.take(k);
    answer_laws::lemma_winner_is_expected(register, best_number, pool.includable);
    let hash = assembly::winner(register, best_number, pool.includable)->Ok_0;
    let first = register.pending(hash);
    if !questions::includable(first, answers, at)->Ok_0 {
        lemma_assemble_executes_approved(
            register,
            best_number,
            already,
            pool.dropped(hash),
            answers,
            at + 1,
            tx,
        );
        assert(shorter[at] == answers[at]);
    } else if questions::executed(first, answers, at + 1) is Ok {
        let others = dependencies::list_of(pool.map, hash);
        let taken = pool.taken(hash);
        assembly::lemma_unlock_advances(register, already, hash, others, 0, taken, answers, at + 2);
        lemma_unlock_looks_up(register, already, hash, others, 0, taken, answers, at + 2);
        let (open, next) = assembly::unlock(
            register,
            already,
            hash,
            others,
            0,
            taken,
            answers,
            at + 2,
        )->Ok_0;
        lemma_assemble_executes_approved(
            register,
            best_number,
            already,
            open.settled(hash),
            answers,
            next,
            tx,
        );
        assert(shorter[at] == answers[at]);
        assert(shorter[at + 1] == answers[at + 1]);
        answer_laws::lemma_prefix(answers, k, next);
        locality::lemma_unlock_local(
            register,
            already,
            hash,
            others,
            0,
            taken,
            answers,
            shorter,
            at + 2,
        );
    } else {
        assert(answers.last() == answers[at]);
    }
}

/// A transaction is executed only right after it was found that it can go into the block: where the
/// open question is to execute a transaction, the last answer gives no reason against it, and the
/// question before it was whether this same transaction can go into the block.
pub proof fn law_only_approved_transactions_are_executed(
    register: RegisterModel,
    best_number: u64,
    bucket: Seq<TxHash>,
    already: Seq<TxHash>,
    answers: Seq<Answer>,
    tx: PendingTransaction,
)
    requires
        assembly::batch_of(register, best_number, bucket, already, answers) == Err::<
            (Seq<TxHash>, int),
            Halt,
        >(Halt::Ask(Question::Execute(tx))),
    ensures
        ends_with_approval(answers),
        assembly::batch_of(register, best_number, bucket, already, answers.drop_last()) == Err::<
            (Seq<TxHash>, int),
            Halt,
        >(Halt::Ask(Question::CheckIncludability(tx))),
{
    let empty = PoolModel::empty();
    lemma_sift_looks_up(register, best_number, bucket, 0, already, empty, answers, 0);
    locality::lemma_sift_advances(register, best_number, bucket, 0, already, empty, answers, 0);
    let (pool, at) = assembly::sift(register, best_number, bucket, 0, already, empty, answers, 0)->Ok_0;
    lemma_assemble_executes_approved(register, best_number, already, pool, answers, at, tx);
    let shorter = answers.take(answers.len() - 1);
    answer_laws::lemma_prefix(answers, answers.len() - 1, at);
    locality::lemma_sift_local(
        register,
        best_number,
        bucket,
        0,
        already,
        empty,
        answers,
        shorter,
        0,
    );
    assert(answers.drop_last() =~= shorter);
}

} // verus!
