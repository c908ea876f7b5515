//! Only transactions that were found to be valid are tried.

use crate::batching::answer_laws;
use crate::batching::assembly;
use crate::batching::assembly::PoolModel;
use crate::batching::batch_laws;
use crate::batching::dependencies;
use crate::batching::dependencies::DependencyModel;
use crate::batching::dependency_laws;
use crate::batching::locality;
use crate::batching::price_laws;
use crate::batching::questions;
use crate::batching::questions::{Answer, Halt, Question};
use crate::fixed_bytes::{Address, TxHash};
use crate::num;
use crate::transaction::{InvalidTransactionError, PendingTransaction, SimulationError};
use crate::transaction_register;
use crate::transaction_register::RegisterModel;
use vstd::prelude::*;

verus! {

/// Whether the answer at a place is a simulation without errors.
pub open spec fn shows_valid(answers: Seq<Answer>, k: int) -> bool {
    &&& 0 <= k < answers.len()
    &&& answers[k] matches Answer::Simulated(sim) && sim.errors@.len() == 0
}

/// Whether a computation asks for the simulation of a transaction.
pub open spec fn asks_to_simulate<T>(r: Result<(T, int), Halt>, register: RegisterModel, hash: TxHash) -> bool {
    r == Err::<(T, int), Halt>(Halt::Ask(Question::Simulate(register.pending(hash))))
}

proof fn lemma_dependencies_found(
    register: RegisterModel,
    tx: TxHash,
    used: Seq<TxHash>,
    b: Seq<Answer>,
    at: int,
    x: TxHash,
) -> (k: int)
    requires
        0 <= at <= b.len(),
        dependencies::dependencies(register, tx, used, b, at) matches Ok((d, _)) && d.repl.contains(x),
    ensures
        dependencies::dependencies(register, tx, used, b, at) matches Ok((_, next)) && at <= k < next,
        shows_valid(b, k),
        asks_to_simulate(dependencies::dependencies(register, tx, used, b.take(k), at), register, x),
    decreases dependencies::unused(register.simulations, used.push(tx)), 1int, 0int,
{
    let sim = questions::simulated(register, tx, b, at)->Ok_0;
    let used_with_tx = used.push(tx);
    assembly::lemma_dependencies_advance(register, tx, used, b, at);
    if sim.errors@.len() == 0 {
        assert(x == tx);
        assert(b.take(at).len() == at);
        at
    } else {
        match sim.errors@.last() {
            SimulationError::InvalidTransaction(InvalidTransactionError::NonceTooHigh) => {
                let nonce = (sim.nonces_required@[0].1 - 1) as u64;
                let count = register.simulations.len() as int;
                dependencies::lemma_with_nonce_unused(register, sim.sender, nonce, used_with_tx, count);
                match register.with_nonce(sim.sender, nonce, used_with_tx, count) {
                    None => {
                        assert(false);
                        at
                    },
                    Some(other) => {
                        let k = lemma_dependencies_found(register, other, used_with_tx, b, at + 1, x);
                        assert(b.take(k)[at] == b[at]);
                        k
                    },
                }
            },
            SimulationError::InvalidTransaction(InvalidTransactionError::InsufficientFunds) => {
                let k = lemma_funding_found(
                    register,
                    tx,
                    sim.sender,
                    (dependencies::required_funds(register, tx, sim) - questions::balance(
                        sim.sender,
                        b,
                        at + 1,
                    )->Ok_0@) as nat,
                    used_with_tx,
                    0,
                    0,
                    DependencyModel::none(),
                    b,
                    at + 2,
                    x,
                );
                assert(b.take(k)[at] == b[at]);
                assert(b.take(k)[at + 1] == b[at + 1]);
                k
            },
            _ => {
                assert(false);
                at
            },
        }
    }
}

proof fn lemma_funding_found(
    register: RegisterModel,
    tx: TxHash,
    sender: Address,
    missing: nat,
    used: Seq<TxHash>,
    i: int,
    found: nat,
    so_far: DependencyModel,
    b: Seq<Answer>,
    at: int,
    x: TxHash,
) -> (k: int)
    requires
        0 <= at <= b.len(),
        !so_far.repl.contains(x),
        dependencies::funding(register, tx, sender, missing, used, i, found, so_far, b, at) matches Ok((d, _))
            && d.repl.contains(x),
    ensures
        dependencies::funding(register, tx, sender, missing, used, i, found, so_far, b, at) matches Ok(
            (_, next),
        ) && at <= k < next,
        shows_valid(b, k),
        asks_to_simulate(
            dependencies::funding(register, tx, sender, missing, used, i, found, so_far, b.take(k), at),
            register,
            x,
        ),
    decreases
            dependencies::unused(register.simulations, used),
            0int,
            register.paying(sender, used, register.simulations.len() as int).len() - i,
{
    let count = register.simulations.len() as int;
    let others = register.paying(sender, used, count);
    if i < 0 || i >= others.len() {
        assert(false);
        at
    } else {
        let other = others[i];
        let sim = questions::simulated(register, other, b, at)->Ok_0;
        if transaction_register::pays(sim, sender) {
            dependencies::lemma_paying_unused(register, sender, used, count, i);
            assembly::lemma_dependencies_advance(register, other, used, b, at + 1);
            let more = num::u256_sat_add(found, dependencies::paid(sim, sender));
            let (d, next) = dependencies::dependencies(register, other, used, b, at + 1)->Ok_0;
            let both = so_far.joined(d.then_waiting(other, tx));
            dependency_laws::law_joining_keeps_both(so_far, d.then_waiting(other, tx), other, x);
            assembly::lemma_funding_advances(
                register,
                tx,
                sender,
                missing,
                used,
                i + 1,
                more,
                both,
                b,
                next,
            );
            if d.repl.contains(x) {
                let k = lemma_dependencies_found(register, other, used, b, at + 1, x);
                assert(b.take(k)[at] == b[at]);
                k
            } else {
                let k = lemma_funding_found(
                    register,
                    tx,
                    sender,
                    missing,
                    used,
                    i + 1,
                    more,
                    both,
                    b,
                    next,
                    x,
                );
                assert(b.take(k)[at] == b[at]);
                answer_laws::lemma_prefix(b, k, next);
                locality::lemma_dependencies_local(register, other, used, b, b.take(k), at + 1);
                k
            }
        } else {
            let k = lemma_funding_found(
                register,
                tx,
                sender,
                missing,
                used,
                i + 1,
                found,
                so_far,
                b,
                at + 1,
                x,
            );
            assert(b.take(k)[at] == b[at]);
            k
        }
    }
}

/// Whether a transaction of the bucket was registered without errors, and no batch goes before.
pub open spec fn registered_valid(
    register: RegisterModel,
    best_number: u64,
    bucket: Seq<TxHash>,
    already: Seq<TxHash>,
    x: TxHash,
) -> bool {
    &&& already.len() == 0
    &&& bucket.contains(x)
    &&& register.at_block(best_number).simulation(x) matches Some(sim) && sim.errors@.len() == 0
}

/// What was added to those that can go into the batch could go before or was found.
proof fn lemma_added(pool: PoolModel, d: DependencyModel, x: TxHash)
    requires
        pool.with_dependencies(d).includable.contains(x),
    ensures
        pool.includable.contains(x) || d.repl.contains(x),
{
    dependency_laws::law_appending_adds_what_is_new(pool.includable, d.repl, x);
}

proof fn lemma_pushed(pool: PoolModel, hash: TxHash, x: TxHash)
    ensures
        pool.with_includable(hash).includable.contains(x) <==> pool.includable.contains(x) || x == hash,
{
    crate::concurrent_proposer::decisions::lemma_contains_push(pool.includable, hash, x);
}

proof fn lemma_sift_found(
    register: RegisterModel,
    best_number: u64,
    bucket: Seq<TxHash>,
    i: int,
    already: Seq<TxHash>,
    pool: PoolModel,
    b: Seq<Answer>,
    at: int,
    x: TxHash,
) -> (k: int)
    requires
        0 <= i <= bucket.len(),
        0 <= at <= b.len(),
        !pool.includable.contains(x),
        !registered_valid(register, best_number, bucket, already, x),
        assembly::sift(register, best_number, bucket, i, already, pool, b, at) matches Ok((p, _))
            && p.includable.contains(x),
    ensures
        assembly::sift(register, best_number, bucket, i, already, pool, b, at) matches Ok((_, next)) && at <= k
            < next,
        shows_valid(b, k),
        asks_to_simulate(
            assembly::sift(register, best_number, bucket, i, already, pool, b.take(k), at),
            register,
            x,
        ),
    decreases bucket.len() - i,
{
    if i == bucket.len() {
        assert(false);
        at
    } else {
        let hash = bucket[i];
        if !register.has(hash) {
            lemma_sift_found(register, best_number, bucket, i + 1, already, pool, b, at, x)
        } else {
            let (can_go, next) = locality::tried(register, best_number, hash, already, b, at)->Ok_0;
            if can_go {
                lemma_pushed(pool, hash, x);
                let more = pool.with_includable(hash);
                locality::lemma_sift_advances(register, best_number, bucket, i + 1, already, more, b, next);
                if x == hash {
                    assert(bucket.contains(x));
                    assert(already.len() > 0);
                    assert(b.take(at).len() == at);
                    at
                } else {
                    let k = lemma_sift_found(
                        register,
                        best_number,
                        bucket,
                        i + 1,
                        already,
                        more,
                        b,
                        next,
                        x,
                    );
                    if already.len() > 0 {
                        assert(b.take(k)[at] == b[at]);
                    }
                    k
                }
            } else {
                assembly::lemma_dependencies_advance(register, hash, already, b, next);
                let (d, after) = dependencies::dependencies(register, hash, already, b, next)->Ok_0;
                let more = pool.with_dependencies(d);
                locality::lemma_sift_advances(register, best_number, bucket, i + 1, already, more, b, after);
                if d.repl.contains(x) {
                    let k = lemma_dependencies_found(register, hash, already, b, next, x);
                    if already.len() > 0 {
                        assert(b.take(k)[at] == b[at]);
                    }
                    k
                } else {
                    if more.includable.contains(x) {
                        lemma_added(pool, d, x);
                    }
                    let k = lemma_sift_found(
                        register,
                        best_number,
                        bucket,
                        i + 1,
                        already,
                        more,
                        b,
                        after,
                        x,
                    );
                    if already.len() > 0 {
                        assert(b.take(k)[at] == b[at]);
                    }
                    answer_laws::lemma_prefix(b, k, after);
                    locality::lemma_dependencies_local(register, hash, already, b, b.take(k), next);
                    k
                }
            }
        }
    }
}

proof fn lemma_unlock_found(
    register: RegisterModel,
    already: Seq<TxHash>,
    winner: TxHash,
    others: Seq<TxHash>,
    j: int,
    pool: PoolModel,
    b: Seq<Answer>,
    at: int,
    x: TxHash,
) -> (k: int)
    requires
        0 <= j,
        0 <= at <= b.len(),
        !pool.includable.contains(x),
        assembly::unlock(register, already, winner, others, j, pool, b, at) matches Ok((p, _))
            && p.includable.contains(x),
    ensures
        assembly::unlock(register, already, winner, others, j, pool, b, at) matches Ok((_, next)) && at <= k
            < next,
        shows_valid(b, k),
        asks_to_simulate(
            assembly::unlock(register, already, winner, others, j, pool, b.take(k), at),
            register,
            x,
        ),
    decreases others.len() - j,
{
    if j >= others.len() {
        assert(false);
        at
    } else {
        let other = others[j];
        if pool.batch.contains(other) || pool.includable.contains(other) || assembly::waits_for_another(
            pool.map,
            winner,
            other,
        ) {
            lemma_unlock_found(register, already, winner, others, j + 1, pool, b, at, x)
        } else {
            let sim = questions::simulated(register, other, b, at)->Ok_0;
            if sim.errors@.len() == 0 {
                lemma_pushed(pool, other, x);
                let more = pool.with_includable(other);
                assembly::lemma_unlock_advances(register, already, winner, others, j + 1, more, b, at + 1);
                if x == other {
                    assert(b.take(at).len() == at);
                    at
                } else {
                    let k = lemma_unlock_found(register, already, winner, others, j + 1, more, b, at + 1, x);
                    assert(b.take(k)[at] == b[at]);
                    k
                }
            } else {
                let used = already + pool.batch;
                assembly::lemma_dependencies_advance(register, other, used, b, at + 1);
                let (d, after) = dependencies::dependencies(register, other, used, b, at + 1)->Ok_0;
                let more = pool.with_dependencies(d);
                assembly::lemma_unlock_advances(register, already, winner, others, j + 1, more, b, after);
                if d.repl.contains(x) {
                    let k = lemma_dependencies_found(register, other, used, b, at + 1, x);
                    assert(b.take(k)[at] == b[at]);
                    k
                } else {
                    if more.includable.contains(x) {
                        lemma_added(pool, d, x);
                    }
                    let k = lemma_unlock_found(register, already, winner, others, j + 1, more, b, after, x);
                    assert(b.take(k)[at] == b[at]);
                    answer_laws::lemma_prefix(b, k, after);
                    locality::lemma_dependencies_local(register, other, used, b, b.take(k), at + 1);
                    k
                }
            }
        }
    }
}

/// Whether a transaction could go into the batch from the start, or a simulation in the course of the
/// building showed that it is valid.
spec fn justified(
    register: RegisterModel,
    best_number: u64,
    already: Seq<TxHash>,
    pool: PoolModel,
    b: Seq<Answer>,
    at: int,
    x: TxHash,
    k: int,
) -> bool {
    ||| pool.includable.contains(x)
    ||| {
        &&& at <= k
        &&& shows_valid(b, k)
        &&& asks_to_simulate(
            assembly::assemble(register, best_number, already, pool, b.take(k), at),
            register,
            x,
        )
    }
}

proof fn lemma_assemble_found(
    register: RegisterModel,
    best_number: u64,
    already: Seq<TxHash>,
    pool: PoolModel,
    b: Seq<Answer>,
    at: int,
    tx: PendingTransaction,
) -> (r: (TxHash, int))
    requires
        0 <= at <= b.len(),
        assembly::assemble(register, best_number, already, pool, b, at) == Err::<(Seq<TxHash>, int), Halt>(
            Halt::Ask(Question::CheckIncludability(tx)),
        ),
    ensures
        tx == register.pending(r.0),
        justified(register, best_number, already, pool, b, at, r.0, r.1),
    decreases b.len() - at,
{
    answer_laws::lemma_winner_is_expected(register, best_number, pool.includable);
    let hash = assembly::winner(register, best_number, pool.includable)->Ok_0;
    price_laws::law_winner_is_the_dearest(register, best_number, pool.includable);
    let place = choose|place: int| #[trigger]
        price_laws::is_dearest(register, best_number, pool.includable, place) && pool.includable[place] == hash;
    assert(pool.includable.contains(hash));
    let first = register.pending(hash);
    if questions::includable(first, b, at) is Err {
        (hash, at)
    } else if !questions::includable(first, b, at)->Ok_0 {
        let (x, k) = lemma_assemble_found(
            register,
            best_number,
            already,
            pool.dropped(hash),
            b,
            at + 1,
            tx,
        );
        price_laws::lemma_filter_contains(pool.includable, hash, x);
        if !pool.includable.contains(x) {
            assert(b.take(k)[at] == b[at]);
        }
        (x, k)
    } else {
        let others = dependencies::list_of(pool.map, hash);
        let taken = pool.taken(hash);
        assembly::lemma_unlock_advances(register, already, hash, others, 0, taken, b, at + 2);
        batch_laws::lemma_unlock_looks_up(register, already, hash, others, 0, taken, b, at + 2);
        let (open, next) = assembly::unlock(register, already, hash, others, 0, taken, b, at + 2)->Ok_0;
        let settled = open.settled(hash);
        let (x, k) = lemma_assemble_found(register, best_number, already, settled, b, next, tx);
        price_laws::lemma_filter_contains(pool.includable, hash, x);
        if pool.includable.contains(x) {
            (x, k)
        } else if open.includable.contains(x) {
            let k2 = lemma_unlock_found(register, already, hash, others, 0, taken, b, at + 2, x);
            assert(b.take(k2)[at] == b[at]);
            assert(b.take(k2)[at + 1] == b[at + 1]);
            (x, k2)
        } else {
            assert(b.take(k)[at] == b[at]);
            assert(b.take(k)[at + 1] == b[at + 1]);
            answer_laws::lemma_prefix(b, k, next);
            locality::lemma_unlock_local(register, already, hash, others, 0, taken, b, b.take(k), at + 2);
            (x, k)
        }
    }
}

/// A transaction is tried only where it is known to be valid: it is one of the bucket that was registered
/// without errors, and no batch goes before; or a simulation that was asked for in the course of the
/// building showed that it has no errors.
pub proof fn law_only_valid_transactions_are_tried(
    register: RegisterModel,
    best_number: u64,
    bucket: Seq<TxHash>,
    already: Seq<TxHash>,
    answers: Seq<Answer>,
    tx: PendingTransaction,
)
    requires
        assembly::batch_of(register, best_number, bucket, already, answers) == Err::<
            (Seq<TxHash>, int),
            Halt,
        >(Halt::Ask(Question::CheckIncludability(tx))),
    ensures
        exists|x: TxHash|
            tx == #[trigger] register.pending(x) && (registered_valid(
                register,
                best_number,
                bucket,
                already,
                x,
            ) || exists|k: int| #[trigger]
                shows_valid(answers, k) && asks_to_simulate(
                    assembly::batch_of(register, best_number, bucket, already, answers.take(k)),
                    register,
                    x,
                )),
{
    let empty = PoolModel::empty();
    batch_laws::lemma_sift_looks_up(register, best_number, bucket, 0, already, empty, answers, 0);
    locality::lemma_sift_advances(register, best_number, bucket, 0, already, empty, answers, 0);
    let (pool, at) = assembly::sift(register, best_number, bucket, 0, already, empty, answers, 0)->Ok_0;
    let (x, k) = lemma_assemble_found(register, best_number, already, pool, answers, at, tx);
    if pool.includable.contains(x) {
        if !registered_valid(register, best_number, bucket, already, x) {
            let k2 = lemma_sift_found(register, best_number, bucket, 0, already, empty, answers, 0, x);
            assert(shows_valid(answers, k2));
            assert(asks_to_simulate(
                assembly::batch_of(register, best_number, bucket, already, answers.take(k2)),
                register,
                x,
            ));
        }
    } else {
        answer_laws::lemma_prefix(answers, k, at);
        locality::lemma_sift_local(
            register,
            best_number,
            bucket,
            0,
            already,
            empty,
            answers,
            answers.take(k),
            0,
        );
        assert(shows_valid(answers, k));
        assert(asks_to_simulate(
            assembly::batch_of(register, best_number, bucket, already, answers.take(k)),
            register,
            x,
        ));
    }
}

} // verus!
