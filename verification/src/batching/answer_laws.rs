//! Answers that fit the questions never stop the building of a batch.

use crate::batching::assembly;
use crate::batching::assembly::PoolModel;
use crate::batching::dependencies;
use crate::batching::dependencies::DependencyModel;
use crate::batching::locality;
use crate::batching::questions;
use crate::batching::questions::{Answer, Fault, Halt};
use crate::fixed_bytes::{Address, TxHash};
use crate::num;
use crate::transaction::{InvalidTransactionError, SimulationError};
use crate::transaction_register;
use crate::transaction_register::RegisterModel;
use vstd::prelude::*;

verus! {

/// Whether a computation stopped because an answer did not fit.
pub open spec fn is_unexpected<T>(r: Result<(T, int), Halt>) -> bool {
    r matches Err(Halt::Fault(Fault::UnexpectedAnswer))
}

/// Whether a computation asks a question that an answer does not fit.
pub open spec fn rejects<T>(r: Result<(T, int), Halt>, answer: Answer) -> bool {
    r matches Err(Halt::Ask(question)) && !question.accepts(answer)
}

/// Whether each answer fits the question that came up before it.
pub open spec fn all_fit(
    register: RegisterModel,
    best_number: u64,
    bucket: Seq<TxHash>,
    already: Seq<TxHash>,
    answers: Seq<Answer>,
) -> bool {
    forall|k: int|
        0 <= k < answers.len() ==> match assembly::batch_of(
            register,
            best_number,
            bucket,
            already,
            #[trigger] answers.take(k),
        ) {
            Err(Halt::Ask(question)) => question.accepts(answers[k]),
            _ => false,
        }
}

/// A list and its beginning agree up to the end of the beginning.
pub proof fn lemma_prefix(b: Seq<Answer>, k: int, n: int)
    requires
        0 <= n <= k <= b.len(),
    ensures
        locality::same_up_to(b, b.take(k), n),
        locality::same_up_to(b.take(k), b, n),
{
    assert forall|i: int| 0 <= i < n implies #[trigger] b[i] == b.take(k)[i] by {}
    assert forall|i: int| 0 <= i < n implies #[trigger] b.take(k)[i] == b[i] by {}
}

proof fn lemma_dependencies_misfit(
    register: RegisterModel,
    tx: TxHash,
    used: Seq<TxHash>,
    b: Seq<Answer>,
    at: int,
) -> (k: int)
    requires
        0 <= at <= b.len(),
        is_unexpected(dependencies::dependencies(register, tx, used, b, at)),
    ensures
        at <= k < b.len(),
        rejects(dependencies::dependencies(register, tx, used, b.take(k), at), b[k]),
    decreases dependencies::unused(register.simulations, used.push(tx)), 1int, 0int,
{
    if let Ok(sim) = questions::simulated(register, tx, b, at) {
        let used_with_tx = used.push(tx);
        match sim.errors@.last() {
            SimulationError::InvalidTransaction(InvalidTransactionError::NonceTooHigh) => {
                let nonce = (sim.nonces_required@[0].1 - 1) as u64;
                let count = register.simulations.len() as int;
                dependencies::lemma_with_nonce_unused(register, sim.sender, nonce, used_with_tx, count);
                let other = register.with_nonce(sim.sender, nonce, used_with_tx, count)->Some_0;
                let k = lemma_dependencies_misfit(register, other, used_with_tx, b, at + 1);
                assert(b.take(k)[at] == b[at]);
                k
            },
            _ => {
                match questions::balance(sim.sender, b, at + 1) {
                    Err(_) => {
                        let k = at + 1;
                        assert(b.take(k)[at] == b[at]);
                        k
                    },
                    Ok(balance) => {
                        let missing = (dependencies::required_funds(register, tx, sim) - balance@) as nat;
                        let k = lemma_funding_misfit(
                            register,
                            tx,
                            sim.sender,
                            missing,
                            used_with_tx,
                            0,
                            0,
                            DependencyModel::none(),
                            b,
                            at + 2,
                        );
                        assert(b.take(k)[at] == b[at]);
                        assert(b.take(k)[at + 1] == b[at + 1]);
                        k
                    },
                }
            },
        }
    } else {
        at
    }
}

proof fn lemma_funding_misfit(
    register: RegisterModel,
    tx: TxHash,
    sender: Address,
    missing: nat,
    used: Seq<TxHash>,
    i: int,
    found: nat,
    so_far: DependencyModel,
    b: Seq<Answer>,
    at: int,
) -> (k: int)
    requires
        0 <= at <= b.len(),
        is_unexpected(
            dependencies::funding(register, tx, sender, missing, used, i, found, so_far, b, at),
        ),
    ensures
        at <= k < b.len(),
        rejects(
            dependencies::funding(register, tx, sender, missing, used, i, found, so_far, b.take(k), at),
            b[k],
        ),
    decreases
            dependencies::unused(register.simulations, used),
            0int,
            register.paying(sender, used, register.simulations.len() as int).len() - i,
{
    let count = register.simulations.len() as int;
    let others = register.paying(sender, used, count);
    let other = others[i];
    if let Ok(sim) = questions::simulated(register, other, b, at) {
        if transaction_register::pays(sim, sender) {
            let more = num::u256_sat_add(found, dependencies::paid(sim, sender));
            dependencies::lemma_paying_unused(register, sender, used, count, i);
            match dependencies::dependencies(register, other, used, b, at + 1) {
                Err(_) => {
                    let k = lemma_dependencies_misfit(register, other, used, b, at + 1);
                    assert(b.take(k)[at] == b[at]);
                    k
                },
                Ok((d, next)) => {
                    assembly::lemma_dependencies_advance(register, other, used, b, at + 1);
                    let both = so_far.joined(d.then_waiting(other, tx));
                    let k = lemma_funding_misfit(
                        register,
                        tx,
                        sender,
                        missing,
                        used,
                        i + 1,
                        more,
                        both,
                        b,
                        next,
                    );
                    assert(b.take(k)[at] == b[at]);
                    lemma_prefix(b, k, next);
                    locality::lemma_dependencies_local(register, other, used, b, b.take(k), at + 1);
                    k
                },
            }
        } else {
            let k = lemma_funding_misfit(
                register,
                tx,
                sender,
                missing,
                used,
                i + 1,
                found,
                so_far,
                b,
                at + 1,
            );
            assert(b.take(k)[at] == b[at]);
            k
        }
    } else {
        at
    }
}

proof fn lemma_sift_misfit(
    register: RegisterModel,
    best_number: u64,
    bucket: Seq<TxHash>,
    i: int,
    already: Seq<TxHash>,
    pool: PoolModel,
    b: Seq<Answer>,
    at: int,
) -> (k: int)
    requires
        0 <= at <= b.len(),
        is_unexpected(assembly::sift(register, best_number, bucket, i, already, pool, b, at)),
    ensures
        at <= k < b.len(),
        rejects(assembly::sift(register, best_number, bucket, i, already, pool, b.take(k), at), b[k]),
    decreases bucket.len() - i,
{
    let hash = bucket[i];
    if !register.has(hash) {
        lemma_sift_misfit(register, best_number, bucket, i + 1, already, pool, b, at)
    } else {
        match locality::tried(register, best_number, hash, already, b, at) {
            Err(_) => at,
            Ok((true, next)) => {
                let k = lemma_sift_misfit(
                    register,
                    best_number,
                    bucket,
                    i + 1,
                    already,
                    pool.with_includable(hash),
                    b,
                    next,
                );
                if already.len() > 0 {
                    assert(b.take(k)[at] == b[at]);
                }
                k
            },
            Ok((false, next)) => match dependencies::dependencies(register, hash, already, b, next) {
                Err(_) => {
                    let k = lemma_dependencies_misfit(register, hash, already, b, next);
                    if already.len() > 0 {
                        assert(b.take(k)[at] == b[at]);
                    }
                    k
                },
                Ok((d, after)) => {
                    assembly::lemma_dependencies_advance(register, hash, already, b, next);
                    let k = lemma_sift_misfit(
                        register,
                        best_number,
                        bucket,
                        i + 1,
                        already,
                        pool.with_dependencies(d),
                        b,
                        after,
                    );
                    if already.len() > 0 {
                        assert(b.take(k)[at] == b[at]);
                    }
                    lemma_prefix(b, k, after);
                    locality::lemma_dependencies_local(register, hash, already, b, b.take(k), next);
                    k
                },
            },
        }
    }
}

proof fn lemma_unlock_misfit(
    register: RegisterModel,
    already: Seq<TxHash>,
    winner: TxHash,
    others: Seq<TxHash>,
    j: int,
    pool: PoolModel,
    b: Seq<Answer>,
    at: int,
) -> (k: int)
    requires
        0 <= at <= b.len(),
        is_unexpected(assembly::unlock(register, already, winner, others, j, pool, b, at)),
    ensures
        at <= k < b.len(),
        rejects(assembly::unlock(register, already, winner, others, j, pool, b.take(k), at), b[k]),
    decreases others.len() - j,
{
    let other = others[j];
    if pool.batch.contains(other) || pool.includable.contains(other) || assembly::waits_for_another(
        pool.map,
        winner,
        other,
    ) {
        lemma_unlock_misfit(register, already, winner, others, j + 1, pool, b, at)
    } else if let Ok(sim) = questions::simulated(register, other, b, at) {
        if sim.errors@.len() == 0 {
            let k = lemma_unlock_misfit(
                register,
                already,
                winner,
                others,
                j + 1,
                pool.with_includable(other),
                b,
                at + 1,
            );
            assert(b.take(k)[at] == b[at]);
            k
        } else {
            let used = already + pool.batch;
            match dependencies::dependencies(register, other, used, b, at + 1) {
                Err(_) => {
                    let k = lemma_dependencies_misfit(register, other, used, b, at + 1);
                    assert(b.take(k)[at] == b[at]);
                    k
                },
                Ok((d, next)) => {
                    assembly::lemma_dependencies_advance(register, other, used, b, at + 1);
                    let k = lemma_unlock_misfit(
                        register,
                        already,
                        winner,
                        others,
                        j + 1,
                        pool.with_dependencies(d),
                        b,
                        next,
                    );
                    assert(b.take(k)[at] == b[at]);
                    lemma_prefix(b, k, next);
                    locality::lemma_dependencies_local(register, other, used, b, b.take(k), at + 1);
                    k
                },
            }
        }
    } else {
        at
    }
}

proof fn lemma_assemble_misfit(
    register: RegisterModel,
    best_number: u64,
    already: Seq<TxHash>,
    pool: PoolModel,
    b: Seq<Answer>,
    at: int,
) -> (k: int)
    requires
        0 <= at <= b.len(),
        is_unexpected(assembly::assemble(register, best_number, already, pool, b, at)),
    ensures
        at <= k < b.len(),
        rejects(assembly::assemble(register, best_number, already, pool, b.take(k), at), b[k]),
    decreases b.len() - at,
{
    lemma_winner_is_expected(register, best_number, pool.includable);
    let hash = assembly::winner(register, best_number, pool.includable)->Ok_0;
    let tx = register.pending(hash);
    match questions::includable(tx, b, at) {
        Err(_) => at,
        Ok(false) => {
            let k = lemma_assemble_misfit(register, best_number, already, pool.dropped(hash), b, at + 1);
            assert(b.take(k)[at] == b[at]);
            k
        },
        Ok(true) => match questions::executed(tx, b, at + 1) {
            Err(_) => {
                let k = at + 1;
                assert(b.take(k)[at] == b[at]);
                k
            },
            Ok(_) => {
                let others = dependencies::list_of(pool.map, hash);
                let taken = pool.taken(hash);
                assembly::lemma_unlock_advances(register, already, hash, others, 0, taken, b, at + 2);
                match assembly::unlock(register, already, hash, others, 0, taken, b, at + 2) {
                    Err(_) => {
                        let k = lemma_unlock_misfit(register, already, hash, others, 0, taken, b, at + 2);
                        assert(b.take(k)[at] == b[at]);
                        assert(b.take(k)[at + 1] == b[at + 1]);
                        k
                    },
                    Ok((open, next)) => {
                        let k = lemma_assemble_misfit(
                            register,
                            best_number,
                            already,
                            open.settled(hash),
                            b,
                            next,
                        );
                        assert(b.take(k)[at] == b[at]);
                        assert(b.take(k)[at + 1] == b[at + 1]);
                        lemma_prefix(b, k, next);
                        locality::lemma_unlock_local(
                            register,
                            already,
                            hash,
                            others,
                            0,
                            taken,
                            b,
                            b.take(k),
                            at + 2,
                        );
                        k
                    },
                }
            },
        },
    }
}

proof fn lemma_priced_is_expected(register: RegisterModel, best_number: u64, list: Seq<TxHash>, count: int)
    ensures
        assembly::priced(register, best_number, list, count) matches Err(halt) ==> halt matches Halt::Fault(
            Fault::NotRegistered(_),
        ),
    decreases count,
{
    if count > 0 {
        lemma_priced_is_expected(register, best_number, list, count - 1);
    }
}

/// Where no winner can be found, a transaction is not registered.
pub proof fn lemma_winner_is_expected(register: RegisterModel, best_number: u64, list: Seq<TxHash>)
    ensures
        assembly::winner(register, best_number, list) matches Err(halt) ==> halt matches Halt::Fault(
            Fault::NotRegistered(_),
        ),
{
    lemma_priced_is_expected(register, best_number, list, list.len() as int);
}

/// As long as each answer fits its question, no answer is unexpected.
pub proof fn law_fitting_answers_are_expected(
    register: RegisterModel,
    best_number: u64,
    bucket: Seq<TxHash>,
    already: Seq<TxHash>,
    answers: Seq<Answer>,
)
    requires
        all_fit(register, best_number, bucket, already, answers),
    ensures
        !is_unexpected(assembly::batch_of(register, best_number, bucket, already, answers)),
{
    if is_unexpected(assembly::batch_of(register, best_number, bucket, already, answers)) {
        let empty = PoolModel::empty();
        match assembly::sift(register, best_number, bucket, 0, already, empty, answers, 0) {
            Err(_) => {
                let k = lemma_sift_misfit(register, best_number, bucket, 0, already, empty, answers, 0);
                let shorter = answers.take(k);
                assert(rejects(
                    assembly::batch_of(register, best_number, bucket, already, shorter),
                    answers[k],
                ));
            },
            Ok((pool, at)) => {
                locality::lemma_sift_advances(
                    register,
                    best_number,
                    bucket,
                    0,
                    already,
                    empty,
                    answers,
                    0,
                );
                let k = lemma_assemble_misfit(register, best_number, already, pool, answers, at);
                let shorter = answers.take(k);
                lemma_prefix(answers, k, at);
                locality::lemma_sift_local(
                    register,
                    best_number,
                    bucket,
                    0,
                    already,
                    empty,
                    answers,
                    shorter,
                    0,
                );
                assert(rejects(
                    assembly::batch_of(register, best_number, bucket, already, shorter),
                    answers[k],
                ));
            },
        }
    }
}

} // verus!
