//! Which answers the building of a batch depends on.

use crate::batching::assembly;
use crate::batching::assembly::PoolModel;
use crate::batching::dependencies;
use crate::batching::dependencies::DependencyModel;
use crate::batching::questions;
use crate::batching::questions::{Answer, Fault, Halt};
use crate::fixed_bytes::{Address, TxHash};
use crate::num;
use crate::transaction::{InvalidTransactionError, SimulationError};
use crate::transaction_register;
use crate::transaction_register::RegisterModel;
use vstd::prelude::*;

verus! {

/// Whether two lists of answers begin with the same `n` answers.
pub open spec fn same_up_to(a: Seq<Answer>, b: Seq<Answer>, n: int) -> bool {
    n <= a.len() && n <= b.len() && forall|i: int| 0 <= i < n ==> #[trigger] a[i] == b[i]
}

/// Looking for dependencies depends only on the answers that it uses.
pub proof fn lemma_dependencies_local(
    register: RegisterModel,
    tx: TxHash,
    used: Seq<TxHash>,
    a: Seq<Answer>,
    b: Seq<Answer>,
    at: int,
)
    requires
        0 <= at <= a.len(),
        dependencies::dependencies(register, tx, used, a, at) matches Ok((_, next)) ==> same_up_to(a, b, next),
    ensures
        dependencies::dependencies(register, tx, used, a, at) is Ok ==> dependencies::dependencies(
            register,
            tx,
            used,
            b,
            at,
        ) == dependencies::dependencies(register, tx, used, a, at),
    decreases dependencies::unused(register.simulations, used.push(tx)), 1int, 0int,
{
    assembly::lemma_dependencies_advance(register, tx, used, a, at);
    if dependencies::dependencies(register, tx, used, a, at) is Ok {
        let sim = questions::simulated(register, tx, a, at)->Ok_0;
        assert(a[at] == b[at]);
        let used_with_tx = used.push(tx);
        if sim.errors@.len() > 0 {
            match sim.errors@.last() {
                SimulationError::InvalidTransaction(InvalidTransactionError::NonceTooHigh) => {
                    let nonce = (sim.nonces_required@[0].1 - 1) as u64;
                    let count = register.simulations.len() as int;
                    dependencies::lemma_with_nonce_unused(register, sim.sender, nonce, used_with_tx, count);
                    if let Some(other) = register.with_nonce(sim.sender, nonce, used_with_tx, count) {
                        lemma_dependencies_local(register, other, used_with_tx, a, b, at + 1);
                    }
                },
                SimulationError::InvalidTransaction(InvalidTransactionError::InsufficientFunds) => {
                    let balance = questions::balance(sim.sender, a, at + 1)->Ok_0;
                    let missing = (dependencies::required_funds(register, tx, sim) - balance@) as nat;
                    assembly::lemma_funding_advances(
                        register,
                        tx,
                        sim.sender,
                        missing,
                        used_with_tx,
                        0,
                        0,
                        DependencyModel::none(),
                        a,
                        at + 2,
                    );
                    assert(a[at + 1] == b[at + 1]);
                    lemma_funding_local(
                        register,
                        tx,
                        sim.sender,
                        missing,
                        used_with_tx,
                        0,
                        0,
                        DependencyModel::none(),
                        a,
                        b,
                        at + 2,
                    );
                },
                _ => {},
            }
        }
    }
}

proof fn lemma_funding_local(
    register: RegisterModel,
    tx: TxHash,
    sender: Address,
    missing: nat,
    used: Seq<TxHash>,
    i: int,
    found: nat,
    so_far: DependencyModel,
    a: Seq<Answer>,
    b: Seq<Answer>,
    at: int,
)
    requires
        0 <= at <= a.len(),
        dependencies::funding(register, tx, sender, missing, used, i, found, so_far, a, at) matches Ok(
            (_, next),
        ) ==> same_up_to(a, b, next),
    ensures
        dependencies::funding(register, tx, sender, missing, used, i, found, so_far, a, at) is Ok
            ==> dependencies::funding(register, tx, sender, missing, used, i, found, so_far, b, at)
            == dependencies::funding(register, tx, sender, missing, used, i, found, so_far, a, at),
    decreases
            dependencies::unused(register.simulations, used),
            0int,
            register.paying(sender, used, register.simulations.len() as int).len() - i,
{
    let count = register.simulations.len() as int;
    let others = register.paying(sender, used, count);
    assembly::lemma_funding_advances(register, tx, sender, missing, used, i, found, so_far, a, at);
    if 0 <= i < others.len() && dependencies::funding(
        register,
        tx,
        sender,
        missing,
        used,
        i,
        found,
        so_far,
        a,
        at,
    ) is Ok {
        let other = others[i];
        let sim = questions::simulated(register, other, a, at)->Ok_0;
        if transaction_register::pays(sim, sender) {
            let more = num::u256_sat_add(found, dependencies::paid(sim, sender));
            dependencies::lemma_paying_unused(register, sender, used, count, i);
            assembly::lemma_dependencies_advance(register, other, used, a, at + 1);
            let (d, next) = dependencies::dependencies(register, other, used, a, at + 1)->Ok_0;
            let both = so_far.joined(d.then_waiting(other, tx));
            if more < missing {
                assembly::lemma_funding_advances(
                    register,
                    tx,
                    sender,
                    missing,
                    used,
                    i + 1,
                    more,
                    both,
                    a,
                    next,
                );
            }
            assert(a[at] == b[at]);
            lemma_dependencies_local(register, other, used, a, b, at + 1);
            if more < missing {
                lemma_funding_local(
                    register,
                    tx,
                    sender,
                    missing,
                    used,
                    i + 1,
                    more,
                    both,
                    a,
                    b,
                    next,
                );
            }
        } else {
            if found < missing {
                assembly::lemma_funding_advances(
                    register,
                    tx,
                    sender,
                    missing,
                    used,
                    i + 1,
                    found,
                    so_far,
                    a,
                    at + 1,
                );
            }
            assert(a[at] == b[at]);
            if found < missing {
                lemma_funding_local(
                    register,
                    tx,
                    sender,
                    missing,
                    used,
                    i + 1,
                    found,
                    so_far,
                    a,
                    b,
                    at + 1,
                );
            }
        }
    }
}

/// Whether a transaction of the bucket can go into the batch, and the place behind the answer that
/// told it.
pub open spec fn tried(
    register: RegisterModel,
    best_number: u64,
    hash: TxHash,
    already: Seq<TxHash>,
    answers: Seq<Answer>,
    at: int,
) -> Result<(bool, int), Halt> {
    if already.len() == 0 {
        match register.at_block(best_number).simulation(hash) {
            Some(sim) => Ok((sim.errors@.len() == 0, at)),
            None => Err(Halt::Fault(Fault::NotRegistered(hash))),
        }
    } else {
        match questions::simulated(register, hash, answers, at) {
            Ok(sim) => Ok((sim.errors@.len() == 0, at + 1)),
            Err(halt) => Err(halt),
        }
    }
}

/// Trying the bucket uses no answer that is not there.
pub proof fn lemma_sift_advances(
    register: RegisterModel,
    best_number: u64,
    bucket: Seq<TxHash>,
    i: int,
    already: Seq<TxHash>,
    pool: PoolModel,
    answers: Seq<Answer>,
    at: int,
)
    requires
        0 <= at <= answers.len(),
    ensures
        assembly::sift(register, best_number, bucket, i, already, pool, answers, at) matches Ok((_, next))
            ==> at <= next <= answers.len(),
    decreases bucket.len() - i,
{
    if i < bucket.len() {
        let hash = bucket[i];
        if !register.has(hash) {
            lemma_sift_advances(register, best_number, bucket, i + 1, already, pool, answers, at);
        } else if let Ok((can_go, next)) = tried(register, best_number, hash, already, answers, at) {
            if can_go {
                lemma_sift_advances(
                    register,
                    best_number,
                    bucket,
                    i + 1,
                    already,
                    pool.with_includable(hash),
                    answers,
                    next,
                );
            } else {
                assembly::lemma_dependencies_advance(register, hash, already, answers, next);
                if let Ok((d, after)) = dependencies::dependencies(register, hash, already, answers, next) {
                    lemma_sift_advances(
                        register,
                        best_number,
                        bucket,
                        i + 1,
                        already,
                        pool.with_dependencies(d),
                        answers,
                        after,
                    );
                }
            }
        }
    }
}

/// Trying the bucket depends only on the answers that it uses.
pub proof fn lemma_sift_local(
    register: RegisterModel,
    best_number: u64,
    bucket: Seq<TxHash>,
    i: int,
    already: Seq<TxHash>,
    pool: PoolModel,
    a: Seq<Answer>,
    b: Seq<Answer>,
    at: int,
)
    requires
        0 <= at <= a.len(),
        assembly::sift(register, best_number, bucket, i, already, pool, a, at) matches Ok((_, next))
            ==> same_up_to(a, b, next),
    ensures
        assembly::sift(register, best_number, bucket, i, already, pool, a, at) is Ok ==> assembly::sift(
            register,
            best_number,
            bucket,
            i,
            already,
            pool,
            b,
            at,
        ) == assembly::sift(register, best_number, bucket, i, already, pool, a, at),
    decreases bucket.len() - i,
{
    if i < bucket.len() && assembly::sift(register, best_number, bucket, i, already, pool, a, at) is Ok {
        let hash = bucket[i];
        if !register.has(hash) {
            lemma_sift_local(register, best_number, bucket, i + 1, already, pool, a, b, at);
        } else {
            let (can_go, next) = tried(register, best_number, hash, already, a, at)->Ok_0;
            if can_go {
                let more = pool.with_includable(hash);
                lemma_sift_advances(register, best_number, bucket, i + 1, already, more, a, next);
                lemma_sift_local(register, best_number, bucket, i + 1, already, more, a, b, next);
            } else {
                assembly::lemma_dependencies_advance(register, hash, already, a, next);
                let (d, after) = dependencies::dependencies(register, hash, already, a, next)->Ok_0;
                let more = pool.with_dependencies(d);
                lemma_sift_advances(register, best_number, bucket, i + 1, already, more, a, after);
                lemma_dependencies_local(register, hash, already, a, b, next);
                lemma_sift_local(register, best_number, bucket, i + 1, already, more, a, b, after);
            }
            if already.len() > 0 {
                assert(a[at] == b[at]);
            }
        }
    }
}

/// Trying the transactions that waited depends only on the answers that it uses.
pub proof fn lemma_unlock_local(
    register: RegisterModel,
    already: Seq<TxHash>,
    winner: TxHash,
    others: Seq<TxHash>,
    j: int,
    pool: PoolModel,
    a: Seq<Answer>,
    b: Seq<Answer>,
    at: int,
)
    requires
        0 <= at <= a.len(),
        assembly::unlock(register, already, winner, others, j, pool, a, at) matches Ok((_, next))
            ==> same_up_to(a, b, next),
    ensures
        assembly::unlock(register, already, winner, others, j, pool, a, at) is Ok ==> assembly::unlock(
            register,
            already,
            winner,
            others,
            j,
            pool,
            b,
            at,
        ) == assembly::unlock(register, already, winner, others, j, pool, a, at),
    decreases others.len() - j,
{
    if j < others.len() && assembly::unlock(register, already, winner, others, j, pool, a, at) is Ok {
        let other = others[j];
        if pool.batch.contains(other) || pool.includable.contains(other) || assembly::waits_for_another(
            pool.map,
            winner,
            other,
        ) {
            lemma_unlock_local(register, already, winner, others, j + 1, pool, a, b, at);
        } else {
            let sim = questions::simulated(register, other, a, at)->Ok_0;
            if sim.errors@.len() == 0 {
                let more = pool.with_includable(other);
                assembly::lemma_unlock_advances(register, already, winner, others, j + 1, more, a, at + 1);
                assert(a[at] == b[at]);
                lemma_unlock_local(register, already, winner, others, j + 1, more, a, b, at + 1);
            } else {
                let used = already + pool.batch;
                assembly::lemma_dependencies_advance(register, other, used, a, at + 1);
                let (d, next) = dependencies::dependencies(register, other, used, a, at + 1)->Ok_0;
                let more = pool.with_dependencies(d);
                assembly::lemma_unlock_advances(register, already, winner, others, j + 1, more, a, next);
                assert(a[at] == b[at]);
                lemma_dependencies_local(register, other, used, a, b, at + 1);
                lemma_unlock_local(register, already, winner, others, j + 1, more, a, b, next);
            }
        }
    }
}

/// Assembling the batch uses no answer that is not there.
pub proof fn lemma_assemble_advances(
    register: RegisterModel,
    best_number: u64,
    already: Seq<TxHash>,
    pool: PoolModel,
    answers: Seq<Answer>,
    at: int,
)
    requires
        0 <= at <= answers.len(),
    ensures
        assembly::assemble(register, best_number, already, pool, answers, at) matches Ok((_, next)) ==> at
            <= next <= answers.len(),
    decreases answers.len() - at,
{
    if pool.includable.len() > 0 {
        if let Ok(hash) = assembly::winner(register, best_number, pool.includable) {
            if register.is_signed(hash) {
                let tx = register.pending(hash);
                match questions::includable(tx, answers, at) {
                    Err(_) => {},
                    Ok(false) => {
                        lemma_assemble_advances(
                            register,
                            best_number,
                            already,
                            pool.dropped(hash),
                            answers,
                            at + 1,
                        );
                    },
                    Ok(true) => {
                        if questions::executed(tx, answers, at + 1) is Ok {
                            let others = dependencies::list_of(pool.map, hash);
                            let taken = pool.taken(hash);
                            assembly::lemma_unlock_advances(
                                register,
                                already,
                                hash,
                                others,
                                0,
                                taken,
                                answers,
                                at + 2,
                            );
                            if let Ok((open, next)) = assembly::unlock(
                                register,
                                already,
                                hash,
                                others,
                                0,
                                taken,
                                answers,
                                at + 2,
                            ) {
                                lemma_assemble_advances(
                                    register,
                                    best_number,
                                    already,
                                    open.settled(hash),
                                    answers,
                                    next,
                                );
                            }
                        }
                    },
                }
            }
        }
    }
}

/// Assembling the batch depends only on the answers that it uses.
pub proof fn lemma_assemble_local(
    register: RegisterModel,
    best_number: u64,
    already: Seq<TxHash>,
    pool: PoolModel,
    a: Seq<Answer>,
    b: Seq<Answer>,
    at: int,
)
    requires
        0 <= at <= a.len(),
        at <= b.len(),
        assembly::assemble(register, best_number, already, pool, a, at) matches Ok((_, next)) ==> same_up_to(
            a,
            b,
            next,
        ),
    ensures
        assembly::assemble(register, best_number, already, pool, a, at) is Ok ==> assembly::assemble(
            register,
            best_number,
            already,
            pool,
            b,
            at,
        ) == assembly::assemble(register, best_number, already, pool, a, at),
    decreases a.len() - at,
{
    if pool.includable.len() > 0 && assembly::assemble(register, best_number, already, pool, a, at) is Ok {
        let hash = assembly::winner(register, best_number, pool.includable)->Ok_0;
        let tx = register.pending(hash);
        let can_go = questions::includable(tx, a, at)->Ok_0;
        lemma_assemble_advances(register, best_number, already, pool, a, at);
        if can_go {
            let others = dependencies::list_of(pool.map, hash);
            let taken = pool.taken(hash);
            assembly::lemma_unlock_advances(register, already, hash, others, 0, taken, a, at + 2);
            let (open, next) = assembly::unlock(register, already, hash, others, 0, taken, a, at + 2)->Ok_0;
            lemma_assemble_advances(register, best_number, already, open.settled(hash), a, next);
            assert(a[at] == b[at]);
            assert(a[at + 1] == b[at + 1]);
            lemma_unlock_local(register, already, hash, others, 0, taken, a, b, at + 2);
            lemma_assemble_local(register, best_number, already, open.settled(hash), a, b, next);
        } else {
            lemma_assemble_advances(register, best_number, already, pool.dropped(hash), a, at + 1);
            assert(a[at] == b[at]);
            lemma_assemble_local(register, best_number, already, pool.dropped(hash), a, b, at + 1);
        }
    }
}

/// A batch that is done stays done: answers behind those that were used do not change it.
pub proof fn law_finished_batch_is_final(
    register: RegisterModel,
    best_number: u64,
    bucket: Seq<TxHash>,
    already: Seq<TxHash>,
    answers: Seq<Answer>,
    more: Seq<Answer>,
)
    requires
        assembly::batch_of(register, best_number, bucket, already, answers) is Ok,
    ensures
        assembly::batch_of(register, best_number, bucket, already, answers + more) == assembly::batch_of(
            register,
            best_number,
            bucket,
            already,
            answers,
        ),
{
    let all = answers + more;
    let empty = PoolModel::empty();
    lemma_sift_advances(register, best_number, bucket, 0, already, empty, answers, 0);
    let (pool, at) = assembly::sift(register, best_number, bucket, 0, already, empty, answers, 0)->Ok_0;
    lemma_assemble_advances(register, best_number, already, pool, answers, at);
    assert forall|i: int| 0 <= i < answers.len() implies #[trigger] answers[i] == all[i] by {}
    lemma_sift_local(register, best_number, bucket, 0, already, empty, answers, all, 0);
    lemma_assemble_local(register, best_number, already, pool, answers, all, at);
}

} // verus!
