//! A batch is exactly what was executed, in the order of the executions.

use crate::batching::answer_laws;
use crate::batching::assembly;
use crate::batching::assembly::PoolModel;
use crate::batching::dependencies;
use crate::batching::dependencies::DependencyModel;
use crate::batching::locality;
use crate::batching::questions;
use crate::batching::questions::{Answer, Halt, Question};
use crate::fixed_bytes::{Address, TxHash};
use crate::num;
use crate::transaction::{InvalidTransactionError, SimulationError};
use crate::transaction_register;
use crate::transaction_register::RegisterModel;
use vstd::prelude::*;

verus! {

/// The number of executions among the answers from one place up to another.
pub open spec fn executions(answers: Seq<Answer>, from: int, to: int) -> nat
    decreases to - from,
{
    if to <= from {
        0
    } else {
        executions(answers, from, to - 1) + if answers[to - 1] is Executed {
            1nat
        } else {
            0
        }
    }
}

/// Whether no answer from one place up to another is an execution.
spec fn nothing_executed(answers: Seq<Answer>, from: int, to: int) -> bool {
    forall|k: int| from <= k < to ==> !((#[trigger] answers[k]) is Executed)
}

proof fn lemma_no_executions(answers: Seq<Answer>, from: int, to: int)
    requires
        nothing_executed(answers, from, to),
    ensures
        executions(answers, from, to) == 0,
    decreases to - from,
{
    if from < to {
        lemma_no_executions(answers, from, to - 1);
    }
}

/// A single answer counts where it is an execution.
proof fn lemma_one_answer(answers: Seq<Answer>, at: int)
    ensures
        executions(answers, at, at + 1) == if answers[at] is Executed {
            1nat
        } else {
            0
        },
{
    assert(executions(answers, at, at) == 0);
}

proof fn lemma_executions_split(answers: Seq<Answer>, from: int, mid: int, to: int)
    requires
        from <= mid <= to,
    ensures
        executions(answers, from, to) == executions(answers, from, mid) + executions(answers, mid, to),
    decreases to - mid,
{
    if mid < to {
        lemma_executions_split(answers, from, mid, to - 1);
    }
}

proof fn lemma_dependencies_execute_nothing(
    register: RegisterModel,
    tx: TxHash,
    used: Seq<TxHash>,
    b: Seq<Answer>,
    at: int,
)
    requires
        0 <= at <= b.len(),
    ensures
        dependencies::dependencies(register, tx, used, b, at) matches Ok((_, next)) ==> nothing_executed(
            b,
            at,
            next,
        ),
    decreases dependencies::unused(register.simulations, used.push(tx)), 1int, 0int,
{
    let used_with_tx = used.push(tx);
    if let Ok(sim) = questions::simulated(register, tx, b, at) {
        if sim.errors@.len() > 0 {
            match sim.errors@.last() {
                SimulationError::InvalidTransaction(InvalidTransactionError::NonceTooHigh) => {
                    if sim.nonces_required@.len() > 0 && sim.nonces_required@[0].1 > 0 {
                        let nonce = (sim.nonces_required@[0].1 - 1) as u64;
                        let count = register.simulations.len() as int;
                        dependencies::lemma_with_nonce_unused(
                            register,
                            sim.sender,
                            nonce,
                            used_with_tx,
                            count,
                        );
                        if let Some(other) = register.with_nonce(sim.sender, nonce, used_with_tx, count) {
                            lemma_dependencies_execute_nothing(register, other, used_with_tx, b, at + 1);
                        }
                    }
                },
                SimulationError::InvalidTransaction(InvalidTransactionError::InsufficientFunds) => {
                    if let Ok(balance) = questions::balance(sim.sender, b, at + 1) {
                        if balance@ <= dependencies::required_funds(register, tx, sim) {
                            lemma_funding_executes_nothing(
                                register,
                                tx,
                                sim.sender,
                                (dependencies::required_funds(register, tx, sim) - balance@) as nat,
                                used_with_tx,
                                0,
                                0,
                                DependencyModel::none(),
                                b,
                                at + 2,
                            );
                        }
                    }
                },
                _ => {},
            }
        }
    }
}

proof fn lemma_funding_executes_nothing(
    register: RegisterModel,
    tx: TxHash,
    sender: Address,
    missing: nat,
    used: Seq<TxHash>,
    i: int,
    found: nat,
    so_far: DependencyModel,
    b: Seq<Answer>,
    at: int,
)
    requires
        0 <= at <= b.len(),
    ensures
        dependencies::funding(register, tx, sender, missing, used, i, found, so_far, b, at) matches Ok(
            (_, next),
        ) ==> nothing_executed(b, at, next),
    decreases
            dependencies::unused(register.simulations, used),
            0int,
            register.paying(sender, used, register.simulations.len() as int).len() - i,
{
    let count = register.simulations.len() as int;
    let others = register.paying(sender, used, count);
    if 0 <= i < others.len() {
        let other = others[i];
        if let Ok(sim) = questions::simulated(register, other, b, at) {
            if transaction_register::pays(sim, sender) {
                let more = num::u256_sat_add(found, dependencies::paid(sim, sender));
                dependencies::lemma_paying_unused(register, sender, used, count, i);
                lemma_dependencies_execute_nothing(register, other, used, b, at + 1);
                assembly::lemma_dependencies_advance(register, other, used, b, at + 1);
                if let Ok((d, next)) = dependencies::dependencies(register, other, used, b, at + 1) {
                    let both = so_far.joined(d.then_waiting(other, tx));
                    lemma_funding_executes_nothing(
                        register,
                        tx,
                        sender,
                        missing,
                        used,
                        i + 1,
                        more,
                        both,
                        b,
                        next,
                    );
                }
            } else {
                lemma_funding_executes_nothing(
                    register,
                    tx,
                    sender,
                    missing,
                    used,
                    i + 1,
                    found,
                    so_far,
                    b,
                    at + 1,
                );
            }
        }
    }
}

proof fn lemma_sift_executes_nothing(
    register: RegisterModel,
    best_number: u64,
    bucket: Seq<TxHash>,
    i: int,
    already: Seq<TxHash>,
    pool: PoolModel,
    b: Seq<Answer>,
    at: int,
)
    requires
        0 <= at <= b.len(),
    ensures
        assembly::sift(register, best_number, bucket, i, already, pool, b, at) matches Ok((p, next)) ==> {
            &&& nothing_executed(b, at, next)
            &&& p.batch == pool.batch
        },
    decreases bucket.len() - i,
{
    if i < bucket.len() {
        let hash = bucket[i];
        if !register.has(hash) {
            lemma_sift_executes_nothing(register, best_number, bucket, i + 1, already, pool, b, at);
        } else if let Ok((can_go, next)) = locality::tried(register, best_number, hash, already, b, at) {
            if can_go {
                lemma_sift_executes_nothing(
                    register,
                    best_number,
                    bucket,
                    i + 1,
                    already,
                    pool.with_includable(hash),
                    b,
                    next,
                );
            } else {
                lemma_dependencies_execute_nothing(register, hash, already, b, next);
                assembly::lemma_dependencies_advance(register, hash, already, b, next);
                if let Ok((d, after)) = dependencies::dependencies(register, hash, already, b, next) {
                    lemma_sift_executes_nothing(
                        register,
                        best_number,
                        bucket,
                        i + 1,
                        already,
                        pool.with_dependencies(d),
                        b,
                        after,
                    );
                }
            }
        }
    }
}

proof fn lemma_unlock_executes_nothing(
    register: RegisterModel,
    already: Seq<TxHash>,
    winner: TxHash,
    others: Seq<TxHash>,
    j: int,
    pool: PoolModel,
    b: Seq<Answer>,
    at: int,
)
    requires
        0 <= at <= b.len(),
    ensures
        assembly::unlock(register, already, winner, others, j, pool, b, at) matches Ok((p, next)) ==> {
            &&& nothing_executed(b, at, next)
            &&& p.batch == pool.batch
        },
    decreases others.len() - j,
{
    if j < others.len() {
        let other = others[j];
        if pool.batch.contains(other) || pool.includable.contains(other) || assembly::waits_for_another(
            pool.map,
            winner,
            other,
        ) {
            lemma_unlock_executes_nothing(register, already, winner, others, j + 1, pool, b, at);
        } else if let Ok(sim) = questions::simulated(register, other, b, at) {
            if sim.errors@.len() == 0 {
                lemma_unlock_executes_nothing(
                    register,
                    already,
                    winner,
                    others,
                    j + 1,
                    pool.with_includable(other),
                    b,
                    at + 1,
                );
            } else {
                let used = already + pool.batch;
                lemma_dependencies_execute_nothing(register, other, used, b, at + 1);
                assembly::lemma_dependencies_advance(register, other, used, b, at + 1);
                if let Ok((d, next)) = dependencies::dependencies(register, other, used, b, at + 1) {
                    lemma_unlock_executes_nothing(
                        register,
                        already,
                        winner,
                        others,
                        j + 1,
                        pool.with_dependencies(d),
                        b,
                        next,
                    );
                }
            }
        }
    }
}

proof fn lemma_assemble_counts_executions(
    register: RegisterModel,
    best_number: u64,
    already: Seq<TxHash>,
    pool: PoolModel,
    b: Seq<Answer>,
    at: int,
)
    requires
        0 <= at <= b.len(),
    ensures
        assembly::assemble(register, best_number, already, pool, b, at) matches Ok((batch, next)) ==> {
            &&& batch.len() == pool.batch.len() + executions(b, at, next)
            &&& forall|i: int| 0 <= i < pool.batch.len() ==> #[trigger] batch[i] == pool.batch[i]
        },
    decreases b.len() - at,
{
    if pool.includable.len() > 0 && assembly::assemble(register, best_number, already, pool, b, at) is Ok {
        let (batch, end) = assembly::assemble(register, best_number, already, pool, b, at)->Ok_0;
        let hash = assembly::winner(register, best_number, pool.includable)->Ok_0;
        let tx = register.pending(hash);
        if questions::includable(tx, b, at)->Ok_0 {
            let others = dependencies::list_of(pool.map, hash);
            let taken = pool.taken(hash);
            assembly::lemma_unlock_advances(register, already, hash, others, 0, taken, b, at + 2);
            lemma_unlock_executes_nothing(register, already, hash, others, 0, taken, b, at + 2);
            let (open, next) = assembly::unlock(register, already, hash, others, 0, taken, b, at + 2)->Ok_0;
            let settled = open.settled(hash);
            lemma_assemble_counts_executions(register, best_number, already, settled, b, next);
            locality::lemma_assemble_advances(register, best_number, already, settled, b, next);
            lemma_no_executions(b, at + 2, next);
            lemma_executions_split(b, at, at + 2, next);
            lemma_executions_split(b, at, next, end);
            lemma_one_answer(b, at);
            assert(executions(b, at, at + 2) == 1);
            assert forall|i: int| 0 <= i < pool.batch.len() implies #[trigger] batch[i] == pool.batch[i] by {
                assert(batch[i] == settled.batch[i]);
            }
        } else {
            let dropped = pool.dropped(hash);
            lemma_assemble_counts_executions(register, best_number, already, dropped, b, at + 1);
            locality::lemma_assemble_advances(register, best_number, already, dropped, b, at + 1);
            lemma_executions_split(b, at, at + 1, end);
            lemma_one_answer(b, at);
            assert forall|i: int| 0 <= i < pool.batch.len() implies #[trigger] batch[i] == pool.batch[i] by {
                assert(batch[i] == dropped.batch[i]);
            }
        }
    }
}

/// Whether the question at a place was to execute a transaction.
spec fn asks_to_execute<T>(r: Result<(T, int), Halt>, register: RegisterModel, hash: TxHash) -> bool {
    r == Err::<(T, int), Halt>(Halt::Ask(Question::Execute(register.pending(hash))))
}

proof fn lemma_assemble_lists_executions(
    register: RegisterModel,
    best_number: u64,
    already: Seq<TxHash>,
    pool: PoolModel,
    b: Seq<Answer>,
    at: int,
    k: int,
)
    requires
        0 <= at <= k < b.len(),
        b[k] is Executed,
        assembly::assemble(register, best_number, already, pool, b, at) matches Ok((_, end)) && k < end,
    ensures
        ({
            let batch = assembly::assemble(register, best_number, already, pool, b, at)->Ok_0.0;
            let place = pool.batch.len() + executions(b, at, k);
            &&& place < batch.len()
            &&& asks_to_execute(
                assembly::assemble(register, best_number, already, pool, b.take(k), at),
                register,
                batch[place as int],
            )
        }),
    decreases b.len() - at,
{
    let (batch, end) = assembly::assemble(register, best_number, already, pool, b, at)->Ok_0;
    let shorter = b.take(k);
    if pool.includable.len() > 0 {
        let hash = assembly::winner(register, best_number, pool.includable)->Ok_0;
        let tx = register.pending(hash);
        assert(k > at);
        assert(shorter[at] == b[at]);
        if questions::includable(tx, b, at)->Ok_0 {
            let others = dependencies::list_of(pool.map, hash);
            let taken = pool.taken(hash);
            assembly::lemma_unlock_advances(register, already, hash, others, 0, taken, b, at + 2);
            lemma_unlock_executes_nothing(register, already, hash, others, 0, taken, b, at + 2);
            let (open, next) = assembly::unlock(register, already, hash, others, 0, taken, b, at + 2)->Ok_0;
            let settled = open.settled(hash);
            lemma_assemble_counts_executions(register, best_number, already, settled, b, next);
            lemma_one_answer(b, at);
            if k == at + 1 {
                assert(batch[pool.batch.len() as int] == settled.batch[pool.batch.len() as int]);
            } else {
                assert(k >= next);
                assert(shorter[at + 1] == b[at + 1]);
                answer_laws::lemma_prefix(b, k, next);
                locality::lemma_unlock_local(
                    register,
                    already,
                    hash,
                    others,
                    0,
                    taken,
                    b,
                    shorter,
                    at + 2,
                );
                lemma_assemble_lists_executions(register, best_number, already, settled, b, next, k);
                lemma_no_executions(b, at + 2, next);
                lemma_executions_split(b, at, at + 2, next);
                lemma_executions_split(b, at, next, k);
                assert(executions(b, at, at + 2) == 1);
            }
        } else {
            let dropped = pool.dropped(hash);
            lemma_assemble_lists_executions(register, best_number, already, dropped, b, at + 1, k);
            lemma_executions_split(b, at, at + 1, k);
            lemma_one_answer(b, at);
        }
    }
}

/// A finished batch has one transaction for each execution.
pub proof fn law_batch_counts_the_executions(
    register: RegisterModel,
    best_number: u64,
    bucket: Seq<TxHash>,
    already: Seq<TxHash>,
    answers: Seq<Answer>,
)
    ensures
        assembly::batch_of(register, best_number, bucket, already, answers) matches Ok((batch, used))
            ==> batch.len() == executions(answers, 0, used),
{
    let empty = PoolModel::empty();
    locality::lemma_sift_advances(register, best_number, bucket, 0, already, empty, answers, 0);
    lemma_sift_executes_nothing(register, best_number, bucket, 0, already, empty, answers, 0);
    if let Ok((pool, at)) = assembly::sift(register, best_number, bucket, 0, already, empty, answers, 0) {
        lemma_assemble_counts_executions(register, best_number, already, pool, answers, at);
        locality::lemma_assemble_advances(register, best_number, already, pool, answers, at);
        if let Ok((batch, used)) = assembly::assemble(register, best_number, already, pool, answers, at) {
            lemma_no_executions(answers, 0, at);
            lemma_executions_split(answers, 0, at, used);
        }
    }
}

/// The transactions of a finished batch are those that were executed, in the order of the
/// executions: where an answer says that a transaction was executed, the question was to execute the
/// one that has as many before it in the batch as there were executions before.
pub proof fn law_batch_lists_the_executions(
    register: RegisterModel,
    best_number: u64,
    bucket: Seq<TxHash>,
    already: Seq<TxHash>,
    answers: Seq<Answer>,
    k: int,
)
    requires
        0 <= k < answers.len(),
        answers[k] is Executed,
        assembly::batch_of(register, best_number, bucket, already, answers) matches Ok((_, used)) && k
            < used,
    ensures
        ({
            let batch = assembly::batch_of(register, best_number, bucket, already, answers)->Ok_0.0;
            let place = executions(answers, 0, k) as int;
            &&& place < batch.len()
            &&& assembly::batch_of(register, best_number, bucket, already, answers.take(k)) == Err::<
                (Seq<TxHash>, int),
                Halt,
            >(Halt::Ask(Question::Execute(register.pending(batch[place]))))
        }),
{
    let empty = PoolModel::empty();
    locality::lemma_sift_advances(register, best_number, bucket, 0, already, empty, answers, 0);
    lemma_sift_executes_nothing(register, best_number, bucket, 0, already, empty, answers, 0);
    let (pool, at) = assembly::sift(register, best_number, bucket, 0, already, empty, answers, 0)->Ok_0;
    assert(k >= at);
    answer_laws::lemma_prefix(answers, k, at);
    locality::lemma_sift_local(
        register,
        best_number,
        bucket,
        0,
        already,
        empty,
        answers,
        answers.take(k),
        0,
    );
    lemma_assemble_lists_executions(register, best_number, already, pool, answers, at, k);
    lemma_no_executions(answers, 0, at);
    lemma_executions_split(answers, 0, at, k);
}

} // verus!
