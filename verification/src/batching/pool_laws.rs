//! Which transactions can go into a batch, and which ones become able to.

use crate::batching::assembly;
use crate::batching::assembly::PoolModel;
use crate::batching::dependencies;
use crate::batching::dependencies::DependencyModel;
use crate::batching::dependency_laws;
use crate::batching::locality;
use crate::batching::questions::{Answer, Fault, Halt, Question};
use crate::fixed_bytes::TxHash;
use crate::transaction_register::RegisterModel;
use vstd::prelude::*;

verus! {

/// Whether a pool is another one to which what has to go first for a transaction was added: those that
/// can go behind the ones that could before, without doubles, and the waiting ones to the waiting ones.
pub open spec fn adds(pool: PoolModel, d: DependencyModel, after: PoolModel) -> bool {
    &&& after.batch == pool.batch
    &&& after.includable == pool.includable + d.repl.filter(|x: TxHash| !pool.includable.contains(x))
    &&& forall|k: TxHash| #[trigger]
        after.map.contains_key(k) <==> pool.map.contains_key(k) || d.map.contains_key(k)
    &&& forall|k: TxHash| #[trigger]
        dependency_laws::waiting_for(after.map, k) == dependency_laws::waiting_for(pool.map, k)
            + dependency_laws::waiting_for(d.map, k).filter(
            |x: TxHash| !dependency_laws::waiting_for(pool.map, k).contains(x),
        )
}

proof fn lemma_adds(pool: PoolModel, d: DependencyModel)
    ensures
        adds(pool, d, pool.with_dependencies(d)),
{
    let after = pool.with_dependencies(d);
    assert forall|k: TxHash| #[trigger]
        dependency_laws::waiting_for(after.map, k) == dependency_laws::waiting_for(pool.map, k)
            + dependency_laws::waiting_for(d.map, k).filter(
            |x: TxHash| !dependency_laws::waiting_for(pool.map, k).contains(x),
        ) by {
        let first = dependency_laws::waiting_for(pool.map, k);
        let second = dependency_laws::waiting_for(d.map, k);
        if !pool.map.contains_key(k) && !d.map.contains_key(k) {
            reveal(Seq::filter);
            assert(second.filter(|x: TxHash| !first.contains(x)) =~= Seq::empty());
        }
        assert(dependency_laws::waiting_for(after.map, k) =~= first + second.filter(
            |x: TxHash| !first.contains(x),
        ));
    }
}

/// The transactions of the bucket are tried one after the other, and those that are not registered are
/// passed over. Without a batch that goes before, the registered simulation decides, and else a new one:
/// a transaction without errors can go into the batch behind those that can already; for one with
/// errors, what has to go first is added.
pub proof fn law_bucket_is_tried_in_turn(
    register: RegisterModel,
    best_number: u64,
    bucket: Seq<TxHash>,
    i: int,
    already: Seq<TxHash>,
    pool: PoolModel,
    answers: Seq<Answer>,
    at: int,
    next: int,
)
    requires
        0 <= i < bucket.len(),
        0 <= at <= answers.len(),
        already.len() == 0 ==> next == at,
        already.len() > 0 ==> next == at + 1,
    ensures
        ({
            let hash = bucket[i];
            let result = assembly::sift(register, best_number, bucket, i, already, pool, answers, at);
            let more = PoolModel {
                includable: pool.includable.push(hash),
                map: pool.map,
                batch: pool.batch,
            };
            let registered = register.at_block(best_number).simulation(hash);
            let renewed = already.len() > 0;
            let valid = if renewed {
                at < answers.len() && (answers[at] matches Answer::Simulated(sim) && sim.errors@.len() == 0)
            } else {
                registered matches Some(sim) && sim.errors@.len() == 0
            };
            let invalid = if renewed {
                at < answers.len() && (answers[at] matches Answer::Simulated(sim) && sim.errors@.len() > 0)
            } else {
                registered matches Some(sim) && sim.errors@.len() > 0
            };
            &&& !register.has(hash) ==> result == assembly::sift(
                register,
                best_number,
                bucket,
                i + 1,
                already,
                pool,
                answers,
                at,
            )
            &&& register.has(hash) && !renewed && registered is None ==> result == Err::<
                (PoolModel, int),
                Halt,
            >(Halt::Fault(Fault::NotRegistered(hash)))
            &&& register.has(hash) && register.is_signed(hash) && renewed && at == answers.len() ==> result
                == Err::<(PoolModel, int), Halt>(Halt::Ask(Question::Simulate(register.pending(hash))))
            &&& register.has(hash) && register.is_signed(hash) && valid ==> result == assembly::sift(
                register,
                best_number,
                bucket,
                i + 1,
                already,
                more,
                answers,
                next,
            )
            &&& register.has(hash) && register.is_signed(hash) && invalid ==> match dependencies::dependencies(
                register,
                hash,
                already,
                answers,
                next,
            ) {
                Err(halt) => result == Err::<(PoolModel, int), Halt>(halt),
                Ok((d, after)) => exists|p: PoolModel| #[trigger]
                    adds(pool, d, p) && result == assembly::sift(
                        register,
                        best_number,
                        bucket,
                        i + 1,
                        already,
                        p,
                        answers,
                        after,
                    ),
            }
        }),
{
    let hash = bucket[i];
    if let Ok((d, after)) = dependencies::dependencies(register, hash, already, answers, next) {
        lemma_adds(pool, d);
        assert(adds(pool, d, pool.with_dependencies(d)));
    }
}

/// A transaction that is not registered makes no difference to the batch.
pub proof fn law_unregistered_transactions_are_ignored(
    register: RegisterModel,
    best_number: u64,
    bucket: Seq<TxHash>,
    already: Seq<TxHash>,
    answers: Seq<Answer>,
    i: int,
)
    requires
        0 <= i < bucket.len(),
        !register.has(bucket[i]),
    ensures
        assembly::batch_of(register, best_number, bucket, already, answers) == assembly::batch_of(
            register,
            best_number,
            bucket.remove(i),
            already,
            answers,
        ),
{
    lemma_sift_without(register, best_number, bucket, 0, already, PoolModel::empty(), answers, 0, i);
}

proof fn lemma_sift_without(
    register: RegisterModel,
    best_number: u64,
    bucket: Seq<TxHash>,
    j: int,
    already: Seq<TxHash>,
    pool: PoolModel,
    answers: Seq<Answer>,
    at: int,
    i: int,
)
    requires
        0 <= i < bucket.len(),
        0 <= j <= bucket.len(),
        !register.has(bucket[i]),
    ensures
        assembly::sift(register, best_number, bucket, j, already, pool, answers, at) == assembly::sift(
            register,
            best_number,
            bucket.remove(i),
            if j > i {
                j - 1
            } else {
                j
            },
            already,
            pool,
            answers,
            at,
        ),
    decreases bucket.len() - j,
{
    let rest = bucket.remove(i);
    if j < bucket.len() {
        let k = if j > i {
            j - 1
        } else {
            j
        };
        if j == i {
            lemma_sift_without(register, best_number, bucket, j + 1, already, pool, answers, at, i);
        } else {
            let hash = bucket[j];
            assert(rest[k] == hash);
            if !register.has(hash) {
                lemma_sift_without(register, best_number, bucket, j + 1, already, pool, answers, at, i);
            } else if let Ok((can_go, next)) = locality::tried(register, best_number, hash, already, answers, at) {
                if can_go {
                    lemma_sift_without(
                        register,
                        best_number,
                        bucket,
                        j + 1,
                        already,
                        pool.with_includable(hash),
                        answers,
                        next,
                        i,
                    );
                } else if let Ok((d, after)) = dependencies::dependencies(
                    register,
                    hash,
                    already,
                    answers,
                    next,
                ) {
                    lemma_sift_without(
                        register,
                        best_number,
                        bucket,
                        j + 1,
                        already,
                        pool.with_dependencies(d),
                        answers,
                        after,
                        i,
                    );
                }
            }
        }
    }
}

/// The transactions that waited are tried one after the other. One that is in the batch or can go into
/// it already is passed over, and so is one that waits for another transaction too. All others are
/// simulated: without errors they can go into the batch behind those that can already; with errors, what
/// has to go first is added, where neither the transactions of this batch nor those that go before it
/// are used again.
pub proof fn law_waiting_transactions_are_tried_in_turn(
    register: RegisterModel,
    already: Seq<TxHash>,
    winner: TxHash,
    others: Seq<TxHash>,
    j: int,
    pool: PoolModel,
    answers: Seq<Answer>,
    at: int,
)
    requires
        0 <= j < others.len(),
        0 <= at <= answers.len(),
        register.is_signed(others[j]),
    ensures
        ({
            let other = others[j];
            let result = assembly::unlock(register, already, winner, others, j, pool, answers, at);
            let waits = exists|k: TxHash|
                k != winner && #[trigger] pool.map.contains_key(k) && pool.map[k].contains(other);
            let passed = pool.batch.contains(other) || pool.includable.contains(other) || waits;
            let more = PoolModel {
                includable: pool.includable.push(other),
                map: pool.map,
                batch: pool.batch,
            };
            &&& passed ==> result == assembly::unlock(
                register,
                already,
                winner,
                others,
                j + 1,
                pool,
                answers,
                at,
            )
            &&& !passed && at == answers.len() ==> result == Err::<(PoolModel, int), Halt>(
                Halt::Ask(Question::Simulate(register.pending(other))),
            )
            &&& !passed && at < answers.len() ==> (answers[at] matches Answer::Simulated(sim) ==> {
                &&& sim.errors@.len() == 0 ==> result == assembly::unlock(
                    register,
                    already,
                    winner,
                    others,
                    j + 1,
                    more,
                    answers,
                    at + 1,
                )
                &&& sim.errors@.len() > 0 ==> match dependencies::dependencies(
                    register,
                    other,
                    already + pool.batch,
                    answers,
                    at + 1,
                ) {
                    Err(halt) => result == Err::<(PoolModel, int), Halt>(halt),
                    Ok((d, after)) => exists|p: PoolModel| #[trigger]
                        adds(pool, d, p) && result == assembly::unlock(
                            register,
                            already,
                            winner,
                            others,
                            j + 1,
                            p,
                            answers,
                            after,
                        ),
                }
            })
        }),
{
    let other = others[j];
    if let Ok((d, after)) = dependencies::dependencies(
        register,
        other,
        already + pool.batch,
        answers,
        at + 1,
    ) {
        lemma_adds(pool, d);
        assert(adds(pool, d, pool.with_dependencies(d)));
    }
    if exists|k: TxHash| k != winner && #[trigger] pool.map.contains_key(k) && pool.map[k].contains(other) {
        let k = choose|k: TxHash|
            k != winner && #[trigger] pool.map.contains_key(k) && pool.map[k].contains(other);
        assert(assembly::waits_for_another(pool.map, winner, other));
    }
}

/// Once all transactions of the bucket, or all that waited, were tried, the pool stays as it is.
pub proof fn law_trying_ends(
    register: RegisterModel,
    best_number: u64,
    list: Seq<TxHash>,
    already: Seq<TxHash>,
    winner: TxHash,
    pool: PoolModel,
    answers: Seq<Answer>,
    at: int,
)
    ensures
        assembly::sift(register, best_number, list, list.len() as int, already, pool, answers, at) == Ok::<
            (PoolModel, int),
            Halt,
        >((pool, at)),
        assembly::unlock(register, already, winner, list, list.len() as int, pool, answers, at) == Ok::<
            (PoolModel, int),
            Halt,
        >((pool, at)),
{
}

/// A batch is built out of what the bucket gives, beginning with nothing: as long as the bucket is being
/// tried, its questions come first, and then those of the dearest transactions.
pub proof fn law_batch_begins_with_the_bucket(
    register: RegisterModel,
    best_number: u64,
    bucket: Seq<TxHash>,
    already: Seq<TxHash>,
    answers: Seq<Answer>,
)
    ensures
        ({
            let nothing = PoolModel { includable: Seq::empty(), map: Map::empty(), batch: Seq::empty() };
            assembly::batch_of(register, best_number, bucket, already, answers) == match assembly::sift(
                register,
                best_number,
                bucket,
                0,
                already,
                nothing,
                answers,
                0,
            ) {
                Err(halt) => Err::<(Seq<TxHash>, int), Halt>(halt),
                Ok((pool, at)) => assembly::assemble(register, best_number, already, pool, answers, at),
            }
        }),
{
}

} // verus!
