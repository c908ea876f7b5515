//! The dearest transaction goes into a batch first.

use crate::batching::assembly;
use crate::batching::assembly::PoolModel;
use crate::batching::dependencies;
use crate::batching::pricing;
use crate::batching::questions;
use crate::batching::questions::{Answer, Fault, Halt, Question};
use crate::fixed_bytes::TxHash;
use crate::transaction_register::RegisterModel;
use vstd::prelude::*;

verus! {

/// The effective gas price that the simulation of a transaction found when it was registered for the
/// block after the best one.
pub open spec fn registered_price(register: RegisterModel, best_number: u64, hash: TxHash) -> u128 {
    register.at_block(best_number).simulation(hash)->Some_0.effective_gas_price
}

/// Whether the transaction at a place of a list is the dearest one: none of the list has a higher
/// registered price, and those behind it have a lower one.
pub open spec fn is_dearest(register: RegisterModel, best_number: u64, list: Seq<TxHash>, place: int) -> bool {
    &&& 0 <= place < list.len()
    &&& forall|i: int|
        0 <= i < list.len() ==> {
            let price = registered_price(register, best_number, #[trigger] list[i]);
            &&& price <= registered_price(register, best_number, list[place])
            &&& i > place ==> price < registered_price(register, best_number, list[place])
        }
}

/// The price of a transaction is the effective gas price of its registered simulation, whatever errors
/// that simulation had, and there is a price for each transaction of a list exactly where all of them
/// are registered.
pub proof fn law_prices_are_registered(register: RegisterModel, best_number: u64, list: Seq<TxHash>, count: int)
    requires
        0 <= count <= list.len(),
    ensures
        match assembly::priced(register, best_number, list, count) {
            Ok(prices) => prices.len() == count && forall|i: int|
                #![trigger list[i]]
                0 <= i < count ==> {
                    &&& register.at_block(best_number).simulation(list[i]) is Some
                    &&& prices[i] == (
                        list[i],
                        register.at_block(best_number).simulation(list[i])->Some_0.effective_gas_price,
                    )
                },
            Err(halt) => exists|i: int| #![trigger list[i]]
                {
                    &&& 0 <= i < count
                    &&& register.at_block(best_number).simulation(list[i]) is None
                    &&& halt == Halt::Fault(Fault::NotRegistered(list[i]))
                },
        },
    decreases count,
{
    if count > 0 {
        law_prices_are_registered(register, best_number, list, count - 1);
        match assembly::priced(register, best_number, list, count - 1) {
            Err(halt) => {
                let i = choose|i: int| #![trigger list[i]]
                    {
                        &&& 0 <= i < count - 1
                        &&& register.at_block(best_number).simulation(list[i]) is None
                        &&& halt == Halt::Fault(Fault::NotRegistered(list[i]))
                    };
                assert(0 <= i < count);
            },
            Ok(front) => {
                let last = list[count - 1];
                match register.at_block(best_number).simulation(last) {
                    None => {},
                    Some(sim) => {
                        let prices = front.push((last, sim.effective_gas_price));
                        assert forall|i: int| #![trigger list[i]] 0 <= i < count implies {
                            &&& register.at_block(best_number).simulation(list[i]) is Some
                            &&& prices[i] == (
                                list[i],
                                register.at_block(best_number).simulation(list[i])->Some_0.effective_gas_price,
                            )
                        } by {
                            if i < count - 1 {
                                assert(prices[i] == front[i]);
                            }
                        }
                    },
                }
            },
        }
    }
}

/// The transaction that is tried next is the dearest one of those that can go into the batch, and the
/// last one of those that pay the same.
pub proof fn law_winner_is_the_dearest(register: RegisterModel, best_number: u64, list: Seq<TxHash>)
    requires
        list.len() > 0,
    ensures
        assembly::winner(register, best_number, list) is Ok <==> forall|i: int|
            0 <= i < list.len() ==> register.at_block(best_number).simulation(#[trigger] list[i]) is Some,
        assembly::winner(register, best_number, list) matches Ok(hash) ==> exists|place: int| #[trigger]
            is_dearest(register, best_number, list, place) && list[place] == hash,
{
    let count = list.len() as int;
    law_prices_are_registered(register, best_number, list, count);
    if let Ok(prices) = assembly::priced(register, best_number, list, count) {
        pricing::law_dearest_transaction_is_chosen(prices, count);
        let place = pricing::dearest(prices, count);
        assert forall|i: int| 0 <= i < list.len() implies {
            let price = registered_price(register, best_number, #[trigger] list[i]);
            &&& price <= registered_price(register, best_number, list[place])
            &&& i > place ==> price < registered_price(register, best_number, list[place])
        } by {
            assert(prices[i].1 <= prices[place].1);
        }
        assert forall|i: int| 0 <= i < list.len() implies register.at_block(best_number).simulation(
            #[trigger] list[i],
        ) is Some by {
            assert(prices[i].0 == list[i]);
        }
        assert(is_dearest(register, best_number, list, place));
    }
}

/// There is only one dearest transaction of a list.
pub proof fn lemma_one_dearest(register: RegisterModel, best_number: u64, list: Seq<TxHash>, a: int, b: int)
    requires
        is_dearest(register, best_number, list, a),
        is_dearest(register, best_number, list, b),
    ensures
        a == b,
{
    if a < b {
        assert(registered_price(register, best_number, list[b]) < registered_price(
            register,
            best_number,
            list[a],
        ));
        assert(registered_price(register, best_number, list[a]) <= registered_price(
            register,
            best_number,
            list[b],
        ));
    } else if b < a {
        assert(registered_price(register, best_number, list[a]) < registered_price(
            register,
            best_number,
            list[b],
        ));
        assert(registered_price(register, best_number, list[b]) <= registered_price(
            register,
            best_number,
            list[a],
        ));
    }
}

/// Whether all transactions of a list are registered for the block after the best one, with a valid
/// signature.
pub open spec fn all_ready(register: RegisterModel, best_number: u64, list: Seq<TxHash>) -> bool {
    forall|i: int|
        0 <= i < list.len() ==> register.at_block(best_number).simulation(#[trigger] list[i]) is Some
            && register.is_signed(list[i])
}

/// As long as a transaction can go into the batch, the building asks for the check of the dearest one.
/// It asks to execute the same one where the check has no errors. Where it has some, it goes on without
/// that transaction. Without any transaction that can go into the batch, the batch is done.
pub proof fn law_dearest_transaction_is_tried(
    register: RegisterModel,
    best_number: u64,
    already: Seq<TxHash>,
    pool: PoolModel,
    answers: Seq<Answer>,
    at: int,
    place: int,
)
    requires
        0 <= at <= answers.len(),
        pool.includable.len() > 0 ==> is_dearest(register, best_number, pool.includable, place) && all_ready(
            register,
            best_number,
            pool.includable,
        ),
    ensures
        ({
            let result = assembly::assemble(register, best_number, already, pool, answers, at);
            let hash = pool.includable[place];
            let rest = pool.includable.filter(|x: TxHash| x != hash);
            if pool.includable.len() == 0 {
                result == Ok::<(Seq<TxHash>, int), Halt>((pool.batch, at))
            } else {
                &&& at == answers.len() ==> result == Err::<(Seq<TxHash>, int), Halt>(
                    Halt::Ask(Question::CheckIncludability(register.pending(hash))),
                )
                &&& at < answers.len() ==> (answers[at] matches Answer::Includability(errors) ==> {
                    &&& errors@.len() > 0 ==> result == assembly::assemble(
                        register,
                        best_number,
                        already,
                        (PoolModel { includable: rest, map: pool.map, batch: pool.batch }),
                        answers,
                        at + 1,
                    )
                    &&& errors@.len() == 0 && at + 1 == answers.len() ==> result == Err::<
                        (Seq<TxHash>, int),
                        Halt,
                    >(Halt::Ask(Question::Execute(register.pending(hash))))
                })
            }
        }),
{
    if pool.includable.len() > 0 {
        law_winner_is_the_dearest(register, best_number, pool.includable);
        let hash = assembly::winner(register, best_number, pool.includable)->Ok_0;
        let found = choose|found: int| #[trigger]
            is_dearest(register, best_number, pool.includable, found) && pool.includable[found] == hash;
        lemma_one_dearest(register, best_number, pool.includable, found, place);
        assert(register.is_signed(hash));
        assert((|x: TxHash| x != hash) =~= assembly::other_than(hash));
    }
}

/// Once a transaction was executed, it stands at the end of the batch and no longer among those that can
/// go into it. Those that wait for it are tried, and then nobody waits for it any more.
pub proof fn law_execution_unlocks_what_waits(
    register: RegisterModel,
    best_number: u64,
    already: Seq<TxHash>,
    pool: PoolModel,
    answers: Seq<Answer>,
    at: int,
    place: int,
)
    requires
        0 <= at,
        at + 2 <= answers.len(),
        is_dearest(register, best_number, pool.includable, place),
        all_ready(register, best_number, pool.includable),
        answers[at] matches Answer::Includability(errors) && errors@.len() == 0,
        answers[at + 1] is Executed,
    ensures
        ({
            let hash = pool.includable[place];
            let waiting = if pool.map.contains_key(hash) {
                pool.map[hash]
            } else {
                Seq::empty()
            };
            let taken = PoolModel {
                includable: pool.includable.filter(|x: TxHash| x != hash),
                map: pool.map,
                batch: pool.batch.push(hash),
            };
            assembly::assemble(register, best_number, already, pool, answers, at) == match assembly::unlock(
                register,
                already,
                hash,
                waiting,
                0,
                taken,
                answers,
                at + 2,
            ) {
                Err(halt) => Err::<(Seq<TxHash>, int), Halt>(halt),
                Ok((open, next)) => assembly::assemble(
                    register,
                    best_number,
                    already,
                    (PoolModel {
                        includable: open.includable,
                        map: open.map.remove(hash),
                        batch: open.batch,
                    }),
                    answers,
                    next,
                ),
            }
        }),
{
    law_winner_is_the_dearest(register, best_number, pool.includable);
    let hash = assembly::winner(register, best_number, pool.includable)->Ok_0;
    let found = choose|found: int| #[trigger]
        is_dearest(register, best_number, pool.includable, found) && pool.includable[found] == hash;
    lemma_one_dearest(register, best_number, pool.includable, found, place);
    assert(register.is_signed(hash));
    assert((|x: TxHash| x != hash) =~= assembly::other_than(hash));
    let taken = PoolModel {
        includable: pool.includable.filter(|x: TxHash| x != hash),
        map: pool.map,
        batch: pool.batch.push(hash),
    };
    assert(pool.taken(hash) =~= taken);
    let others = dependencies::list_of(pool.map, hash);
    assembly::lemma_unlock_advances(register, already, hash, others, 0, taken, answers, at + 2);
    assert(questions::includable(register.pending(hash), answers, at) == Ok::<bool, Halt>(true));
    assert(questions::executed(register.pending(hash), answers, at + 1) == Ok::<(), Halt>(()));
    if let Ok((open, next)) = assembly::unlock(register, already, hash, others, 0, taken, answers, at + 2) {
        assert(open.settled(hash) == (PoolModel {
            includable: open.includable,
            map: open.map.remove(hash),
            batch: open.batch,
        }));
    }
}

/// Whether the registered prices of a list never rise.
pub open spec fn is_descending(register: RegisterModel, best_number: u64, list: Seq<TxHash>) -> bool {
    forall|i: int, j: int|
        0 <= i <= j < list.len() ==> registered_price(register, best_number, #[trigger] list[j])
            <= registered_price(register, best_number, #[trigger] list[i])
}

pub proof fn lemma_filter_contains(list: Seq<TxHash>, hash: TxHash, x: TxHash)
    ensures
        assembly::without(list, hash).contains(x) <==> list.contains(x) && x != hash,
    decreases list.len(),
{
    reveal(Seq::filter);
    if list.len() > 0 {
        let front = list.drop_last();
        lemma_filter_contains(front, hash, x);
        let kept = assembly::without(front, hash);
        let all = assembly::without(list, hash);
        if list.last() != hash {
            crate::concurrent_proposer::decisions::lemma_contains_push(kept, list.last(), x);
        }
        assert(list =~= front.push(list.last()));
        crate::concurrent_proposer::decisions::lemma_contains_push(front, list.last(), x);
    }
}

proof fn lemma_independent(
    register: RegisterModel,
    best_number: u64,
    already: Seq<TxHash>,
    pool: PoolModel,
    answers: Seq<Answer>,
    at: int,
)
    requires
        0 <= at <= answers.len(),
        pool.map == Map::<TxHash, Seq<TxHash>>::empty(),
        is_descending(register, best_number, pool.batch),
        forall|i: int, x: TxHash|
            0 <= i < pool.batch.len() && #[trigger] pool.includable.contains(x) ==> registered_price(
                register,
                best_number,
                x,
            ) <= registered_price(register, best_number, #[trigger] pool.batch[i]),
    ensures
        assembly::assemble(register, best_number, already, pool, answers, at) matches Ok((batch, _)) ==> {
            &&& is_descending(register, best_number, batch)
            &&& forall|x: TxHash| #[trigger] batch.contains(x) ==> pool.batch.contains(x)
                || pool.includable.contains(x)
        },
    decreases answers.len() - at,
{
    if pool.includable.len() > 0 && assembly::assemble(register, best_number, already, pool, answers, at) is Ok {
        let hash = assembly::winner(register, best_number, pool.includable)->Ok_0;
        law_winner_is_the_dearest(register, best_number, pool.includable);
        let place = choose|place: int| #[trigger]
            is_dearest(register, best_number, pool.includable, place) && pool.includable[place] == hash;
        assert(pool.includable.contains(hash));
        let rest = assembly::without(pool.includable, hash);
        assert forall|x: TxHash| #[trigger] rest.contains(x) implies pool.includable.contains(x)
            && registered_price(register, best_number, x) <= registered_price(register, best_number, hash) by {
            lemma_filter_contains(pool.includable, hash, x);
            let i = choose|i: int| 0 <= i < pool.includable.len() && pool.includable[i] == x;
            assert(registered_price(register, best_number, pool.includable[i]) <= registered_price(
                register,
                best_number,
                pool.includable[place],
            ));
        }
        if questions::includable(register.pending(hash), answers, at)->Ok_0 {
            let taken = pool.taken(hash);
            assert(dependencies::list_of(pool.map, hash) =~= Seq::<TxHash>::empty());
            let settled = taken.settled(hash);
            assert(settled.map =~= Map::<TxHash, Seq<TxHash>>::empty());
            assert(is_descending(register, best_number, taken.batch)) by {
                assert forall|i: int, j: int| 0 <= i <= j < taken.batch.len() implies registered_price(
                    register,
                    best_number,
                    #[trigger] taken.batch[j],
                ) <= registered_price(register, best_number, #[trigger] taken.batch[i]) by {
                    if j == pool.batch.len() && i < j {
                        assert(pool.batch[i] == taken.batch[i]);
                    }
                }
            }
            assert forall|i: int, x: TxHash|
                0 <= i < settled.batch.len() && #[trigger] settled.includable.contains(x) implies registered_price(
                register,
                best_number,
                x,
            ) <= registered_price(register, best_number, #[trigger] settled.batch[i]) by {
                assert(rest.contains(x));
                if i < pool.batch.len() {
                    assert(pool.batch[i] == settled.batch[i]);
                }
            }
            lemma_independent(register, best_number, already, settled, answers, at + 2);
            let batch = assembly::assemble(register, best_number, already, pool, answers, at)->Ok_0.0;
            assert forall|x: TxHash| #[trigger] batch.contains(x) implies pool.batch.contains(x)
                || pool.includable.contains(x) by {
                if settled.batch.contains(x) {
                    let i = choose|i: int| 0 <= i < settled.batch.len() && settled.batch[i] == x;
                    if i < pool.batch.len() {
                        assert(pool.batch[i] == x);
                    }
                } else {
                    assert(rest.contains(x));
                }
            }
        } else {
            let dropped = pool.dropped(hash);
            assert forall|i: int, x: TxHash|
                0 <= i < dropped.batch.len() && #[trigger] dropped.includable.contains(x) implies registered_price(
                register,
                best_number,
                x,
            ) <= registered_price(register, best_number, #[trigger] dropped.batch[i]) by {
                assert(rest.contains(x));
            }
            lemma_independent(register, best_number, already, dropped, answers, at + 1);
            let batch = assembly::assemble(register, best_number, already, pool, answers, at)->Ok_0.0;
            assert forall|x: TxHash| #[trigger] batch.contains(x) implies pool.batch.contains(x)
                || pool.includable.contains(x) by {
                if !pool.batch.contains(x) {
                    assert(rest.contains(x));
                }
            }
        }
    }
}

/// Whether all registered transactions of a bucket were without errors when they were registered.
pub open spec fn independent(register: RegisterModel, bucket: Seq<TxHash>) -> bool {
    forall|i: int|
        0 <= i < bucket.len() && register.has(#[trigger] bucket[i]) ==> (register.simulation(
            bucket[i],
        ) matches Some(sim) && sim.errors@.len() == 0)
}

proof fn lemma_sift_independent(
    register: RegisterModel,
    bucket: Seq<TxHash>,
    i: int,
    pool: PoolModel,
    answers: Seq<Answer>,
)
    requires
        0 <= i <= bucket.len(),
        independent(register, bucket),
    ensures
        assembly::sift(
            register,
            register.prev_block_number,
            bucket,
            i,
            Seq::empty(),
            pool,
            answers,
            0,
        ) matches Ok((p, at)) && at == 0 && p.map == pool.map && p.batch == pool.batch && p.includable
            == pool.includable + bucket.skip(i).filter(|x: TxHash| register.has(x)),
    decreases bucket.len() - i,
{
    let keep = |x: TxHash| register.has(x);
    if i == bucket.len() {
        assert(bucket.skip(i).filter(keep) =~= Seq::empty()) by {
            reveal(Seq::filter);
            assert(bucket.skip(i) =~= Seq::empty());
        }
        assert(pool.includable + bucket.skip(i).filter(keep) =~= pool.includable);
    } else {
        let first = seq![bucket[i]];
        assert(bucket.skip(i) =~= first + bucket.skip(i + 1));
        Seq::filter_distributes_over_add(first, bucket.skip(i + 1), keep);
        assert(first.filter(keep) =~= if register.has(bucket[i]) {
            first
        } else {
            Seq::empty()
        }) by {
            reveal(Seq::filter);
            assert(first.drop_last() =~= Seq::<TxHash>::empty());
            assert(first.drop_last().filter(keep) =~= Seq::<TxHash>::empty());
        }
        let next = if register.has(bucket[i]) {
            pool.with_includable(bucket[i])
        } else {
            pool
        };
        lemma_sift_independent(register, bucket, i + 1, next, answers);
        assert(next.includable + bucket.skip(i + 1).filter(keep) =~= pool.includable + bucket.skip(i).filter(
            keep,
        ));
    }
}

/// A batch out of transactions that were all without errors when they were registered holds only
/// transactions of the bucket, and their registered prices never rise. The first question is about the
/// dearest of them.
pub proof fn law_independent_transactions_go_by_price(
    register: RegisterModel,
    bucket: Seq<TxHash>,
    answers: Seq<Answer>,
)
    requires
        independent(register, bucket),
    ensures
        ({
            let n = register.prev_block_number;
            let result = assembly::batch_of(register, n, bucket, Seq::empty(), answers);
            let list = bucket.filter(|x: TxHash| register.has(x));
            &&& result matches Ok((batch, _)) ==> {
                &&& is_descending(register, n, batch)
                &&& forall|x: TxHash| #[trigger] batch.contains(x) ==> list.contains(x)
            }
            &&& forall|place: int| #[trigger]
                is_dearest(register, n, list, place) && all_ready(register, n, list) && answers.len() == 0
                    ==> result == Err::<(Seq<TxHash>, int), Halt>(
                    Halt::Ask(Question::CheckIncludability(register.pending(list[place]))),
                )
        }),
{
    let n = register.prev_block_number;
    let empty = PoolModel::empty();
    let list = bucket.filter(|x: TxHash| register.has(x));
    lemma_sift_independent(register, bucket, 0, empty, answers);
    assert(bucket.skip(0) =~= bucket);
    let (pool, at) = assembly::sift(register, n, bucket, 0, Seq::empty(), empty, answers, 0)->Ok_0;
    assert(pool.includable =~= list);
    lemma_independent(register, n, Seq::empty(), pool, answers, 0);
    assert forall|place: int| #[trigger]
        is_dearest(register, n, list, place) && all_ready(register, n, list) && answers.len() == 0 implies assembly::batch_of(
        register,
        n,
        bucket,
        Seq::empty(),
        answers,
    ) == Err::<(Seq<TxHash>, int), Halt>(
        Halt::Ask(Question::CheckIncludability(register.pending(list[place]))),
    ) by {
        law_dearest_transaction_is_tried(register, n, Seq::empty(), pool, answers, 0, place);
    }
}

} // verus!
