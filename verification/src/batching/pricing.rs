//! Which of several transactions goes into a batch next: the one that pays most.

use crate::fixed_bytes::TxHash;
use itertools::Itertools;
use std::cmp::Ordering;
use vstd::prelude::*;

verus! {

/// Of the first `count` transactions the one with the highest price, and the last of those with the
/// same price.
pub open spec fn dearest(priced: Seq<(TxHash, u128)>, count: int) -> int
    decreases count,
{
    if count <= 1 {
        0
    } else {
        let best = dearest(priced, count - 1);
        if priced[best].1 <= priced[count - 1].1 {
            count - 1
        } else {
            best
        }
    }
}

/// The transactions with a given price, in their order.
pub open spec fn with_price(priced: Seq<(TxHash, u128)>, price: u128) -> Seq<(TxHash, u128)> {
    priced.filter(|p: (TxHash, u128)| p.1 == price)
}

/// Whether a list is sorted by ascending price.
pub open spec fn is_ascending(priced: Seq<(TxHash, u128)>) -> bool {
    forall|i: int, j: int| 0 <= i <= j < priced.len() ==> (#[trigger] priced[i]).1 <= (#[trigger] priced[j]).1
}

fn price_order(a: &(TxHash, u128), b: &(TxHash, u128)) -> (r: Ordering)
    ensures
        r is Less <==> a.1 < b.1,
        r is Equal <==> a.1 == b.1,
        r is Greater <==> a.1 > b.1,
{
    if a.1 < b.1 {
        Ordering::Less
    } else if a.1 == b.1 {
        Ordering::Equal
    } else {
        Ordering::Greater
    }
}

/// `Itertools::sorted_by` of `itertools`, by ascending price: a sorted list of the same items, in
/// which items of the same price keep their order.
#[verifier::external_body]
fn sorted_by_price(priced: Vec<(TxHash, u128)>) -> (r: Vec<(TxHash, u128)>)
    ensures
        r@.len() == priced@.len(),
        is_ascending(r@),
        forall|price: u128| #[trigger] with_price(r@, price) == with_price(priced@, price),
{
    priced.into_iter().sorted_by(|a, b| price_order(a, b)).collect()
}

/// The chosen transaction pays no less than any other, and more than those behind it.
pub proof fn law_dearest_transaction_is_chosen(priced: Seq<(TxHash, u128)>, count: int)
    requires
        0 < count <= priced.len(),
    ensures
        0 <= dearest(priced, count) < count,
        forall|k: int|
            0 <= k < count ==> (#[trigger] priced[k]).1 <= priced[dearest(priced, count)].1,
        forall|k: int|
            dearest(priced, count) < k < count ==> (#[trigger] priced[k]).1 < priced[dearest(
                priced,
                count,
            )].1,
    decreases count,
{
    if count > 1 {
        law_dearest_transaction_is_chosen(priced, count - 1);
    }
}

/// The last item of those with a given price is the last one in the list that has the price.
proof fn lemma_with_price_last(priced: Seq<(TxHash, u128)>, price: u128, at: int)
    requires
        0 <= at < priced.len(),
        priced[at].1 == price,
        forall|k: int| at < k < priced.len() ==> (#[trigger] priced[k]).1 != price,
    ensures
        with_price(priced, price).len() > 0,
        with_price(priced, price).last() == priced[at],
    decreases priced.len(),
{
    reveal(Seq::filter);
    let front = priced.drop_last();
    if at < priced.len() - 1 {
        assert(priced[priced.len() - 1].1 != price);
        assert forall|k: int| at < k < front.len() implies (#[trigger] front[k]).1 != price by {
            assert(front[k] == priced[k]);
        }
        lemma_with_price_last(front, price, at);
    }
}

/// What has a given price is in the list.
proof fn lemma_with_price_member(priced: Seq<(TxHash, u128)>, price: u128, i: int) -> (at: int)
    requires
        0 <= i < with_price(priced, price).len(),
    ensures
        0 <= at < priced.len(),
        priced[at] == with_price(priced, price)[i],
        priced[at].1 == price,
    decreases priced.len(),
{
    reveal(Seq::filter);
    let front = priced.drop_last();
    if i < with_price(front, price).len() {
        let at = lemma_with_price_member(front, price, i);
        at
    } else {
        priced.len() - 1
    }
}

/// The last item of a stable sort by ascending price is the dearest one.
proof fn lemma_sorted_last(priced: Seq<(TxHash, u128)>, sorted: Seq<(TxHash, u128)>)
    requires
        priced.len() > 0,
        sorted.len() == priced.len(),
        is_ascending(sorted),
        forall|price: u128| #[trigger] with_price(sorted, price) == with_price(priced, price),
    ensures
        sorted.last() == priced[dearest(priced, priced.len() as int)],
{
    let count = priced.len() as int;
    law_dearest_transaction_is_chosen(priced, count);
    let best = dearest(priced, count);
    let price = priced[best].1;
    lemma_with_price_last(priced, price, best);
    let last = sorted.last();
    // the dearest item is somewhere in the sorted list
    let found = lemma_with_price_member(sorted, price, with_price(sorted, price).len() - 1);
    assert(sorted[found].1 <= sorted[count - 1].1);
    // the last item is somewhere in the list
    lemma_with_price_last(sorted, last.1, count - 1);
    let origin = lemma_with_price_member(priced, last.1, with_price(priced, last.1).len() - 1);
    assert(priced[origin].1 <= price);
    lemma_with_price_last(sorted, price, count - 1);
}

/// The hash of the transaction with the highest price, and of the last one of those with the same
/// price.
pub fn dearest_transaction(priced: Vec<(TxHash, u128)>) -> (r: TxHash)
    requires
        priced@.len() > 0,
    ensures
        r == priced@[dearest(priced@, priced@.len() as int)].0,
{
    let mut sorted = sorted_by_price(priced);
    proof {
        lemma_sorted_last(priced@, sorted@);
    }
    sorted.pop().unwrap().0
}

} // verus!
