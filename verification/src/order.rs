//! Stable ascending orders of keys.

use polars::prelude::{ChunkSort, Int64Chunked, PlSmallStr, SortOptions};
use vstd::prelude::*;

verus! {

/// The largest number of keys that can be ordered: positions are handed out
/// as 32-bit numbers, of which the highest is kept free.
pub const MAX_ROWS: usize = 0xFFFF_FFFE;

/// Position `a` comes before position `b` when its key is smaller, or equal
/// with `a` the earlier position.
pub open spec fn precedes(keys: Seq<i64>, a: int, b: int) -> bool {
    keys[a] < keys[b] || (keys[a] == keys[b] && a < b)
}

/// `order` lists every position of `keys` once, by ascending key, positions
/// of equal keys in the order in which they were given.
pub open spec fn is_stable_order(keys: Seq<i64>, order: Seq<usize>) -> bool {
    &&& order.len() == keys.len()
    &&& forall|k: int| 0 <= k < order.len() ==> (#[trigger] order[k]) < keys.len()
    &&& forall|i: usize| i < keys.len() ==> #[trigger] order.contains(i)
    &&& forall|a: int, b: int|
        0 <= a < b < order.len() ==> precedes(keys, #[trigger] order[a] as int, #[trigger] order[b] as int)
}

/// The stable ascending order of `keys`.
pub open spec fn stable_order_of(keys: Seq<i64>) -> Seq<usize> {
    choose|order: Seq<usize>| is_stable_order(keys, order)
}

proof fn lemma_orders_agree(keys: Seq<i64>, first: Seq<usize>, second: Seq<usize>, k: int)
    requires
        is_stable_order(keys, first),
        is_stable_order(keys, second),
        0 <= k <= keys.len(),
    ensures
        forall|j: int| 0 <= j < k ==> first[j] == second[j],
    decreases k,
{
    if k > 0 {
        lemma_orders_agree(keys, first, second, k - 1);
        let x = first[k - 1];
        let y = second[k - 1];
        assert(first.contains(y));
        let p = choose|p: int| 0 <= p < first.len() && first[p] == y;
        assert(second.contains(x));
        let q = choose|q: int| 0 <= q < second.len() && second[q] == x;
        if p < k - 1 {
            assert(second[p] == first[p]);
            assert(precedes(keys, second[p] as int, second[k - 1] as int));
        }
        if q < k - 1 {
            assert(first[q] == second[q]);
            assert(precedes(keys, first[q] as int, first[k - 1] as int));
        }
        if p > k - 1 {
            assert(precedes(keys, first[k - 1] as int, first[p] as int));
            if q > k - 1 {
                assert(precedes(keys, second[k - 1] as int, second[q] as int));
            }
        }
    }
}

/// A sequence of keys has at most one stable order.
pub proof fn lemma_stable_order_unique(keys: Seq<i64>, first: Seq<usize>, second: Seq<usize>)
    requires
        is_stable_order(keys, first),
        is_stable_order(keys, second),
    ensures
        first == second,
{
    lemma_orders_agree(keys, first, second, keys.len() as int);
    assert(first =~= second);
}

/// The first place from `from` on at which `order` holds a position whose
/// key is above `key`.
spec fn slot_from(keys: Seq<i64>, order: Seq<usize>, key: i64, from: int) -> int
    decreases order.len() - from,
{
    if from < 0 || from >= order.len() || keys[order[from] as int] > key {
        from
    } else {
        slot_from(keys, order, key, from + 1)
    }
}

proof fn lemma_slot_from(keys: Seq<i64>, order: Seq<usize>, key: i64, from: int)
    requires
        0 <= from <= order.len(),
        forall|k: int| 0 <= k < order.len() ==> (#[trigger] order[k]) < keys.len(),
        forall|a: int, b: int|
            0 <= a < b < order.len() ==> precedes(keys, #[trigger] order[a] as int, #[trigger] order[b] as int),
        forall|k: int| 0 <= k < from ==> keys[(#[trigger] order[k]) as int] <= key,
    ensures
        from <= slot_from(keys, order, key, from) <= order.len(),
        forall|k: int| 0 <= k < slot_from(keys, order, key, from) ==> keys[(#[trigger] order[k]) as int] <= key,
        forall|k: int|
            slot_from(keys, order, key, from) <= k < order.len() ==> keys[(#[trigger] order[k]) as int] > key,
    decreases order.len() - from,
{
    if from < order.len() {
        if keys[order[from] as int] > key {
            assert forall|k: int| from <= k < order.len() implies keys[(#[trigger] order[k]) as int] > key by {
                if from < k {
                    assert(precedes(keys, order[from] as int, order[k] as int));
                }
            }
        } else {
            lemma_slot_from(keys, order, key, from + 1);
        }
    }
}

/// Every sequence of keys has a stable order.
pub proof fn lemma_stable_order_exists(keys: Seq<i64>) -> (order: Seq<usize>)
    requires
        keys.len() <= usize::MAX,
    ensures
        is_stable_order(keys, order),
    decreases keys.len(),
{
    if keys.len() == 0 {
        Seq::empty()
    } else {
        let front_keys = keys.drop_last();
        let front = lemma_stable_order_exists(front_keys);
        let last = (keys.len() - 1) as usize;
        assert forall|a: int, b: int| 0 <= a < b < front.len() implies precedes(
            keys,
            #[trigger] front[a] as int,
            #[trigger] front[b] as int,
        ) by {
            assert(precedes(front_keys, front[a] as int, front[b] as int));
        }
        lemma_slot_from(keys, front, keys.last(), 0);
        let at = slot_from(keys, front, keys.last(), 0);
        let order = front.insert(at, last);
        assert forall|i: usize| i < keys.len() implies #[trigger] order.contains(i) by {
            if i == last {
                assert(order[at] == i);
            } else {
                assert(front.contains(i));
                let j = front.index_of(i);
                assert(0 <= j < front.len() && front[j] == i);
                if j < at {
                    assert(order[j] == i);
                } else {
                    assert(order[j + 1] == i);
                }
            }
        }
        assert forall|a: int, b: int| 0 <= a < b < order.len() implies precedes(
            keys,
            #[trigger] order[a] as int,
            #[trigger] order[b] as int,
        ) by {
            if b < at {
                assert(order[a] == front[a] && order[b] == front[b]);
            } else if b == at {
                assert(order[a] == front[a]);
            } else if a < at {
                assert(order[a] == front[a] && order[b] == front[b - 1]);
            } else if a == at {
                assert(order[b] == front[b - 1]);
            } else {
                assert(order[a] == front[a - 1] && order[b] == front[b - 1]);
            }
        }
        assert forall|k: int| 0 <= k < order.len() implies (#[trigger] order[k]) < keys.len() by {
            if k < at {
                assert(order[k] == front[k]);
            } else if k > at {
                assert(order[k] == front[k - 1]);
            }
        }
        order
    }
}

/// The stable order of a sequence of keys is a stable order of it.
pub proof fn lemma_stable_order_of(keys: Seq<i64>)
    requires
        keys.len() <= usize::MAX,
    ensures
        is_stable_order(keys, stable_order_of(keys)),
{
    let order = lemma_stable_order_exists(keys);
}

/// Sorts positions with polars' `ChunkSort::arg_sort` on an `Int64Chunked`
/// that holds `keys`, asked to keep equal keys in their order. The contract
/// claims what an argument sort is: the result names each position once, the
/// keys ascend along it, and positions of equal keys keep their order. Polars
/// refuses an array of `u32::MAX` values or more, so such inputs are left
/// out.
#[verifier::external_body]
fn arg_sort(keys: &Vec<i64>) -> (order: Vec<usize>)
    requires
        keys@.len() <= MAX_ROWS,
    ensures
        is_stable_order(keys@, order@),
{
    let column = Int64Chunked::from_vec(PlSmallStr::EMPTY, keys.clone());
    let options = SortOptions::default().with_maintain_order(true);
    column.arg_sort(options).into_no_null_iter().map(|position| position as usize).collect()
}

/// The positions of `keys` by ascending key, equal keys in the order in
/// which they were given.
pub fn stable_order(keys: &Vec<i64>) -> (order: Vec<usize>)
    requires
        keys@.len() <= MAX_ROWS,
    ensures
        is_stable_order(keys@, order@),
        order@ == stable_order_of(keys@),
{
    let order = arg_sort(keys);
    proof {
        lemma_stable_order_unique(keys@, order@, stable_order_of(keys@));
    }
    order
}

} // verus!
