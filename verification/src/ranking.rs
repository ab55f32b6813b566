//! Ranking by a key: the order in which a stable sort leaves the items.

use vstd::prelude::*;

verus! {

/// Item `i` comes before item `j`: its key is smaller, or the keys are
/// equal and `i` is the earlier of the two.
pub open spec fn ranks_before(key: spec_fn(int) -> int, i: int, j: int) -> bool {
    key(i) < key(j) || (key(i) == key(j) && i < j)
}

/// Item `i` stands somewhere in `order`.
pub open spec fn listed(order: Seq<usize>, i: int) -> bool {
    exists|a: int| 0 <= a < order.len() && #[trigger] order[a] == i
}

/// `order` lists each of the items `0 .. n` once, by ascending key, items
/// of equal key in their first order.
pub open spec fn is_ranking(n: int, key: spec_fn(int) -> int, order: Seq<usize>) -> bool {
    &&& order.len() == n
    &&& forall|a: int| 0 <= a < order.len() ==> 0 <= #[trigger] order[a] < n
    &&& forall|i: int| 0 <= i < n ==> #[trigger] listed(order, i)
    &&& forall|a: int, b: int|
        0 <= a < b < order.len() ==> ranks_before(key, #[trigger] order[a] as int, #[trigger] order[b] as int)
}

/// The ranking of the items `0 .. n` by `key`.
pub open spec fn ranking(n: int, key: spec_fn(int) -> int) -> Seq<usize> {
    choose|order: Seq<usize>| is_ranking(n, key, order)
}

/// A ranking by one key is a ranking by every key that has the same value
/// on each item.
pub proof fn lemma_ranking_by_equal_keys(
    n: int,
    key: spec_fn(int) -> int,
    other: spec_fn(int) -> int,
    order: Seq<usize>,
)
    requires
        is_ranking(n, key, order),
        forall|i: int| 0 <= i < n ==> #[trigger] key(i) == other(i),
    ensures
        is_ranking(n, other, order),
{
    assert forall|i: int| 0 <= i < n implies #[trigger] listed(order, i) by {
        assert(listed(order, i));
    }
    assert forall|a: int, b: int| 0 <= a < b < order.len() implies ranks_before(
        other,
        #[trigger] order[a] as int,
        #[trigger] order[b] as int,
    ) by {
        assert(ranks_before(key, order[a] as int, order[b] as int));
    }
}

/// No item occurs twice in a ranking.
pub proof fn lemma_ranking_is_injective(n: int, key: spec_fn(int) -> int, order: Seq<usize>, a: int, b: int)
    requires
        is_ranking(n, key, order),
        0 <= a < order.len(),
        0 <= b < order.len(),
        order[a] == order[b],
    ensures
        a == b,
{
    if a < b {
        assert(ranks_before(key, order[a] as int, order[b] as int));
    }
    if b < a {
        assert(ranks_before(key, order[b] as int, order[a] as int));
    }
}

/// Two rankings of the same items by the same key agree at every place.
proof fn lemma_rankings_agree(n: int, key: spec_fn(int) -> int, first: Seq<usize>, second: Seq<usize>, a: int)
    requires
        is_ranking(n, key, first),
        is_ranking(n, key, second),
        0 <= a < n,
    ensures
        first[a] == second[a],
    decreases a,
{
    // The places below `a` agree.
    assert forall|c: int| 0 <= c < a implies first[c] == second[c] by {
        lemma_rankings_agree(n, key, first, second, c);
    }
    let x = first[a] as int;
    let y = second[a] as int;
    if x != y {
        if ranks_before(key, x, y) {
            lemma_no_room(n, key, second, first, a);
        } else {
            lemma_no_room(n, key, first, second, a);
        }
    }
}

/// Where two rankings agree below place `a`, the item that `other` has at
/// `a` does not come before the item that `this` has there: it would stand
/// in `this` below `a`, and so in `other` twice.
proof fn lemma_no_room(n: int, key: spec_fn(int) -> int, this: Seq<usize>, other: Seq<usize>, a: int)
    requires
        is_ranking(n, key, this),
        is_ranking(n, key, other),
        0 <= a < n,
        forall|c: int| 0 <= c < a ==> this[c] == other[c],
    ensures
        !ranks_before(key, other[a] as int, this[a] as int),
{
    let x = other[a] as int;
    if ranks_before(key, x, this[a] as int) {
        assert(listed(this, x));
        let b = choose|b: int| 0 <= b < this.len() && #[trigger] this[b] == x;
        if b > a {
            assert(ranks_before(key, this[a] as int, this[b] as int));
        }
        assert(b < a);
        assert(other[b] == x);
        lemma_ranking_is_injective(n, key, other, a, b);
    }
}

/// Only one list is the ranking of the items `0 .. n` by `key`.
pub proof fn lemma_ranking_is_unique(n: int, key: spec_fn(int) -> int, order: Seq<usize>)
    requires
        is_ranking(n, key, order),
    ensures
        order == ranking(n, key),
{
    let other = ranking(n, key);
    assert(is_ranking(n, key, other));
    assert forall|a: int| 0 <= a < n implies order[a] == other[a] by {
        lemma_rankings_agree(n, key, order, other, a);
    }
    assert(order =~= other);
}

/// The place at which an item of key `k` that comes after all items of
/// `order` is put in: behind the last item whose key is not above `k`.
proof fn place_of_new_item(order: Seq<usize>, key: spec_fn(int) -> int, k: int, a: int) -> (pos: int)
    requires
        0 <= a <= order.len(),
        forall|b: int| a <= b < order.len() ==> key(#[trigger] order[b] as int) > k,
    ensures
        0 <= pos <= a,
        forall|b: int| pos <= b < order.len() ==> key(#[trigger] order[b] as int) > k,
        pos == 0 || key(order[pos - 1] as int) <= k,
    decreases a,
{
    if a == 0 || key(order[a - 1] as int) <= k {
        a
    } else {
        place_of_new_item(order, key, k, a - 1)
    }
}

/// A ranking of the items `0 .. n` by `key`, made item by item.
proof fn make_ranking(n: int, key: spec_fn(int) -> int) -> (order: Seq<usize>)
    requires
        0 <= n <= usize::MAX,
    ensures
        is_ranking(n, key, order),
    decreases n,
{
    if n == 0 {
        Seq::<usize>::empty()
    } else {
        let before = make_ranking(n - 1, key);
        let i = n - 1;
        let pos = place_of_new_item(before, key, key(i), before.len() as int);
        let order = before.insert(pos, i as usize);
        assert forall|a: int| 0 <= a < order.len() implies 0 <= #[trigger] order[a] < n by {
            if a < pos {
                assert(order[a] == before[a]);
            } else if a > pos {
                assert(order[a] == before[a - 1]);
            }
        }
        assert forall|j: int| 0 <= j < n implies #[trigger] listed(order, j) by {
            if j == i {
                assert(order[pos] == j);
            } else {
                assert(listed(before, j));
                let a = choose|a: int| 0 <= a < before.len() && #[trigger] before[a] == j;
                if a < pos {
                    assert(order[a] == j);
                } else {
                    assert(order[a + 1] == j);
                }
            }
        }
        assert forall|a: int, b: int| 0 <= a < b < order.len() implies ranks_before(
            key,
            #[trigger] order[a] as int,
            #[trigger] order[b] as int,
        ) by {
            if b < pos {
                assert(order[a] == before[a] && order[b] == before[b]);
            } else if b == pos {
                assert(order[a] == before[a]);
                if pos > 0 {
                    assert(ranks_before(key, before[a] as int, before[pos - 1] as int) || a == pos
                        - 1);
                }
            } else if a < pos {
                assert(order[a] == before[a] && order[b] == before[b - 1]);
            } else if a == pos {
                assert(order[b] == before[b - 1]);
            } else {
                assert(order[a] == before[a - 1] && order[b] == before[b - 1]);
            }
        }
        order
    }
}

/// There is a ranking of the items `0 .. n` by every key: `ranking` names
/// it.
pub proof fn lemma_ranking_exists(n: int, key: spec_fn(int) -> int)
    requires
        0 <= n <= usize::MAX,
    ensures
        is_ranking(n, key, ranking(n, key)),
{
    let order = make_ranking(n, key);
    assert(is_ranking(n, key, order));
}

/// The key of item `i` as a function of `i`.
pub open spec fn key_of(keys: Seq<u64>) -> spec_fn(int) -> int {
    |i: int| keys[i] as int
}

/// The indices of `keys` ranked by key: ascending, and equal keys in the
/// order in which they stand.
pub fn rank_by_key(keys: &Vec<u64>) -> (order: Vec<usize>)
    ensures
        is_ranking(keys@.len() as int, key_of(keys@), order@),
{
    let n: usize = keys.len();
    let mut order: Vec<usize> = Vec::new();
    let mut i: usize = 0;
    while i < n
        invariant
            n == keys@.len(),
            i <= n,
            order@.len() == i,
            forall|a: int| 0 <= a < order@.len() ==> 0 <= #[trigger] order@[a] < i,
            forall|j: int| 0 <= j < i ==> #[trigger] listed(order@, j),
            forall|a: int, b: int|
                0 <= a < b < order@.len() ==> ranks_before(
                    key_of(keys@),
                    #[trigger] order@[a] as int,
                    #[trigger] order@[b] as int,
                ),
        decreases n - i,
    {
        let key: u64 = keys[i];
        let mut pos: usize = i;
        while pos > 0 && keys[order[pos - 1]] > key
            invariant
                n == keys@.len(),
                i < n,
                key == keys@[i as int],
                order@.len() == i,
                pos <= i,
                forall|a: int| 0 <= a < order@.len() ==> 0 <= #[trigger] order@[a] < i,
                forall|a: int| pos <= a < order@.len() ==> keys@[#[trigger] order@[a] as int] > key,
            decreases pos,
        {
            pos = pos - 1;
        }
        let ghost old_order = order@;
        order.insert(pos, i);
        proof {
            assert forall|j: int| 0 <= j < i + 1 implies #[trigger] listed(order@, j) by {
                if j == i {
                    assert(order@[pos as int] == j);
                } else {
                    assert(listed(old_order, j));
                    let a = choose|a: int| 0 <= a < old_order.len() && #[trigger] old_order[a] == j;
                    if a < pos {
                        assert(order@[a] == j);
                    } else {
                        assert(order@[a + 1] == j);
                    }
                }
            }
            assert forall|a: int, b: int| 0 <= a < b < order@.len() implies ranks_before(
                key_of(keys@),
                #[trigger] order@[a] as int,
                #[trigger] order@[b] as int,
            ) by {
                if b < pos {
                    assert(order@[a] == old_order[a] && order@[b] == old_order[b]);
                } else if b == pos {
                    assert(order@[a] == old_order[a]);
                    if pos > 0 {
                        assert(ranks_before(
                            key_of(keys@),
                            old_order[a] as int,
                            old_order[pos - 1] as int,
                        ) || a == pos - 1);
                    }
                } else if a < pos {
                    assert(order@[a] == old_order[a] && order@[b] == old_order[b - 1]);
                } else if a == pos {
                    assert(order@[b] == old_order[b - 1]);
                } else {
                    assert(order@[a] == old_order[a - 1] && order@[b] == old_order[b - 1]);
                }
            }
        }
        i = i + 1;
    }
    order
}

} // verus!
