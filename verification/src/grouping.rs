//! Stable grouping of the positions of a list by the key found there.
//!
//! For keys below `n` the grouping consists of an index `point` of `n + 1`
//! offsets and a list `order` of all positions: the positions that hold key
//! `k` stand in `order` from `point[k]` up to `point[k + 1]`, smallest first.

use crate::{filled, NodeId, NodeVec};
use vstd::prelude::*;

verus! {

/// The positions of `keys` that hold `k`, smallest first.
pub open spec fn positions_of(keys: Seq<NodeId>, k: int) -> Seq<int>
    decreases keys.len(),
{
    if keys.len() == 0 {
        Seq::empty()
    } else {
        let rest = positions_of(keys.drop_last(), k);
        if keys.last() == k {
            rest.push(keys.len() - 1)
        } else {
            rest
        }
    }
}

/// How many positions of `keys` hold a key smaller than `k`.
pub open spec fn count_below(keys: Seq<NodeId>, k: nat) -> nat
    decreases k,
{
    if k == 0 {
        0
    } else {
        count_below(keys, (k - 1) as nat) + positions_of(keys, k - 1).len()
    }
}

/// `point` and `order` group the positions of `keys` by key, for keys below `n`.
pub open spec fn is_grouping(keys: Seq<NodeId>, n: nat, point: Seq<NodeId>, order: Seq<NodeId>) -> bool {
    &&& point.len() == n + 1
    &&& order.len() == keys.len()
    &&& forall|k: int| 0 <= k <= n ==> #[trigger] point[k] == count_below(keys, k as nat)
    &&& forall|k: int, r: int|
        0 <= k < n && 0 <= r < positions_of(keys, k).len() ==> order[point[k] + r]
            == #[trigger] positions_of(keys, k)[r]
}

/// Every key of `keys` is below `n`.
pub open spec fn keys_below(keys: Seq<NodeId>, n: nat) -> bool {
    forall|a: int| 0 <= a < keys.len() ==> #[trigger] keys[a] < n
}

/// Extending a prefix by one position adds that position to the list of its key.
pub proof fn lemma_positions_step(keys: Seq<NodeId>, t: int, k: int)
    requires
        0 <= t < keys.len(),
    ensures
        positions_of(keys.subrange(0, t + 1), k) == if keys[t] == k {
            positions_of(keys.subrange(0, t), k).push(t)
        } else {
            positions_of(keys.subrange(0, t), k)
        },
{
    assert(keys.subrange(0, t + 1).drop_last() =~= keys.subrange(0, t));
}

/// The positions found in a prefix are the first of those found in the whole list.
pub proof fn lemma_positions_prefix(keys: Seq<NodeId>, t: int, k: int)
    requires
        0 <= t <= keys.len(),
    ensures
        positions_of(keys.subrange(0, t), k).len() <= positions_of(keys, k).len(),
        forall|r: int|
            0 <= r < positions_of(keys.subrange(0, t), k).len() ==> positions_of(
                keys.subrange(0, t),
                k,
            )[r] == #[trigger] positions_of(keys, k)[r],
    decreases keys.len() - t,
{
    if t == keys.len() {
        assert(keys.subrange(0, t) =~= keys);
    } else {
        lemma_positions_prefix(keys, t + 1, k);
        lemma_positions_step(keys, t, k);
    }
}

/// Each listed position lies in the list and holds the key; the listing is
/// strictly increasing.
pub proof fn lemma_positions_sound(keys: Seq<NodeId>, k: int)
    ensures
        positions_of(keys, k).len() <= keys.len(),
        forall|r: int|
            0 <= r < positions_of(keys, k).len() ==> 0 <= #[trigger] positions_of(keys, k)[r]
                < keys.len() && keys[positions_of(keys, k)[r]] == k,
        forall|r: int, s: int|
            0 <= r < s < positions_of(keys, k).len() ==> #[trigger] positions_of(keys, k)[r]
                < #[trigger] positions_of(keys, k)[s],
    decreases keys.len(),
{
    if keys.len() > 0 {
        lemma_positions_sound(keys.drop_last(), k);
    }
}

/// Every position that holds `k` is listed.
pub proof fn lemma_positions_complete(keys: Seq<NodeId>, k: int, a: int)
    requires
        0 <= a < keys.len(),
        keys[a] == k,
    ensures
        positions_of(keys, k).contains(a),
    decreases keys.len(),
{
    let rest = positions_of(keys.drop_last(), k);
    if a == keys.len() - 1 {
        assert(positions_of(keys, k) == rest.push(a));
        assert(rest.push(a)[rest.len() as int] == a);
    } else {
        lemma_positions_complete(keys.drop_last(), k, a);
        let r = choose|r: int| 0 <= r < rest.len() && rest[r] == a;
        assert(positions_of(keys, k)[r] == a);
    }
}

proof fn lemma_count_below_empty(n: nat)
    ensures
        count_below(Seq::<NodeId>::empty(), n) == 0,
    decreases n,
{
    if n > 0 {
        lemma_count_below_empty((n - 1) as nat);
    }
}

proof fn lemma_count_below_drop_last(keys: Seq<NodeId>, n: nat)
    requires
        keys.len() > 0,
    ensures
        count_below(keys, n) == count_below(keys.drop_last(), n) + if keys.last() < n {
            1nat
        } else {
            0nat
        },
    decreases n,
{
    if n > 0 {
        lemma_count_below_drop_last(keys, (n - 1) as nat);
    }
}

/// With every key below `n`, the groups together hold every position.
pub proof fn lemma_count_below_total(keys: Seq<NodeId>, n: nat)
    requires
        keys_below(keys, n),
    ensures
        count_below(keys, n) == keys.len(),
    decreases keys.len(),
{
    if keys.len() == 0 {
        assert(keys =~= Seq::<NodeId>::empty());
        lemma_count_below_empty(n);
    } else {
        let rest = keys.drop_last();
        assert(keys_below(rest, n)) by {
            assert forall|a: int| 0 <= a < rest.len() implies #[trigger] rest[a] < n by {
                assert(rest[a] == keys[a]);
            }
        }
        lemma_count_below_total(rest, n);
        lemma_count_below_drop_last(keys, n);
        assert(keys.last() == keys[keys.len() - 1]);
    }
}

/// The offsets of the groups do not decrease.
pub proof fn lemma_count_below_monotone(keys: Seq<NodeId>, a: nat, b: nat)
    requires
        a <= b,
    ensures
        count_below(keys, a) <= count_below(keys, b),
    decreases b,
{
    if a < b {
        lemma_count_below_monotone(keys, a, (b - 1) as nat);
    }
}

/// What a grouping says of its offsets: they start at zero, end at the
/// number of positions and rise by the size of each group.
pub proof fn lemma_grouping_offsets(keys: Seq<NodeId>, n: nat, point: Seq<NodeId>, order: Seq<NodeId>)
    requires
        keys_below(keys, n),
        is_grouping(keys, n, point, order),
    ensures
        point[0] == 0,
        point[n as int] == keys.len(),
        forall|k: int|
            #![trigger positions_of(keys, k)]
            0 <= k < n ==> point[k] + positions_of(keys, k).len() == point[k + 1],
        forall|a: int, b: int| 0 <= a <= b <= n ==> #[trigger] point[a] <= #[trigger] point[b],
{
    lemma_count_below_total(keys, n);
    assert(point[0] == count_below(keys, 0));
    assert(point[n as int] == count_below(keys, n));
    assert forall|k: int| #![trigger positions_of(keys, k)] 0 <= k < n implies point[k]
        + positions_of(keys, k).len() == point[k + 1] by {
        assert(point[k + 1] == count_below(keys, (k + 1) as nat));
    }
    assert forall|a: int, b: int| 0 <= a <= b <= n implies #[trigger] point[a]
        <= #[trigger] point[b] by {
        lemma_count_below_monotone(keys, a as nat, b as nat);
    }
}

/// Groups the positions of `keys` by key, keeping within each group the order
/// of the positions.
pub fn group_by_key(keys: &Vec<NodeId>, n: usize) -> (r: (NodeVec, NodeVec))
    requires
        n <= u32::MAX,
        keys.len() <= u32::MAX,
        keys_below(keys@, n as nat),
    ensures
        is_grouping(keys@, n as nat, r.0@, r.1@),
        forall|a: int| 0 <= a < r.1.len() ==> #[trigger] r.1[a] < keys.len(),
{
    let m = keys.len();
    let mut count: Vec<usize> = filled(0, n);
    let mut t: usize = 0;
    while t < m
        invariant
            t <= m,
            m == keys.len(),
            count.len() == n,
            keys_below(keys@, n as nat),
            forall|j: int|
                0 <= j < n ==> #[trigger] count[j] == positions_of(
                    keys@.subrange(0, t as int),
                    j,
                ).len(),
        decreases m - t,
    {
        let key = keys[t] as usize;
        proof {
            lemma_positions_sound(keys@.subrange(0, t as int), key as int);
            assert forall|j: int| 0 <= j < n implies positions_of(
                keys@.subrange(0, t + 1),
                j,
            ).len() == if j == key {
                count[j] + 1
            } else {
                count[j] as int
            } by {
                lemma_positions_step(keys@, t as int, j);
            }
        }
        let c = count[key];
        count.set(key, c + 1);
        t += 1;
    }
    proof {
        assert(keys@.subrange(0, m as int) =~= keys@);
        lemma_count_below_total(keys@, n as nat);
    }
    let mut point: NodeVec = Vec::new();
    let mut next: Vec<usize> = Vec::new();
    let mut acc: usize = 0;
    let mut k: usize = 0;
    while k < n
        invariant
            k <= n,
            n <= u32::MAX,
            m == keys.len(),
            m <= u32::MAX,
            count.len() == n,
            point.len() == k,
            next.len() == k,
            acc == count_below(keys@, k as nat),
            count_below(keys@, n as nat) == m,
            forall|j: int| 0 <= j < n ==> #[trigger] count[j] == positions_of(keys@, j).len(),
            forall|j: int| 0 <= j < k ==> #[trigger] point[j] == count_below(keys@, j as nat),
            forall|j: int| 0 <= j < k ==> #[trigger] next[j] == count_below(keys@, j as nat),
        decreases n - k,
    {
        proof {
            lemma_count_below_monotone(keys@, k as nat, n as nat);
            lemma_count_below_monotone(keys@, (k + 1) as nat, n as nat);
        }
        point.push(acc as u32);
        next.push(acc);
        acc = acc + count[k];
        k += 1;
    }
    point.push(acc as u32);
    let mut order: NodeVec = filled(0, m);
    let mut t: usize = 0;
    while t < m
        invariant
            t <= m,
            n <= u32::MAX,
            m == keys.len(),
            m <= u32::MAX,
            keys_below(keys@, n as nat),
            point.len() == n + 1,
            next.len() == n,
            order.len() == m,
            forall|a: int| 0 <= a < m ==> #[trigger] order[a] < m,
            count_below(keys@, n as nat) == m,
            forall|j: int| 0 <= j <= n ==> #[trigger] point[j] == count_below(keys@, j as nat),
            forall|j: int|
                0 <= j < n ==> #[trigger] next[j] == point[j] + positions_of(
                    keys@.subrange(0, t as int),
                    j,
                ).len(),
            forall|j: int, r: int|
                0 <= j < n && 0 <= r < positions_of(keys@.subrange(0, t as int), j).len()
                    ==> order[point[j] + r] == #[trigger] positions_of(keys@, j)[r],
        decreases m - t,
    {
        let key = keys[t] as usize;
        let pos = next[key];
        let ghost before = keys@.subrange(0, t as int);
        let ghost after = keys@.subrange(0, t + 1);
        let ghost order_before = order@;
        proof {
            lemma_positions_step(keys@, t as int, key as int);
            lemma_positions_prefix(keys@, t + 1, key as int);
            assert(point[key + 1] == count_below(keys@, (key + 1) as nat));
            assert(point[key as int] == count_below(keys@, key as nat));
            lemma_count_below_monotone(keys@, (key + 1) as nat, n as nat);
            assert(pos < m);
        }
        order.set(pos, t as u32);
        next.set(key, pos + 1);
        proof {
            assert forall|j: int| 0 <= j < n implies #[trigger] next[j] == point[j] + positions_of(
                after,
                j,
            ).len() by {
                lemma_positions_step(keys@, t as int, j);
            }
            assert forall|j: int, r: int|
                0 <= j < n && 0 <= r < positions_of(after, j).len() implies order[point[j] + r]
                == #[trigger] positions_of(keys@, j)[r] by {
                lemma_positions_step(keys@, t as int, j);
                lemma_positions_prefix(keys@, t as int, j);
                lemma_positions_prefix(keys@, t + 1, j);
                assert(point[j] == count_below(keys@, j as nat));
                assert(point[j + 1] == count_below(keys@, (j + 1) as nat));
                if j == key && r == positions_of(before, j).len() {
                    assert(positions_of(after, j)[r] == t);
                    assert(point[j] + r == pos);
                } else {
                    assert(r < positions_of(before, j).len());
                    if j < key {
                        lemma_count_below_monotone(keys@, (j + 1) as nat, key as nat);
                    } else if j > key {
                        lemma_count_below_monotone(keys@, (key + 1) as nat, j as nat);
                    }
                    lemma_count_below_monotone(keys@, (j + 1) as nat, n as nat);
                    assert(0 <= point[j] + r < m);
                    assert(point[j] + r != pos);
                    assert(order@ == order_before.update(pos as int, t as u32));
                    assert(order[point[j] + r] == order_before[point[j] + r]);
                }
            }
        }
        t += 1;
    }
    proof {
        assert(keys@.subrange(0, m as int) =~= keys@);
    }
    (point, order)
}

} // verus!
