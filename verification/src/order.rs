//! Stable ordering of items by an integer key, as `slice::sort_by_key` orders them.
use vstd::prelude::*;

verus! {

/// Inserts index `x` into `order` after every index whose key is not greater than the key of `x`,
/// scanning from the back: the step of a stable insertion sort.
pub open spec fn insert_stable(order: Seq<usize>, keys: Seq<i128>, x: usize) -> Seq<usize>
    decreases order.len(),
{
    if order.len() == 0 {
        seq![x]
    } else if keys[order.last() as int] <= keys[x as int] {
        order.push(x)
    } else {
        insert_stable(order.drop_last(), keys, x).push(order.last())
    }
}

/// The indices `0..n` of `keys.take(n)` in stable ascending order of their keys.
pub open spec fn stable_order_prefix(keys: Seq<i128>, n: nat) -> Seq<usize>
    decreases n,
{
    if n == 0 {
        Seq::<usize>::empty()
    } else {
        insert_stable(stable_order_prefix(keys, (n - 1) as nat), keys, (n - 1) as usize)
    }
}

/// The indices of `keys` in stable ascending order of their keys: indices with equal keys keep
/// their relative order.
pub open spec fn stable_order(keys: Seq<i128>) -> Seq<usize> {
    stable_order_prefix(keys, keys.len())
}

proof fn lemma_insert_stable_split(order: Seq<usize>, keys: Seq<i128>, x: usize, p: int)
    requires
        0 <= p < order.len(),
        keys[order[p] as int] > keys[x as int],
    ensures
        insert_stable(order.take(p + 1), keys, x) + order.skip(p + 1) == insert_stable(
            order.take(p),
            keys,
            x,
        ) + order.skip(p),
{
    let t = order.take(p + 1);
    assert(t.drop_last() =~= order.take(p));
    assert(t.last() == order[p]);
    assert(insert_stable(t, keys, x) == insert_stable(order.take(p), keys, x).push(order[p]));
    assert(order.skip(p) =~= seq![order[p]] + order.skip(p + 1));
    assert(insert_stable(order.take(p), keys, x).push(order[p]) + order.skip(p + 1) =~= insert_stable(
        order.take(p),
        keys,
        x,
    ) + (seq![order[p]] + order.skip(p + 1)));
}

/// Indices of `keys` in stable ascending key order.
pub fn stable_order_by_key(keys: &Vec<i128>) -> (order: Vec<usize>)
    ensures
        order@ == stable_order(keys@),
        order@.len() == keys@.len(),
        forall|i: int| 0 <= i < order@.len() ==> order@[i] < keys@.len(),
{
    let n = keys.len();
    let mut order: Vec<usize> = Vec::new();
    for x in 0..n
        invariant
            n == keys@.len(),
            order@ == stable_order_prefix(keys@, x as nat),
            order@.len() == x,
            forall|i: int| 0 <= i < order@.len() ==> order@[i] < x,
    {
        let ghost old_order = order@;
        let mut p = order.len();
        proof {
            assert(old_order.take(p as int) =~= old_order);
            assert(old_order.skip(p as int) =~= Seq::<usize>::empty());
        }
        while p > 0 && keys[order[p - 1]] > keys[x]
            invariant
                n == keys@.len(),
                x < n,
                order@ == old_order,
                p <= order@.len(),
                forall|i: int| 0 <= i < order@.len() ==> order@[i] < x,
                insert_stable(old_order, keys@, x) == insert_stable(
                    old_order.take(p as int),
                    keys@,
                    x,
                ) + old_order.skip(p as int),
            decreases p,
        {
            proof {
                lemma_insert_stable_split(old_order, keys@, x, p - 1);
            }
            p = p - 1;
        }
        proof {
            let t = old_order.take(p as int);
            if p > 0 {
                assert(t.last() == old_order[p - 1]);
            }
            assert(insert_stable(t, keys@, x) == t.push(x));
            assert(old_order.insert(p as int, x) =~= t.push(x) + old_order.skip(p as int));
        }
        order.insert(p, x);
        proof {
            assert forall|i: int| 0 <= i < order@.len() implies order@[i] < x + 1 by {
                if i < p {
                    assert(order@[i] == old_order[i]);
                } else if i > p {
                    assert(order@[i] == old_order[i - 1]);
                }
            }
        }
    }
    order
}

/// The indices are in ascending order of their keys.
pub open spec fn sorted_by_key(order: Seq<usize>, keys: Seq<i128>) -> bool {
    forall|i: int, j: int|
        0 <= i < j < order.len() ==> keys[#[trigger] order[i] as int] <= keys[#[trigger] order[j] as int]
}

proof fn lemma_insert_stable_elements(order: Seq<usize>, keys: Seq<i128>, x: usize)
    ensures
        insert_stable(order, keys, x).len() == order.len() + 1,
        forall|i: int|
            0 <= i < insert_stable(order, keys, x).len() ==> (#[trigger] insert_stable(
                order,
                keys,
                x,
            )[i] == x || order.contains(insert_stable(order, keys, x)[i])),
        forall|i: int| 0 <= i < order.len() ==> insert_stable(order, keys, x).contains(#[trigger] order[i]),
        insert_stable(order, keys, x).contains(x),
    decreases order.len(),
{
    let r = insert_stable(order, keys, x);
    if order.len() == 0 {
        assert(r[0] == x);
    } else if keys[order.last() as int] <= keys[x as int] {
        assert forall|i: int| 0 <= i < order.len() implies r.contains(#[trigger] order[i]) by {
            assert(r[i] == order[i]);
        }
        assert(r[order.len() as int] == x);
    } else {
        let d = order.drop_last();
        lemma_insert_stable_elements(d, keys, x);
        let rd = insert_stable(d, keys, x);
        assert(r == rd.push(order.last()));
        assert forall|i: int| 0 <= i < r.len() implies (#[trigger] r[i] == x || order.contains(r[i])) by {
            if i < rd.len() {
                assert(r[i] == rd[i]);
                if rd[i] != x {
                    let k = choose|k: int| 0 <= k < d.len() && d[k] == rd[i];
                    assert(order[k] == rd[i]);
                }
            } else {
                assert(r[i] == order[order.len() - 1]);
            }
        }
        assert forall|i: int| 0 <= i < order.len() implies r.contains(#[trigger] order[i]) by {
            if i < d.len() {
                assert(d[i] == order[i]);
                let k = choose|k: int| 0 <= k < rd.len() && rd[k] == order[i];
                assert(r[k] == order[i]);
            } else {
                assert(r[r.len() - 1] == order[i]);
            }
        }
        let k = choose|k: int| 0 <= k < rd.len() && rd[k] == x;
        assert(r[k] == x);
    }
}

proof fn lemma_insert_stable_sorted(order: Seq<usize>, keys: Seq<i128>, x: usize)
    requires
        sorted_by_key(order, keys),
        forall|i: int| 0 <= i < order.len() ==> (#[trigger] order[i]) < keys.len(),
        x < keys.len(),
    ensures
        sorted_by_key(insert_stable(order, keys, x), keys),
    decreases order.len(),
{
    let r = insert_stable(order, keys, x);
    if order.len() == 0 {
    } else if keys[order.last() as int] <= keys[x as int] {
        assert forall|i: int, j: int| 0 <= i < j < r.len() implies keys[#[trigger] r[i] as int]
            <= keys[#[trigger] r[j] as int] by {
            if j == order.len() {
                assert(r[i] == order[i]);
                if i < order.len() - 1 {
                    assert(keys[order[i] as int] <= keys[order[order.len() - 1] as int]);
                }
            } else {
                assert(r[i] == order[i] && r[j] == order[j]);
            }
        }
    } else {
        let d = order.drop_last();
        let last = order.last();
        assert(sorted_by_key(d, keys)) by {
            assert forall|i: int, j: int| 0 <= i < j < d.len() implies keys[#[trigger] d[i] as int]
                <= keys[#[trigger] d[j] as int] by {
                assert(d[i] == order[i] && d[j] == order[j]);
            }
        }
        lemma_insert_stable_sorted(d, keys, x);
        lemma_insert_stable_elements(d, keys, x);
        let rd = insert_stable(d, keys, x);
        assert(r == rd.push(last));
        assert forall|i: int, j: int| 0 <= i < j < r.len() implies keys[#[trigger] r[i] as int]
            <= keys[#[trigger] r[j] as int] by {
            if j < rd.len() {
                assert(r[i] == rd[i] && r[j] == rd[j]);
            } else {
                assert(r[i] == rd[i]);
                assert(r[j] == last);
                if rd[i] != x {
                    let k = choose|k: int| 0 <= k < d.len() && d[k] == rd[i];
                    assert(order[k] == rd[i]);
                    assert(keys[order[k] as int] <= keys[order[order.len() - 1] as int]);
                }
            }
        }
    }
}

/// `order` holds each index below `n` once, and nothing else.
pub open spec fn indexes_exactly(order: Seq<usize>, n: nat) -> bool {
    &&& order.len() == n
    &&& order.no_duplicates()
    &&& forall|i: int| 0 <= i < order.len() ==> (#[trigger] order[i]) < n
    &&& forall|k: usize| k < n ==> order.contains(k)
}

proof fn lemma_insert_stable_distinct(order: Seq<usize>, keys: Seq<i128>, x: usize)
    requires
        order.no_duplicates(),
        !order.contains(x),
    ensures
        insert_stable(order, keys, x).no_duplicates(),
    decreases order.len(),
{
    let r = insert_stable(order, keys, x);
    if order.len() == 0 {
    } else if keys[order.last() as int] <= keys[x as int] {
        assert forall|i: int, j: int| 0 <= i < j < r.len() implies r[i] != r[j] by {
            if j == order.len() {
                assert(r[i] == order[i]);
            } else {
                assert(r[i] == order[i] && r[j] == order[j]);
            }
        }
    } else {
        let d = order.drop_last();
        let last = order.last();
        assert(d.no_duplicates()) by {
            assert forall|i: int, j: int| 0 <= i < j < d.len() implies d[i] != d[j] by {
                assert(d[i] == order[i] && d[j] == order[j]);
            }
        }
        assert(!d.contains(x)) by {
            if d.contains(x) {
                let k = choose|k: int| 0 <= k < d.len() && d[k] == x;
                assert(order[k] == x);
            }
        }
        lemma_insert_stable_distinct(d, keys, x);
        lemma_insert_stable_elements(d, keys, x);
        let rd = insert_stable(d, keys, x);
        assert(r == rd.push(last));
        assert forall|i: int| 0 <= i < rd.len() implies rd[i] != last by {
            if rd[i] != x {
                let k = choose|k: int| 0 <= k < d.len() && d[k] == rd[i];
                assert(order[k] == rd[i]);
                assert(order[order.len() - 1] == last);
            } else {
                assert(order[order.len() - 1] == last);
            }
        }
        assert forall|i: int, j: int| 0 <= i < j < r.len() implies r[i] != r[j] by {
            if j < rd.len() {
                assert(r[i] == rd[i] && r[j] == rd[j]);
            } else {
                assert(r[i] == rd[i]);
            }
        }
    }
}

proof fn lemma_stable_order_prefix(keys: Seq<i128>, n: nat)
    requires
        n <= keys.len(),
        n <= usize::MAX,
    ensures
        sorted_by_key(stable_order_prefix(keys, n), keys),
        indexes_exactly(stable_order_prefix(keys, n), n),
    decreases n,
{
    if n > 0 {
        let m = (n - 1) as nat;
        lemma_stable_order_prefix(keys, m);
        let o = stable_order_prefix(keys, m);
        let x = (n - 1) as usize;
        lemma_insert_stable_sorted(o, keys, x);
        lemma_insert_stable_elements(o, keys, x);
        assert(!o.contains(x)) by {
            if o.contains(x) {
                let k = choose|k: int| 0 <= k < o.len() && o[k] == x;
                assert(o[k] < m);
            }
        }
        lemma_insert_stable_distinct(o, keys, x);
        let r = stable_order_prefix(keys, n);
        assert(r == insert_stable(o, keys, x));
        assert forall|i: int| 0 <= i < r.len() implies (#[trigger] r[i]) < n by {
            if r[i] != x {
                let k = choose|k: int| 0 <= k < o.len() && o[k] == r[i];
                assert(o[k] < m);
            }
        }
        assert forall|k: usize| k < n implies r.contains(k) by {
            if k < m {
                assert(o.contains(k));
                let j = choose|j: int| 0 <= j < o.len() && o[j] == k;
                assert(r.contains(o[j]));
            }
        }
    }
}

/// The stable order lists every index once, in ascending order of key.
pub proof fn lemma_stable_order_sorted(keys: Seq<i128>)
    requires
        keys.len() <= usize::MAX,
    ensures
        sorted_by_key(stable_order(keys), keys),
        indexes_exactly(stable_order(keys), keys.len()),
{
    lemma_stable_order_prefix(keys, keys.len());
}

} // verus!
