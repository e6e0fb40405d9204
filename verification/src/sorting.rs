//! Stable ordering by integer keys.
use vstd::prelude::*;

verus! {

/// `p[i]` comes no later than `p[j]` in the stable order of `keys`.
pub open spec fn stable_before(keys: Seq<i64>, a: usize, b: usize) -> bool {
    keys[a as int] < keys[b as int] || (keys[a as int] == keys[b as int] && a < b)
}

/// `p` lists every index of `keys` exactly once, ordered by key and, among
/// equal keys, by index (the order a stable sort produces).
pub open spec fn is_stable_order(keys: Seq<i64>, p: Seq<usize>) -> bool {
    &&& p.len() == keys.len()
    &&& forall|i: int| 0 <= i < p.len() ==> #[trigger] p[i] < keys.len()
    &&& forall|i: int, j: int| 0 <= i < j < p.len() ==> p[i] != p[j]
    &&& forall|i: int, j: int|
        0 <= i < j < p.len() ==> stable_before(keys, #[trigger] p[i], #[trigger] p[j])
}

/// Every index appears in a stable order.
pub proof fn lemma_stable_order_covers(keys: Seq<i64>, p: Seq<usize>, k: usize)
    requires
        is_stable_order(keys, p),
        k < keys.len(),
    ensures
        p.contains(k),
{
    lemma_distinct_cover(p, keys.len() as nat, k);
}

/// A duplicate-free list of `n` values below `n` holds every value below `n`.
proof fn lemma_distinct_cover(p: Seq<usize>, n: nat, k: usize)
    requires
        p.len() == n,
        forall|i: int| 0 <= i < p.len() ==> #[trigger] p[i] < n,
        forall|i: int, j: int| 0 <= i < j < p.len() ==> p[i] != p[j],
        k < n,
    ensures
        p.contains(k),
    decreases n,
{
    if !p.contains(k) {
        // the values of p avoid k, so they fit in n - 1 slots
        let q = Seq::new(n, |i: int| if p[i] > k { (p[i] - 1) as usize } else { p[i] });
        assert forall|i: int| 0 <= i < q.len() implies #[trigger] q[i] < n - 1 by {
            assert(p[i] != k);
        }
        assert forall|i: int, j: int| 0 <= i < j < q.len() implies q[i] != q[j] by {
            assert(p[i] != k && p[j] != k);
        }
        lemma_pigeonhole(q, (n - 1) as nat);
    }
}

/// Distinct values below `m` number at most `m`.
proof fn lemma_pigeonhole(q: Seq<usize>, m: nat)
    requires
        forall|i: int| 0 <= i < q.len() ==> #[trigger] q[i] < m,
        forall|i: int, j: int| 0 <= i < j < q.len() ==> q[i] != q[j],
    ensures
        q.len() <= m,
    decreases q.len(),
{
    if q.len() == 0 {
    } else if m == 0 {
        assert(q[0] < 0);
    } else {
        // drop the largest value m - 1 if present, otherwise any element
        let last = (m - 1) as usize;
        if q.contains(last) {
            let t = choose|t: int| 0 <= t < q.len() && q[t] == last;
            let r = q.remove(t);
            assert forall|i: int| 0 <= i < r.len() implies #[trigger] r[i] < m - 1 by {
                if i < t {
                    assert(r[i] == q[i]);
                } else {
                    assert(r[i] == q[i + 1]);
                }
            }
            assert forall|i: int, j: int| 0 <= i < j < r.len() implies r[i] != r[j] by {
                if j < t {
                } else if i < t {
                    assert(r[j] == q[j + 1]);
                } else {
                    assert(r[i] == q[i + 1] && r[j] == q[j + 1]);
                }
            }
            lemma_pigeonhole(r, (m - 1) as nat);
        } else {
            let r = q.drop_last();
            assert forall|i: int| 0 <= i < r.len() implies #[trigger] r[i] < m - 1 by {
                assert(q[i] != last);
            }
            lemma_pigeonhole(r, (m - 1) as nat);
        }
    }
}

/// Duplicate-free indices of `keys`, listed in stable key order.
pub open spec fn is_sorted_list(keys: Seq<i64>, p: Seq<usize>) -> bool {
    &&& forall|i: int| 0 <= i < p.len() ==> #[trigger] p[i] < keys.len()
    &&& forall|i: int, j: int| 0 <= i < j < p.len() ==> p[i] != p[j]
    &&& forall|i: int, j: int|
        0 <= i < j < p.len() ==> stable_before(keys, #[trigger] p[i], #[trigger] p[j])
}

/// Two stably ordered lists of the same indices are equal.
pub proof fn lemma_sorted_list_unique(keys: Seq<i64>, p: Seq<usize>, q: Seq<usize>)
    requires
        is_sorted_list(keys, p),
        is_sorted_list(keys, q),
        forall|x: usize| p.contains(x) <==> q.contains(x),
    ensures
        p == q,
    decreases p.len(),
{
    if p.len() == 0 {
        if q.len() > 0 {
            assert(q.contains(q[0]));
        }
        assert(p =~= q);
    } else {
        assert(p.contains(p[0]));
        let t = choose|t: int| 0 <= t < q.len() && q[t] == p[0];
        assert(q.contains(q[0]));
        let s = choose|s: int| 0 <= s < p.len() && p[s] == q[0];
        if t > 0 && s > 0 {
            assert(stable_before(keys, p[0], p[s]));
            assert(stable_before(keys, q[0], q[t]));
        }
        assert(p[0] == q[0]);
        let p1 = p.drop_first();
        let q1 = q.drop_first();
        assert forall|x: usize| p1.contains(x) <==> q1.contains(x) by {
            if p1.contains(x) {
                let a = choose|a: int| 0 <= a < p1.len() && p1[a] == x;
                assert(p[a + 1] == x);
                assert(x != p[0]);
                assert(q.contains(x));
                let b = choose|b: int| 0 <= b < q.len() && q[b] == x;
                assert(b != 0);
                assert(q1[b - 1] == x);
            }
            if q1.contains(x) {
                let a = choose|a: int| 0 <= a < q1.len() && q1[a] == x;
                assert(q[a + 1] == x);
                assert(x != q[0]);
                assert(p.contains(x));
                let b = choose|b: int| 0 <= b < p.len() && p[b] == x;
                assert(b != 0);
                assert(p1[b - 1] == x);
            }
        }
        assert forall|i: int, j: int| 0 <= i < j < p1.len() implies stable_before(
            keys,
            #[trigger] p1[i],
            #[trigger] p1[j],
        ) by {
            assert(p1[i] == p[i + 1] && p1[j] == p[j + 1]);
        }
        assert forall|i: int, j: int| 0 <= i < j < q1.len() implies stable_before(
            keys,
            #[trigger] q1[i],
            #[trigger] q1[j],
        ) by {
            assert(q1[i] == q[i + 1] && q1[j] == q[j + 1]);
        }
        lemma_sorted_list_unique(keys, p1, q1);
        assert(p.len() == q.len());
        assert forall|i: int| 0 <= i < p.len() implies p[i] == q[i] by {
            if i > 0 {
                assert(p[i] == p1[i - 1] && q[i] == q1[i - 1]);
            }
        }
        assert(p =~= q);
    }
}

/// The stable order of `keys`.
pub open spec fn stable_order_of(keys: Seq<i64>) -> Seq<usize> {
    choose|p: Seq<usize>| is_stable_order(keys, p)
}

/// A stable order is the stable order.
pub proof fn lemma_stable_order_is(keys: Seq<i64>, p: Seq<usize>)
    requires
        is_stable_order(keys, p),
    ensures
        stable_order_of(keys) == p,
{
    let q = stable_order_of(keys);
    assert(is_stable_order(keys, q));
    assert forall|x: usize| p.contains(x) <==> q.contains(x) by {
        if p.contains(x) {
            lemma_stable_order_covers(keys, q, x);
        }
        if q.contains(x) {
            lemma_stable_order_covers(keys, p, x);
        }
    }
    lemma_sorted_list_unique(keys, p, q);
}

/// `s` rearranged by the index list `p`.
pub open spec fn permute<T>(s: Seq<T>, p: Seq<usize>) -> Seq<T> {
    Seq::new(p.len(), |i: int| s[p[i] as int])
}

/// The positions of `keys` in stable ascending order of key.
pub fn stable_order(keys: &Vec<i64>) -> (p: Vec<usize>)
    ensures
        is_stable_order(keys@, p@),
        p@ == stable_order_of(keys@),
{
    let n = keys.len();
    let mut p: Vec<usize> = Vec::new();
    let mut i: usize = 0;
    while i < n
        invariant
            n == keys@.len(),
            i <= n,
            p@.len() == i,
            forall|a: int| 0 <= a < p@.len() ==> #[trigger] p@[a] < i,
            forall|a: int, b: int| 0 <= a < b < p@.len() ==> p@[a] != p@[b],
            forall|a: int, b: int|
                0 <= a < b < p@.len() ==> stable_before(keys@, #[trigger] p@[a], #[trigger] p@[b]),
        decreases n - i,
    {
        let ki = keys[i];
        let mut pos: usize = p.len();
        while pos > 0 && keys[p[pos - 1]] > ki
            invariant
                n == keys@.len(),
                i < n,
                ki == keys@[i as int],
                pos <= p@.len(),
                forall|a: int| 0 <= a < p@.len() ==> #[trigger] p@[a] < i,
                forall|a: int| pos <= a < p@.len() ==> keys@[#[trigger] p@[a] as int] > ki,
            decreases pos,
        {
            pos = pos - 1;
        }
        let ghost p0 = p@;
        p.insert(pos, i);
        proof {
            assert(p@ == p0.insert(pos as int, i));
            assert forall|a: int| 0 <= a < p@.len() implies #[trigger] p@[a] < i + 1 by {
                if a < pos {
                    assert(p@[a] == p0[a]);
                } else if a > pos {
                    assert(p@[a] == p0[a - 1]);
                }
            }
            assert forall|a: int, b: int| 0 <= a < b < p@.len() implies p@[a] != p@[b] by {
                if a < pos && b < pos {
                } else if a < pos && b == pos {
                    assert(p0[a] < i);
                } else if a < pos {
                    assert(p@[b] == p0[b - 1]);
                } else if a == pos {
                    assert(p@[b] == p0[b - 1]);
                    assert(p0[b - 1] < i);
                } else {
                    assert(p@[a] == p0[a - 1] && p@[b] == p0[b - 1]);
                }
            }
            assert forall|a: int, b: int|
                0 <= a < b < p@.len() implies stable_before(keys@, #[trigger] p@[a], #[trigger] p@[b]) by {
                if a < pos && b < pos {
                } else if a < pos && b == pos {
                    assert(p0[a] < i);
                    if pos > 0 {
                        assert(keys@[p0[pos - 1] as int] <= ki);
                        if a < pos - 1 {
                            assert(stable_before(keys@, p0[a], p0[pos - 1]));
                        }
                    }
                } else if a < pos {
                    assert(p@[b] == p0[b - 1]);
                } else if a == pos {
                    assert(p@[b] == p0[b - 1]);
                    assert(keys@[p0[b - 1] as int] > ki);
                } else {
                    assert(p@[a] == p0[a - 1] && p@[b] == p0[b - 1]);
                }
            }
        }
        i = i + 1;
    }
    proof {
        lemma_stable_order_is(keys@, p@);
    }
    p
}

/// The first position from `i` on whose key exceeds `k` (the list's length
/// when there is none).
spec fn first_above(keys: Seq<i64>, p: Seq<usize>, k: i64, i: int) -> int
    decreases p.len() - i,
{
    if i >= p.len() {
        i
    } else if keys[p[i] as int] > k {
        i
    } else {
        first_above(keys, p, k, i + 1)
    }
}

proof fn lemma_first_above(keys: Seq<i64>, p: Seq<usize>, k: i64, i: int)
    requires
        0 <= i <= p.len(),
    ensures
        i <= first_above(keys, p, k, i) <= p.len(),
        forall|a: int| i <= a < first_above(keys, p, k, i) ==> keys[#[trigger] p[a] as int] <= k,
        first_above(keys, p, k, i) < p.len() ==> keys[p[first_above(keys, p, k, i)] as int] > k,
    decreases p.len() - i,
{
    if i < p.len() && keys[p[i] as int] <= k {
        lemma_first_above(keys, p, k, i + 1);
    }
}

/// Every list of keys has a stable order.
proof fn lemma_stable_order_built(keys: Seq<i64>) -> (p: Seq<usize>)
    requires
        keys.len() <= usize::MAX,
    ensures
        is_stable_order(keys, p),
    decreases keys.len(),
{
    if keys.len() == 0 {
        Seq::empty()
    } else {
        let n = (keys.len() - 1) as int;
        let pre = keys.drop_last();
        let q = lemma_stable_order_built(pre);
        let k = keys[n];
        lemma_first_above(pre, q, k, 0);
        let pos = first_above(pre, q, k, 0);
        let p = q.insert(pos, n as usize);
        assert forall|a: int| 0 <= a < q.len() implies keys[#[trigger] q[a] as int] == pre[q[a] as int] by {}
        assert forall|a: int| 0 <= a < p.len() implies #[trigger] p[a] < keys.len() by {
            if a < pos {
                assert(p[a] == q[a]);
            } else if a > pos {
                assert(p[a] == q[a - 1]);
            }
        }
        assert forall|a: int, b: int| 0 <= a < b < p.len() implies p[a] != p[b] by {
            if a < pos && b < pos {
                assert(p[a] == q[a] && p[b] == q[b]);
            } else if a < pos && b == pos {
                assert(p[a] == q[a]);
            } else if a < pos {
                assert(p[a] == q[a] && p[b] == q[b - 1]);
            } else if a == pos {
                assert(p[b] == q[b - 1]);
            } else {
                assert(p[a] == q[a - 1] && p[b] == q[b - 1]);
            }
        }
        // every key from `pos` on exceeds `k`
        assert forall|a: int| pos <= a < q.len() implies keys[#[trigger] q[a] as int] > k by {
            if a > pos {
                assert(stable_before(pre, q[pos], q[a]));
            }
        }
        assert forall|a: int, b: int| 0 <= a < b < p.len() implies stable_before(
            keys,
            #[trigger] p[a],
            #[trigger] p[b],
        ) by {
            if a < pos && b < pos {
                assert(p[a] == q[a] && p[b] == q[b]);
                assert(stable_before(pre, q[a], q[b]));
            } else if a < pos && b == pos {
                assert(p[a] == q[a]);
                assert(keys[q[a] as int] <= k);
            } else if a < pos {
                assert(p[a] == q[a] && p[b] == q[b - 1]);
                assert(stable_before(pre, q[a], q[b - 1]));
            } else if a == pos {
                assert(p[b] == q[b - 1]);
                assert(keys[q[b - 1] as int] > k);
            } else {
                assert(p[a] == q[a - 1] && p[b] == q[b - 1]);
                assert(stable_before(pre, q[a - 1], q[b - 1]));
            }
        }
        p
    }
}

/// The stable order of any list of keys is a stable order.
pub proof fn lemma_stable_order_exists(keys: Seq<i64>)
    requires
        keys.len() <= usize::MAX,
    ensures
        is_stable_order(keys, stable_order_of(keys)),
{
    let p = lemma_stable_order_built(keys);
    lemma_stable_order_is(keys, p);
}

} // verus!
