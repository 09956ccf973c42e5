//! Ordering the moves of a list for search: indices by decreasing key, equal
//! keys keeping the order they came in (a stable sort).
use vstd::prelude::*;

verus! {

/// Position at which index `i` goes into `o`, a list kept in decreasing key
/// order: after every index whose key is at least its own.
pub open spec fn insert_at(keys: Seq<isize>, o: Seq<usize>, i: usize) -> int
    decreases o.len(),
{
    if o.len() == 0 {
        0
    } else if keys[o.last() as int] >= keys[i as int] {
        o.len() as int
    } else {
        insert_at(keys, o.drop_last(), i)
    }
}

/// The indices `0..n` by decreasing `keys`, equal keys in increasing index order.
pub open spec fn sort_desc(keys: Seq<isize>, n: nat) -> Seq<usize>
    decreases n,
{
    if n == 0 {
        Seq::empty()
    } else {
        let o = sort_desc(keys, (n - 1) as nat);
        o.insert(insert_at(keys, o, (n - 1) as usize), (n - 1) as usize)
    }
}

/// `o` lists by decreasing key: an earlier index has a greater key, or the
/// same key and a smaller index.
pub open spec fn ordered_by_key(keys: Seq<isize>, o: Seq<usize>) -> bool {
    forall|a: int, b: int|
        0 <= a < b < o.len() ==> keys[o[a] as int] > keys[o[b] as int] || (keys[o[a] as int]
            == keys[o[b] as int] && o[a] < o[b])
}

proof fn lemma_insert_at_bounds(keys: Seq<isize>, o: Seq<usize>, i: usize)
    ensures
        0 <= insert_at(keys, o, i) <= o.len(),
        forall|q: int| insert_at(keys, o, i) <= q < o.len() ==> keys[o[q] as int] < keys[i as int],
        insert_at(keys, o, i) > 0 ==> keys[o[insert_at(keys, o, i) - 1] as int] >= keys[i as int],
    decreases o.len(),
{
    if o.len() > 0 && keys[o.last() as int] < keys[i as int] {
        let d = o.drop_last();
        lemma_insert_at_bounds(keys, d, i);
        assert forall|q: int| insert_at(keys, o, i) <= q < o.len() implies keys[o[q] as int]
            < keys[i as int] by {
            if q < d.len() {
                assert(o[q] == d[q]);
            }
        }
        if insert_at(keys, o, i) > 0 {
            assert(o[insert_at(keys, o, i) - 1] == d[insert_at(keys, d, i) - 1]);
        }
    }
}

/// The ordering holds each of `0..n` exactly once, by decreasing key, equal
/// keys in increasing index order.
pub proof fn lemma_sort_desc(keys: Seq<isize>, n: nat)
    requires
        n <= keys.len(),
        n <= usize::MAX,
    ensures
        sort_desc(keys, n).len() == n,
        forall|k: int| 0 <= k < n ==> #[trigger] sort_desc(keys, n)[k] < n,
        forall|j: usize| j < n ==> #[trigger] sort_desc(keys, n).contains(j),
        sort_desc(keys, n).no_duplicates(),
        ordered_by_key(keys, sort_desc(keys, n)),
    decreases n,
{
    if n > 0 {
        let m = (n - 1) as nat;
        lemma_sort_desc(keys, m);
        let o = sort_desc(keys, m);
        let i = m as usize;
        let p = insert_at(keys, o, i);
        lemma_insert_at_bounds(keys, o, i);
        let r = sort_desc(keys, n);
        assert(r == o.insert(p, i));
        assert(r.len() == n);
        assert forall|k: int| 0 <= k < n implies #[trigger] r[k] < n by {
            if k < p {
                assert(r[k] == o[k]);
            } else if k > p {
                assert(r[k] == o[k - 1]);
            }
        }
        assert forall|j: usize| j < n implies #[trigger] r.contains(j) by {
            if j == m {
                assert(r[p] == i);
            } else {
                assert(o.contains(j));
                let k = choose|k: int| 0 <= k < o.len() && o[k] == j;
                if k < p {
                    assert(r[k] == o[k]);
                } else {
                    assert(r[k + 1] == o[k]);
                }
            }
        }
        assert forall|a: int, b: int| 0 <= a < b < r.len() implies r[a] != r[b] by {
            if a < p && b < p {
                assert(r[a] == o[a] && r[b] == o[b]);
            } else if a < p && b == p {
                assert(r[a] == o[a]);
                assert(sort_desc(keys, m)[a] < m);
            } else if a < p {
                assert(r[a] == o[a] && r[b] == o[b - 1]);
            } else if a == p {
                assert(r[b] == o[b - 1]);
                assert(sort_desc(keys, m)[b - 1] < m);
            } else {
                assert(r[a] == o[a - 1] && r[b] == o[b - 1]);
            }
        }
        assert(r.no_duplicates());
        assert forall|a: int, b: int| 0 <= a < b < r.len() implies keys[r[a] as int] > keys[r[b] as int] || (
        keys[r[a] as int] == keys[r[b] as int] && r[a] < r[b]) by {
            if a < p && b < p {
                assert(r[a] == o[a] && r[b] == o[b]);
            } else if a < p && b == p {
                assert(r[a] == o[a]);
                assert(sort_desc(keys, m)[a] < m);
                assert(keys[o[p - 1] as int] >= keys[i as int]);
                if p - 1 > a {
                    assert(ordered_by_key(keys, o));
                    assert(keys[o[a] as int] > keys[o[p - 1] as int] || keys[o[a] as int] == keys[o[p
                        - 1] as int]);
                }
            } else if a < p {
                assert(r[a] == o[a] && r[b] == o[b - 1]);
                assert(ordered_by_key(keys, o));
                assert(keys[o[a] as int] > keys[o[b - 1] as int] || (keys[o[a] as int] == keys[o[b
                    - 1] as int] && o[a] < o[b - 1]));
            } else if a == p {
                assert(r[b] == o[b - 1]);
                assert(keys[o[b - 1] as int] < keys[i as int]);
            } else {
                assert(r[a] == o[a - 1] && r[b] == o[b - 1]);
                assert(ordered_by_key(keys, o));
                assert(keys[o[a - 1] as int] > keys[o[b - 1] as int] || (keys[o[a - 1] as int]
                    == keys[o[b - 1] as int] && o[a - 1] < o[b - 1]));
            }
        }
    }
}

/// With every key the same, the ordering is `0..n` as it stands.
pub proof fn lemma_sort_desc_equal_keys(keys: Seq<isize>, n: nat)
    requires
        n <= keys.len(),
        n <= usize::MAX,
        forall|j: int| 0 <= j < keys.len() ==> #[trigger] keys[j] == keys[0],
    ensures
        sort_desc(keys, n).len() == n,
        forall|k: int| 0 <= k < n ==> #[trigger] sort_desc(keys, n)[k] == k,
    decreases n,
{
    if n > 0 {
        let m = (n - 1) as nat;
        lemma_sort_desc_equal_keys(keys, m);
        let o = sort_desc(keys, m);
        if m > 0 {
            assert(keys[o.last() as int] >= keys[m as int]);
        }
        assert(insert_at(keys, o, m as usize) == m);
        let r = sort_desc(keys, n);
        assert(r == o.insert(m as int, m as usize));
        assert forall|k: int| 0 <= k < n implies #[trigger] r[k] == k by {
            if k < m {
                assert(r[k] == o[k]);
            }
        }
    }
}

/// The ordering of `n` indices has `n` entries.
pub proof fn lemma_sort_desc_len(keys: Seq<isize>, n: nat)
    ensures
        sort_desc(keys, n).len() == n,
    decreases n,
{
    if n > 0 {
        let m = (n - 1) as nat;
        lemma_sort_desc_len(keys, m);
        let o = sort_desc(keys, m);
        lemma_insert_at_bounds(keys, o, m as usize);
    }
}

/// The indices `0..keys.len()` by decreasing key, equal keys in increasing
/// index order.
pub fn order_by_key(keys: &Vec<isize>) -> (order: Vec<usize>)
    ensures
        order@ == sort_desc(keys@, keys@.len()),
{
    let n = keys.len();
    let mut order: Vec<usize> = Vec::new();
    let mut i: usize = 0;
    while i < n
        invariant
            n == keys@.len(),
            i <= n,
            order@ == sort_desc(keys@, i as nat),
        decreases n - i,
    {
        proof {
            lemma_sort_desc(keys@, i as nat);
        }
        let mut p: usize = order.len();
        assert(order@.subrange(0, order@.len() as int) =~= order@);
        while p > 0 && keys[order[p - 1]] < keys[i]
            invariant
                n == keys@.len(),
                i < n,
                order@ == sort_desc(keys@, i as nat),
                order@.len() == i,
                forall|k: int| 0 <= k < i ==> #[trigger] order@[k] < i,
                p <= order@.len(),
                insert_at(keys@, order@, i) == insert_at(keys@, order@.subrange(0, p as int), i),
            decreases p,
        {
            assert(order@.subrange(0, p as int).drop_last() =~= order@.subrange(0, p - 1));
            p -= 1;
        }
        proof {
            let s = order@.subrange(0, p as int);
            if p > 0 {
                assert(s.last() == order@[p - 1]);
            }
            assert(insert_at(keys@, s, i) == p);
        }
        order.insert(p, i);
        i += 1;
    }
    order
}

} // verus!
