use vstd::prelude::*;

use vstd::set_lib::{lemma_int_range, lemma_map_size, lemma_subset_equality, set_int_range};

verus! {

/// The first `n` keys are in non-decreasing order.
pub open spec fn sorted_prefix(keys: Seq<u32>, n: int) -> bool {
    forall|a: int, b: int| 0 <= a <= b < n ==> #[trigger] keys[a] <= #[trigger] keys[b]
}

/// `perm` is a bijection of `[0, n)` onto itself.
pub open spec fn is_perm(perm: Seq<int>, n: int) -> bool {
    &&& perm.len() == n
    &&& forall|p: int| 0 <= p < n ==> 0 <= #[trigger] perm[p] < n
    &&& forall|p: int, q: int| 0 <= p < q < n ==> #[trigger] perm[p] != #[trigger] perm[q]
    &&& forall|v: int| 0 <= v < n ==> #[trigger] perm.contains(v)
}

/// The first `n` pairs `(k1[p], i1[p])` are the pairs `(k0[perm[p]], i0[perm[p]])`.
pub open spec fn moved_by(
    perm: Seq<int>,
    k0: Seq<u32>,
    i0: Seq<u32>,
    k1: Seq<u32>,
    i1: Seq<u32>,
    n: int,
) -> bool {
    forall|p: int| 0 <= p < n ==> #[trigger] k1[p] == k0[perm[p]] && i1[p] == i0[perm[p]]
}

/// Pairs with equal keys keep their relative order.
pub open spec fn keeps_ties(perm: Seq<int>, k1: Seq<u32>, n: int) -> bool {
    forall|p: int, q: int|
        0 <= p < q < n && #[trigger] k1[p] == #[trigger] k1[q] ==> perm[p] < perm[q]
}

/// The first `n` pairs of `(k1, i1)` are a stable reordering of those of `(k0, i0)`.
pub open spec fn stable_reorder(k0: Seq<u32>, i0: Seq<u32>, k1: Seq<u32>, i1: Seq<u32>, n: int) -> bool {
    exists|perm: Seq<int>|
        is_perm(perm, n) && moved_by(perm, k0, i0, k1, i1, n) && keeps_ties(perm, k1, n)
}

/// Number of positions below `i` that hold key `b`.
pub open spec fn count_eq(keys: Seq<u32>, i: int, b: int) -> nat
    decreases i,
{
    if i <= 0 {
        0
    } else {
        count_eq(keys, i - 1, b) + if keys[i - 1] == b {
            1nat
        } else {
            0nat
        }
    }
}

/// Number of positions below `i` that hold a key smaller than `b`.
pub open spec fn count_lt(keys: Seq<u32>, i: int, b: int) -> nat
    decreases i,
{
    if i <= 0 {
        0
    } else {
        count_lt(keys, i - 1, b) + if keys[i - 1] < b {
            1nat
        } else {
            0nat
        }
    }
}

/// Where the pair at position `i` lands: after every smaller key, and after the earlier pairs
/// with its own key.
pub open spec fn rank(keys: Seq<u32>, n: int, i: int) -> int {
    (count_lt(keys, n, keys[i] as int) + count_eq(keys, i, keys[i] as int)) as int
}

proof fn lemma_counts(keys: Seq<u32>, i: int, b: int)
    requires
        0 <= i <= keys.len(),
    ensures
        count_lt(keys, i, b + 1) == count_lt(keys, i, b) + count_eq(keys, i, b),
        count_lt(keys, i, b) + count_eq(keys, i, b) <= i,
    decreases i,
{
    if i > 0 {
        lemma_counts(keys, i - 1, b);
    }
}

proof fn lemma_count_lt_mono(keys: Seq<u32>, i: int, b: int, c: int)
    requires
        0 <= i <= keys.len(),
        b <= c,
    ensures
        count_lt(keys, i, b) <= count_lt(keys, i, c),
    decreases i,
{
    if i > 0 {
        lemma_count_lt_mono(keys, i - 1, b, c);
    }
}

proof fn lemma_count_eq_grows(keys: Seq<u32>, j: int, i: int, b: int)
    requires
        0 <= j < i <= keys.len(),
        keys[j] == b,
    ensures
        count_eq(keys, j, b) < count_eq(keys, i, b),
    decreases i - j,
{
    if i > j + 1 {
        lemma_count_eq_grows(keys, j, i - 1, b);
    }
}

proof fn lemma_count_lt_zero(keys: Seq<u32>, i: int)
    requires
        0 <= i <= keys.len(),
    ensures
        count_lt(keys, i, 0) == 0,
    decreases i,
{
    if i > 0 {
        lemma_count_lt_zero(keys, i - 1);
    }
}

/// Ranks follow the order of `(key, position)` and stay below `n`.
proof fn lemma_rank(keys: Seq<u32>, n: int, i: int, j: int)
    requires
        0 <= n <= keys.len(),
        0 <= i < n,
        0 <= j < n,
    ensures
        0 <= rank(keys, n, i) < n,
        keys[i] < keys[j] || (keys[i] == keys[j] && i < j) ==> rank(keys, n, i) < rank(keys, n, j),
{
    let b = keys[i] as int;
    lemma_count_eq_grows(keys, i, n, b);
    lemma_counts(keys, n, b);
    if keys[i] < keys[j] {
        lemma_count_lt_mono(keys, n, b + 1, keys[j] as int);
    }
    if keys[i] == keys[j] && i < j {
        lemma_count_eq_grows(keys, i, j, b);
    }
}

/// Slot `p` is the rank of some position below `n`.
pub open spec fn ranked(keys: Seq<u32>, n: int, p: int) -> bool {
    exists|i: int| 0 <= i < n && #[trigger] rank(keys, n, i) == p
}

/// Every slot below `n` is the rank of some position.
proof fn lemma_rank_onto(keys: Seq<u32>, n: int)
    requires
        0 <= n <= keys.len(),
    ensures
        forall|p: int| 0 <= p < n ==> #[trigger] ranked(keys, n, p),
{
    let dom = set_int_range(0, n);
    let f = |i: int| rank(keys, n, i);
    let img = dom.map(f);
    lemma_int_range(0, n);
    assert forall|a: int, b: int| dom.contains(a) && dom.contains(b) && #[trigger] f(a) == #[trigger] f(b) implies a == b by {
        lemma_rank(keys, n, a, b);
        lemma_rank(keys, n, b, a);
    }
    lemma_map_size(dom, img, f);
    assert forall|p: int| img.contains(p) implies dom.contains(p) by {
        let i = choose|i: int| dom.contains(i) && f(i) == p;
        lemma_rank(keys, n, i, i);
    }
    lemma_subset_equality(img, dom);
    assert forall|p: int| 0 <= p < n implies #[trigger] ranked(keys, n, p) by {
        assert(dom.contains(p));
        assert(img.contains(p));
    }
}

/// Sorts the first `n` `(key, index)` pairs by key, stably, where those keys lie in `[0, n)`:
/// a counting sort, that is a radix sort of one digit. Positions from `n` on are untouched.
pub fn sort_pairs(keys: &mut Vec<u32>, indices: &mut Vec<u32>, n: usize)
    requires
        n <= old(keys)@.len(),
        n <= old(indices)@.len(),
        forall|p: int| 0 <= p < n ==> #[trigger] old(keys)@[p] < n,
    ensures
        final(keys)@.len() == old(keys)@.len(),
        final(indices)@.len() == old(indices)@.len(),
        forall|p: int| n <= p < old(keys)@.len() ==> final(keys)@[p] == old(keys)@[p],
        forall|p: int| n <= p < old(indices)@.len() ==> final(indices)@[p] == old(indices)@[p],
        sorted_prefix(final(keys)@, n as int),
        stable_reorder(old(keys)@, old(indices)@, final(keys)@, final(indices)@, n as int),
{
    let ghost k0 = keys@;
    let ghost i0 = indices@;
    let src_keys = keys.clone();
    let src_indices = indices.clone();
    proof {
        assert(src_keys@ =~= k0);
        assert(src_indices@ =~= i0);
    }

    // how many pairs hold each key
    let mut counts: Vec<usize> = vec![0; n];
    let mut i: usize = 0;
    while i < n
        invariant
            i <= n,
            src_keys@ == k0,
            n <= k0.len(),
            forall|p: int| 0 <= p < n ==> #[trigger] k0[p] < n,
            counts@.len() == n,
            forall|b: int| 0 <= b < n ==> #[trigger] counts@[b] == count_eq(k0, i as int, b),
        decreases n - i,
    {
        let b = src_keys[i] as usize;
        proof {
            assert(k0[i as int] < n);
            lemma_counts(k0, i as int, b as int);
            assert(count_eq(k0, i as int, b as int) <= i);
        }
        counts[b] = counts[b] + 1;
        i = i + 1;
    }

    // the first slot of each key: how many pairs hold a smaller key
    let mut next: Vec<usize> = vec![0; n];
    let mut acc: usize = 0;
    proof {
        lemma_count_lt_zero(k0, n as int);
    }
    let mut b: usize = 0;
    while b < n
        invariant
            b <= n,
            n <= k0.len(),
            counts@.len() == n,
            next@.len() == n,
            forall|c: int| 0 <= c < n ==> #[trigger] counts@[c] == count_eq(k0, n as int, c),
            acc == count_lt(k0, n as int, b as int),
            forall|c: int| 0 <= c < b ==> #[trigger] next@[c] == count_lt(k0, n as int, c),
        decreases n - b,
    {
        next[b] = acc;
        proof {
            lemma_counts(k0, n as int, b as int);
        }
        acc = acc + counts[b];
        b = b + 1;
    }

    // each pair goes to the next free slot of its key
    let mut i: usize = 0;
    while i < n
        invariant
            i <= n,
            n <= k0.len(),
            n <= i0.len(),
            src_keys@ == k0,
            src_indices@ == i0,
            forall|p: int| 0 <= p < n ==> #[trigger] k0[p] < n,
            keys@.len() == k0.len(),
            indices@.len() == i0.len(),
            forall|p: int| n <= p < k0.len() ==> keys@[p] == k0[p],
            forall|p: int| n <= p < i0.len() ==> indices@[p] == i0[p],
            next@.len() == n,
            forall|c: int|
                0 <= c < n ==> #[trigger] next@[c] == count_lt(k0, n as int, c) + count_eq(k0, i as int, c),
            forall|j: int|
                0 <= j < i ==> keys@[#[trigger] rank(k0, n as int, j)] == k0[j] && indices@[rank(
                    k0,
                    n as int,
                    j,
                )] == i0[j],
        decreases n - i,
    {
        let b = src_keys[i] as usize;
        let p = next[b];
        proof {
            assert(k0[i as int] < n);
            assert(p == rank(k0, n as int, i as int));
            lemma_rank(k0, n as int, i as int, i as int);
            assert forall|j: int| 0 <= j < i implies rank(k0, n as int, j) != rank(k0, n as int, i as int) by {
                lemma_rank(k0, n as int, j, i as int);
                lemma_rank(k0, n as int, i as int, j);
            }
        }
        let ghost kb = keys@;
        let ghost ib = indices@;
        keys[p] = b as u32;
        indices[p] = src_indices[i];
        next[b] = p + 1;
        proof {
            assert forall|j: int| 0 <= j < i + 1 implies keys@[#[trigger] rank(k0, n as int, j)] == k0[j]
                && indices@[rank(k0, n as int, j)] == i0[j] by {
                if j < i {
                    lemma_rank(k0, n as int, j, j);
                    assert(rank(k0, n as int, j) != p);
                    assert(kb[rank(k0, n as int, j)] == k0[j]);
                    assert(ib[rank(k0, n as int, j)] == i0[j]);
                } else {
                    assert(j == i);
                    assert(rank(k0, n as int, j) == p);
                    assert(src_keys@[j] == k0[j]);
                    assert(keys@[p as int] == k0[j]);
                    assert(indices@[p as int] == i0[j]);
                }
            }
        }
        i = i + 1;
    }

    proof {
        let nn = n as int;
        lemma_rank_onto(k0, nn);
        let perm = Seq::new(n as nat, |p: int| choose|i: int| 0 <= i < nn && #[trigger] rank(k0, nn, i) == p);
        assert forall|p: int| 0 <= p < nn implies 0 <= #[trigger] perm[p] < nn && rank(k0, nn, perm[p]) == p by {
            assert(ranked(k0, nn, p));
        }
        assert forall|p: int| 0 <= p < nn implies #[trigger] keys@[p] == k0[perm[p]] && indices@[p] == i0[perm[p]] by {
            assert(rank(k0, nn, perm[p]) == p);
        }
        assert forall|p: int, q: int| 0 <= p < q < nn implies #[trigger] perm[p] != #[trigger] perm[q] by {
            assert(rank(k0, nn, perm[p]) == p);
            assert(rank(k0, nn, perm[q]) == q);
        }
        assert forall|v: int| 0 <= v < nn implies #[trigger] perm.contains(v) by {
            lemma_rank(k0, nn, v, v);
            let p = rank(k0, nn, v);
            assert(rank(k0, nn, perm[p]) == p);
            if perm[p] != v {
                lemma_rank(k0, nn, perm[p], v);
                lemma_rank(k0, nn, v, perm[p]);
            }
            assert(perm[p] == v);
        }
        assert(is_perm(perm, nn));
        assert(moved_by(perm, k0, i0, keys@, indices@, nn));
        assert forall|a: int, c: int| 0 <= a <= c < nn implies #[trigger] keys@[a] <= #[trigger] keys@[c] by {
            if keys@[a] > keys@[c] {
                lemma_rank(k0, nn, perm[c], perm[a]);
            }
        }
        assert forall|p: int, q: int| 0 <= p < q < nn && #[trigger] keys@[p] == #[trigger] keys@[q] implies perm[p]
            < perm[q] by {
            if perm[p] > perm[q] {
                lemma_rank(k0, nn, perm[q], perm[p]);
            }
        }
        assert(keeps_ties(perm, keys@, nn));
    }
}

} // verus!
