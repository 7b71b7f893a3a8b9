use vstd::prelude::*;

use crate::consts::EMPTY;
use crate::sort::{is_perm, keeps_ties, moved_by, sort_pairs, sorted_prefix};
use crate::sp_hash::{
    adjacent, cell_key, get_by_key, key_spec, lemma_adjacent_in_stencil, neighbor_cell, next_start, range_by_key,
    Cell,
};

verus! {

/// Some position below `m` holds key `b`.
pub open spec fn occurs_before(keys: Seq<u32>, m: int, b: int) -> bool {
    exists|p: int| 0 <= p < m && keys[p] == b
}

/// `s` is the first position below `n` that holds key `b`.
pub open spec fn is_first(keys: Seq<u32>, n: int, b: int, s: int) -> bool {
    &&& 0 <= s < n
    &&& keys[s] == b
    &&& forall|p: int| 0 <= p < s ==> keys[p] != b
}

/// Each bucket below `n` that occurs among the first `n` keys starts at its first position;
/// every other bucket below `n` holds `EMPTY`.
pub open spec fn starts_ok(keys: Seq<u32>, starts: Seq<u32>, n: int) -> bool {
    forall|b: int|
        0 <= b < n ==> if occurs_before(keys, n, b) {
            is_first(keys, n, b, #[trigger] starts[b] as int)
        } else {
            starts[b] == EMPTY
        }
}

/// The first `n` entries of `indices` are a permutation of `[0, n)`.
pub open spec fn index_perm(indices: Seq<u32>, n: int) -> bool {
    &&& forall|p: int| 0 <= p < n ==> #[trigger] indices[p] < n
    &&& forall|p: int, q: int| 0 <= p < q < n ==> #[trigger] indices[p] != #[trigger] indices[q]
    &&& forall|v: u32| v < n ==> #[trigger] indices.subrange(0, n).contains(v)
}

/// The state after hashing `cells` (one per particle, `n = cells.len()`): keys sorted, indices a
/// permutation of the particles with the key of each particle's cell beside it, bucket starts
/// pointing at the first position of each bucket.
pub open spec fn hash_ready(keys: Seq<u32>, indices: Seq<u32>, starts: Seq<u32>, cells: Seq<Cell>) -> bool {
    let n = cells.len() as int;
    &&& 0 < n <= u32::MAX
    &&& n <= keys.len()
    &&& n <= indices.len()
    &&& n <= starts.len()
    &&& sorted_prefix(keys, n)
    &&& index_perm(indices, n)
    &&& forall|p: int| 0 <= p < n ==> #[trigger] keys[p] == key_spec(cells[indices[p] as int], n as nat)
    &&& starts_ok(keys, starts, n)
}

/// First position at or after `i` (and at most `n`) whose key is not `key`.
pub open spec fn run_end(keys: Seq<u32>, key: u32, i: int, n: int) -> int
    decreases n - i,
{
    if i >= n || keys[i] != key {
        i
    } else {
        run_end(keys, key, i + 1, n)
    }
}

/// The particles visited by walking bucket `key`: from `starts[key]`, while the key matches.
pub open spec fn walk_spec(keys: Seq<u32>, indices: Seq<u32>, starts: Seq<u32>, key: u32, n: int) -> Seq<u32> {
    let s = starts[key as int] as int;
    if s >= n {
        Seq::empty()
    } else {
        indices.subrange(s, run_end(keys, key, s, n))
    }
}

/// The walks of the nine stencil cells around `cell`, the first `k` of them, in order.
pub open spec fn gather_spec(
    keys: Seq<u32>,
    indices: Seq<u32>,
    starts: Seq<u32>,
    cell: Cell,
    n: int,
    k: int,
) -> Seq<u32>
    decreases k,
{
    if k <= 0 {
        Seq::empty()
    } else {
        gather_spec(keys, indices, starts, cell, n, k - 1) + walk_spec(
            keys,
            indices,
            starts,
            key_spec(cell.stencil(k - 1), n as nat) as u32,
            n,
        )
    }
}

/// First pass of the hash: for each particle `i < n`, clears bucket start `i`, sets
/// `indices[i] = i` and `keys[i]` to the key of its cell. Positions from `n` on are untouched.
pub fn pre_sort(cells: &Vec<Cell>, keys: &mut Vec<u32>, indices: &mut Vec<u32>, starts: &mut Vec<u32>)
    requires
        0 < cells@.len() <= u32::MAX,
        cells@.len() <= old(keys)@.len(),
        cells@.len() <= old(indices)@.len(),
        cells@.len() <= old(starts)@.len(),
    ensures
        final(keys)@.len() == old(keys)@.len(),
        final(indices)@.len() == old(indices)@.len(),
        final(starts)@.len() == old(starts)@.len(),
        forall|i: int|
            0 <= i < cells@.len() ==> #[trigger] final(keys)@[i] == key_spec(cells@[i], cells@.len())
                && final(indices)@[i] == i && final(starts)@[i] == EMPTY,
        forall|i: int| cells@.len() <= i < old(keys)@.len() ==> #[trigger] final(keys)@[i] == old(keys)@[i],
        forall|i: int|
            cells@.len() <= i < old(indices)@.len() ==> #[trigger] final(indices)@[i] == old(indices)@[i],
        forall|i: int| cells@.len() <= i < old(starts)@.len() ==> #[trigger] final(starts)@[i] == old(starts)@[i],
{
    let n = cells.len() as u32;
    let ghost k0 = keys@;
    let ghost i0 = indices@;
    let ghost starts_before = starts@;
    let mut i: usize = 0;
    while i < cells.len()
        invariant
            n == cells@.len(),
            i <= n,
            keys@.len() == k0.len(),
            indices@.len() == i0.len(),
            starts@.len() == starts_before.len(),
            n <= k0.len(),
            n <= i0.len(),
            n <= starts_before.len(),
            forall|p: int|
                0 <= p < i ==> #[trigger] keys@[p] == key_spec(cells@[p], n as nat) && indices@[p] == p
                    && starts@[p] == EMPTY,
            forall|p: int| i <= p < k0.len() ==> #[trigger] keys@[p] == k0[p],
            forall|p: int| i <= p < i0.len() ==> #[trigger] indices@[p] == i0[p],
            forall|p: int| i <= p < starts_before.len() ==> #[trigger] starts@[p] == starts_before[p],
        decreases n - i,
    {
        starts[i] = EMPTY;
        indices[i] = i as u32;
        keys[i] = cell_key(cells[i], n);
        i = i + 1;
    }
}

/// Position `idx` opens a run of equal keys.
pub open spec fn change_point(keys: Seq<u32>, idx: int) -> bool {
    idx == 0 || keys[idx] != keys[idx - 1]
}

/// Some position below `m` opens a run of key `b`.
pub open spec fn has_change(keys: Seq<u32>, m: int, b: int) -> bool {
    exists|p: int| 0 <= p < m && keys[p] == b && change_point(keys, p)
}

/// `s` is the last position below `m` that opens a run of key `b`.
pub open spec fn last_change(keys: Seq<u32>, m: int, b: int, s: int) -> bool {
    &&& 0 <= s < m
    &&& keys[s] == b
    &&& change_point(keys, s)
    &&& forall|p: int| s < p < m && keys[p] == b ==> !change_point(keys, p)
}

/// Last pass of the hash: each position `idx < n` that opens a run of equal keys writes `idx`
/// into the start of its key's bucket. Buckets that no run opens keep their value. On keys
/// sorted in their first `n` positions, every bucket that occurs gets its first position.
pub fn post_sort(keys: &Vec<u32>, starts: &mut Vec<u32>, n: u32)
    requires
        n <= keys@.len(),
        forall|p: int| 0 <= p < n ==> #[trigger] keys@[p] < old(starts)@.len(),
    ensures
        final(starts)@.len() == old(starts)@.len(),
        forall|b: int|
            0 <= b < old(starts)@.len() ==> if has_change(keys@, n as int, b) {
                last_change(keys@, n as int, b, #[trigger] final(starts)@[b] as int)
            } else {
                final(starts)@[b] == old(starts)@[b]
            },
        sorted_prefix(keys@, n as int) ==> forall|b: int|
            0 <= b < old(starts)@.len() ==> if occurs_before(keys@, n as int, b) {
                is_first(keys@, n as int, b, #[trigger] final(starts)@[b] as int)
            } else {
                final(starts)@[b] == old(starts)@[b]
            },
{
    let ghost starts_before = starts@;
    let mut idx: u32 = 0;
    while idx < n
        invariant
            idx <= n,
            n <= keys@.len(),
            starts@.len() == starts_before.len(),
            forall|p: int| 0 <= p < n ==> #[trigger] keys@[p] < starts_before.len(),
            forall|b: int|
                0 <= b < starts_before.len() ==> if has_change(keys@, idx as int, b) {
                    last_change(keys@, idx as int, b, #[trigger] starts@[b] as int)
                } else {
                    starts@[b] == starts_before[b]
                },
        decreases n - idx,
    {
        let k = keys[idx as usize];
        proof {
            assert(keys@[idx as int] < starts_before.len());
        }
        let opens = idx == 0 || k != keys[idx as usize - 1];
        if opens {
            starts[k as usize] = idx;
        }
        proof {
            assert(opens == change_point(keys@, idx as int));
            assert forall|b: int|
                0 <= b < starts_before.len() implies if has_change(keys@, idx + 1, b) {
                last_change(keys@, idx + 1, b, #[trigger] starts@[b] as int)
            } else {
                starts@[b] == starts_before[b]
            } by {
                if has_change(keys@, idx + 1, b) && !(b == k && opens) {
                    let p = choose|p: int| 0 <= p < idx + 1 && keys@[p] == b && change_point(keys@, p);
                    assert(has_change(keys@, idx as int, b));
                }
                if has_change(keys@, idx as int, b) {
                    let p = choose|p: int| 0 <= p < idx && keys@[p] == b && change_point(keys@, p);
                    assert(has_change(keys@, idx + 1, b));
                }
                if b == k && opens {
                    assert(has_change(keys@, idx + 1, b));
                }
            }
        }
        idx = idx + 1;
    }
    proof {
        if sorted_prefix(keys@, n as int) {
            assert forall|b: int| 0 <= b < starts_before.len() implies if occurs_before(keys@, n as int, b) {
                is_first(keys@, n as int, b, #[trigger] starts@[b] as int)
            } else {
                starts@[b] == starts_before[b]
            } by {
                lemma_sorted_changes(keys@, n as int, b);
            }
        }
    }
}

/// On sorted keys a bucket has a run exactly when it occurs, and its only run opens at its
/// first position.
proof fn lemma_sorted_changes(keys: Seq<u32>, n: int, b: int)
    requires
        0 <= n <= keys.len(),
        sorted_prefix(keys, n),
    ensures
        has_change(keys, n, b) == occurs_before(keys, n, b),
        forall|s: int| last_change(keys, n, b, s) ==> is_first(keys, n, b, s),
{
    if occurs_before(keys, n, b) {
        let p = choose|p: int| 0 <= p < n && keys[p] == b;
        lemma_run_opens(keys, b, p);
    }
    assert forall|s: int| last_change(keys, n, b, s) implies is_first(keys, n, b, s) by {
        assert forall|p: int| 0 <= p < s implies keys[p] != b by {
            if keys[p] == b {
                assert(keys[p] <= keys[s - 1]);
                assert(keys[s - 1] <= keys[s]);
            }
        }
    }
}

proof fn lemma_run_opens(keys: Seq<u32>, b: int, p: int)
    requires
        0 <= p < keys.len(),
        keys[p] == b,
    ensures
        has_change(keys, p + 1, b),
    decreases p,
{
    if p > 0 && keys[p - 1] == b {
        lemma_run_opens(keys, b, p - 1);
        let q = choose|q: int| 0 <= q < p && keys[q] == b && change_point(keys, q);
        assert(0 <= q < p + 1 && keys[q] == b && change_point(keys, q));
    } else {
        assert(change_point(keys, p));
    }
}

/// Walks bucket `key`: from position `starts[key]` while positions stay below `n` and hold `key`,
/// collects the particle indices found there.
pub fn bucket_walk(keys: &Vec<u32>, indices: &Vec<u32>, starts: &Vec<u32>, key: u32, n: u32) -> (r: Vec<u32>)
    requires
        key < starts@.len(),
        n <= keys@.len(),
        n <= indices@.len(),
    ensures
        r@ == walk_spec(keys@, indices@, starts@, key, n as int),
{
    let s = starts[key as usize];
    let mut out: Vec<u32> = Vec::new();
    let mut i = s;
    while i < n && keys[i as usize] == key
        invariant
            s <= i,
            n <= keys@.len(),
            n <= indices@.len(),
            s < n ==> i <= n,
            s < n ==> run_end(keys@, key, s as int, n as int) == run_end(keys@, key, i as int, n as int),
            s < n ==> out@ == indices@.subrange(s as int, i as int),
            s >= n ==> out@ == Seq::<u32>::empty(),
        decreases n - i,
    {
        out.push(indices[i as usize]);
        i = i + 1;
    }
    proof {
        if s < n {
            assert(run_end(keys@, key, i as int, n as int) == i);
        }
    }
    out
}

/// The particles found by walking the buckets of the nine stencil cells around `cell`, in
/// stencil order. A particle whose bucket is reached from two stencil cells appears twice.
pub fn neighbor_candidates(cell: Cell, keys: &Vec<u32>, indices: &Vec<u32>, starts: &Vec<u32>, n: u32) -> (r: Vec<u32>)
    requires
        0 < n,
        n <= starts@.len(),
        n <= keys@.len(),
        n <= indices@.len(),
        cell.stencil_in_range(),
    ensures
        r@ == gather_spec(keys@, indices@, starts@, cell, n as int, 9),
{
    let mut out: Vec<u32> = Vec::new();
    let mut k: usize = 0;
    while k < 9
        invariant
            k <= 9,
            0 < n,
            n <= starts@.len(),
            n <= keys@.len(),
            n <= indices@.len(),
            cell.stencil_in_range(),
            out@ == gather_spec(keys@, indices@, starts@, cell, n as int, k as int),
        decreases 9 - k,
    {
        let c = neighbor_cell(cell, k);
        let key = cell_key(c, n);
        let mut w = bucket_walk(keys, indices, starts, key, n);
        out.append(&mut w);
        k = k + 1;
    }
    out
}

/// Walking a bucket of a hashed state visits exactly the particles whose cell has that key,
/// each once.
pub proof fn lemma_walk_exact(keys: Seq<u32>, indices: Seq<u32>, starts: Seq<u32>, cells: Seq<Cell>, key: u32)
    requires
        hash_ready(keys, indices, starts, cells),
        key < cells.len(),
    ensures
        forall|v: u32|
            #[trigger] walk_spec(keys, indices, starts, key, cells.len() as int).contains(v) <==> v < cells.len()
                && key_spec(cells[v as int], cells.len()) == key,
        walk_spec(keys, indices, starts, key, cells.len() as int).no_duplicates(),
{
    let n = cells.len() as int;
    let w = walk_spec(keys, indices, starts, key, n);
    if occurs_before(keys, n, key as int) {
        let s = starts[key as int] as int;
        assert(is_first(keys, n, key as int, s));
        lemma_run_end(keys, key, s, n);
        let e = run_end(keys, key, s, n);
        assert forall|p: int| 0 <= p < n && keys[p] == key implies s <= p < e by {
            if p >= e {
                assert(keys[s] <= keys[e]);
                assert(keys[e] <= keys[p]);
            }
        }
        assert forall|v: u32| #[trigger] w.contains(v) <==> v < n && key_spec(cells[v as int], n as nat) == key by {
            if w.contains(v) {
                let t = choose|t: int| 0 <= t < w.len() && w[t] == v;
                assert(w[t] == indices[s + t]);
                assert(keys[s + t] == key);
            }
            if v < n && key_spec(cells[v as int], n as nat) == key {
                assert(indices.subrange(0, n).contains(v));
                let p = choose|p: int| 0 <= p < n && indices.subrange(0, n)[p] == v;
                assert(indices[p] == v);
                assert(keys[p] == key);
                assert(w[p - s] == v);
            }
        }
        assert forall|a: int, b: int| 0 <= a < w.len() && 0 <= b < w.len() && a != b implies w[a] != w[b] by {
            assert(w[a] == indices[s + a]);
            assert(w[b] == indices[s + b]);
        }
    } else {
        assert(starts[key as int] == EMPTY);
        assert forall|v: u32| v < n && key_spec(cells[v as int], n as nat) == key implies false by {
            assert(indices.subrange(0, n).contains(v));
            let p = choose|p: int| 0 <= p < n && indices.subrange(0, n)[p] == v;
            assert(keys[p] == key);
        }
    }
}

proof fn lemma_run_end(keys: Seq<u32>, key: u32, i: int, n: int)
    requires
        0 <= i <= n,
    ensures
        i <= run_end(keys, key, i, n) <= n,
        run_end(keys, key, i, n) < n ==> keys[run_end(keys, key, i, n)] != key,
        forall|p: int| i <= p < run_end(keys, key, i, n) ==> keys[p] == key,
    decreases n - i,
{
    if i < n && keys[i] == key {
        lemma_run_end(keys, key, i + 1, n);
    }
}

proof fn lemma_next_start_bound(starts: Seq<u32>, from: int, n: int)
    requires
        0 <= from,
        n <= starts.len(),
        forall|b: int| 0 <= b < n ==> #[trigger] starts[b] == EMPTY || starts[b] < n,
    ensures
        next_start(starts, from, n) <= n,
    decreases n - from,
{
    if from < n && starts[from] == EMPTY {
        lemma_next_start_bound(starts, from + 1, n);
    }
}

proof fn lemma_next_start_skips(starts: Seq<u32>, from: int, t: int, n: int)
    requires
        from <= t <= n,
        forall|b: int| from <= b < t ==> starts[b] == EMPTY,
    ensures
        next_start(starts, from, n) == next_start(starts, t, n),
    decreases t - from,
{
    if from < t {
        lemma_next_start_skips(starts, from + 1, t, n);
    }
}

/// On a hashed state, the range that `get_by_key` reads off the bucket starts alone is the run of
/// positions that the bucket walk visits, so both find the same particles.
pub proof fn lemma_range_matches_walk(
    keys: Seq<u32>,
    indices: Seq<u32>,
    starts: Seq<u32>,
    cells: Seq<Cell>,
    key: u32,
)
    requires
        hash_ready(keys, indices, starts, cells),
        key < cells.len(),
    ensures
        ({
            let r = range_by_key(key, starts, cells.len() as u32);
            indices.subrange(r.0 as int, r.1 as int) == walk_spec(keys, indices, starts, key, cells.len() as int)
        }),
{
    let n = cells.len() as int;
    assert forall|p: int| 0 <= p < n implies #[trigger] keys[p] < n by {
        vstd::arithmetic::div_mod::lemma_mod_pos_bound(
            crate::sp_hash::hash_spec(cells[indices[p] as int].x as int, cells[indices[p] as int].y as int) as int,
            n,
        );
    }
    if occurs_before(keys, n, key as int) {
        let s = starts[key as int] as int;
        assert(is_first(keys, n, key as int, s));
        lemma_run_end(keys, key, s, n);
        let e = run_end(keys, key, s, n);
        if e == n {
            assert forall|b: int| key + 1 <= b < n implies starts[b] == EMPTY by {
                if occurs_before(keys, n, b) {
                    let p = choose|p: int| 0 <= p < n && keys[p] == b;
                    if p < s {
                        assert(keys[p] <= keys[s]);
                    }
                }
            }
            lemma_next_start_skips(starts, key + 1, n, n);
        } else {
            let b2 = keys[e] as int;
            assert(keys[s] <= keys[e]);
            assert(b2 > key);
            assert forall|p: int| 0 <= p < e implies keys[p] != b2 by {
                if p < s {
                    assert(keys[p] <= keys[s]);
                }
            }
            assert(occurs_before(keys, n, b2));
            assert(starts[b2] == e);
            assert forall|b: int| key + 1 <= b < b2 implies starts[b] == EMPTY by {
                if occurs_before(keys, n, b) {
                    let p = choose|p: int| 0 <= p < n && keys[p] == b;
                    if p < e {
                        if p < s {
                            assert(keys[p] <= keys[s]);
                        }
                    } else {
                        assert(keys[e] <= keys[p]);
                    }
                }
            }
            lemma_next_start_skips(starts, key + 1, b2, n);
        }
        assert(next_start(starts, key + 1, n) == e);
    } else {
        assert(starts[key as int] == EMPTY);
        assert(indices.subrange(0, 0) =~= Seq::<u32>::empty());
    }
}

/// Key `v` is the key of one of the nine stencil cells around `cell`.
pub open spec fn stencil_key(cell: Cell, n: nat, v: nat) -> bool {
    exists|k: int| 0 <= k < 9 && key_spec(cell.stencil(k), n) == v
}

/// Every particle whose cell is adjacent to `cell` is among the candidates gathered from the
/// nine stencil buckets of `cell`; every candidate is a particle whose key is that of one of the
/// nine stencil cells.
#[verifier::rlimit(40)]
pub proof fn lemma_candidates_cover(
    keys: Seq<u32>,
    indices: Seq<u32>,
    starts: Seq<u32>,
    cells: Seq<Cell>,
    cell: Cell,
)
    requires
        hash_ready(keys, indices, starts, cells),
        cell.stencil_in_range(),
    ensures
        forall|j: int|
            0 <= j < cells.len() && adjacent(cells[j], cell) ==> gather_spec(
                keys,
                indices,
                starts,
                cell,
                cells.len() as int,
                9,
            ).contains(j as u32),
        forall|v: u32|
            #[trigger] gather_spec(keys, indices, starts, cell, cells.len() as int, 9).contains(v) ==> v
                < cells.len() && stencil_key(cell, cells.len(), key_spec(cells[v as int], cells.len())),
{
    let n = cells.len() as int;
    assert forall|j: int|
        0 <= j < n && adjacent(cells[j], cell) implies gather_spec(keys, indices, starts, cell, n, 9).contains(
        j as u32,
    ) by {
        lemma_adjacent_in_stencil(cell, cells[j]);
        let k = choose|k: int| 0 <= k < 9 && #[trigger] cell.stencil(k) == cells[j];
        let key = key_spec(cell.stencil(k), n as nat) as u32;
        assert(key < n) by {
            vstd::arithmetic::div_mod::lemma_mod_pos_bound(
                crate::sp_hash::hash_spec(cell.stencil(k).x as int, cell.stencil(k).y as int) as int,
                n,
            );
        }
        lemma_walk_exact(keys, indices, starts, cells, key);
        assert(walk_spec(keys, indices, starts, key, n).contains(j as u32));
        lemma_gather_contains(keys, indices, starts, cell, n, k, 9, j as u32);
    }
    assert forall|v: u32| #[trigger] gather_spec(keys, indices, starts, cell, n, 9).contains(v) implies v < n
        && stencil_key(cell, n as nat, key_spec(cells[v as int], n as nat)) by {
        let t = choose|t: int|
            0 <= t < gather_spec(keys, indices, starts, cell, n, 9).len() && gather_spec(
                keys,
                indices,
                starts,
                cell,
                n,
                9,
            )[t] == v;
        lemma_gather_member(keys, indices, starts, cell, n, 9, t);
        let k = choose|k: int|
            0 <= k < 9 && #[trigger] walk_spec(
                keys,
                indices,
                starts,
                key_spec(cell.stencil(k), n as nat) as u32,
                n,
            ).contains(v);
        let key = key_spec(cell.stencil(k), n as nat) as u32;
        assert(key < n) by {
            vstd::arithmetic::div_mod::lemma_mod_pos_bound(
                crate::sp_hash::hash_spec(cell.stencil(k).x as int, cell.stencil(k).y as int) as int,
                n,
            );
        }
        lemma_walk_exact(keys, indices, starts, cells, key);
        assert(0 <= v < n && key_spec(cells[v as int], n as nat) == key);
    }
}

proof fn lemma_gather_contains(
    keys: Seq<u32>,
    indices: Seq<u32>,
    starts: Seq<u32>,
    cell: Cell,
    n: int,
    k: int,
    m: int,
    v: u32,
)
    requires
        0 <= k < m,
        walk_spec(keys, indices, starts, key_spec(cell.stencil(k), n as nat) as u32, n).contains(v),
    ensures
        gather_spec(keys, indices, starts, cell, n, m).contains(v),
    decreases m,
{
    let g = gather_spec(keys, indices, starts, cell, n, m - 1);
    let w = walk_spec(keys, indices, starts, key_spec(cell.stencil(m - 1), n as nat) as u32, n);
    assert(gather_spec(keys, indices, starts, cell, n, m) == g + w);
    if k == m - 1 {
        let t = choose|t: int| 0 <= t < w.len() && w[t] == v;
        assert((g + w)[g.len() + t] == v);
    } else {
        lemma_gather_contains(keys, indices, starts, cell, n, k, m - 1, v);
        let t = choose|t: int| 0 <= t < g.len() && g[t] == v;
        assert((g + w)[t] == v);
    }
}

proof fn lemma_gather_member(
    keys: Seq<u32>,
    indices: Seq<u32>,
    starts: Seq<u32>,
    cell: Cell,
    n: int,
    m: int,
    t: int,
)
    requires
        0 <= t < gather_spec(keys, indices, starts, cell, n, m).len(),
    ensures
        exists|k: int|
            0 <= k < m && #[trigger] walk_spec(
                keys,
                indices,
                starts,
                key_spec(cell.stencil(k), n as nat) as u32,
                n,
            ).contains(gather_spec(keys, indices, starts, cell, n, m)[t]),
    decreases m,
{
    let g = gather_spec(keys, indices, starts, cell, n, m - 1);
    let w = walk_spec(keys, indices, starts, key_spec(cell.stencil(m - 1), n as nat) as u32, n);
    assert(gather_spec(keys, indices, starts, cell, n, m) == g + w);
    let v = (g + w)[t];
    if t < g.len() {
        lemma_gather_member(keys, indices, starts, cell, n, m - 1, t);
        let k = choose|k: int|
            0 <= k < m - 1 && #[trigger] walk_spec(
                keys,
                indices,
                starts,
                key_spec(cell.stencil(k), n as nat) as u32,
                n,
            ).contains(g[t]);
        assert(walk_spec(keys, indices, starts, key_spec(cell.stencil(k), n as nat) as u32, n).contains(v));
    } else {
        assert(w[t - g.len()] == v);
        assert(w.contains(v));
    }
}

/// The spatial hash of a particle set: keys and particle indices sorted by key, and the
/// position where each bucket starts. All three buffers have one capacity.
pub struct SpatialLookup {
    pub keys: Vec<u32>,
    pub lookup: Vec<u32>,
    pub starts: Vec<u32>,
    pub num_particles: u32,
}

impl SpatialLookup {
    pub open spec fn wf(&self) -> bool {
        &&& self.lookup@.len() == self.keys@.len()
        &&& self.starts@.len() == self.keys@.len()
        &&& self.num_particles <= self.keys@.len()
        &&& forall|b: int|
            0 <= b < self.num_particles ==> #[trigger] self.starts@[b] == EMPTY || self.starts@[b]
                < self.num_particles
    }

    /// Buffers of `capacity` entries, every one of them `EMPTY`, and no particle.
    pub fn new(capacity: usize) -> (r: Self)
        ensures
            r.wf(),
            r.keys@.len() == capacity,
            r.num_particles == 0,
            forall|i: int|
                0 <= i < capacity ==> #[trigger] r.keys@[i] == EMPTY && r.lookup@[i] == EMPTY && r.starts@[i]
                    == EMPTY,
    {
        SpatialLookup {
            keys: vec![EMPTY; capacity],
            lookup: vec![EMPTY; capacity],
            starts: vec![EMPTY; capacity],
            num_particles: 0,
        }
    }

    /// Refills every entry of the three buffers with `EMPTY` and forgets the particles, as a
    /// reset of the simulation does.
    pub fn reset(&mut self)
        requires
            old(self).wf(),
        ensures
            final(self).wf(),
            final(self).keys@.len() == old(self).keys@.len(),
            final(self).num_particles == 0,
            forall|i: int|
                0 <= i < final(self).keys@.len() ==> #[trigger] final(self).keys@[i] == EMPTY
                    && final(self).lookup@[i] == EMPTY && final(self).starts@[i] == EMPTY,
    {
        let len = self.keys.len();
        self.num_particles = 0;
        let mut i: usize = 0;
        while i < len
            invariant
                i <= len,
                self.keys@.len() == len,
                self.lookup@.len() == len,
                self.starts@.len() == len,
                self.num_particles == 0,
                forall|p: int|
                    0 <= p < i ==> #[trigger] self.keys@[p] == EMPTY && self.lookup@[p] == EMPTY
                        && self.starts@[p] == EMPTY,
            decreases len - i,
        {
            self.keys[i] = EMPTY;
            self.lookup[i] = EMPTY;
            self.starts[i] = EMPTY;
            i = i + 1;
        }
    }

    /// Hashes one cell per particle: `pre_sort`, a stable sort of the `(key, index)` pairs, then
    /// `post_sort`. Within a bucket particles come in increasing index order. Entries from
    /// `cells.len()` on keep their value.
    pub fn update(&mut self, cells: &Vec<Cell>)
        requires
            old(self).wf(),
            0 < cells@.len() <= u32::MAX,
            cells@.len() <= old(self).keys@.len(),
        ensures
            final(self).wf(),
            final(self).keys@.len() == old(self).keys@.len(),
            final(self).num_particles == cells@.len(),
            hash_ready(final(self).keys@, final(self).lookup@, final(self).starts@, cells@),
            forall|p: int, q: int|
                0 <= p < q < cells@.len() && #[trigger] final(self).keys@[p] == #[trigger] final(self).keys@[q]
                    ==> final(self).lookup@[p] < final(self).lookup@[q],
            forall|i: int|
                cells@.len() <= i < old(self).keys@.len() ==> #[trigger] final(self).keys@[i] == old(self).keys@[i]
                    && final(self).lookup@[i] == old(self).lookup@[i] && final(self).starts@[i]
                    == old(self).starts@[i],
    {
        let n = cells.len() as u32;
        pre_sort(cells, &mut self.keys, &mut self.lookup, &mut self.starts);
        let ghost k0 = self.keys@;
        let ghost i0 = self.lookup@;
        sort_pairs(&mut self.keys, &mut self.lookup, cells.len());
        let ghost perm = choose|perm: Seq<int>|
            is_perm(perm, n as int) && moved_by(perm, k0, i0, self.keys@, self.lookup@, n as int)
                && keeps_ties(perm, self.keys@, n as int);
        proof {
            assert forall|p: int| 0 <= p < n implies #[trigger] self.lookup@[p] == perm[p] by {
                assert(self.keys@[p] == k0[perm[p]]);
            }
            assert forall|p: int| 0 <= p < n implies #[trigger] self.keys@[p] < n
                && self.keys@[p] == key_spec(cells@[self.lookup@[p] as int], n as nat) by {
                assert(self.keys@[p] == k0[perm[p]]);
                assert(self.lookup@[p] == perm[p]);
                vstd::arithmetic::div_mod::lemma_mod_pos_bound(
                    crate::sp_hash::hash_spec(cells@[perm[p]].x as int, cells@[perm[p]].y as int) as int,
                    n as int,
                );
            }
            assert forall|v: u32| v < n implies #[trigger] self.lookup@.subrange(0, n as int).contains(v) by {
                assert(perm.contains(v as int));
                let p = choose|p: int| 0 <= p < perm.len() && perm[p] == v as int;
                assert(self.lookup@[p] == perm[p]);
                assert(self.lookup@.subrange(0, n as int)[p] == v);
            }
            assert forall|p: int, q: int| 0 <= p < q < n implies #[trigger] self.lookup@[p]
                != #[trigger] self.lookup@[q] by {
                assert(self.lookup@[p] == perm[p]);
                assert(self.lookup@[q] == perm[q]);
                assert(perm[p] != perm[q]);
            }
        }
        let ghost cleared = self.starts@;
        post_sort(&self.keys, &mut self.starts, n);
        self.num_particles = n;
        proof {
            assert forall|b: int| 0 <= b < n implies if occurs_before(self.keys@, n as int, b) {
                is_first(self.keys@, n as int, b, #[trigger] self.starts@[b] as int)
            } else {
                self.starts@[b] == EMPTY
            } by {
                assert(k0[b] == key_spec(cells@[b], n as nat));
                assert(cleared[b] == EMPTY);
            }
            assert(starts_ok(self.keys@, self.starts@, n as int));
            assert forall|p: int, q: int|
                0 <= p < q < n && #[trigger] self.keys@[p] == #[trigger] self.keys@[q] implies self.lookup@[p]
                    < self.lookup@[q] by {
                assert(self.lookup@[p] == perm[p]);
                assert(self.lookup@[q] == perm[q]);
            }
            assert(index_perm(self.lookup@, n as int));
        }
    }

    /// The particles in bucket `key`: the positions from its start up to the start of the next
    /// occupied bucket (or the end), read off the bucket starts alone.
    pub fn get_by_key(&self, key: u32) -> (r: &[u32])
        requires
            self.wf(),
        ensures
            ({
                let g = range_by_key(key, self.starts@, self.num_particles);
                r@ == self.lookup@.subrange(g.0 as int, g.1 as int)
            }),
    {
        let (a, b) = get_by_key(key, self.starts.as_slice(), self.num_particles);
        proof {
            if key < self.num_particles && self.starts@[key as int] != EMPTY {
                lemma_next_start_bound(self.starts@, key + 1, self.num_particles as int);
            }
        }
        &self.lookup.as_slice()[a as usize..b as usize]
    }

    /// The particles in bucket `key`, found by walking it from its start.
    pub fn walk(&self, key: u32) -> (r: Vec<u32>)
        requires
            self.wf(),
            key < self.starts@.len(),
        ensures
            r@ == walk_spec(self.keys@, self.lookup@, self.starts@, key, self.num_particles as int),
    {
        bucket_walk(&self.keys, &self.lookup, &self.starts, key, self.num_particles)
    }

    /// The particles found in the nine stencil buckets around `cell`.
    pub fn candidates(&self, cell: Cell) -> (r: Vec<u32>)
        requires
            self.wf(),
            0 < self.num_particles,
            cell.stencil_in_range(),
        ensures
            r@ == gather_spec(self.keys@, self.lookup@, self.starts@, cell, self.num_particles as int, 9),
    {
        neighbor_candidates(cell, &self.keys, &self.lookup, &self.starts, self.num_particles)
    }
}

} // verus!
