use vstd::prelude::*;

use crate::consts::EMPTY;
use vstd::arithmetic::div_mod::{lemma_add_mod_noop, lemma_mul_mod_noop_left};

verus! {

/// A cell of the uniform grid whose side is the smoothing radius.
#[derive(Clone, Copy, Debug, PartialEq, Eq, Structural)]
pub struct Cell {
    pub x: i32,
    pub y: i32,
}

/// `(17·x + 31·y) mod 2³²`: the two's-complement hash of a cell, read unsigned.
pub open spec fn hash_spec(x: int, y: int) -> nat {
    ((17 * x + 31 * y) % 0x1_0000_0000) as nat
}

/// Bucket key of a cell among `n` buckets.
pub open spec fn key_spec(c: Cell, n: nat) -> nat {
    hash_spec(c.x as int, c.y as int) % n
}

/// Two cells are neighbours when they differ by at most one along each axis.
pub open spec fn adjacent(a: Cell, b: Cell) -> bool {
    -1 <= a.x - b.x <= 1 && -1 <= a.y - b.y <= 1
}

/// The `k`-th of the nine neighbour offsets, `x` major: (-1,-1), (-1,0), (-1,1), (0,-1), ...
pub open spec fn offset_spec(k: int) -> (int, int) {
    (k / 3 - 1, k % 3 - 1)
}

impl Cell {
    /// The cell `k` of the nine-cell stencil around `self`, without wrap-around.
    pub open spec fn stencil(self, k: int) -> Cell {
        Cell { x: (self.x + offset_spec(k).0) as i32, y: (self.y + offset_spec(k).1) as i32 }
    }

    pub open spec fn stencil_in_range(self) -> bool {
        i32::MIN < self.x < i32::MAX && i32::MIN < self.y < i32::MAX
    }
}

/// Every cell adjacent to `c` is one of its nine stencil cells.
pub proof fn lemma_adjacent_in_stencil(c: Cell, d: Cell)
    requires
        c.stencil_in_range(),
        adjacent(d, c),
    ensures
        exists|k: int| 0 <= k < 9 && #[trigger] c.stencil(k) == d,
{
    let k = (d.x - c.x + 1) * 3 + (d.y - c.y + 1);
    assert(c.stencil(k) == d);
}

/// The offset of the `k`-th neighbour cell (`k < 9`).
pub fn neighbor_offset(k: usize) -> (r: Cell)
    requires
        k < 9,
    ensures
        r.x == offset_spec(k as int).0,
        r.y == offset_spec(k as int).1,
{
    Cell { x: (k / 3) as i32 - 1, y: (k % 3) as i32 - 1 }
}

/// The `k`-th cell of the nine-cell stencil around `cell`.
pub fn neighbor_cell(cell: Cell, k: usize) -> (r: Cell)
    requires
        k < 9,
        cell.stencil_in_range(),
    ensures
        r == cell.stencil(k as int),
{
    let o = neighbor_offset(k);
    Cell { x: cell.x + o.x, y: cell.y + o.y }
}

/// The nine cells around `(x, y)`, row by row: `(x-1, y-1), (x, y-1), (x+1, y-1), (x-1, y), ...`.
pub fn rad1(c: (isize, isize)) -> (r: [(isize, isize); 9])
    requires
        isize::MIN < c.0 < isize::MAX,
        isize::MIN < c.1 < isize::MAX,
    ensures
        forall|k: int|
            0 <= k < 9 ==> #[trigger] r[k] == ((c.0 + k % 3 - 1) as isize, (c.1 + k / 3 - 1) as isize),
{
    let (x, y) = c;
    let r = [
        (x - 1, y - 1),
        (x, y - 1),
        (x + 1, y - 1),
        (x - 1, y),
        (x, y),
        (x + 1, y),
        (x - 1, y + 1),
        (x, y + 1),
        (x + 1, y + 1),
    ];
    assert forall|k: int|
        0 <= k < 9 implies #[trigger] r[k] == ((x + k % 3 - 1) as isize, (y + k / 3 - 1) as isize) by {
        if k == 0 {
        } else if k == 1 {
        } else if k == 2 {
        } else if k == 3 {
        } else if k == 4 {
        } else if k == 5 {
        } else if k == 6 {
        } else if k == 7 {
        } else {
        }
    }
    r
}

/// Hash of a cell: `x·17 + y·31` in wrapping 32-bit arithmetic, reinterpreted as unsigned.
pub fn cell_hash(cell: Cell) -> (r: u32)
    ensures
        r == hash_spec(cell.x as int, cell.y as int),
{
    let ux = as_unsigned(cell.x);
    let uy = as_unsigned(cell.y);
    let h: u32 = ux.wrapping_mul(17).wrapping_add(uy.wrapping_mul(31));
    proof {
        lemma_wrapping_hash(cell.x, cell.y, ux, uy);
    }
    h
}

/// The two's-complement bits of `v` read as an unsigned number.
fn as_unsigned(v: i32) -> (r: u32)
    ensures
        r as int == (v as int) % 0x1_0000_0000,
{
    if v >= 0 {
        v as u32
    } else {
        ((v as i64) + 0x1_0000_0000) as u32
    }
}

proof fn lemma_wrapping_hash(x: i32, y: i32, ux: u32, uy: u32)
    requires
        ux as int == (x as int) % 0x1_0000_0000,
        uy as int == (y as int) % 0x1_0000_0000,
    ensures
        ux.wrapping_mul(17).wrapping_add(uy.wrapping_mul(31)) == hash_spec(x as int, y as int),
{
    let m: int = 0x1_0000_0000;
    let p = ux.wrapping_mul(17);
    let q = uy.wrapping_mul(31);
    assert(p as int == (ux * 17) % m);
    assert(q as int == (uy * 31) % m);
    let h = p.wrapping_add(q);
    assert(h as int == (p + q) % m);
    lemma_add_mod_noop(ux * 17, uy * 31, m);
    lemma_mul_mod_noop_left(x as int, 17, m);
    lemma_mul_mod_noop_left(y as int, 31, m);
    lemma_add_mod_noop(x * 17, y * 31, m);
    assert(h as int == (17 * x + 31 * y) % m);
}

/// Key of a hash among `num_particles` buckets.
pub fn key_from_hash(hash: u32, num_particles: u32) -> (r: u32)
    requires
        num_particles > 0,
    ensures
        r == hash % num_particles,
        r < num_particles,
{
    hash % num_particles
}

/// Key of a cell among `num_particles` buckets.
pub fn cell_key(cell: Cell, num_particles: u32) -> (r: u32)
    requires
        num_particles > 0,
    ensures
        r == key_spec(cell, num_particles as nat),
        r < num_particles,
{
    let hash = cell_hash(cell);
    key_from_hash(hash, num_particles)
}

/// The start recorded for the first occupied bucket in `[from, n)`, or `n` when there is none.
pub open spec fn next_start(starts: Seq<u32>, from: int, n: int) -> int
    decreases n - from,
{
    if from >= n {
        n
    } else if starts[from] != EMPTY {
        starts[from] as int
    } else {
        next_start(starts, from + 1, n)
    }
}

/// The range `[start, end)` of sorted positions held by bucket `key`, from the bucket starts
/// alone: `end` is the start of the next occupied bucket, or `num_particles`.
pub open spec fn range_by_key(key: u32, starts: Seq<u32>, num_particles: u32) -> (u32, u32) {
    if key >= num_particles || starts[key as int] == EMPTY {
        (0, 0)
    } else if next_start(starts, key + 1, num_particles as int) <= starts[key as int] {
        (0, 0)
    } else {
        (starts[key as int], next_start(starts, key + 1, num_particles as int) as u32)
    }
}

/// Range of sorted positions for bucket `key`; `(0, 0)` when the bucket is empty or out of range.
pub fn get_by_key(key: u32, starts: &[u32], num_particles: u32) -> (r: (u32, u32))
    requires
        num_particles <= starts@.len(),
    ensures
        r == range_by_key(key, starts@, num_particles),
{
    if key >= num_particles {
        return (0, 0);
    }
    let idx = starts[key as usize];
    if idx == EMPTY {
        return (0, 0);
    }
    let mut i = key + 1;
    while i < num_particles && starts[i as usize] == EMPTY
        invariant
            key < i <= num_particles,
            num_particles <= starts@.len(),
            next_start(starts@, key + 1, num_particles as int) == next_start(starts@, i as int, num_particles as int),
        decreases num_particles - i,
    {
        i = i + 1;
    }
    let end = if i < num_particles {
        starts[i as usize]
    } else {
        num_particles
    };
    if end <= idx {
        return (0, 0);
    }
    (idx, end)
}

} // verus!
