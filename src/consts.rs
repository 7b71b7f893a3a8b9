use vstd::prelude::*;

verus! {

/// Capacity of every per-particle buffer.
pub const ARRAY_LEN: usize = 16384;

/// Number of invocations in one compute workgroup.
pub const WORKGROUP_SIZE: u32 = 256;

/// Sentinel stored in `starts`, `indices` and `keys` for "no particle".
pub const EMPTY: u32 = 0xffff_ffff;

/// Number of workgroups needed to cover `n` particles: `ceil(n / WORKGROUP_SIZE)`.
pub fn dispatch_groups(n: u32) -> (r: u32)
    ensures
        r == (n + WORKGROUP_SIZE - 1) / (WORKGROUP_SIZE as int),
        r * WORKGROUP_SIZE >= n,
        n > 0 ==> (r - 1) * WORKGROUP_SIZE < n,
{
    let q: u32 = n / WORKGROUP_SIZE;
    if n % WORKGROUP_SIZE == 0 {
        q
    } else {
        q + 1
    }
}

} // verus!
