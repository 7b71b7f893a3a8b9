use vstd::prelude::*;

use crate::consts::ARRAY_LEN;
use crate::controls::{TimeState, UpdateState};

verus! {

/// One entry of the per-frame compute sequence. `Sort` is the key sort between the two hash
/// passes; the others are compute kernels.
#[derive(Clone, Copy, Debug, PartialEq, Eq, Structural)]
pub enum Pass {
    /// Gravity and the mouse force, then the positions predicted a fixed lookahead ahead.
    ExternalForces,
    PreSort,
    Sort,
    PostSort,
    UpdateDensities,
    PressureForce,
    Viscosity,
    UpdatePositions,
    Collide,
    CopyPrims,
}

/// Number of timed entries of a simulation step: nine kernels and the sort.
pub const TIMED_PASSES: usize = 10;

/// The simulation step, in the order it is dispatched.
pub open spec fn step_passes() -> Seq<Pass> {
    seq![
        Pass::ExternalForces,
        Pass::PreSort,
        Pass::Sort,
        Pass::PostSort,
        Pass::UpdateDensities,
        Pass::PressureForce,
        Pass::Viscosity,
        Pass::UpdatePositions,
        Pass::Collide,
        Pass::CopyPrims,
    ]
}

/// What one call of the frame driver does.
#[derive(Clone, Copy, Debug, PartialEq, Eq, Structural)]
pub enum FrameAction {
    /// Lay the particles out anew and only refresh the draw primitives.
    Reset,
    /// Run a simulation step, after uploading the mouse state if it changed.
    Simulate { upload_mouse: bool },
}

pub open spec fn action_spec(update: UpdateState) -> FrameAction {
    if update.reset {
        FrameAction::Reset
    } else {
        FrameAction::Simulate { upload_mouse: update.mouse }
    }
}

impl UpdateState {
    /// Decides the next frame: a pending reset wins and is cleared (the mouse flag waits for a
    /// later frame); otherwise a step runs and a pending mouse upload is done and cleared.
    pub fn begin_frame(&mut self) -> (r: FrameAction)
        ensures
            r == action_spec(*old(self)),
            !final(self).reset,
            final(self).mouse == (old(self).mouse && old(self).reset),
    {
        if self.reset {
            self.reset = false;
            return FrameAction::Reset;
        }
        let upload_mouse = self.mouse;
        self.mouse = false;
        FrameAction::Simulate { upload_mouse }
    }
}

pub open spec fn passes_spec(action: FrameAction) -> Seq<Pass> {
    match action {
        FrameAction::Reset => seq![Pass::CopyPrims],
        FrameAction::Simulate { .. } => step_passes(),
    }
}

/// The passes that `action` dispatches, in order: after a reset only the primitive copy; for a
/// step the whole sequence with the sort between `PreSort` and `PostSort`.
pub fn passes(action: FrameAction) -> (r: Vec<Pass>)
    ensures
        r@ == passes_spec(action),
{
    match action {
        FrameAction::Reset => vec![Pass::CopyPrims],
        FrameAction::Simulate { .. } => {
            let r = vec![
                Pass::ExternalForces,
                Pass::PreSort,
                Pass::Sort,
                Pass::PostSort,
                Pass::UpdateDensities,
                Pass::PressureForce,
                Pass::Viscosity,
                Pass::UpdatePositions,
                Pass::Collide,
                Pass::CopyPrims,
            ];
            assert(r@ =~= step_passes());
            r
        },
    }
}

/// How many simulation steps the host runs this frame: `steps_per_frame` when the clock runs, a
/// single step was requested, or a reset is pending; none otherwise. A pending single step is
/// consumed.
pub fn frame_substeps(time: &mut TimeState, reset_pending: bool, steps_per_frame: u32) -> (r: u32)
    ensures
        r == (if !old(time).paused || old(time).step || reset_pending {
            steps_per_frame
        } else {
            0
        }),
        final(time).paused == old(time).paused,
        final(time).step == (old(time).step && !old(time).paused),
{
    let go = time.can_update();
    if go || reset_pending {
        steps_per_frame
    } else {
        0
    }
}

/// Size of the timestamp query set: a start and an end stamp for each timed entry.
pub fn query_count() -> (r: u32)
    ensures
        r == 2 * TIMED_PASSES,
{
    2 * TIMED_PASSES as u32
}

/// Query slots of the `k`-th timed entry: its start stamp, then its end stamp.
pub fn timestamp_slots(k: u32) -> (r: (u32, u32))
    requires
        k < TIMED_PASSES,
    ensures
        r.0 == 2 * k,
        r.1 == 2 * k + 1,
{
    (2 * k, 2 * k + 1)
}

/// Ticks between the two stamps of each timed entry, and across the whole step.
pub struct PassTicks {
    pub per_pass: Vec<u64>,
    pub total: u64,
}

/// `end - start`, or zero when the clock did not advance.
pub open spec fn elapsed(start: u64, end: u64) -> u64 {
    if end >= start {
        (end - start) as u64
    } else {
        0
    }
}

/// Reads resolved timestamps: `None` when fewer than `2 * TIMED_PASSES` arrived; otherwise entry
/// `k` spans slots `2k` and `2k + 1`, and the total spans the first and the last slot.
pub fn pass_ticks(timestamps: &Vec<u64>) -> (r: Option<PassTicks>)
    ensures
        timestamps@.len() < 2 * TIMED_PASSES <==> r.is_none(),
        r matches Some(t) ==> {
            &&& t.per_pass@.len() == TIMED_PASSES
            &&& forall|k: int|
                0 <= k < TIMED_PASSES ==> #[trigger] t.per_pass@[k] == elapsed(
                    timestamps@[2 * k],
                    timestamps@[2 * k + 1],
                )
            &&& t.total == elapsed(timestamps@[0], timestamps@[2 * TIMED_PASSES - 1])
        },
{
    if timestamps.len() < 2 * TIMED_PASSES {
        return None;
    }
    let mut per_pass: Vec<u64> = Vec::new();
    let mut k: usize = 0;
    while k < TIMED_PASSES
        invariant
            k <= TIMED_PASSES,
            timestamps@.len() >= 2 * TIMED_PASSES,
            per_pass@.len() == k,
            forall|q: int|
                0 <= q < k ==> #[trigger] per_pass@[q] == elapsed(timestamps@[2 * q], timestamps@[2 * q + 1]),
        decreases TIMED_PASSES - k,
    {
        per_pass.push(timestamps[2 * k + 1].saturating_sub(timestamps[2 * k]));
        k = k + 1;
    }
    let total = timestamps[2 * TIMED_PASSES - 1].saturating_sub(timestamps[0]);
    Some(PassTicks { per_pass, total })
}

/// Number of particles of an `nx × ny` grid, when it fits the buffers and is not empty.
pub fn grid_count(nx: u32, ny: u32) -> (r: Option<u32>)
    ensures
        r == (if 0 < nx * ny <= ARRAY_LEN {
            Some((nx * ny) as u32)
        } else {
            None::<u32>
        }),
{
    if nx == 0 || ny == 0 {
        proof {
            assert(nx * ny == 0) by (nonlinear_arith)
                requires
                    nx == 0 || ny == 0,
            ;
        }
        return None;
    }
    proof {
        assert(nx * ny >= nx && nx * ny >= ny) by (nonlinear_arith)
            requires
                nx > 0,
                ny > 0,
        ;
    }
    if nx as usize > ARRAY_LEN || ny as usize > ARRAY_LEN {
        return None;
    }
    proof {
        assert(nx * ny <= 16384 * 16384) by (nonlinear_arith)
            requires
                nx <= 16384,
                ny <= 16384,
        ;
    }
    let c = nx as u64 * ny as u64;
    if c > ARRAY_LEN as u64 {
        None
    } else {
        Some(c as u32)
    }
}

/// Slot of the particle at column `i`, row `j` of a grid with `ny` rows: columns are laid out
/// one after another.
pub fn grid_index(i: u32, j: u32, ny: u32) -> (r: usize)
    requires
        j < ny,
        (i + 1) * ny <= ARRAY_LEN,
    ensures
        r == i * ny + j,
        r < ARRAY_LEN,
{
    proof {
        assert((i + 1) * ny == i * ny + ny) by (nonlinear_arith);
    }
    (i * ny + j) as usize
}

/// The grid layout of a reset fills the slots `[0, nx·ny)` exactly once: every column `i < nx`
/// and row `j < ny` gets its own slot below `nx·ny`, and every such slot belongs to one cell
/// of the grid.
pub proof fn lemma_grid_slots(nx: int, ny: int)
    requires
        0 < nx,
        0 < ny,
    ensures
        forall|i: int, j: int| 0 <= i < nx && 0 <= j < ny ==> 0 <= #[trigger] (i * ny + j) < nx * ny,
        forall|i1: int, j1: int, i2: int, j2: int|
            0 <= i1 < nx && 0 <= j1 < ny && 0 <= i2 < nx && 0 <= j2 < ny && #[trigger] (i1 * ny + j1)
                == #[trigger] (i2 * ny + j2) ==> i1 == i2 && j1 == j2,
        forall|s: int| 0 <= s < nx * ny ==> 0 <= #[trigger] (s / ny) < nx && (s / ny) * ny + s % ny == s,
{
    assert forall|i: int, j: int| 0 <= i < nx && 0 <= j < ny implies 0 <= #[trigger] (i * ny + j) < nx * ny by {
        assert(0 <= i * ny + j < nx * ny) by (nonlinear_arith)
            requires
                0 <= i < nx,
                0 <= j < ny,
        ;
    }
    assert forall|i1: int, j1: int, i2: int, j2: int|
        0 <= i1 < nx && 0 <= j1 < ny && 0 <= i2 < nx && 0 <= j2 < ny && #[trigger] (i1 * ny + j1)
            == #[trigger] (i2 * ny + j2) implies i1 == i2 && j1 == j2 by {
        assert(i1 == i2 && j1 == j2) by (nonlinear_arith)
            requires
                0 <= j1 < ny,
                0 <= j2 < ny,
                i1 * ny + j1 == i2 * ny + j2,
        ;
    }
    assert forall|s: int| 0 <= s < nx * ny implies 0 <= #[trigger] (s / ny) < nx && (s / ny) * ny + s % ny == s by {
        vstd::arithmetic::div_mod::lemma_fundamental_div_mod(s, ny);
        vstd::arithmetic::div_mod::lemma_mod_pos_bound(s, ny);
        vstd::arithmetic::mul::lemma_mul_is_commutative(s / ny, ny);
        assert(0 <= s / ny < nx) by (nonlinear_arith)
            requires
                0 <= s < nx * ny,
                0 < ny,
                s == ny * (s / ny) + s % ny,
                0 <= s % ny < ny,
        ;
    }
}

} // verus!
