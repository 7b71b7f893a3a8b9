use vstd::prelude::*;

verus! {

/// The button half of the mouse uniform: bit 0 is the left button, bit 1 the right one.
#[derive(Clone, Copy, Debug, PartialEq, Eq, Structural)]
pub struct MouseButtons {
    pub clickmask: u32,
}

impl MouseButtons {
    pub open spec fn left_spec(self) -> bool {
        self.clickmask % 2 == 1
    }

    pub open spec fn right_spec(self) -> bool {
        (self.clickmask / 2) % 2 == 1
    }

    /// The mask of the two button states.
    pub fn new(left: bool, right: bool) -> (r: Self)
        ensures
            r.clickmask == (if left { 1int } else { 0 }) + (if right { 2int } else { 0 }),
            r.left_spec() == left,
            r.right_spec() == right,
    {
        let l: u32 = if left { 1 } else { 0 };
        let r: u32 = if right { 2 } else { 0 };
        proof {
            assert((l == 0u32 || l == 1u32) && (r == 0u32 || r == 2u32) ==> l | r == l + r) by (bit_vector);
        }
        MouseButtons { clickmask: l | r }
    }

    /// Replaces the button states.
    pub fn update(&mut self, left: bool, right: bool)
        ensures
            final(self).left_spec() == left,
            final(self).right_spec() == right,
            final(self).clickmask == (if left { 1int } else { 0 }) + (if right { 2int } else { 0 }),
    {
        *self = MouseButtons::new(left, right);
    }

    pub fn left(&self) -> (r: bool)
        ensures
            r == self.left_spec(),
    {
        let m = self.clickmask;
        proof {
            assert(m & 1 != 0 <==> m % 2 == 1) by (bit_vector);
        }
        m & 1 != 0
    }

    pub fn right(&self) -> (r: bool)
        ensures
            r == self.right_spec(),
    {
        let m = self.clickmask;
        proof {
            assert(m & 2 != 0 <==> (m / 2) % 2 == 1) by (bit_vector);
        }
        m & 2 != 0
    }

    /// Some button is held.
    pub fn active(&self) -> (r: bool)
        ensures
            r == (self.left_spec() || self.right_spec()),
    {
        self.left() || self.right()
    }

    /// Direction of the interaction force: 1 pulls (left held), -1 pushes (only right held),
    /// 0 when no button is held.
    pub fn intensity_sign(&self) -> (r: i32)
        ensures
            r == (if self.left_spec() {
                1int
            } else if self.right_spec() {
                -1int
            } else {
                0
            }),
    {
        if !self.active() {
            return 0;
        }
        if self.left() {
            1
        } else {
            -1
        }
    }
}

} // verus!
