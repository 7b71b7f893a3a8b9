//! Host-side logic of a 2-D SPH fluid simulator: the spatial hash that the compute passes
//! share (cell hashing, the key sort, bucket starts and the bucket walk), the order of the
//! passes in a frame, the frame driver's decisions and the input state they react to.

pub mod consts;
pub mod controls;
pub mod frame;
pub mod input;
pub mod lookup;
pub mod mouse;
pub mod sort;
pub mod sp_hash;
