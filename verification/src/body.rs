use vstd::prelude::*;

verus! {

/// Largest magnitude a position coordinate may have when a step begins.
pub const MAX_COORD: i64 = 0x8000_0000;

/// Largest magnitude a velocity component may have when a step begins.
pub const MAX_VEL: i64 = 0x100_0000_0000;

/// Largest mass a single body may carry.
pub const MAX_MASS: i64 = 0x4000_0000;

/// Largest number of bodies a simulation may hold.
pub const MAX_BODIES: usize = 0x10_0000;

/// Largest total mass of a body set: `MAX_BODIES * MAX_MASS`.
pub const MAX_TOTAL_MASS: i64 = 0x4_0000_0000_0000;

/// A point mass: position, velocity, the acceleration accumulated during the
/// latest step, mass, a radius derived from the mass by the caller, and an
/// opaque display attribute. Coordinates are exact fixed-point integers, so
/// every operation of the core is reproducible bit for bit.
#[derive(Clone, Copy, PartialEq, Eq, Structural, Debug)]
pub struct Body {
    pub pos_x: i64,
    pub pos_y: i64,
    pub vel_x: i64,
    pub vel_y: i64,
    pub acc_x: i64,
    pub acc_y: i64,
    pub mass: i64,
    pub radius: i64,
    pub color: u32,
}

/// Every body of the sequence is within the supported ranges.
pub open spec fn all_valid(bodies: Seq<Body>) -> bool {
    forall|i: int| 0 <= i < bodies.len() ==> (#[trigger] bodies[i]).valid()
}

impl Body {
    /// The ranges within which the step's arithmetic is proved exact.
    pub open spec fn valid(self) -> bool {
        &&& -MAX_COORD <= self.pos_x <= MAX_COORD
        &&& -MAX_COORD <= self.pos_y <= MAX_COORD
        &&& -MAX_VEL <= self.vel_x <= MAX_VEL
        &&& -MAX_VEL <= self.vel_y <= MAX_VEL
        &&& 0 < self.mass <= MAX_MASS
    }

    pub fn new(pos_x: i64, pos_y: i64, vel_x: i64, vel_y: i64, mass: i64, radius: i64, color: u32) -> (b: Body)
        ensures
            b == (Body { pos_x, pos_y, vel_x, vel_y, acc_x: 0, acc_y: 0, mass, radius, color }),
    {
        Body { pos_x, pos_y, vel_x, vel_y, acc_x: 0, acc_y: 0, mass, radius, color }
    }
}

} // verus!
