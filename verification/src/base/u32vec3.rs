use vstd::prelude::*;

verus! {

/// Three vertex indices of one triangle, in winding order.
#[derive(Debug, Copy, Clone, PartialEq, Eq, Structural)]
pub struct U32Vec3(pub u32, pub u32, pub u32);

impl U32Vec3 {
    pub fn new(s0: u32, s1: u32, s2: u32) -> (r: Self)
        ensures
            r == U32Vec3(s0, s1, s2),
    {
        U32Vec3(s0, s1, s2)
    }

    /// The index at corner `corner` (0, 1 or 2) of the triangle.
    pub open spec fn at(self, corner: int) -> u32 {
        if corner == 0 {
            self.0
        } else if corner == 1 {
            self.1
        } else {
            self.2
        }
    }

    /// The index at corner `corner` of the triangle.
    pub fn get(&self, corner: usize) -> (r: u32)
        requires
            corner < 3,
        ensures
            r == self.at(corner as int),
    {
        if corner == 0 {
            self.0
        } else if corner == 1 {
            self.1
        } else {
            self.2
        }
    }
}

impl Default for U32Vec3 {
    fn default() -> (r: Self)
        ensures
            r == U32Vec3(0, 0, 0),
    {
        U32Vec3(0, 0, 0)
    }
}

} // verus!
