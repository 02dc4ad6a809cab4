//! An axis-aligned box that other objects can hit.
use vstd::prelude::*;

verus! {

#[derive(Clone, Copy, Debug)]
pub struct Collider {
    pub position: (i32, i32),
    pub size: (u32, u32),
}

impl Collider {
    pub fn new(x: i32, y: i32, w: u32, h: u32) -> (r: Self)
        ensures
            r.position == (x, y),
            r.size == (w, h),
    {
        Collider { position: (x, y), size: (w, h) }
    }
}

} // verus!
