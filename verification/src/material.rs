//! The material of surfaces that were given none.

use vstd::prelude::*;

verus! {

/// A material that absorbs every ray: it never scatters.
#[derive(Clone, Copy, Debug, Default)]
pub struct DefaultMaterial {}

impl DefaultMaterial {
    /// What the material does to a ray that hit it: nothing comes back,
    /// whatever the ray and wherever it hit.
    pub fn scatter<R, H, C>(&self, ray_in: &R, hit_record: &H) -> (scattered: Option<(C, R)>)
        ensures
            scattered.is_none(),
    {
        None
    }
}

} // verus!
