use vstd::prelude::*;

verus! {

/// A material that neither scatters nor emits. It stands in where a hit record
/// needs some material and none is meaningful, such as the proxies used for
/// sampling light sources.
#[derive(Clone, Copy, Debug)]
pub struct EmptyMaterial {}

impl Default for EmptyMaterial {
    fn default() -> (r: EmptyMaterial)
        ensures
            r == (EmptyMaterial {  }),
    {
        EmptyMaterial {  }
    }
}

} // verus!
