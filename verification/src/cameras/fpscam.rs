use vstd::prelude::*;

verus! {

/// A camera that sits at its target's position and looks the way the target looks.
pub struct FirstPersonCam {}

impl FirstPersonCam {
    pub fn new() -> (r: FirstPersonCam)
        ensures
            r == (FirstPersonCam {}),
    {
        FirstPersonCam {}
    }
}

} // verus!
