//! Camera mode of the local player: following the player or panning freely.

use vstd::prelude::*;

verus! {

#[derive(Clone, Copy, PartialEq, Eq, Debug, Structural)]
pub enum CamMode {
    Follow,
    Free,
}

pub open spec fn spec_cam_toggle(m: CamMode) -> CamMode {
    match m {
        CamMode::Follow => CamMode::Free,
        CamMode::Free => CamMode::Follow,
    }
}

impl CamMode {
    /// Switch between following the player and free panning.
    pub fn toggle(self) -> (r: Self)
        ensures
            r == spec_cam_toggle(self),
    {
        match self {
            CamMode::Follow => CamMode::Free,
            CamMode::Free => CamMode::Follow,
        }
    }

    pub fn label(self) -> (r: &'static str)
        ensures
            r@ == match self {
                CamMode::Follow => "Cam · Follow"@,
                CamMode::Free => "Cam · Free"@,
            },
    {
        match self {
            CamMode::Follow => "Cam · Follow",
            CamMode::Free => "Cam · Free",
        }
    }
}

/// Toggling the camera mode always changes it, and toggling twice restores it.
pub proof fn lemma_cam_toggle_twice(m: CamMode)
    ensures
        spec_cam_toggle(m) != m,
        spec_cam_toggle(spec_cam_toggle(m)) == m,
{
}

} // verus!
