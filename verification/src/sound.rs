use vstd::prelude::*;

verus! {

/// Plays the pet's sounds unless it is muted. No sound assets ship yet, so
/// playing makes no sound either way.
pub struct SoundPlayer {
    muted: bool,
}

impl SoundPlayer {
    /// Whether the player is muted.
    pub closed spec fn is_muted(&self) -> bool {
        self.muted
    }

    pub fn new() -> (r: Self)
        ensures
            !r.is_muted(),
    {
        SoundPlayer { muted: false }
    }

    pub fn set_muted(&mut self, muted: bool)
        ensures
            final(self).is_muted() == muted,
    {
        self.muted = muted;
    }

    /// Plays the sound for a finished task; silent while muted.
    pub fn play_completion(&self) {
        if self.muted {
            return;
        }
    }

    /// Plays the sound for an error; silent while muted.
    pub fn play_error(&self) {
        if self.muted {
            return;
        }
    }
}

} // verus!
