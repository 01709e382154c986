//! The playback surface: how a caller asks for an interval to be
//! heard. Rendering tones is left to implementors outside the library.

use vstd::prelude::*;

verus! {

/// Whether the two tones of an interval sound together or in turn.
pub enum PlaybackMode {
    Chord,
    Interval,
}

/// Something that can be sounded. The default rendering is silence;
/// audio back ends override it.
pub trait Play {
    fn play(&self, _mode: PlaybackMode) {
    }
}

} // verus!
