//! How a stitch node joins the lanes of a coherent radio.
use vstd::prelude::*;

verus! {

/// How the lanes are placed: tuned side by side by the stitch itself, or
/// left where each is tuned.
#[derive(Clone, Copy, Debug, PartialEq, Eq, Structural)]
pub enum StitchMode {
    Auto,
    Manual,
}

/// What each mode does, in the words the face shows under it.
pub open spec fn mode_words(mode: StitchMode) -> Seq<char> {
    match mode {
        StitchMode::Auto => "Tunes the lanes side by side into one gapless span"@,
        StitchMode::Manual => "Keeps each lane where it is tuned and joins what they cover"@,
    }
}

/// The note shown under the chosen mode.
pub fn mode_note(mode: StitchMode) -> (note: &'static str)
    ensures
        note@ == mode_words(mode),
{
    match mode {
        StitchMode::Auto => "Tunes the lanes side by side into one gapless span",
        StitchMode::Manual => "Keeps each lane where it is tuned and joins what they cover",
    }
}

} // verus!
