//! Whether recording playback loops, as the radio's extra settings say.
use vstd::prelude::*;
use crate::text::same_text;

verus! {

/// The extra setting that says whether playback loops.
pub const LOOP_SETTING: &'static str = "loop";

/// An extra setting of a radio: its name, and its value where that is a
/// yes or no.
pub struct Extra {
    pub name: String,
    pub value: Option<bool>,
}

/// The first extra setting at or after `from` named `name`.
pub open spec fn extra_at(extras: Seq<Extra>, name: Seq<char>, from: int) -> Option<int>
    decreases extras.len() - from,
{
    if from < 0 || from >= extras.len() {
        None
    } else if extras[from].name@ == name {
        Some(from)
    } else {
        extra_at(extras, name, from + 1)
    }
}

/// Whether playback loops: as the first loop setting says when it says yes
/// or no, and yes otherwise.
pub open spec fn looping_of(extras: Seq<Extra>) -> bool {
    match extra_at(extras, LOOP_SETTING@, 0) {
        Some(k) => match extras[k].value {
            Some(b) => b,
            None => true,
        },
        None => true,
    }
}

/// Whether playback loops, from the radio's extra settings.
pub fn is_looping(extras: &[Extra]) -> (looping: bool)
    ensures
        looping == looping_of(extras@),
{
    let mut i: usize = 0;
    while i < extras.len()
        invariant
            i <= extras@.len(),
            extra_at(extras@, LOOP_SETTING@, 0) == extra_at(extras@, LOOP_SETTING@, i as int),
        decreases extras@.len() - i,
    {
        if same_text(extras[i].name.as_str(), LOOP_SETTING) {
            assert(extra_at(extras@, LOOP_SETTING@, i as int) == Some(i as int));
            return match extras[i].value {
                Some(b) => b,
                None => true,
            };
        }
        i += 1;
    }
    true
}

} // verus!
