//! Which decoders the readout face has a view of its own for, and how their
//! transcripts are headed.
use vstd::prelude::*;
use crate::text::same_text;

verus! {

/// The decoder kinds with a view of their own in the readout.
pub const VIEWED: [&'static str; 14] = [
    "rds",
    "adsb",
    "ais",
    "rtty",
    "morse",
    "psk",
    "cw_skimmer",
    "tone",
    "ident",
    "broadcast",
    "broadcast_data",
    "sstv",
    "vor",
    "dect",
];

/// Whether the readout has a view of its own for decoders of `kind`.
pub fn has_view(kind: &str) -> (viewed: bool)
    ensures
        viewed == exists|i: int| 0 <= i < 14 && #[trigger] VIEWED@[i]@ == kind@,
{
    let mut i: usize = 0;
    while i < 14
        invariant
            i <= 14,
            forall|k: int| 0 <= k < i ==> #[trigger] VIEWED@[k]@ != kind@,
        decreases 14 - i,
    {
        if same_text(VIEWED[i], kind) {
            return true;
        }
        i += 1;
    }
    false
}

/// The heading of a transcript of the text decoders: Morse, PSK, and RTTY for
/// any other kind.
pub open spec fn title_of(kind: Seq<char>) -> Seq<char> {
    if kind == "morse"@ {
        "Morse"@
    } else if kind == "psk"@ {
        "PSK"@
    } else {
        "RTTY"@
    }
}

/// The heading of the transcript of decoders of `kind`.
pub fn title(kind: &str) -> (heading: &'static str)
    ensures
        heading@ == title_of(kind@),
{
    if same_text(kind, "morse") {
        "Morse"
    } else if same_text(kind, "psk") {
        "PSK"
    } else {
        "RTTY"
    }
}

} // verus!
