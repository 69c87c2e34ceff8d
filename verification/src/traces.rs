//! The spectrum traces the scope can hold besides the live one.
use vstd::prelude::*;

verus! {

/// A held trace: the loudest level seen in each bin, the running mean, or the
/// quietest.
#[derive(Clone, Copy, Debug, PartialEq, Eq, Hash, Structural)]
pub enum TraceMode {
    Peak,
    Average,
    Min,
}

/// Every held trace, in the order the scope offers them.
pub const TRACE_MODES: [TraceMode; 3] = [TraceMode::Peak, TraceMode::Average, TraceMode::Min];

/// How many frames the video average may run over, in the order offered.
pub const AVERAGE_CHOICES: [u32; 5] = [1, 2, 4, 8, 16];

/// How many frames the video average runs over unless the user picks
/// another.
pub const DEFAULT_AVERAGE: u32 = 4;

/// Whether the scope's settings are off their defaults, so that the
/// settings button is lit: another average, any held trace, the phosphor
/// view, or a level range set by hand.
pub fn changed(average: u32, traces: usize, phosphor: bool, manual: bool) -> (lit: bool)
    ensures
        lit == (average != DEFAULT_AVERAGE || traces > 0 || phosphor || manual),
{
    average != DEFAULT_AVERAGE || traces > 0 || phosphor || manual
}

/// The words the scope shows for a held trace.
pub open spec fn label_of(mode: TraceMode) -> Seq<char> {
    match mode {
        TraceMode::Peak => "peak hold"@,
        TraceMode::Average => "average"@,
        TraceMode::Min => "min hold"@,
    }
}

impl TraceMode {
    /// The words the scope shows for this trace.
    pub fn label(self) -> (text: &'static str)
        ensures
            text@ == label_of(self),
    {
        match self {
            TraceMode::Peak => "peak hold",
            TraceMode::Average => "average",
            TraceMode::Min => "min hold",
        }
    }
}

/// The style classes of the chip that shows a held trace's colour.
pub open spec fn class_of(mode: TraceMode) -> Seq<char> {
    match mode {
        TraceMode::Peak => "scope__sample scope__sample--peak"@,
        TraceMode::Average => "scope__sample scope__sample--average"@,
        TraceMode::Min => "scope__sample scope__sample--min"@,
    }
}

/// The style classes of the chip of `mode`.
pub fn trace_class(mode: TraceMode) -> (class: &'static str)
    ensures
        class@ == class_of(mode),
{
    match mode {
        TraceMode::Peak => "scope__sample scope__sample--peak",
        TraceMode::Average => "scope__sample scope__sample--average",
        TraceMode::Min => "scope__sample scope__sample--min",
    }
}

/// Each held trace is shown under words of its own.
pub proof fn law_labels_differ(a: TraceMode, b: TraceMode)
    requires
        a != b,
    ensures
        label_of(a) != label_of(b),
{
    reveal_strlit("peak hold");
    reveal_strlit("average");
    reveal_strlit("min hold");
    if label_of(a) == label_of(b) {
        assert(label_of(a).len() == label_of(b).len());
        assert(label_of(a)[0] == label_of(b)[0]);
    }
}

} // verus!
