//! The scanner face's live status and how it names the sweep.
use vstd::prelude::*;

verus! {

/// A scanner a radio reports: the channel it scans with, and its status (of
/// the caller's type).
pub struct Scanner<S> {
    pub channel: u32,
    pub status: S,
}

/// The first scanner of a radio's list that scans with `channel`.
pub open spec fn scanner_at<S>(scanners: Seq<Scanner<S>>, channel: u32, from: int) -> Option<int>
    decreases scanners.len() - from,
{
    if from < 0 || from >= scanners.len() {
        None
    } else if scanners[from].channel == channel {
        Some(from)
    } else {
        scanner_at(scanners, channel, from + 1)
    }
}

/// The status to show for the scanner of `channel`: none without a radio, a
/// channel, or a scanner of the radio's on that channel; else a status pushed
/// since the radio's list, or the listed one.
pub fn live_status<'a, S>(scanners: Option<&'a [Scanner<S>]>, channel: Option<u32>, pushed: Option<&'a S>) -> (shown: Option<&'a S>)
    ensures
        match (scanners, channel) {
            (Some(list), Some(c)) => match scanner_at(list@, c, 0) {
                Some(k) => match pushed {
                    Some(p) => shown == Some(p),
                    None => shown == Some(&list@[k].status),
                },
                None => shown is None,
            },
            _ => shown is None,
        },
{
    let list = match scanners {
        Some(list) => list,
        None => return None,
    };
    let c = match channel {
        Some(c) => c,
        None => return None,
    };
    let mut i: usize = 0;
    while i < list.len()
        invariant
            i <= list@.len(),
            scanners == Some(list),
            channel == Some(c),
            scanner_at(list@, c, 0) == scanner_at(list@, c, i as int),
        decreases list@.len() - i,
    {
        if list[i].channel == c {
            assert(scanner_at(list@, c, i as int) == Some(i as int));
            return match pushed {
                Some(p) => Some(p),
                None => Some(&list[i].status),
            };
        }
        i += 1;
    }
    None
}

/// What does the sweeping: the radio's own sweep when the scanner says it
/// uses it, or, before the scanner says, when the radio can; else retuning.
pub open spec fn sweep_text(radio_sweeps: Option<bool>, scanner_sweeps: Option<bool>) -> Seq<char> {
    let own = match scanner_sweeps {
        Some(s) => s,
        None => radio_sweeps == Some(true),
    };
    if own {
        "the radio's own"@
    } else {
        "by retuning"@
    }
}

/// The words for what does the sweeping, from whether the radio can sweep by
/// itself and whether the scanner says it does.
pub fn sweep_kind(radio_sweeps: Option<bool>, scanner_sweeps: Option<bool>) -> (text: &'static str)
    ensures
        text@ == sweep_text(radio_sweeps, scanner_sweeps),
{
    let own = match scanner_sweeps {
        Some(s) => s,
        None => radio_sweeps == Some(true),
    };
    if own {
        "the radio's own"
    } else {
        "by retuning"
    }
}

} // verus!
