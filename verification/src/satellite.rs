//! Satellite text: how long until a pass, and recognising a pasted set of
//! two-line orbital elements.
use vstd::prelude::*;
use crate::text::{chars_of, same_text, decimal, has_prefix, padded, push_chars, push_decimal, push_padded, push_str, starts_with, string_of, trim_end, trim_end_chars};

verus! {

/// A span of seconds as text: hours and padded minutes from an hour up,
/// minutes and padded seconds below; a negative span reads as none.
pub open spec fn span_text(seconds: int) -> Seq<char> {
    let whole = if seconds > 0 {
        seconds
    } else {
        0
    };
    let hours = whole / 3600;
    let minutes = (whole % 3600) / 60;
    let rest = whole % 60;
    if hours > 0 {
        decimal(hours as nat) + " h "@ + padded(minutes as nat, 2) + " min"@
    } else {
        decimal(minutes as nat) + ":"@ + padded(rest as nat, 2)
    }
}

/// How long a span of seconds is: `1 h 01 min` or `1:30`.
pub fn span(seconds: i64) -> (text: String)
    ensures
        text@ == span_text(seconds as int),
{
    let whole: u64 = if seconds > 0 {
        seconds as u64
    } else {
        0
    };
    let hours = whole / 3600;
    let minutes = (whole % 3600) / 60;
    let rest = whole % 60;
    let mut out: Vec<char> = Vec::new();
    if hours > 0 {
        push_decimal(&mut out, hours);
        push_str(&mut out, " h ");
        push_padded(&mut out, minutes, 2);
        push_str(&mut out, " min");
    } else {
        push_decimal(&mut out, minutes);
        push_str(&mut out, ":");
        push_padded(&mut out, rest, 2);
    }
    assert(out@ =~= span_text(seconds as int));
    string_of(out.as_slice())
}

/// The pieces of `s` between line feeds.
pub open spec fn pieces(s: Seq<char>) -> Seq<Seq<char>>
    decreases s.len(),
{
    if s.len() == 0 {
        seq![Seq::empty()]
    } else {
        let rest = pieces(s.drop_last());
        if s.last() == '\n' {
            rest.push(Seq::empty())
        } else {
            rest.drop_last().push(rest.last().push(s.last()))
        }
    }
}

proof fn lemma_pieces_nonempty(s: Seq<char>)
    ensures
        pieces(s).len() >= 1,
    decreases s.len(),
{
    if s.len() > 0 {
        lemma_pieces_nonempty(s.drop_last());
    }
}

/// The lines that hold something, with their trailing white space taken off.
pub open spec fn filled_lines(lines: Seq<Seq<char>>) -> Seq<Seq<char>>
    decreases lines.len(),
{
    if lines.len() == 0 {
        Seq::empty()
    } else {
        let rest = filled_lines(lines.drop_last());
        let line = trim_end(lines.last());
        if line.len() > 0 {
            rest.push(line)
        } else {
            rest
        }
    }
}

/// The lines of a text joined back with line feeds.
pub open spec fn joined(lines: Seq<Seq<char>>) -> Seq<char>
    decreases lines.len(),
{
    if lines.len() == 0 {
        Seq::empty()
    } else if lines.len() == 1 {
        lines[0]
    } else {
        joined(lines.drop_last()) + seq!['\n'] + lines.last()
    }
}

/// Whether no line before `k` starts with `1 `.
pub open spec fn none_before(lines: Seq<Seq<char>>, k: int) -> bool {
    forall|j: int| 0 <= j < k ==> !has_prefix(#[trigger] lines[j], seq!['1', ' '])
}

/// A pasted element set: the first line that starts with `1 `, which must be
/// followed by one that starts with `2 `, together with the line before it
/// when there is one (the name).
pub open spec fn elements_in(text: Seq<char>) -> Option<Seq<char>> {
    let lines = filled_lines(pieces(text));
    if exists|k: int| 0 <= k < lines.len() && has_prefix(lines[k], seq!['1', ' ']) {
        let first = choose|k: int|
            0 <= k < lines.len() && has_prefix(lines[k], seq!['1', ' ']) && none_before(lines, k);
        if first + 1 < lines.len() && has_prefix(lines[first + 1], seq!['2', ' ']) {
            let from = if first >= 1 {
                first - 1
            } else {
                0
            };
            Some(joined(lines.subrange(from, first + 2)))
        } else {
            None
        }
    } else {
        None
    }
}

fn filled_lines_of(text: &[char]) -> (lines: Vec<Vec<char>>)
    ensures
        lines@.len() == filled_lines(pieces(text@)).len(),
        forall|i: int| 0 <= i < lines@.len() ==> (#[trigger] lines@[i])@ == filled_lines(pieces(text@))[i],
{
    let mut lines: Vec<Vec<char>> = Vec::new();
    let mut current: Vec<char> = Vec::new();
    let mut i: usize = 0;
    while i < text.len()
        invariant
            i <= text@.len(),
            pieces(text@.take(i as int)).len() >= 1,
            current@ == pieces(text@.take(i as int)).last(),
            lines@.len() == filled_lines(pieces(text@.take(i as int)).drop_last()).len(),
            forall|k: int| 0 <= k < lines@.len() ==> (#[trigger] lines@[k])@ == filled_lines(
                pieces(text@.take(i as int)).drop_last(),
            )[k],
        decreases text@.len() - i,
    {
        let c = text[i];
        let ghost before = text@.take(i as int);
        proof {
            assert(text@.take(i + 1).drop_last() =~= before);
            assert(text@.take(i + 1).last() == c);
            lemma_pieces_nonempty(before);
        }
        if c == '\n' {
            let line = trim_end_chars(current.as_slice());
            proof {
                let now = pieces(text@.take(i + 1));
                assert(now.drop_last() =~= pieces(before));
                assert(pieces(before).drop_last().push(pieces(before).last()) =~= pieces(before));
            }
            if line.len() > 0 {
                lines.push(line);
            }
            current = Vec::new();
        } else {
            current.push(c);
            proof {
                let now = pieces(text@.take(i + 1));
                assert(now.drop_last() =~= pieces(before).drop_last());
            }
        }
        i += 1;
        proof {
            lemma_pieces_nonempty(text@.take(i as int));
            let now = filled_lines(pieces(text@.take(i as int)).drop_last());
            assert(lines@.len() == now.len());
            assert forall|k: int| 0 <= k < lines@.len() implies (#[trigger] lines@[k])@ == now[k] by {}
        }
    }
    proof {
        assert(text@.take(i as int) =~= text@);
        lemma_pieces_nonempty(text@);
        assert(pieces(text@).drop_last().push(pieces(text@).last()) =~= pieces(text@));
    }
    let last = trim_end_chars(current.as_slice());
    if last.len() > 0 {
        lines.push(last);
    }
    proof {
        let all = filled_lines(pieces(text@));
        assert(lines@.len() == all.len());
        assert forall|k: int| 0 <= k < lines@.len() implies (#[trigger] lines@[k])@ == all[k] by {}
    }
    lines
}

/// Recognises a pasted set of two-line elements, with or without the name
/// line in front, and gives back its lines.
pub fn pasted_elements(text: &str) -> (elements: Option<String>)
    ensures
        match elements {
            Some(s) => elements_in(text@) == Some(s@),
            None => elements_in(text@) is None,
        },
{
    let chars = chars_of(text);
    let lines = filled_lines_of(chars.as_slice());
    let ghost all = filled_lines(pieces(text@));
    let one: Vec<char> = vec!['1', ' '];
    let two: Vec<char> = vec!['2', ' '];
    assert(one@ =~= seq!['1', ' ']);
    assert(two@ =~= seq!['2', ' ']);
    let mut first: usize = 0;
    while first < lines.len() && !starts_with(lines[first].as_slice(), one.as_slice())
        invariant
            first <= lines@.len(),
            lines@.len() == all.len(),
            forall|k: int| 0 <= k < lines@.len() ==> (#[trigger] lines@[k])@ == all[k],
            one@ == seq!['1', ' '],
            none_before(all, first as int),
        decreases lines@.len() - first,
    {
        first += 1;
    }
    if first == lines.len() {
        assert(!exists|k: int| 0 <= k < all.len() && has_prefix(all[k], seq!['1', ' '])) by {
            assert forall|k: int| 0 <= k < all.len() implies !has_prefix(all[k], seq!['1', ' ']) by {
                assert(none_before(all, first as int));
            }
        }
        return None;
    }
    proof {
        assert(lines@[first as int]@ == all[first as int]);
        let chosen = choose|k: int|
            0 <= k < all.len() && has_prefix(all[k], seq!['1', ' ']) && none_before(all, k);
        assert(0 <= first < all.len() && has_prefix(all[first as int], seq!['1', ' ']) && none_before(all, first as int));
        if chosen < first {
            assert(!has_prefix(all[chosen], seq!['1', ' ']));
        }
        if chosen > first {
            assert(!has_prefix(all[first as int], seq!['1', ' ']));
        }
        assert(chosen == first);
    }
    if first + 1 >= lines.len() || !starts_with(lines[first + 1].as_slice(), two.as_slice()) {
        proof {
            if first + 1 < lines.len() {
                assert(lines@[first + 1]@ == all[first + 1]);
            }
        }
        return None;
    }
    proof {
        assert(lines@[first + 1]@ == all[first + 1]);
    }
    let from: usize = if first >= 1 {
        first - 1
    } else {
        0
    };
    let mut out: Vec<char> = Vec::new();
    let mut k: usize = from;
    let end: usize = first + 2;
    while k < end
        invariant
            end == first + 2,
            from <= k <= first + 2 <= lines@.len(),
            lines@.len() == all.len(),
            forall|j: int| 0 <= j < lines@.len() ==> (#[trigger] lines@[j])@ == all[j],
            out@ == if k == from {
                Seq::empty()
            } else {
                joined(all.subrange(from as int, k as int))
            },
        decreases end - k,
    {
        if k > from {
            out.push('\n');
        }
        push_chars(&mut out, lines[k].as_slice());
        k += 1;
        proof {
            let got = all.subrange(from as int, k as int);
            assert(got.drop_last() =~= all.subrange(from as int, k - 1));
            assert(got.last() == all[k - 1]);
            if k - 1 == from {
                assert(got.len() == 1);
                assert(out@ =~= joined(got));
            } else {
                assert(out@ =~= joined(got));
            }
        }
    }
    Some(string_of(out.as_slice()))
}

/// When a pass comes up and goes down, in seconds, where known.
#[derive(Clone, Copy, Debug, PartialEq, Eq)]
pub struct PassTimes {
    pub aos: Option<i64>,
    pub los: Option<i64>,
}

/// The line about the next pass at `now`: how long until it comes up, or
/// until it sets if it is up, with its peak, worded as `peak`; no pass within
/// two days, or one that never sets, are said so.
pub open spec fn pass_text(pass: Option<PassTimes>, peak: Seq<char>, now: i64) -> Seq<char> {
    match pass {
        None => "none in 48 h"@,
        Some(p) => match (p.aos, p.los) {
            (Some(aos), _) if aos > now => "in "@ + span_text(aos - now) + ", up to "@ + peak,
            (_, Some(los)) => "sets in "@ + span_text(los - now) + ", up to "@ + peak,
            _ => "always up"@,
        },
    }
}

/// Whether the times of a pass are close enough to `now` to count the
/// seconds between in an `i64`.
pub open spec fn pass_in_range(pass: Option<PassTimes>, now: i64) -> bool {
    match pass {
        Some(p) => {
            &&& (p.aos matches Some(aos) ==> i64::MIN <= aos - now <= i64::MAX)
            &&& (p.los matches Some(los) ==> i64::MIN <= los - now <= i64::MAX)
        },
        None => true,
    }
}

/// The line about the next pass, its peak elevation already worded.
pub fn pass_line(pass: Option<PassTimes>, peak: &str, now_s: i64) -> (line: String)
    requires
        pass_in_range(pass, now_s),
    ensures
        line@ == pass_text(pass, peak@, now_s),
{
    let p = match pass {
        Some(p) => p,
        None => return string_of(chars_of("none in 48 h").as_slice()),
    };
    let mut out: Vec<char> = Vec::new();
    match (p.aos, p.los) {
        (Some(aos), _) if aos > now_s => {
            push_str(&mut out, "in ");
            push_str(&mut out, span(aos - now_s).as_str());
        },
        (_, Some(los)) => {
            push_str(&mut out, "sets in ");
            push_str(&mut out, span(los - now_s).as_str());
        },
        _ => return string_of(chars_of("always up").as_slice()),
    }
    push_str(&mut out, ", up to ");
    push_str(&mut out, peak);
    string_of(out.as_slice())
}

/// What the satellite face reads of a transmitter: its id, what it is, its
/// mode if named, its downlink and uplink frequencies (of the caller's type)
/// if known, and whether it is alive.
pub struct Transmitter<F> {
    pub id: String,
    pub description: String,
    pub mode: Option<String>,
    pub downlink_hz: Option<F>,
    pub uplink_hz: Option<F>,
    pub alive: bool,
}

/// Whether a transmitter is offered with `chosen` picked: it has a downlink,
/// and is alive or is the one picked.
pub open spec fn offered_signal<F>(t: Transmitter<F>, chosen: Option<Seq<char>>) -> bool {
    t.downlink_hz is Some && (t.alive || chosen == Some(t.id@))
}

/// The transmitters offered, in order.
pub open spec fn offered_signals<F>(ts: Seq<Transmitter<F>>, chosen: Option<Seq<char>>) -> Seq<Transmitter<F>>
    decreases ts.len(),
{
    if ts.len() == 0 {
        Seq::empty()
    } else {
        let rest = offered_signals(ts.drop_last(), chosen);
        if offered_signal(ts.last(), chosen) {
            rest.push(ts.last())
        } else {
            rest
        }
    }
}

/// The transmitters to offer for listening: those with a downlink that are
/// alive, and a dead one only while it is the one picked.
pub fn shown_signals<'a, F>(transmitters: &'a [Transmitter<F>], chosen: Option<&str>) -> (shown: Vec<&'a Transmitter<F>>)
    ensures
        shown@.len() == offered_signals(transmitters@, match chosen {
            Some(c) => Some(c@),
            None => None,
        }).len(),
        forall|k: int| 0 <= k < shown@.len() ==> *#[trigger] shown@[k] == offered_signals(transmitters@, match chosen {
            Some(c) => Some(c@),
            None => None,
        })[k],
{
    let ghost picked = match chosen {
        Some(c) => Some(c@),
        None => None,
    };
    let mut out: Vec<&'a Transmitter<F>> = Vec::new();
    let mut i: usize = 0;
    while i < transmitters.len()
        invariant
            i <= transmitters@.len(),
            picked == match chosen {
                Some(c) => Some(c@),
                None => None,
            },
            out@.len() == offered_signals(transmitters@.take(i as int), picked).len(),
            forall|k: int| 0 <= k < out@.len() ==> *#[trigger] out@[k] == offered_signals(transmitters@.take(i as int), picked)[k],
        decreases transmitters@.len() - i,
    {
        let t = &transmitters[i];
        proof {
            assert(transmitters@.take(i + 1).drop_last() =~= transmitters@.take(i as int));
        }
        let picked_here = match chosen {
            Some(c) => same_text(c, t.id.as_str()),
            None => false,
        };
        if t.downlink_hz.is_some() && (t.alive || picked_here) {
            out.push(t);
        }
        i += 1;
    }
    assert(transmitters@.take(i as int) =~= transmitters@);
    out
}

} // verus!
