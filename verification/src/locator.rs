//! Maidenhead locators and the FT8/FT4 text that carries them.
//!
//! Positions are held on a grid of 1/480 degree, which holds the centre of
//! every field, square, subsquare and extended square exactly.
use vstd::prelude::*;
use crate::text::{chars_of, is_space, lemma_trim_ends, lemma_trim_unpadded, same_text, split_words, string_of, to_upper, trim, trim_chars, upper_of, words};

verus! {

/// Grid units in one degree.
pub const UNITS_PER_DEGREE: i64 = 480;

/// A position in 1/480 degree: `lat` north, `lon` east.
#[derive(Clone, Copy, Debug, PartialEq, Eq)]
pub struct GridPoint {
    pub lat: i64,
    pub lon: i64,
}

/// The decoders whose texts carry locators.
pub const PROPAGATION_KINDS: [&'static str; 3] = ["ft8", "ft4", "wspr"];

/// The value of a locator letter `A`.. (either case), up to `last`.
pub open spec fn letter_value(byte: u8, last: u8) -> Option<u32> {
    let up: int = if 97 <= byte <= 122 {
        byte - 32
    } else {
        byte as int
    };
    if up >= 65 && up - 65 <= last {
        Some((up - 65) as u32)
    } else {
        None
    }
}

/// The value of a decimal digit.
pub open spec fn digit_value(byte: u8) -> Option<u32> {
    if byte >= 48 && byte - 48 <= 9 {
        Some((byte - 48) as u32)
    } else {
        None
    }
}

/// A locator letter's value, `None` past `last`.
pub fn letter(byte: u8, last: u8) -> (value: Option<u32>)
    ensures
        value == letter_value(byte, last),
{
    let up: u8 = if 97 <= byte && byte <= 122 {
        byte - 32
    } else {
        byte
    };
    if up >= 65 && up - 65 <= last {
        Some((up - 65) as u32)
    } else {
        None
    }
}

/// A decimal digit's value.
pub fn digit(byte: u8) -> (value: Option<u32>)
    ensures
        value == digit_value(byte),
{
    if byte >= 48 && byte - 48 <= 9 {
        Some((byte - 48) as u32)
    } else {
        None
    }
}

/// Whether every character of `s` is ASCII.
pub open spec fn all_ascii(s: Seq<char>) -> bool {
    forall|i: int| 0 <= i < s.len() ==> (#[trigger] s[i] as u32) < 128
}

/// The byte of an ASCII character.
pub open spec fn byte_at(s: Seq<char>, i: int) -> u8 {
    (s[i] as u32) as u8
}

/// The centre of the locator `t` (already trimmed), in grid units from the
/// south-west corner of the world: 4, 6 or 8 characters of field letters
/// (`A`..`R`), square digits, subsquare letters (`A`..`X`) and extended digits.
pub open spec fn locator_offset(t: Seq<char>) -> Option<(int, int)> {
    if !(t.len() == 4 || t.len() == 6 || t.len() == 8) || !all_ascii(t) {
        None
    } else if letter_value(byte_at(t, 0), 17) is None || letter_value(byte_at(t, 1), 17) is None
        || digit_value(byte_at(t, 2)) is None || digit_value(byte_at(t, 3)) is None {
        None
    } else if t.len() >= 6 && (letter_value(byte_at(t, 4), 23) is None || letter_value(
        byte_at(t, 5),
        23,
    ) is None) {
        None
    } else if t.len() == 8 && (digit_value(byte_at(t, 6)) is None || digit_value(byte_at(t, 7))
        is None) {
        None
    } else {
        let lon = letter_value(byte_at(t, 0), 17)->0 * 9600 + digit_value(byte_at(t, 2))->0 * 960;
        let lat = letter_value(byte_at(t, 1), 17)->0 * 4800 + digit_value(byte_at(t, 3))->0 * 480;
        if t.len() == 4 {
            Some((lat + 240, lon + 480))
        } else {
            let lon6 = lon + letter_value(byte_at(t, 4), 23)->0 * 40;
            let lat6 = lat + letter_value(byte_at(t, 5), 23)->0 * 20;
            if t.len() == 6 {
                Some((lat6 + 10, lon6 + 20))
            } else {
                Some(
                    (
                        lat6 + digit_value(byte_at(t, 7))->0 * 2 + 1,
                        lon6 + digit_value(byte_at(t, 6))->0 * 4 + 2,
                    ),
                )
            }
        }
    }
}

/// The centre of a locator as a position, or `None` when `grid` is no locator.
pub open spec fn locator_centre(grid: Seq<char>) -> Option<GridPoint> {
    match locator_offset(trim(grid)) {
        Some((lat, lon)) => Some(GridPoint { lat: (lat - 90 * 480) as i64, lon: (lon - 180 * 480) as i64 }),
        None => None,
    }
}

/// The centre of a Maidenhead locator of 4, 6 or 8 characters, in either case
/// and with surrounding white space, or `None` when the text is no locator.
pub fn grid_to_geo(grid: &str) -> (at: Option<GridPoint>)
    ensures
        at == locator_centre(grid@),
{
    let all = chars_of(grid);
    let t = trim_chars(all.as_slice());
    let n = t.len();
    if !(n == 4 || n == 6 || n == 8) {
        return None;
    }
    let mut i: usize = 0;
    while i < n
        invariant
            n == t@.len(),
            t@ == trim(grid@),
            i <= n,
            forall|j: int| 0 <= j < i ==> (#[trigger] t@[j] as u32) < 128,
        decreases n - i,
    {
        if (t[i] as u32) >= 128 {
            assert((t@[i as int] as u32) >= 128);
            assert(!all_ascii(t@));
            return None;
        }
        i += 1;
    }
    let b0 = (t[0] as u32) as u8;
    let b1 = (t[1] as u32) as u8;
    let b2 = (t[2] as u32) as u8;
    let b3 = (t[3] as u32) as u8;
    let (f0, f1, s2, s3) = match (letter(b0, 17), letter(b1, 17), digit(b2), digit(b3)) {
        (Some(a), Some(b), Some(c), Some(d)) => (a as i64, b as i64, c as i64, d as i64),
        _ => return None,
    };
    let mut lon: i64 = f0 * 9600 + s2 * 960;
    let mut lat: i64 = f1 * 4800 + s3 * 480;
    if n == 4 {
        return Some(GridPoint { lat: lat + 240 - 90 * 480, lon: lon + 480 - 180 * 480 });
    }
    let b4 = (t[4] as u32) as u8;
    let b5 = (t[5] as u32) as u8;
    let (e4, e5) = match (letter(b4, 23), letter(b5, 23)) {
        (Some(a), Some(b)) => (a as i64, b as i64),
        _ => return None,
    };
    lon = lon + e4 * 40;
    lat = lat + e5 * 20;
    if n == 6 {
        return Some(GridPoint { lat: lat + 10 - 90 * 480, lon: lon + 20 - 180 * 480 });
    }
    let b6 = (t[6] as u32) as u8;
    let b7 = (t[7] as u32) as u8;
    match (digit(b6), digit(b7)) {
        (Some(a), Some(b)) => Some(
            GridPoint { lat: lat + (b as i64) * 2 + 1 - 90 * 480, lon: lon + (a as i64) * 4 + 2 - 180 * 480 },
        ),
        _ => None,
    }
}

/// The four-character square that holds `at`, clamped onto the world.
pub open spec fn square_of(at: GridPoint) -> Seq<char> {
    let lon0 = at.lon + 180 * 480;
    let lat0 = at.lat + 90 * 480;
    let lon = if lon0 < 0 {
        0
    } else if lon0 > 360 * 480 - 1 {
        360 * 480 - 1
    } else {
        lon0
    };
    let lat = if lat0 < 0 {
        0
    } else if lat0 > 180 * 480 - 1 {
        180 * 480 - 1
    } else {
        lat0
    };
    seq![
        ((65 + lon / 9600) as u32) as char,
        ((65 + lat / 4800) as u32) as char,
        ((48 + (lon % 9600) / 960) as u32) as char,
        ((48 + (lat % 4800) / 480) as u32) as char,
    ]
}

/// The four-character locator of the square that holds `at`.
pub fn geo_to_grid(at: GridPoint) -> (grid: String)
    ensures
        grid@ == square_of(at),
{
    let lon0: i128 = at.lon as i128 + 180 * 480;
    let lat0: i128 = at.lat as i128 + 90 * 480;
    let lon: i128 = if lon0 < 0 {
        0
    } else if lon0 > 360 * 480 - 1 {
        360 * 480 - 1
    } else {
        lon0
    };
    let lat: i128 = if lat0 < 0 {
        0
    } else if lat0 > 180 * 480 - 1 {
        180 * 480 - 1
    } else {
        lat0
    };
    let c0 = ((65 + lon / 9600) as u8) as char;
    let c1 = ((65 + lat / 4800) as u8) as char;
    let c2 = ((48 + (lon % 9600) / 960) as u8) as char;
    let c3 = ((48 + (lat % 4800) / 480) as u8) as char;
    let out: Vec<char> = vec![c0, c1, c2, c3];
    proof {
        assert(out@ =~= square_of(at));
    }
    string_of(out.as_slice())
}


/// The ASCII upper case of a character; other characters are kept.
pub open spec fn ascii_upper(c: char) -> char {
    if 'a' <= c <= 'z' {
        ((c as u32) - 32) as char
    } else {
        c
    }
}

proof fn lemma_split(value: int, size: int, digit: int, rest: int)
    requires
        size > 0,
        0 <= rest < size,
        value == digit * size + rest,
    ensures
        value / size == digit,
        value % size == rest,
{
    vstd::arithmetic::div_mod::lemma_fundamental_div_mod_converse(value, size, digit, rest);
}

/// A locator's centre lies in the square its first four characters name: the
/// square of the centre of any locator is its first four characters, upper
/// case.
pub proof fn law_square_round_trips(grid: Seq<char>)
    requires
        locator_centre(grid) is Some,
    ensures
        square_of(locator_centre(grid)->0) == trim(grid).take(4).map_values(
            |c: char| ascii_upper(c),
        ),
{
    let t = trim(grid);
    let f0 = letter_value(byte_at(t, 0), 17)->0 as int;
    let f1 = letter_value(byte_at(t, 1), 17)->0 as int;
    let s2 = digit_value(byte_at(t, 2))->0 as int;
    let s3 = digit_value(byte_at(t, 3))->0 as int;
    let (lat, lon) = locator_offset(t)->0;
    let lon_rest = lon - f0 * 9600 - s2 * 960;
    let lat_rest = lat - f1 * 4800 - s3 * 480;
    assert(0 <= lon_rest < 960);
    assert(0 <= lat_rest < 480);
    lemma_split(lon, 9600, f0, s2 * 960 + lon_rest);
    lemma_split(lat, 4800, f1, s3 * 480 + lat_rest);
    lemma_split(s2 * 960 + lon_rest, 960, s2, lon_rest);
    lemma_split(s3 * 480 + lat_rest, 480, s3, lat_rest);
    let at = locator_centre(grid)->0;
    assert(at.lon + 180 * 480 == lon);
    assert(at.lat + 90 * 480 == lat);
    let want = t.take(4).map_values(|c: char| ascii_upper(c));
    let got = square_of(at);
    assert(all_ascii(t));
    assert((t[0] as u32) < 128);
    assert((t[1] as u32) < 128);
    assert((t[2] as u32) < 128);
    assert((t[3] as u32) < 128);
    assert(got =~= want);
}

/// Whether `c` is a locator letter from `A` to `A` + `last`, in either case.
pub open spec fn is_letter_up_to(c: char, last: int) -> bool {
    65 <= (ascii_upper(c) as u32) <= 65 + last
}

/// Whether `c` is a decimal digit.
pub open spec fn is_digit_char(c: char) -> bool {
    48 <= (c as u32) <= 57
}

/// Whether a trimmed text is a locator: 4, 6 or 8 characters, a field of two
/// letters `A`..`R`, a square of two digits, then a subsquare of two letters
/// `A`..`X` and an extended square of two digits where the text is that
/// long; letters in either case.
pub open spec fn is_locator(t: Seq<char>) -> bool {
    &&& t.len() == 4 || t.len() == 6 || t.len() == 8
    &&& is_letter_up_to(t[0], 17) && is_letter_up_to(t[1], 17)
    &&& is_digit_char(t[2]) && is_digit_char(t[3])
    &&& t.len() >= 6 ==> is_letter_up_to(t[4], 23) && is_letter_up_to(t[5], 23)
    &&& t.len() == 8 ==> is_digit_char(t[6]) && is_digit_char(t[7])
}

proof fn lemma_letter_char(c: char, last: u8)
    requires
        last <= 25,
    ensures
        is_letter_up_to(c, last as int) ==> (c as u32) < 128,
        (c as u32) < 128 ==> ((letter_value(((c as u32) as u8), last) is Some) == is_letter_up_to(c, last as int)),
        (c as u32) < 128 && is_letter_up_to(c, last as int) ==> letter_value(((c as u32) as u8), last)->0 == (ascii_upper(c) as u32) - 65,
{
}

proof fn lemma_digit_char(c: char)
    ensures
        is_digit_char(c) ==> (c as u32) < 128,
        (c as u32) < 128 ==> ((digit_value(((c as u32) as u8)) is Some) == is_digit_char(c)),
{
}

/// Which texts are locators: after trimming white space, 4, 6 or 8
/// characters of field letters `A`..`R`, square digits, subsquare letters
/// `A`..`X` and extended digits, letters in either case; every other text
/// has no centre.
pub proof fn law_what_a_locator_is(grid: Seq<char>)
    ensures
        (locator_centre(grid) is Some) == is_locator(trim(grid)),
{
    let t = trim(grid);
    if t.len() == 4 || t.len() == 6 || t.len() == 8 {
        assert forall|i: int| 0 <= i < t.len() implies (c_letter_or_digit(t, i) ==> (#[trigger] t[i] as u32) < 128) by {
            lemma_letter_char(t[i], 17);
            lemma_letter_char(t[i], 23);
            lemma_digit_char(t[i]);
        }
        lemma_letter_char(t[0], 17);
        lemma_letter_char(t[1], 17);
        lemma_digit_char(t[2]);
        lemma_digit_char(t[3]);
        if t.len() >= 6 {
            lemma_letter_char(t[4], 23);
            lemma_letter_char(t[5], 23);
        }
        if t.len() == 8 {
            lemma_digit_char(t[6]);
            lemma_digit_char(t[7]);
        }
        if is_locator(t) {
            assert(all_ascii(t));
        }
        if all_ascii(t) {
            assert((t[0] as u32) < 128 && (t[1] as u32) < 128 && (t[2] as u32) < 128 && (t[3] as u32) < 128);
            if t.len() >= 6 {
                assert((t[4] as u32) < 128 && (t[5] as u32) < 128);
            }
            if t.len() == 8 {
                assert((t[6] as u32) < 128 && (t[7] as u32) < 128);
            }
        }
    }
}

/// Whether character `i` of a would-be locator must be a letter or digit.
spec fn c_letter_or_digit(t: Seq<char>, i: int) -> bool {
    if i == 0 || i == 1 {
        is_letter_up_to(t[i], 17)
    } else if i == 2 || i == 3 || i == 6 || i == 7 {
        is_digit_char(t[i])
    } else {
        is_letter_up_to(t[i], 23)
    }
}

proof fn lemma_upper_char(c: char)
    ensures
        ((ascii_upper(c) as u32) < 128) == ((c as u32) < 128),
        is_space(ascii_upper(c)) == is_space(c),
        ascii_upper(ascii_upper(c)) == ascii_upper(c),
        is_digit_char(ascii_upper(c)) == is_digit_char(c),
        (c as u32) < 128 ==> forall|l: u8| #[trigger] letter_value(((ascii_upper(c) as u32) as u8), l)
            == letter_value(((c as u32) as u8), l),
        (c as u32) < 128 ==> digit_value(((ascii_upper(c) as u32) as u8)) == digit_value(((c as u32) as u8)),
{
}

/// Letter case does not matter: a text has the centre that its trimmed
/// characters, in ASCII capitals, have.
pub proof fn law_case_is_ignored(grid: Seq<char>)
    ensures
        locator_centre(grid) == locator_centre(trim(grid).map_values(|c: char| ascii_upper(c))),
{
    let t = trim(grid);
    let u = t.map_values(|c: char| ascii_upper(c));
    lemma_trim_ends(grid);
    if t.len() > 0 {
        lemma_upper_char(t[0]);
        lemma_upper_char(t.last());
        assert(u.last() == ascii_upper(t.last()));
    }
    lemma_trim_unpadded(u);
    assert(trim(u) == u);
    assert forall|i: int| 0 <= i < t.len() implies ((#[trigger] u[i] as u32) < 128) == ((t[i] as u32) < 128) by {
        lemma_upper_char(t[i]);
    }
    if all_ascii(t) {
        assert forall|i: int| 0 <= i < u.len() implies (#[trigger] u[i] as u32) < 128 by {
            assert((t[i] as u32) < 128);
        }
    }
    if all_ascii(u) {
        assert forall|i: int| 0 <= i < t.len() implies (#[trigger] t[i] as u32) < 128 by {
            assert((u[i] as u32) < 128);
        }
    }
    assert(all_ascii(u) == all_ascii(t));
    if (t.len() == 4 || t.len() == 6 || t.len() == 8) && all_ascii(t) {
        assert forall|i: int| 0 <= i < t.len() implies letter_value(byte_at(u, i), 17) == letter_value(byte_at(t, i), 17)
            && letter_value(byte_at(u, i), 23) == letter_value(byte_at(t, i), 23)
            && #[trigger] digit_value(byte_at(u, i)) == digit_value(byte_at(t, i)) by {
            lemma_upper_char(t[i]);
            assert((t[i] as u32) < 128);
        }
        assert(digit_value(byte_at(u, 0)) == digit_value(byte_at(t, 0)));
        assert(digit_value(byte_at(u, 1)) == digit_value(byte_at(t, 1)));
        assert(digit_value(byte_at(u, 2)) == digit_value(byte_at(t, 2)));
        assert(digit_value(byte_at(u, 3)) == digit_value(byte_at(t, 3)));
        if t.len() >= 6 {
            assert(digit_value(byte_at(u, 4)) == digit_value(byte_at(t, 4)));
            assert(digit_value(byte_at(u, 5)) == digit_value(byte_at(t, 5)));
        }
        if t.len() == 8 {
            assert(digit_value(byte_at(u, 6)) == digit_value(byte_at(t, 6)));
            assert(digit_value(byte_at(u, 7)) == digit_value(byte_at(t, 7)));
        }
    }
    assert(locator_offset(u) == locator_offset(t));
}

/// Whether `t` is a four-character square in capitals: two field letters
/// `A`..`R` and two digits.
pub open spec fn is_square(t: Seq<char>) -> bool {
    &&& t.len() == 4
    &&& 'A' <= t[0] <= 'R'
    &&& 'A' <= t[1] <= 'R'
    &&& '0' <= t[2] <= '9'
    &&& '0' <= t[3] <= '9'
}

/// Whether a word is a four-character square in capitals.
pub fn is_grid4(token: &[char]) -> (r: bool)
    ensures
        r == is_square(token@),
{
    token.len() == 4 && 'A' <= token[0] && token[0] <= 'R' && 'A' <= token[1] && token[1] <= 'R'
        && '0' <= token[2] && token[2] <= '9' && '0' <= token[3] && token[3] <= '9'
}

/// The square the last word of an upper-case message names: none when the
/// message is empty, when the last word is no square, or when it is `RR73`,
/// which reads as a square but signs off.
pub open spec fn grid_in(upper: Seq<char>) -> Option<Seq<char>> {
    let ws = words(upper);
    if ws.len() == 0 {
        None
    } else if ws.last() != seq!['R', 'R', '7', '3'] && is_square(ws.last()) {
        Some(ws.last())
    } else {
        None
    }
}

/// The station a message's square belongs to: the word before the last, with
/// one `<` in front and one `>` behind taken off.
pub open spec fn callsign_in(upper: Seq<char>) -> Option<Seq<char>> {
    let ws = words(upper);
    if ws.len() < 2 {
        None
    } else {
        let before = ws[ws.len() - 2];
        let opened = if before.len() > 0 && before[0] == '<' {
            before.drop_first()
        } else {
            before
        };
        Some(
            if opened.len() > 0 && opened.last() == '>' {
                opened.drop_last()
            } else {
                opened
            },
        )
    }
}

/// The station a message's square belongs to is its word before the last,
/// with one `<` in front and one `>` behind taken off: the word is the
/// station's name, wrapped at most once in angle brackets. A message of
/// fewer than two words names no station.
pub proof fn law_station_is_the_word_before_the_last(upper: Seq<char>)
    ensures
        words(upper).len() < 2 ==> callsign_in(upper) is None,
        words(upper).len() >= 2 ==> (callsign_in(upper) is Some && {
            let station = callsign_in(upper)->0;
            let w = words(upper)[words(upper).len() - 2];
            let opens = w.len() > 0 && w[0] == '<';
            let rest = w.len() - if opens { 1int } else { 0int };
            let closes = rest > 0 && w.last() == '>';
            &&& w == (if opens { seq!['<'] } else { Seq::<char>::empty() }) + station + (if closes { seq!['>'] } else { Seq::<char>::empty() })
            &&& station.len() == rest - if closes { 1int } else { 0int }
        }),
{
    let ws = words(upper);
    if ws.len() >= 2 {
        let w = ws[ws.len() - 2];
        let opens = w.len() > 0 && w[0] == '<';
        let opened = if opens { w.drop_first() } else { w };
        let closes = opened.len() > 0 && opened.last() == '>';
        let station = if closes { opened.drop_last() } else { opened };
        assert(callsign_in(upper) == Some(station));
        if closes {
            assert(opened =~= station + seq!['>']);
        } else {
            assert(opened =~= station + Seq::<char>::empty());
        }
        if opens {
            assert(w =~= seq!['<'] + opened);
            if opened.len() > 0 {
                assert(w.last() == opened.last());
            }
        } else {
            assert(w =~= Seq::<char>::empty() + opened);
        }
        assert(w =~= (if opens { seq!['<'] } else { Seq::<char>::empty() }) + station + (if closes { seq!['>'] } else { Seq::<char>::empty() }));
    }
}

/// Whether an option of strings holds the given text.
pub open spec fn holds_text(r: Option<String>, want: Option<Seq<char>>) -> bool {
    match r {
        Some(s) => want == Some(s@),
        None => want is None,
    }
}

/// The square the last word of an already upper-cased message names.
pub fn grid_of_upper(upper: &str) -> (grid: Option<String>)
    ensures
        holds_text(grid, grid_in(upper@)),
{
    let chars = chars_of(upper);
    let ws = split_words(chars.as_slice());
    if ws.len() == 0 {
        return None;
    }
    let last = &ws[ws.len() - 1];
    let sign_off: Vec<char> = vec!['R', 'R', '7', '3'];
    proof {
        assert(last@ == words(upper@).last());
        assert(sign_off@ =~= seq!['R', 'R', '7', '3']);
    }
    if !crate::text::same_chars(last.as_slice(), sign_off.as_slice()) && is_grid4(last.as_slice()) {
        Some(string_of(last.as_slice()))
    } else {
        None
    }
}

/// The station before the square in an already upper-cased message.
pub fn callsign_of_upper(upper: &str) -> (callsign: Option<String>)
    ensures
        holds_text(callsign, callsign_in(upper@)),
{
    let chars = chars_of(upper);
    let ws = split_words(chars.as_slice());
    if ws.len() < 2 {
        return None;
    }
    let before = &ws[ws.len() - 2];
    let n = before.len();
    let start: usize = if n > 0 && before[0] == '<' {
        1
    } else {
        0
    };
    let end: usize = if n > start && before[n - 1] == '>' {
        n - 1
    } else {
        n
    };
    let kept = crate::text::slice_chars(before.as_slice(), start, end);
    proof {
        let b = words(upper@)[words(upper@).len() - 2];
        assert(before@ == b);
        let opened = if b.len() > 0 && b[0] == '<' {
            b.drop_first()
        } else {
            b
        };
        assert(opened =~= b.subrange(start as int, n as int));
        if opened.len() > 0 && opened.last() == '>' {
            assert(kept@ =~= opened.drop_last());
        } else {
            assert(kept@ =~= opened);
        }
    }
    Some(string_of(kept.as_slice()))
}

/// The square an FT8/FT4 message ends with, read in capitals: `CQ W1AW FN42`
/// and `W9XYZ W1AW FN42` both give `FN42`; `RR73` and signal reports give
/// nothing.
pub fn message_grid(text: &str) -> (grid: Option<String>)
    ensures
        holds_text(grid, grid_in(upper_of(trim(text@)))),
{
    let chars = chars_of(text);
    let trimmed = string_of(trim_chars(chars.as_slice()).as_slice());
    let upper = to_upper(trimmed.as_str());
    grid_of_upper(upper.as_str())
}

/// The station the square of an FT8/FT4 message belongs to, read in capitals.
pub fn message_callsign(text: &str) -> (callsign: Option<String>)
    ensures
        holds_text(callsign, callsign_in(upper_of(trim(text@)))),
{
    let chars = chars_of(text);
    let trimmed = string_of(trim_chars(chars.as_slice()).as_slice());
    let upper = to_upper(trimmed.as_str());
    callsign_of_upper(upper.as_str())
}

/// Whether decodes of `kind` carry locators.
pub fn is_propagation_kind(kind: &str) -> (r: bool)
    ensures
        r == (kind@ == "ft8"@ || kind@ == "ft4"@ || kind@ == "wspr"@),
{
    same_text(kind, "ft8") || same_text(kind, "ft4") || same_text(kind, "wspr")
}
} // verus!
