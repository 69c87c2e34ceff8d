//! The propagation face's query for decoded history, and how decodes that
//! arrive are merged into what it holds.
use vstd::prelude::*;
use vstd::utf8::encode_utf8;
use crate::order::lemma_sorted_unique;
use crate::text::{decimal, holds, lemma_texts_push, push_decimal, push_str, string_of, texts};

verus! {

/// How many decodes one history query asks for.
pub const HISTORY_LIMIT: u32 = 2000;

/// A decoder wired into the face: its node, and the device set and channel
/// it decodes.
#[derive(Clone, Debug, PartialEq, Eq)]
pub struct Input {
    pub node: String,
    pub device_set: u32,
    pub channel: u32,
}

/// Whether a byte stands for itself in a query: letters, digits, and
/// `-`, `_`, `.`, `~`.
pub open spec fn unreserved(b: u8) -> bool {
    (65 <= b <= 90) || (97 <= b <= 122) || (48 <= b <= 57) || b == 45 || b == 95 || b == 46 || b == 126
}

/// The upper-case hexadecimal digit of `d`.
pub open spec fn hex_digit(d: int) -> char {
    if d < 10 {
        ((48 + d) as u32) as char
    } else {
        ((55 + d) as u32) as char
    }
}

/// Bytes as they go in a query: each stands for itself, or is written as
/// `%` and two upper-case hexadecimal digits.
pub open spec fn percent_encoded(bytes: Seq<u8>) -> Seq<char>
    decreases bytes.len(),
{
    if bytes.len() == 0 {
        Seq::empty()
    } else {
        let b = bytes.last();
        percent_encoded(bytes.drop_last()) + if unreserved(b) {
            seq![(b as u32) as char]
        } else {
            seq!['%', hex_digit((b / 16) as int), hex_digit((b % 16) as int)]
        }
    }
}

fn hex_char(d: u8) -> (c: char)
    requires
        d < 16,
    ensures
        c == hex_digit(d as int),
{
    if d < 10 {
        (48 + d) as char
    } else {
        (55 + d) as char
    }
}

/// A text as it goes in a query: its UTF-8 bytes, percent-encoded.
pub fn encode(text: &str) -> (out: String)
    ensures
        out@ == percent_encoded(encode_utf8(text@)),
{
    let bytes = text.as_bytes();
    let mut out: Vec<char> = Vec::new();
    let mut i: usize = 0;
    while i < bytes.len()
        invariant
            i <= bytes@.len(),
            bytes@ == encode_utf8(text@),
            out@ == percent_encoded(bytes@.take(i as int)),
        decreases bytes@.len() - i,
    {
        let b = bytes[i];
        proof {
            assert(bytes@.take(i + 1).drop_last() =~= bytes@.take(i as int));
        }
        if (65 <= b && b <= 90) || (97 <= b && b <= 122) || (48 <= b && b <= 57) || b == 45 || b == 95 || b == 46 || b == 126 {
            out.push(b as char);
        } else {
            out.push('%');
            out.push(hex_char(b / 16));
            out.push(hex_char(b % 16));
        }
        i += 1;
        assert(out@ =~= percent_encoded(bytes@.take(i as int)));
    }
    assert(bytes@.take(i as int) =~= bytes@);
    string_of(out.as_slice())
}

/// Texts joined by commas.
pub open spec fn comma_joined(parts: Seq<Seq<char>>) -> Seq<char>
    decreases parts.len(),
{
    if parts.len() == 0 {
        Seq::empty()
    } else if parts.len() == 1 {
        parts[0]
    } else {
        comma_joined(parts.drop_last()) + seq![','] + parts.last()
    }
}

/// The nodes of the inputs.
pub open spec fn input_nodes(inputs: Seq<Input>) -> Seq<Seq<char>> {
    Seq::new(inputs.len(), |i: int| inputs[i].node@)
}

/// The sources of the inputs: device set, a colon, and channel.
pub open spec fn input_sources(inputs: Seq<Input>) -> Seq<Seq<char>> {
    Seq::new(inputs.len(), |i: int| decimal(inputs[i].device_set as nat) + seq![':'] + decimal(inputs[i].channel as nat))
}

/// The query for the decoded history of `kind` from the inputs since the
/// time written as `since`.
pub open spec fn history_query(kind: Seq<char>, inputs: Seq<Input>, since: Seq<char>) -> Seq<char> {
    "/api/decoderlog?kind="@ + kind + "&nodes="@ + percent_encoded(encode_utf8(comma_joined(input_nodes(inputs))))
        + "&sources="@ + percent_encoded(encode_utf8(comma_joined(input_sources(inputs)))) + "&since="@
        + percent_encoded(encode_utf8(since)) + "&limit=2000"@
}

fn joined_nodes(inputs: &[Input]) -> (out: Vec<char>)
    ensures
        out@ == comma_joined(input_nodes(inputs@)),
{
    let mut out: Vec<char> = Vec::new();
    let mut i: usize = 0;
    while i < inputs.len()
        invariant
            i <= inputs@.len(),
            out@ == comma_joined(input_nodes(inputs@.take(i as int))),
        decreases inputs@.len() - i,
    {
        proof {
            assert(input_nodes(inputs@.take(i + 1)).drop_last() =~= input_nodes(inputs@.take(i as int)));
        }
        if i > 0 {
            out.push(',');
        }
        push_str(&mut out, inputs[i].node.as_str());
        i += 1;
        assert(out@ =~= comma_joined(input_nodes(inputs@.take(i as int))));
    }
    assert(inputs@.take(i as int) =~= inputs@);
    out
}

fn joined_sources(inputs: &[Input]) -> (out: Vec<char>)
    ensures
        out@ == comma_joined(input_sources(inputs@)),
{
    let mut out: Vec<char> = Vec::new();
    let mut i: usize = 0;
    while i < inputs.len()
        invariant
            i <= inputs@.len(),
            out@ == comma_joined(input_sources(inputs@.take(i as int))),
        decreases inputs@.len() - i,
    {
        proof {
            assert(input_sources(inputs@.take(i + 1)).drop_last() =~= input_sources(inputs@.take(i as int)));
        }
        if i > 0 {
            out.push(',');
        }
        push_decimal(&mut out, inputs[i].device_set as u64);
        out.push(':');
        push_decimal(&mut out, inputs[i].channel as u64);
        i += 1;
        assert(out@ =~= comma_joined(input_sources(inputs@.take(i as int))));
    }
    assert(inputs@.take(i as int) =~= inputs@);
    out
}

/// The query for the decoded history of `kind` from the wired inputs since
/// the time written as `since`.
pub fn history_path(kind: &str, inputs: &[Input], since: &str) -> (path: String)
    ensures
        path@ == history_query(kind@, inputs@, since@),
{
    let nodes = string_of(joined_nodes(inputs).as_slice());
    let sources = string_of(joined_sources(inputs).as_slice());
    let mut out: Vec<char> = Vec::new();
    push_str(&mut out, "/api/decoderlog?kind=");
    push_str(&mut out, kind);
    push_str(&mut out, "&nodes=");
    push_str(&mut out, encode(nodes.as_str()).as_str());
    push_str(&mut out, "&sources=");
    push_str(&mut out, encode(sources.as_str()).as_str());
    push_str(&mut out, "&since=");
    push_str(&mut out, encode(since).as_str());
    push_str(&mut out, "&limit=2000");
    string_of(out.as_slice())
}

/// What merging needs of a decode: its key, and when it was heard.
#[derive(Clone, Debug, PartialEq, Eq)]
pub struct Stamp {
    pub key: String,
    pub at: i64,
}

/// Where an entry of a merged list comes from: a held decode or an added
/// one, by its place in its list.
#[derive(Clone, Copy, Debug, PartialEq, Eq, Structural)]
pub enum Pick {
    Held(usize),
    Added(usize),
}

/// The keys of some stamps.
pub open spec fn keys_of(stamps: Seq<Stamp>) -> Seq<Seq<char>> {
    Seq::new(stamps.len(), |i: int| stamps[i].key@)
}

/// Whether added decode `j` is new: no held decode and no earlier added one
/// has its key.
pub open spec fn fresh(held: Seq<Stamp>, added: Seq<Stamp>, j: int) -> bool {
    &&& 0 <= j < added.len()
    &&& !keys_of(held).contains(added[j].key@)
    &&& !keys_of(added.take(j)).contains(added[j].key@)
}

/// Whether a pick names a held decode, or a new added one.
pub open spec fn pick_valid(held: Seq<Stamp>, added: Seq<Stamp>, p: Pick) -> bool {
    match p {
        Pick::Held(i) => i < held.len(),
        Pick::Added(j) => fresh(held, added, j as int),
    }
}

/// When a picked decode was heard.
pub open spec fn pick_at(held: Seq<Stamp>, added: Seq<Stamp>, p: Pick) -> int {
    match p {
        Pick::Held(i) => held[i as int].at as int,
        Pick::Added(j) => added[j as int].at as int,
    }
}

/// The place of a pick among the held decodes followed by the added ones.
pub open spec fn pick_order(held: Seq<Stamp>, p: Pick) -> int {
    match p {
        Pick::Held(i) => i as int,
        Pick::Added(j) => held.len() + j,
    }
}

/// Whether `p` comes before `q` once merged: by when they were heard, and
/// where that is equal, held before added and each in its own order.
pub open spec fn merged_before(held: Seq<Stamp>, added: Seq<Stamp>, p: Pick, q: Pick) -> bool {
    pick_at(held, added, p) < pick_at(held, added, q) || (pick_at(held, added, p) == pick_at(held, added, q)
        && pick_order(held, p) < pick_order(held, q))
}

/// Whether `s` lists the held decodes and the new added ones, each once,
/// oldest first, held before added where equally old.
pub open spec fn arranged(held: Seq<Stamp>, added: Seq<Stamp>, s: Seq<Pick>) -> bool {
    &&& forall|a: int, b: int| 0 <= a < b < s.len() ==> merged_before(held, added, #[trigger] s[a], #[trigger] s[b])
    &&& forall|p: Pick| s.contains(p) <==> pick_valid(held, added, p)
}

proof fn lemma_merged_order(held: Seq<Stamp>, added: Seq<Stamp>, p: Pick, q: Pick, r: Pick)
    requires
        pick_valid(held, added, p),
        pick_valid(held, added, q),
    ensures
        p != q ==> (merged_before(held, added, p, q) || merged_before(held, added, q, p)),
        !(merged_before(held, added, p, q) && merged_before(held, added, q, p)),
        merged_before(held, added, p, q) && merged_before(held, added, q, r) ==> merged_before(held, added, p, r),
{
}

fn at_of(held: &[Stamp], added: &[Stamp], p: Pick) -> (at: i64)
    requires
        pick_valid(held@, added@, p),
    ensures
        at == pick_at(held@, added@, p),
{
    match p {
        Pick::Held(i) => held[i].at,
        Pick::Added(j) => added[j].at,
    }
}

fn order_before(held: &[Stamp], added: &[Stamp], p: Pick, q: Pick) -> (r: bool)
    requires
        pick_valid(held@, added@, p),
        pick_valid(held@, added@, q),
    ensures
        r == merged_before(held@, added@, p, q),
{
    let a = at_of(held, added, p);
    let b = at_of(held, added, q);
    if a != b {
        return a < b;
    }
    match (p, q) {
        (Pick::Held(i), Pick::Held(k)) => i < k,
        (Pick::Held(_), Pick::Added(_)) => true,
        (Pick::Added(_), Pick::Held(_)) => false,
        (Pick::Added(j), Pick::Added(k)) => j < k,
    }
}

/// Puts `p` into the list, keeping it oldest first.
fn insert_pick(held: &[Stamp], added: &[Stamp], list: &mut Vec<Pick>, p: Pick)
    requires
        pick_valid(held@, added@, p),
        !old(list)@.contains(p),
        forall|a: int| 0 <= a < old(list)@.len() ==> pick_valid(held@, added@, #[trigger] old(list)@[a]),
        forall|a: int, b: int| 0 <= a < b < old(list)@.len() ==> merged_before(held@, added@, #[trigger] old(list)@[a], #[trigger] old(list)@[b]),
    ensures
        forall|a: int| 0 <= a < final(list)@.len() ==> pick_valid(held@, added@, #[trigger] final(list)@[a]),
        forall|a: int, b: int| 0 <= a < b < final(list)@.len() ==> merged_before(held@, added@, #[trigger] final(list)@[a], #[trigger] final(list)@[b]),
        forall|q: Pick| final(list)@.contains(q) <==> (old(list)@.contains(q) || q == p),
{
    let mut at: usize = 0;
    while at < list.len() && !order_before(held, added, p, list[at])
        invariant
            at <= list@.len(),
            list@ == old(list)@,
            pick_valid(held@, added@, p),
            !list@.contains(p),
            forall|a: int| 0 <= a < list@.len() ==> pick_valid(held@, added@, #[trigger] list@[a]),
            forall|a: int| 0 <= a < at ==> merged_before(held@, added@, #[trigger] list@[a], p),
        decreases list@.len() - at,
    {
        proof {
            let q = list@[at as int];
            lemma_merged_order(held@, added@, p, q, q);
        }
        at += 1;
    }
    let ghost before = list@;
    proof {
        if at < before.len() {
            let q = before[at as int];
            assert forall|a: int| at <= a < before.len() implies merged_before(held@, added@, p, #[trigger] before[a]) by {
                if a > at {
                    lemma_merged_order(held@, added@, p, q, before[a]);
                }
            }
        }
    }
    list.insert(at, p);
    proof {
        let now = list@;
        assert forall|a: int| 0 <= a < now.len() implies pick_valid(held@, added@, #[trigger] now[a]) by {
            if a < at {
                assert(now[a] == before[a]);
            } else if a > at {
                assert(now[a] == before[a - 1]);
            }
        }
        assert forall|a: int, b: int| 0 <= a < b < now.len() implies merged_before(held@, added@, #[trigger] now[a], #[trigger] now[b]) by {
            if a < at && b < at {
                assert(now[a] == before[a] && now[b] == before[b]);
            } else if a < at && b == at {
            } else if a < at && b > at {
                assert(now[a] == before[a] && now[b] == before[b - 1]);
                lemma_merged_order(held@, added@, now[a], p, now[b]);
            } else if a == at {
                assert(now[b] == before[b - 1]);
            } else {
                assert(now[a] == before[a - 1] && now[b] == before[b - 1]);
            }
        }
        assert forall|q: Pick| now.contains(q) <==> (before.contains(q) || q == p) by {
            if now.contains(q) {
                let a = choose|a: int| 0 <= a < now.len() && now[a] == q;
                if a < at {
                    assert(before[a] == q);
                } else if a > at {
                    assert(before[a - 1] == q);
                }
            }
            if before.contains(q) {
                let a = choose|a: int| 0 <= a < before.len() && before[a] == q;
                if a < at {
                    assert(now[a] == q);
                } else {
                    assert(now[a + 1] == q);
                }
            }
            if q == p {
                assert(now[at as int] == p);
            }
        }
    }
}

/// The number of merged entries dropped to keep `capacity`: the oldest ones
/// past it.
pub open spec fn overflow(len: int, capacity: int) -> int {
    if len > capacity {
        len - capacity
    } else {
        0
    }
}

/// Merges added decodes into the held ones: nothing when none is new; else
/// the held decodes and each new one once (the first of a key), oldest first
/// with held before added where equally old, the oldest dropped past
/// `capacity`. The result names each entry by where it comes from; it holds
/// as many entries as there are held and new decodes, up to `capacity`, and
/// no two of its keys are equal where no two held keys are.
pub fn merge(held: &[Stamp], added: &[Stamp], capacity: usize) -> (merged: Option<Vec<Pick>>)
    ensures
        match merged {
            None => forall|j: int| 0 <= j < added@.len() ==> !#[trigger] fresh(held@, added@, j),
            Some(out) => (exists|j: int| #[trigger] fresh(held@, added@, j)) && exists|s: Seq<Pick>|
                arranged(held@, added@, s) && out@ == s.skip(overflow(s.len() as int, capacity as int)),
        },
        merged matches Some(out) ==> out@.len() == at_most(
            (held@.len() + new_picks(held@, added@, added@.len() as int).len()) as int,
            capacity as int,
        ),
        merged matches Some(out) ==> forall|a: int, b: int|
            0 <= a < b < out@.len() ==> pick_at(held@, added@, #[trigger] out@[a]) <= pick_at(held@, added@, #[trigger] out@[b]),
        merged matches Some(out) ==> (distinct_keys(held@) ==> forall|a: int, b: int|
            0 <= a < out@.len() && 0 <= b < out@.len() && a != b ==> pick_key(held@, added@, #[trigger] out@[a])
                != pick_key(held@, added@, #[trigger] out@[b])),
{
    let mut list: Vec<Pick> = Vec::new();
    let mut i: usize = 0;
    while i < held.len()
        invariant
            i <= held@.len(),
            forall|a: int| 0 <= a < list@.len() ==> pick_valid(held@, added@, #[trigger] list@[a]),
            forall|a: int, b: int| 0 <= a < b < list@.len() ==> merged_before(held@, added@, #[trigger] list@[a], #[trigger] list@[b]),
            forall|q: Pick| list@.contains(q) <==> (q matches Pick::Held(k) && k < i),
        decreases held@.len() - i,
    {
        insert_pick(held, added, &mut list, Pick::Held(i));
        i += 1;
    }
    let mut held_keys: Vec<String> = Vec::new();
    let mut k: usize = 0;
    while k < held.len()
        invariant
            k <= held@.len(),
            texts(held_keys@) == keys_of(held@.take(k as int)),
        decreases held@.len() - k,
    {
        let ghost before = held_keys@;
        let key = held[k].key.clone();
        held_keys.push(key);
        proof {
            lemma_texts_push(before, key);
            assert(keys_of(held@.take(k + 1)) =~= keys_of(held@.take(k as int)).push(key@));
        }
        k += 1;
    }
    assert(held@.take(k as int) =~= held@);
    let mut earlier: Vec<String> = Vec::new();
    let mut any_fresh = false;
    let mut j: usize = 0;
    while j < added.len()
        invariant
            j <= added@.len(),
            texts(held_keys@) == keys_of(held@),
            texts(earlier@) == keys_of(added@.take(j as int)),
            forall|a: int| 0 <= a < list@.len() ==> pick_valid(held@, added@, #[trigger] list@[a]),
            forall|a: int, b: int| 0 <= a < b < list@.len() ==> merged_before(held@, added@, #[trigger] list@[a], #[trigger] list@[b]),
            forall|q: Pick| list@.contains(q) <==> (pick_valid(held@, added@, q) && (q matches Pick::Added(m) ==> m < j)),
            any_fresh <==> exists|m: int| 0 <= m < j && #[trigger] fresh(held@, added@, m),
        decreases added@.len() - j,
    {
        let key = &added[j].key;
        if !holds(held_keys.as_slice(), key.as_str()) && !holds(earlier.as_slice(), key.as_str()) {
            assert(fresh(held@, added@, j as int));
            insert_pick(held, added, &mut list, Pick::Added(j));
            any_fresh = true;
        } else {
            assert(!fresh(held@, added@, j as int));
            assert forall|q: Pick| list@.contains(q) <==> (pick_valid(held@, added@, q) && (q matches Pick::Added(m) ==> m < j + 1)) by {
                if q == Pick::Added(j) {
                    assert(!pick_valid(held@, added@, q));
                }
            }
        }
        let ghost before = earlier@;
        let copy = key.clone();
        earlier.push(copy);
        proof {
            lemma_texts_push(before, copy);
            assert(keys_of(added@.take(j + 1)) =~= keys_of(added@.take(j as int)).push(copy@));
        }
        j += 1;
    }
    if !any_fresh {
        return None;
    }
    let ghost s = list@;
    assert(arranged(held@, added@, s));
    let drop: usize = if list.len() > capacity {
        list.len() - capacity
    } else {
        0
    };
    let mut out: Vec<Pick> = Vec::new();
    let mut m: usize = drop;
    while m < list.len()
        invariant
            drop <= m <= list@.len(),
            list@ == s,
            out@ == s.subrange(drop as int, m as int),
        decreases list@.len() - m,
    {
        out.push(list[m]);
        m += 1;
        assert(out@ =~= s.subrange(drop as int, m as int));
    }
    assert(out@ =~= s.skip(overflow(s.len() as int, capacity as int)));
    proof {
        law_merge_counts_and_keys(held@, added@, s, capacity as int);
    }
    Some(out)
}

/// Two lists arranged from the same decodes are the same list: so the
/// merged list is fixed by the decodes.
pub proof fn law_merge_order_is_fixed(held: Seq<Stamp>, added: Seq<Stamp>, s: Seq<Pick>, t: Seq<Pick>)
    requires
        arranged(held, added, s),
        arranged(held, added, t),
    ensures
        s == t,
{
    let before = |p: Pick, q: Pick| merged_before(held, added, p, q);
    assert forall|a: int, b: int| 0 <= a < b < s.len() implies before(#[trigger] s[a], #[trigger] s[b]) by {}
    assert forall|a: int, b: int| 0 <= a < b < t.len() implies before(#[trigger] t[a], #[trigger] t[b]) by {}
    assert forall|x: Pick, y: Pick| s.contains(x) && s.contains(y) && x != y implies before(x, y) || before(y, x) by {
        lemma_merged_order(held, added, x, y, y);
    }
    assert forall|x: Pick, y: Pick| s.contains(x) && s.contains(y) implies !(before(x, y) && before(y, x)) by {
        lemma_merged_order(held, added, x, y, y);
    }
    assert forall|x: Pick| s.contains(x) <==> t.contains(x) by {}
    lemma_sorted_unique(s, t, before);
}

/// The new added decodes as picks, among the first `n` added, in the order
/// they were added.
pub open spec fn new_picks(held: Seq<Stamp>, added: Seq<Stamp>, n: int) -> Seq<Pick>
    decreases n,
{
    if n <= 0 {
        Seq::empty()
    } else {
        let rest = new_picks(held, added, n - 1);
        if fresh(held, added, n - 1) {
            rest.push(Pick::Added((n - 1) as usize))
        } else {
            rest
        }
    }
}

/// The key of a picked decode.
pub open spec fn pick_key(held: Seq<Stamp>, added: Seq<Stamp>, p: Pick) -> Seq<char> {
    match p {
        Pick::Held(i) => held[i as int].key@,
        Pick::Added(j) => added[j as int].key@,
    }
}

/// Whether no two held decodes share a key.
pub open spec fn distinct_keys(held: Seq<Stamp>) -> bool {
    forall|i: int, k: int| 0 <= i < k < held.len() ==> #[trigger] held[i].key@ != #[trigger] held[k].key@
}

/// The smaller of two counts.
pub open spec fn at_most(len: int, capacity: int) -> int {
    if len > capacity {
        capacity
    } else {
        len
    }
}

proof fn lemma_new_picks(held: Seq<Stamp>, added: Seq<Stamp>, n: int)
    requires
        0 <= n <= added.len(),
        added.len() <= usize::MAX,
    ensures
        forall|p: Pick| new_picks(held, added, n).contains(p) <==> (p matches Pick::Added(j) && j < n && fresh(held, added, j as int)),
        forall|a: int, b: int| 0 <= a < b < new_picks(held, added, n).len() ==> (#[trigger] new_picks(held, added, n)[a] matches Pick::Added(j) && #[trigger] new_picks(held, added, n)[b] matches Pick::Added(k) && j < k),
        forall|a: int| 0 <= a < new_picks(held, added, n).len() ==> #[trigger] new_picks(held, added, n)[a] is Added,
    decreases n,
{
    if n > 0 {
        lemma_new_picks(held, added, n - 1);
        let rest = new_picks(held, added, n - 1);
        if fresh(held, added, n - 1) {
            let now = rest.push(Pick::Added((n - 1) as usize));
            assert forall|p: Pick| now.contains(p) <==> (p matches Pick::Added(j) && j < n && fresh(held, added, j as int)) by {
                if now.contains(p) {
                    let a = choose|a: int| 0 <= a < now.len() && now[a] == p;
                    if a < rest.len() {
                        assert(rest[a] == p);
                        assert(rest.contains(p));
                    } else {
                        assert(p == Pick::Added((n - 1) as usize));
                        assert(((n - 1) as usize) as int == n - 1);
                    }
                }
                if let Pick::Added(j) = p {
                    if j < n && fresh(held, added, j as int) {
                        if j == n - 1 {
                            assert(now[rest.len() as int] == p);
                        } else {
                            assert(rest.contains(p));
                            let a = choose|a: int| 0 <= a < rest.len() && rest[a] == p;
                            assert(now[a] == p);
                        }
                    }
                }
            }
            assert forall|a: int| 0 <= a < now.len() implies #[trigger] now[a] matches Pick::Added(j) && j < n - 1 || a == rest.len() by {
                if a < rest.len() {
                    assert(rest.contains(rest[a]));
                }
            }
        }
    }
}

/// Whether two picks name decodes of different keys.
proof fn lemma_valid_keys_differ(held: Seq<Stamp>, added: Seq<Stamp>, p: Pick, q: Pick)
    requires
        pick_valid(held, added, p),
        pick_valid(held, added, q),
        p != q,
        distinct_keys(held),
    ensures
        pick_key(held, added, p) != pick_key(held, added, q),
{
    match (p, q) {
        (Pick::Held(i), Pick::Held(k)) => {
            if i < k {
                assert(held[i as int].key@ != held[k as int].key@);
            } else {
                assert(held[k as int].key@ != held[i as int].key@);
            }
        },
        (Pick::Held(i), Pick::Added(j)) => {
            assert(keys_of(held)[i as int] == held[i as int].key@);
        },
        (Pick::Added(j), Pick::Held(i)) => {
            assert(keys_of(held)[i as int] == held[i as int].key@);
        },
        (Pick::Added(j), Pick::Added(k)) => {
            if j < k {
                assert(keys_of(added.take(k as int))[j as int] == added[j as int].key@);
            } else {
                assert(keys_of(added.take(j as int))[k as int] == added[k as int].key@);
            }
        },
    }
}

/// A merged list holds as many decodes as there are held ones and new added
/// ones, up to `capacity`; it runs oldest first; and where the held decodes
/// have distinct keys, so do the decodes it holds.
pub proof fn law_merge_counts_and_keys(held: Seq<Stamp>, added: Seq<Stamp>, s: Seq<Pick>, capacity: int)
    requires
        arranged(held, added, s),
        held.len() <= usize::MAX,
        added.len() <= usize::MAX,
        capacity >= 0,
    ensures
        s.skip(overflow(s.len() as int, capacity)).len() == at_most(
            (held.len() + new_picks(held, added, added.len() as int).len()) as int,
            capacity,
        ),
        forall|a: int, b: int| 0 <= a < b < s.skip(overflow(s.len() as int, capacity)).len()
            ==> pick_at(held, added, #[trigger] s.skip(overflow(s.len() as int, capacity))[a])
                <= pick_at(held, added, #[trigger] s.skip(overflow(s.len() as int, capacity))[b]),
        distinct_keys(held) ==> forall|a: int, b: int|
            0 <= a < s.skip(overflow(s.len() as int, capacity)).len() && 0 <= b < s.skip(overflow(s.len() as int, capacity)).len() && a != b
            ==> pick_key(held, added, #[trigger] s.skip(overflow(s.len() as int, capacity))[a])
                != pick_key(held, added, #[trigger] s.skip(overflow(s.len() as int, capacity))[b]),
{
    let n = added.len() as int;
    lemma_new_picks(held, added, n);
    let fresh_picks = new_picks(held, added, n);
    let olds = Seq::new(held.len(), |i: int| Pick::Held(i as usize));
    let canon = olds + fresh_picks;
    assert forall|a: int, b: int| 0 <= a < b < canon.len() implies canon[a] != canon[b] by {
        if b < olds.len() {
        } else if a < olds.len() {
            assert(fresh_picks[b - olds.len()] is Added);
        } else {
            assert(fresh_picks[a - olds.len()] matches Pick::Added(j) && fresh_picks[b - olds.len()] matches Pick::Added(k) && j < k);
        }
    }
    assert(canon.no_duplicates());
    assert forall|p: Pick| canon.contains(p) <==> pick_valid(held, added, p) by {
        if canon.contains(p) {
            let a = choose|a: int| 0 <= a < canon.len() && canon[a] == p;
            if a >= olds.len() {
                assert(fresh_picks.contains(p));
            }
        }
        if pick_valid(held, added, p) {
            match p {
                Pick::Held(i) => {
                    assert(canon[i as int] == p);
                },
                Pick::Added(j) => {
                    assert(fresh_picks.contains(p));
                    let a = choose|a: int| 0 <= a < fresh_picks.len() && fresh_picks[a] == p;
                    assert(canon[olds.len() + a] == p);
                },
            }
        }
    }
    assert forall|a: int, b: int| 0 <= a < b < s.len() implies s[a] != s[b] by {
        assert(merged_before(held, added, s[a], s[b]));
    }
    assert(s.no_duplicates());
    assert forall|p: Pick| s.to_set().contains(p) <==> canon.to_set().contains(p) by {}
    assert(s.to_set() =~= canon.to_set());
    s.unique_seq_to_set();
    canon.unique_seq_to_set();
    let out = s.skip(overflow(s.len() as int, capacity));
    let off = overflow(s.len() as int, capacity);
    assert forall|a: int, b: int| 0 <= a < b < out.len() implies pick_at(held, added, #[trigger] out[a]) <= pick_at(held, added, #[trigger] out[b]) by {
        assert(out[a] == s[a + off] && out[b] == s[b + off]);
        assert(merged_before(held, added, s[a + off], s[b + off]));
    }
    if distinct_keys(held) {
        assert forall|a: int, b: int| 0 <= a < out.len() && 0 <= b < out.len() && a != b implies pick_key(held, added, #[trigger] out[a]) != pick_key(held, added, #[trigger] out[b]) by {
            assert(out[a] == s[a + off] && out[b] == s[b + off]);
            assert(s.contains(s[a + off]) && s.contains(s[b + off]));
            lemma_valid_keys_differ(held, added, out[a], out[b]);
        }
    }
}

} // verus!
