//! The recording library: how recordings are named, found and claimed, and
//! which files make an upload.
use vstd::prelude::*;
use crate::order::{key_before, keys_of, sorted_by_keys};
use crate::patch::{NodeBody, PatchGraph};
use crate::text::{before, chars_of, ends_with, has_suffix, holds, lemma_texts_push, lower_of, push_str, same_chars, same_text, slice_chars, string_of, text_before, texts, to_lower, trim, trim_chars};

verus! {

/// The driver that plays recordings back.
pub const RECORDING_DRIVER_ID: &'static str = "recording";

/// The suffix of a SigMF metadata file.
pub const META_SUFFIX: &'static str = ".sigmf-meta";

/// The suffix of a SigMF data file.
pub const DATA_SUFFIX: &'static str = ".sigmf-data";

/// The characters of the metadata suffix.
pub open spec fn meta_suffix() -> Seq<char> {
    seq!['.', 's', 'i', 'g', 'm', 'f', '-', 'm', 'e', 't', 'a']
}

/// The characters of the data suffix.
pub open spec fn data_suffix() -> Seq<char> {
    seq!['.', 's', 'i', 'g', 'm', 'f', '-', 'd', 'a', 't', 'a']
}

fn meta_chars() -> (out: Vec<char>)
    ensures
        out@ == meta_suffix(),
{
    let out = vec!['.', 's', 'i', 'g', 'm', 'f', '-', 'm', 'e', 't', 'a'];
    assert(out@ =~= meta_suffix());
    out
}

fn data_chars() -> (out: Vec<char>)
    ensures
        out@ == data_suffix(),
{
    let out = vec!['.', 's', 'i', 'g', 'm', 'f', '-', 'd', 'a', 't', 'a'];
    assert(out@ =~= data_suffix());
    out
}

/// The device id under which the recording with stem `stem` plays.
pub open spec fn device_id_of(stem: Seq<char>) -> Seq<char> {
    seq!['r', 'e', 'c', 'o', 'r', 'd', 'i', 'n', 'g', ':'] + stem
}

/// The device id of a recording: the recording driver, a colon, and the stem.
pub fn recording_device_id(stem: &str) -> (id: String)
    ensures
        id@ == device_id_of(stem@),
{
    let mut out: Vec<char> = vec!['r', 'e', 'c', 'o', 'r', 'd', 'i', 'n', 'g', ':'];
    let tail = chars_of(stem);
    let ghost head = out@;
    let mut i: usize = 0;
    while i < tail.len()
        invariant
            i <= tail@.len(),
            out@ == head + tail@.take(i as int),
        decreases tail@.len() - i,
    {
        out.push(tail[i]);
        i += 1;
        assert(out@ =~= head + tail@.take(i as int));
    }
    assert(tail@.take(i as int) =~= tail@);
    assert(head =~= seq!['r', 'e', 'c', 'o', 'r', 'd', 'i', 'n', 'g', ':']);
    string_of(out.as_slice())
}

/// Why a set of picked files is no upload.
#[derive(Clone, Copy, Debug, PartialEq, Eq)]
pub enum UploadProblem {
    Empty,
    LoneMeta,
    LoneData,
    Mixed,
}

impl UploadProblem {
    /// What the user is told about the problem.
    pub fn said(self) -> (text: &'static str)
        ensures
            text@ == match self {
                UploadProblem::Empty => "Pick a .sigmf archive, or a .sigmf-meta and .sigmf-data pair."@,
                UploadProblem::LoneMeta => "That is the metadata on its own: add the matching .sigmf-data."@,
                UploadProblem::LoneData => "That is the samples on their own: add the matching .sigmf-meta."@,
                UploadProblem::Mixed => "Send one .sigmf archive, or one .sigmf-meta with one .sigmf-data."@,
            },
    {
        match self {
            UploadProblem::Empty => "Pick a .sigmf archive, or a .sigmf-meta and .sigmf-data pair.",
            UploadProblem::LoneMeta => "That is the metadata on its own: add the matching .sigmf-data.",
            UploadProblem::LoneData => "That is the samples on their own: add the matching .sigmf-meta.",
            UploadProblem::Mixed => "Send one .sigmf archive, or one .sigmf-meta with one .sigmf-data.",
        }
    }
}

/// How many of `names` end with `suffix`.
pub open spec fn count_suffix(names: Seq<String>, suffix: Seq<char>) -> nat
    decreases names.len(),
{
    if names.len() == 0 {
        0
    } else {
        count_suffix(names.drop_last(), suffix) + if has_suffix(names.last()@, suffix) {
            1nat
        } else {
            0nat
        }
    }
}

/// What is wrong with uploading files of these names: nothing when they are
/// one `.sigmf` archive, or exactly one `.sigmf-meta` with one `.sigmf-data`.
pub open spec fn upload_problem(names: Seq<String>) -> Option<UploadProblem> {
    let meta = count_suffix(names, meta_suffix());
    let data = count_suffix(names, data_suffix());
    let archives = names.len() - meta - data;
    if names.len() == 0 {
        Some(UploadProblem::Empty)
    } else if archives > 0 {
        if archives == names.len() && archives == 1 {
            None
        } else {
            Some(UploadProblem::Mixed)
        }
    } else if meta == 1 && data == 1 {
        None
    } else if data == 0 {
        Some(UploadProblem::LoneMeta)
    } else {
        Some(UploadProblem::LoneData)
    }
}

proof fn lemma_counts_bounded(names: Seq<String>)
    ensures
        count_suffix(names, meta_suffix()) + count_suffix(names, data_suffix()) <= names.len(),
    decreases names.len(),
{
    if names.len() > 0 {
        lemma_counts_bounded(names.drop_last());
        let last = names.last()@;
        if has_suffix(last, meta_suffix()) && has_suffix(last, data_suffix()) {
            assert(last[last.len() - 4] == meta_suffix()[7]);
            assert(last[last.len() - 4] == data_suffix()[7]);
        }
    }
}

/// Files go up as one archive alone, or as exactly one metadata file with
/// exactly one data file; any other choice is refused.
pub proof fn law_accepted_uploads(names: Seq<String>)
    ensures
        upload_problem(names) is None <==> {
            ||| names.len() == 1 && !has_suffix(names[0]@, meta_suffix()) && !has_suffix(names[0]@, data_suffix())
            ||| names.len() == 2 && count_suffix(names, meta_suffix()) == 1 && count_suffix(names, data_suffix()) == 1
        },
{
    lemma_counts_bounded(names);
    if names.len() == 1 {
        assert(names.drop_last() =~= Seq::<String>::empty());
        assert(names.last() == names[0]);
        lemma_counts_bounded(names.drop_last());
    }
}

/// Checks a set of picked files before they are sent.
pub fn check_upload(names: &[String]) -> (problem: Option<UploadProblem>)
    ensures
        problem == upload_problem(names@),
{
    if names.len() == 0 {
        return Some(UploadProblem::Empty);
    }
    let meta_end = meta_chars();
    let data_end = data_chars();
    let mut meta: usize = 0;
    let mut data: usize = 0;
    let mut i: usize = 0;
    while i < names.len()
        invariant
            i <= names@.len(),
            meta_end@ == meta_suffix(),
            data_end@ == data_suffix(),
            meta == count_suffix(names@.take(i as int), meta_suffix()),
            data == count_suffix(names@.take(i as int), data_suffix()),
            meta + data <= i,
        decreases names@.len() - i,
    {
        let name = chars_of(names[i].as_str());
        proof {
            assert(names@.take(i + 1).drop_last() =~= names@.take(i as int));
            lemma_counts_bounded(names@.take(i + 1));
        }
        if ends_with(name.as_slice(), meta_end.as_slice()) {
            meta += 1;
        }
        if ends_with(name.as_slice(), data_end.as_slice()) {
            data += 1;
        }
        i += 1;
    }
    assert(names@.take(i as int) =~= names@);
    let archives = names.len() - meta - data;
    if archives > 0 {
        return if archives != names.len() || archives != 1 {
            Some(UploadProblem::Mixed)
        } else {
            None
        };
    }
    if meta == 1 && data == 1 {
        return None;
    }
    Some(
        if data == 0 {
            UploadProblem::LoneMeta
        } else {
            UploadProblem::LoneData
        },
    )
}

/// The form field a file is sent under, by its suffix.
pub open spec fn field_of(name: Seq<char>) -> Seq<char> {
    if has_suffix(name, meta_suffix()) {
        "meta"@
    } else if has_suffix(name, data_suffix()) {
        "data"@
    } else {
        "archive"@
    }
}

/// The form field a file is sent under: `meta`, `data`, or `archive`.
pub fn upload_field(name: &str) -> (field: &'static str)
    ensures
        field@ == field_of(name@),
{
    let chars = chars_of(name);
    if ends_with(chars.as_slice(), meta_chars().as_slice()) {
        "meta"
    } else if ends_with(chars.as_slice(), data_chars().as_slice()) {
        "data"
    } else {
        "archive"
    }
}

/// What the library shows and searches of a recording: its file stem, the
/// name and note given to it if any, its tags, when it was made and on what
/// device.
pub struct Recording {
    pub file: String,
    pub name: Option<String>,
    pub note: Option<String>,
    pub tags: Vec<String>,
    pub created_at: String,
    pub device_label: String,
}

/// The first recording at or after `from` whose file stem is `stem`.
pub open spec fn stem_at(library: Seq<Recording>, stem: Seq<char>, from: int) -> Option<int>
    decreases library.len() - from,
{
    if from < 0 || from >= library.len() {
        None
    } else if library[from].file@ == stem {
        Some(from)
    } else {
        stem_at(library, stem, from + 1)
    }
}

/// The recording of the library that a stem names: none for no stem or an
/// empty one, else the first with that file stem.
pub open spec fn found_of(library: Seq<Recording>, stem: Option<Seq<char>>) -> Option<int> {
    match stem {
        Some(s) => if s.len() == 0 {
            None
        } else {
            stem_at(library, s, 0)
        },
        None => None,
    }
}

/// The recording of `library` with the file stem `stem`, if there is one.
pub fn find_recording<'a>(library: &'a [Recording], stem: Option<&str>) -> (found: Option<&'a Recording>)
    ensures
        match found_of(
            library@,
            match stem {
                Some(s) => Some(s@),
                None => None,
            },
        ) {
            Some(k) => found matches Some(r) && *r == library@[k],
            None => found is None,
        },
{
    let s = match stem {
        Some(s) => s,
        None => return None,
    };
    if chars_of(s).len() == 0 {
        return None;
    }
    let mut i: usize = 0;
    while i < library.len()
        invariant
            i <= library@.len(),
            stem == Some(s),
            s@.len() > 0,
            stem_at(library@, s@, 0) == stem_at(library@, s@, i as int),
        decreases library@.len() - i,
    {
        if same_text(library[i].file.as_str(), s) {
            assert(found_of(library@, Some(s@)) == Some(i as int));
            return Some(&library[i]);
        }
        i += 1;
    }
    None
}

/// The stems that recording players other than `except` play, in the order
/// of the graph's nodes; a player with no stem or an empty one claims none.
pub open spec fn claimed_in<P>(nodes: Seq<crate::patch::GraphNode<P>>, except: Seq<char>) -> Seq<Seq<char>>
    decreases nodes.len(),
{
    if nodes.len() == 0 {
        Seq::empty()
    } else {
        let rest = claimed_in(nodes.drop_last(), except);
        let node = nodes.last();
        match node.body {
            NodeBody::Recording(Some(stem)) => if node.id@ != except && stem@.len() > 0 {
                rest.push(stem@)
            } else {
                rest
            },
            _ => rest,
        }
    }
}

/// The recordings that players other than `except` already play.
pub fn claimed_recordings<P>(graph: &PatchGraph<P>, except: &str) -> (claimed: Vec<String>)
    ensures
        texts(claimed@) == claimed_in(graph.nodes@, except@),
{
    let mut out: Vec<String> = Vec::new();
    let mut i: usize = 0;
    while i < graph.nodes.len()
        invariant
            i <= graph.nodes@.len(),
            texts(out@) == claimed_in(graph.nodes@.take(i as int), except@),
        decreases graph.nodes@.len() - i,
    {
        let node = &graph.nodes[i];
        proof {
            assert(graph.nodes@.take(i + 1).drop_last() =~= graph.nodes@.take(i as int));
        }
        match &node.body {
            NodeBody::Recording(Some(stem)) => {
                if !same_text(node.id.as_str(), except) && chars_of(stem.as_str()).len() > 0 {
                    let ghost before = out@;
                    let copy = stem.clone();
                    out.push(copy);
                    proof {
                        lemma_texts_push(before, copy);
                    }
                }
            },
            _ => {},
        }
        i += 1;
    }
    assert(graph.nodes@.take(i as int) =~= graph.nodes@);
    out
}

/// The title of a recording: its name without outer white space, or its file
/// stem when it has no name or a blank one.
pub open spec fn title_of(r: Recording) -> Seq<char> {
    match r.name {
        Some(n) => if trim(n@).len() > 0 {
            trim(n@)
        } else {
            r.file@
        },
        None => r.file@,
    }
}

/// The title a recording is listed under.
pub fn recording_title(recording: &Recording) -> (title: String)
    ensures
        title@ == title_of(*recording),
{
    match &recording.name {
        Some(n) => {
            let kept = trim_chars(chars_of(n.as_str()).as_slice());
            if kept.len() > 0 {
                return string_of(kept.as_slice());
            }
            recording.file.clone()
        },
        None => recording.file.clone(),
    }
}

/// Whether `needle` occurs in `hay`.
pub open spec fn occurs(hay: Seq<char>, needle: Seq<char>) -> bool {
    exists|i: int| 0 <= i && i + needle.len() <= hay.len() && #[trigger] hay.subrange(i, i + needle.len()) == needle
}

fn occurs_in(hay: &[char], needle: &[char]) -> (r: bool)
    ensures
        r == occurs(hay@, needle@),
{
    let n = needle.len();
    if n > hay.len() {
        return false;
    }
    if n == 0 {
        assert(hay@.subrange(0int, 0int + needle@.len()) =~= needle@);
        return true;
    }
    let mut i: usize = 0;
    while i <= hay.len() - n
        invariant
            n == needle@.len(),
            0 < n <= hay@.len(),
            i <= hay@.len() - n + 1,
            forall|j: int| 0 <= j < i ==> #[trigger] hay@.subrange(j, j + n) != needle@,
        decreases hay@.len() + 1 - i,
    {
        let part = slice_chars(hay, i, i + n);
        if same_chars(part.as_slice(), needle) {
            return true;
        }
        i += 1;
    }
    false
}

/// The texts a search looks in: the file stem, the name and note if given,
/// then each tag.
pub open spec fn fields_of(r: Recording) -> Seq<Seq<char>> {
    let name = match r.name {
        Some(n) => seq![n@],
        None => Seq::empty(),
    };
    let note = match r.note {
        Some(n) => seq![n@],
        None => Seq::empty(),
    };
    seq![r.file@] + name + note + texts(r.tags@)
}

/// Whether a recording answers a search: the search without outer white
/// space, in lower case, is empty or occurs in one of its fields in lower
/// case.
pub open spec fn answers(r: Recording, search: Seq<char>) -> bool {
    let needle = lower_of(trim(search));
    needle.len() == 0 || exists|k: int| 0 <= k < fields_of(r).len() && occurs(lower_of(#[trigger] fields_of(r)[k]), needle)
}

/// Whether `needle` occurs in `text` once both are in lower case.
pub open spec fn occurs_lower(text: Seq<char>, needle: Seq<char>) -> bool {
    occurs(lower_of(text), needle)
}

/// A search looks through the file stem, the name and note where given, and
/// every tag, whatever its place among the tags: a recording answers a
/// search exactly when the search, trimmed and in lower case, is empty or
/// occurs in one of these in lower case.
pub proof fn law_search_looks_in_every_field(r: Recording, search: Seq<char>)
    ensures
        answers(r, search) == {
            let needle = lower_of(trim(search));
            ||| needle.len() == 0
            ||| occurs_lower(r.file@, needle)
            ||| (r.name matches Some(n) && occurs_lower(n@, needle))
            ||| (r.note matches Some(n) && occurs_lower(n@, needle))
            ||| exists|i: int| 0 <= i < r.tags@.len() && occurs_lower(#[trigger] r.tags@[i]@, needle)
        },
{
    let needle = lower_of(trim(search));
    let f = fields_of(r);
    let skip: int = 1 + (if r.name is Some { 1int } else { 0int }) + (if r.note is Some { 1int } else { 0int });
    assert(f.len() == skip + r.tags@.len());
    assert(f[0] == r.file@);
    if r.name is Some {
        assert(f[1] == r.name->0@);
    }
    if r.note is Some {
        assert(f[skip - 1] == r.note->0@);
    }
    assert forall|i: int| 0 <= i < r.tags@.len() implies f[skip + i] == #[trigger] r.tags@[i]@ by {}
    if answers(r, search) && needle.len() > 0 {
        let k = choose|k: int| 0 <= k < f.len() && occurs(lower_of(#[trigger] f[k]), needle);
        if k >= skip {
            assert(occurs_lower(r.tags@[k - skip]@, needle));
        } else if k == 0 {
        } else if k == 1 && r.name is Some {
        } else {
            assert(f[k] == r.note->0@);
        }
    }
    if exists|i: int| 0 <= i < r.tags@.len() && occurs_lower(#[trigger] r.tags@[i]@, needle) {
        let i = choose|i: int| 0 <= i < r.tags@.len() && occurs_lower(#[trigger] r.tags@[i]@, needle);
        assert(occurs(lower_of(f[skip + i]), needle));
    }
    if r.name matches Some(n) && occurs_lower(n@, needle) {
        assert(occurs(lower_of(f[1]), needle));
    }
    if r.note matches Some(n) && occurs_lower(n@, needle) {
        assert(occurs(lower_of(f[skip - 1]), needle));
    }
    if occurs_lower(r.file@, needle) {
        assert(occurs(lower_of(f[0]), needle));
    }
}

/// Whether a search finds anything in some texts, the search and the texts
/// already in lower case: an empty search finds everything, any other one
/// finds a text it occurs in.
pub fn found_in(needle: &[char], fields: &[Vec<char>]) -> (found: bool)
    ensures
        found == (needle@.len() == 0 || exists|k: int| 0 <= k < fields@.len() && occurs(#[trigger] fields@[k]@, needle@)),
{
    if needle.len() == 0 {
        return true;
    }
    let mut k: usize = 0;
    while k < fields.len()
        invariant
            k <= fields@.len(),
            forall|m: int| 0 <= m < k ==> !occurs(#[trigger] fields@[m]@, needle@),
        decreases fields@.len() - k,
    {
        if occurs_in(fields[k].as_slice(), needle) {
            return true;
        }
        k += 1;
    }
    false
}

fn push_lowered(lowered: &mut Vec<Vec<char>>, field: &str)
    ensures
        final(lowered)@.len() == old(lowered)@.len() + 1,
        forall|k: int| 0 <= k < old(lowered)@.len() ==> #[trigger] final(lowered)@[k] == old(lowered)@[k],
        final(lowered)@[old(lowered)@.len() as int]@ == lower_of(field@),
{
    let low = to_lower(field);
    lowered.push(chars_of(low.as_str()));
}

/// Whether a recording answers the search `search`.
pub fn matches_search(recording: &Recording, search: &str) -> (r: bool)
    ensures
        r == answers(*recording, search@),
{
    let trimmed = string_of(trim_chars(chars_of(search).as_slice()).as_slice());
    let lowered_search = to_lower(trimmed.as_str());
    let needle = chars_of(lowered_search.as_str());
    let ghost fields = fields_of(*recording);
    let mut lowered: Vec<Vec<char>> = Vec::new();
    push_lowered(&mut lowered, recording.file.as_str());
    match &recording.name {
        Some(n) => push_lowered(&mut lowered, n.as_str()),
        None => {},
    }
    match &recording.note {
        Some(n) => push_lowered(&mut lowered, n.as_str()),
        None => {},
    }
    let ghost start = lowered@.len();
    proof {
        assert(fields.len() == start + recording.tags@.len());
        assert forall|k: int| 0 <= k < start implies #[trigger] lowered@[k]@ == lower_of(fields[k]) by {
            if k == 0 {
                assert(fields[0] == recording.file@);
            } else if k == 1 && recording.name is Some {
                assert(fields[1] == recording.name->0@);
            } else {
                assert(fields[k] == recording.note->0@);
            }
        }
    }
    let mut t: usize = 0;
    while t < recording.tags.len()
        invariant
            t <= recording.tags@.len(),
            fields == fields_of(*recording),
            fields.len() == start + recording.tags@.len(),
            lowered@.len() == start + t,
            forall|k: int| 0 <= k < start + t ==> #[trigger] lowered@[k]@ == lower_of(fields[k]),
        decreases recording.tags@.len() - t,
    {
        assert(fields[start + t] == recording.tags@[t as int]@);
        push_lowered(&mut lowered, recording.tags[t].as_str());
        t += 1;
    }
    let found = found_in(needle.as_slice(), lowered.as_slice());
    proof {
        if needle@.len() > 0 {
            if found {
                let k = choose|k: int| 0 <= k < lowered@.len() && occurs(#[trigger] lowered@[k]@, needle@);
                assert(occurs(lower_of(fields[k]), needle@));
            }
            if answers(*recording, search@) {
                let k = choose|k: int| 0 <= k < fields.len() && occurs(lower_of(#[trigger] fields[k]), needle@);
                assert(occurs(lowered@[k]@, needle@));
            }
        }
    }
    found
}

/// The key recordings are listed by: their title in lower case.
pub open spec fn sort_key(r: Recording) -> Seq<char> {
    lower_of(title_of(r))
}

/// Whether recording `i` is listed before recording `j`: by key, and where
/// keys are equal by place in the library.
pub open spec fn listed_before(library: Seq<Recording>, i: int, j: int) -> bool {
    text_before(sort_key(library[i]), sort_key(library[j])) || (sort_key(library[i]) == sort_key(library[j]) && i < j)
}

/// Whether recording `i` of the library is offered: no other player has it
/// and it answers the search.
pub open spec fn offered(library: Seq<Recording>, claimed: Seq<String>, search: Seq<char>, i: int) -> bool {
    &&& 0 <= i < library.len()
    &&& !texts(claimed).contains(library[i].file@)
    &&& answers(library[i], search)
}

/// The recordings offered to a player, by their place in the library, in
/// the order of their titles in lower case; recordings with equal titles
/// keep the library's order.
pub fn recording_choices(library: &[Recording], claimed: &[String], search: &str) -> (choices: Vec<usize>)
    ensures
        forall|a: int, b: int| 0 <= a < b < choices@.len() ==> listed_before(library@, #[trigger] choices@[a] as int, #[trigger] choices@[b] as int),
        forall|a: int| 0 <= a < choices@.len() ==> #[trigger] choices@[a] < library@.len(),
        forall|i: int| 0 <= i < library@.len() ==> (choices@.contains(i as usize) <==> #[trigger] offered(library@, claimed@, search@, i)),
        forall|i: int| #[trigger] offered(library@, claimed@, search@, i) ==> 0 <= i < library@.len(),
{
    let mut flags: Vec<bool> = Vec::new();
    let mut keys: Vec<Vec<char>> = Vec::new();
    let mut chosen: Vec<bool> = Vec::new();
    let mut i: usize = 0;
    while i < library.len()
        invariant
            i <= library@.len(),
            keys@.len() == i,
            flags@.len() == i,
            chosen@.len() == i,
            forall|j: int| 0 <= j < i ==> #[trigger] keys@[j]@ == sort_key(library@[j]),
            forall|j: int| 0 <= j < i ==> !#[trigger] flags@[j],
            forall|j: int| 0 <= j < i ==> #[trigger] chosen@[j] == offered(library@, claimed@, search@, j),
        decreases library@.len() - i,
    {
        let title = recording_title(&library[i]);
        let low = to_lower(title.as_str());
        keys.push(chars_of(low.as_str()));
        flags.push(false);
        chosen.push(!holds(claimed, library[i].file.as_str()) && matches_search(&library[i], search));
        i += 1;
    }
    let order = sorted_by_keys(flags.as_slice(), keys.as_slice(), chosen.as_slice());
    proof {
        let ks = keys_of(flags@, keys@);
        assert forall|a: int, b: int| 0 <= a < b < order@.len() implies listed_before(library@, #[trigger] order@[a] as int, #[trigger] order@[b] as int) by {
            assert(key_before(ks, order@[a] as int, order@[b] as int));
            assert(ks[order@[a] as int].1 == sort_key(library@[order@[a] as int]));
            assert(ks[order@[b] as int].1 == sort_key(library@[order@[b] as int]));
        }
        assert forall|i: int| 0 <= i < library@.len() implies (order@.contains(i as usize) <==> #[trigger] offered(library@, claimed@, search@, i)) by {
            assert(chosen@[i] == offered(library@, claimed@, search@, i));
        }
    }
    order
}

/// The parts of a provenance line joined by a middle dot between spaces.
pub open spec fn dotted(parts: Seq<Seq<char>>) -> Seq<char>
    decreases parts.len(),
{
    if parts.len() == 0 {
        Seq::empty()
    } else if parts.len() == 1 {
        parts[0]
    } else {
        dotted(parts.drop_last()) + " \u{b7} "@ + parts.last()
    }
}

/// Where a recording came from: when it was made, on what device, its file
/// stem where its title is another, and each tag after a hash.
pub open spec fn provenance_of(r: Recording) -> Seq<char> {
    let head = seq![r.created_at@, r.device_label@];
    let named = if title_of(r) != r.file@ {
        head.push(r.file@)
    } else {
        head
    };
    dotted(named + Seq::new(r.tags@.len(), |i: int| "#"@ + r.tags@[i]@))
}

/// The line that says where a recording came from.
pub fn recording_provenance(recording: &Recording) -> (line: String)
    ensures
        line@ == provenance_of(*recording),
{
    let title = recording_title(recording);
    let ghost parts = {
        let head = seq![recording.created_at@, recording.device_label@];
        let named = if title_of(*recording) != recording.file@ {
            head.push(recording.file@)
        } else {
            head
        };
        named + Seq::new(recording.tags@.len(), |i: int| "#"@ + recording.tags@[i]@)
    };
    let mut out: Vec<char> = Vec::new();
    push_str(&mut out, recording.created_at.as_str());
    assert(out@ == dotted(parts.take(1)));
    push_str(&mut out, " \u{b7} ");
    push_str(&mut out, recording.device_label.as_str());
    assert(parts.take(2).drop_last() =~= parts.take(1));
    assert(out@ =~= dotted(parts.take(2)));
    let ghost mut done: int = 2;
    if !same_text(title.as_str(), recording.file.as_str()) {
        push_str(&mut out, " \u{b7} ");
        push_str(&mut out, recording.file.as_str());
        assert(parts.take(3).drop_last() =~= parts.take(2));
        assert(out@ =~= dotted(parts.take(3)));
        proof {
            done = 3;
        }
    }
    let ghost first = done;
    assert(parts.len() == first + recording.tags@.len());
    let mut t: usize = 0;
    while t < recording.tags.len()
        invariant
            t <= recording.tags@.len(),
            parts.len() == first + recording.tags@.len(),
            done == first + t,
            2 <= first,
            forall|j: int| 0 <= j < recording.tags@.len() ==> parts[first + j] == "#"@ + #[trigger] recording.tags@[j]@,
            out@ == dotted(parts.take(done)),
        decreases recording.tags@.len() - t,
    {
        push_str(&mut out, " \u{b7} #");
        push_str(&mut out, recording.tags[t].as_str());
        proof {
            assert(parts.take(done + 1).drop_last() =~= parts.take(done));
            assert(parts[done] == "#"@ + recording.tags@[t as int]@);
            reveal_strlit(" \u{b7} #");
            reveal_strlit(" \u{b7} ");
            reveal_strlit("#");
            assert(out@ =~= dotted(parts.take(done + 1)));
            done = done + 1;
        }
        t += 1;
    }
    assert(parts.take(done) =~= parts);
    string_of(out.as_slice())
}

} // verus!
