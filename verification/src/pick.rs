//! What a pick on the scope offers: a bookmark drafted from the band plan,
//! and the channel type a new channel starts with.
use vstd::prelude::*;
use crate::order::{key_before, keys_of, lemma_sorted_unique, sorted_by_keys, strict_total_on, strictly_sorted};
use crate::protocols::Descriptor;
use crate::text::{before, chars_of, lemma_text_order_total, lemma_text_order_transitive, lower_of, string_of, text_before, to_lower};

verus! {

/// What the band plan says of a frequency in one lane: the name of the
/// allocation there, and the channel type it suggests, if any.
pub struct Found {
    pub name: String,
    pub suggested: Option<String>,
}

/// A bookmark before the user edits it: its label, and the channel type it
/// suggests.
#[derive(Clone, Debug, PartialEq, Eq)]
pub struct BookmarkDraft {
    pub label: String,
    pub mode: Option<String>,
}

/// The text of an optional string.
pub open spec fn opt_view(o: Option<String>) -> Option<Seq<char>> {
    match o {
        Some(s) => Some(s@),
        None => None,
    }
}

/// The suggestion of the last lane that makes one: the most specific lane
/// comes last.
pub open spec fn suggestion_in(found: Seq<Found>) -> Option<Seq<char>>
    decreases found.len(),
{
    if found.len() == 0 {
        None
    } else {
        match found.last().suggested {
            Some(s) => Some(s@),
            None => suggestion_in(found.drop_last()),
        }
    }
}

/// The channel type the most specific lane that suggests one suggests.
pub fn suggested_at(found: &[Found]) -> (mode: Option<String>)
    ensures
        opt_view(mode) == suggestion_in(found@),
{
    let mut i: usize = found.len();
    assert(found@.take(i as int) =~= found@);
    while i > 0
        invariant
            i <= found@.len(),
            suggestion_in(found@) == suggestion_in(found@.take(i as int)),
        decreases i,
    {
        proof {
            assert(found@.take(i as int).drop_last() =~= found@.take(i - 1));
        }
        match &found[i - 1].suggested {
            Some(s) => return Some(s.clone()),
            None => {},
        }
        i -= 1;
    }
    None
}

/// A bookmark drafted at a frequency: named after the first allocation there,
/// or else by the frequency's own text, with the channel type the most
/// specific lane suggests.
pub fn bookmark_draft(found: &[Found], frequency_text: &str) -> (draft: BookmarkDraft)
    ensures
        draft.label@ == if found@.len() > 0 {
            found@[0].name@
        } else {
            frequency_text@
        },
        opt_view(draft.mode) == suggestion_in(found@),
{
    let label = if found.len() > 0 {
        found[0].name.clone()
    } else {
        string_of(chars_of(frequency_text).as_slice())
    };
    BookmarkDraft { label, mode: suggested_at(found) }
}

/// The channel type a new channel starts with: the band's suggestion, else
/// the type of the channel being listened to, else narrow FM.
pub open spec fn channel_type_of(suggested: Option<Seq<char>>, listening: Option<Seq<char>>) -> Seq<char> {
    match suggested {
        Some(s) => s,
        None => match listening {
            Some(l) => l,
            None => "nfm"@,
        },
    }
}

/// The channel type a new channel starts with.
pub fn channel_type_at(suggested: Option<&str>, listening: Option<&str>) -> (kind: String)
    ensures
        kind@ == channel_type_of(
            match suggested {
                Some(s) => Some(s@),
                None => None,
            },
            match listening {
                Some(l) => Some(l@),
                None => None,
            },
        ),
{
    let chosen = match suggested {
        Some(s) => s,
        None => match listening {
            Some(l) => l,
            None => "nfm",
        },
    };
    string_of(chars_of(chosen).as_slice())
}

/// The key a channel type is listed by in the picker: the suggested type
/// first, then by name in lower case.
pub open spec fn picker_key(d: Descriptor, suggested: Seq<char>) -> (bool, Seq<char>) {
    (d.type_id@ != suggested, lower_of(d.name@))
}

/// Whether descriptor `i` is listed before descriptor `j`: by key, and where
/// keys are equal by place.
pub open spec fn picker_before(ds: Seq<Descriptor>, suggested: Seq<char>, i: int, j: int) -> bool {
    let a = picker_key(ds[i], suggested);
    let b = picker_key(ds[j], suggested);
    (!a.0 && b.0) || (a.0 == b.0 && (text_before(a.1, b.1) || (a.1 == b.1 && i < j)))
}

/// Whether `order` lists every descriptor once, in picker order.
pub open spec fn picker_arranged(ds: Seq<Descriptor>, suggested: Seq<char>, order: Seq<int>) -> bool {
    &&& strictly_sorted(order, |i: int, j: int| picker_before(ds, suggested, i, j))
    &&& forall|i: int| order.contains(i) <==> 0 <= i < ds.len()
}

proof fn lemma_picker_order(ds: Seq<Descriptor>, suggested: Seq<char>, i: int, j: int, k: int)
    ensures
        i != j ==> (picker_before(ds, suggested, i, j) || picker_before(ds, suggested, j, i)),
        !(picker_before(ds, suggested, i, j) && picker_before(ds, suggested, j, i)),
        picker_before(ds, suggested, i, j) && picker_before(ds, suggested, j, k) ==> picker_before(ds, suggested, i, k),
{
    let a = picker_key(ds[i], suggested).1;
    let b = picker_key(ds[j], suggested).1;
    let c = picker_key(ds[k], suggested).1;
    lemma_text_order_total(a, b);
    lemma_text_order_total(b, c);
    lemma_text_order_total(a, c);
    if text_before(a, b) && text_before(b, c) {
        lemma_text_order_transitive(a, b, c);
    }
}

/// Only one list of the descriptors is in picker order.
pub proof fn law_picker_order_is_fixed(ds: Seq<Descriptor>, suggested: Seq<char>, s: Seq<int>, t: Seq<int>)
    requires
        picker_arranged(ds, suggested, s),
        picker_arranged(ds, suggested, t),
    ensures
        s == t,
{
    let before = |i: int, j: int| picker_before(ds, suggested, i, j);
    assert forall|x: int, y: int| s.contains(x) && s.contains(y) && x != y implies before(x, y) || before(y, x) by {
        lemma_picker_order(ds, suggested, x, y, y);
    }
    assert forall|x: int, y: int| s.contains(x) && s.contains(y) implies !(before(x, y) && before(y, x)) by {
        lemma_picker_order(ds, suggested, x, y, y);
    }
    assert(strict_total_on(s, before));
    lemma_sorted_unique(s, t, before);
}

/// The channel types of the picker as type id and name: the suggested type
/// first, the rest by name regardless of case, equal names in the order
/// given.
pub fn picker_order(descriptors: &[Descriptor], suggested: &str) -> (listed: Vec<(String, String)>)
    ensures
        exists|order: Seq<int>|
            picker_arranged(descriptors@, suggested@, order) && listed@.len() == order.len() && forall|k: int|
                0 <= k < order.len() ==> (#[trigger] listed@[k]).0@ == descriptors@[order[k]].type_id@
                    && listed@[k].1@ == descriptors@[order[k]].name@,
{
    let ghost ds = descriptors@;
    let ghost sugg = suggested@;
    let mut lowered: Vec<Vec<char>> = Vec::new();
    let mut others: Vec<bool> = Vec::new();
    let mut every: Vec<bool> = Vec::new();
    let mut i: usize = 0;
    while i < descriptors.len()
        invariant
            i <= ds.len(),
            ds == descriptors@,
            sugg == suggested@,
            lowered@.len() == i,
            others@.len() == i,
            every@.len() == i,
            forall|j: int| 0 <= j < i ==> #[trigger] lowered@[j]@ == picker_key(ds[j], sugg).1,
            forall|j: int| 0 <= j < i ==> #[trigger] others@[j] == picker_key(ds[j], sugg).0,
            forall|j: int| 0 <= j < i ==> #[trigger] every@[j],
        decreases ds.len() - i,
    {
        let low = to_lower(descriptors[i].name.as_str());
        lowered.push(chars_of(low.as_str()));
        others.push(!crate::text::same_text(descriptors[i].type_id.as_str(), suggested));
        every.push(true);
        i += 1;
    }
    let order = sorted_by_keys(others.as_slice(), lowered.as_slice(), every.as_slice());
    proof {
        let ks = keys_of(others@, lowered@);
        assert forall|a: int, b: int| 0 <= a < b < order@.len() implies picker_before(ds, sugg, #[trigger] order@[a] as int, #[trigger] order@[b] as int) by {
            assert(key_before(ks, order@[a] as int, order@[b] as int));
            assert(ks[order@[a] as int] == picker_key(ds[order@[a] as int], sugg));
            assert(ks[order@[b] as int] == picker_key(ds[order@[b] as int], sugg));
        }
    }
    let ghost ints = Seq::new(order@.len(), |a: int| order@[a] as int);
    let mut listed: Vec<(String, String)> = Vec::new();
    let mut k: usize = 0;
    while k < order.len()
        invariant
            k <= order@.len(),
            ds == descriptors@,
            forall|a: int| 0 <= a < order@.len() ==> #[trigger] order@[a] < ds.len(),
            listed@.len() == k,
            forall|a: int| 0 <= a < k ==> (#[trigger] listed@[a]).0@ == ds[order@[a] as int].type_id@ && listed@[a].1@ == ds[order@[a] as int].name@,
        decreases order@.len() - k,
    {
        let d = &descriptors[order[k]];
        listed.push((d.type_id.clone(), d.name.clone()));
        k += 1;
    }
    proof {
        assert forall|a: int, b: int| 0 <= a < b < ints.len() implies (|i: int, j: int| picker_before(ds, sugg, i, j))(#[trigger] ints[a], #[trigger] ints[b]) by {
            assert(picker_before(ds, sugg, order@[a] as int, order@[b] as int));
        }
        assert forall|j: int| ints.contains(j) <==> 0 <= j < ds.len() by {
            if ints.contains(j) {
                let a = choose|a: int| 0 <= a < ints.len() && ints[a] == j;
                assert(order@[a] < ds.len());
            }
            if 0 <= j < ds.len() {
                assert(every@[j]);
                assert(order@.contains(j as usize));
                let a = choose|a: int| 0 <= a < order@.len() && order@[a] == j as usize;
                assert(ints[a] == j);
            }
        }
        assert(picker_arranged(ds, sugg, ints));
    }
    listed
}

} // verus!
