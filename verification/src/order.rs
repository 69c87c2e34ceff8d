//! Lists kept in a strict order, and sorting by keys: a strictly sorted
//! list is fixed by what it holds.
use vstd::prelude::*;
use crate::text::{before, lemma_text_order_total, lemma_text_order_transitive, text_before};

verus! {

/// Whether each entry of `s` comes before every later one.
pub open spec fn strictly_sorted<T>(s: Seq<T>, before: spec_fn(T, T) -> bool) -> bool {
    forall|a: int, b: int| 0 <= a < b < s.len() ==> before(#[trigger] s[a], #[trigger] s[b])
}

/// Whether `before` orders the entries of `s` strictly and totally.
pub open spec fn strict_total_on<T>(s: Seq<T>, before: spec_fn(T, T) -> bool) -> bool {
    &&& forall|x: T, y: T| s.contains(x) && s.contains(y) && x != y ==> before(x, y) || before(y, x)
    &&& forall|x: T, y: T| s.contains(x) && s.contains(y) ==> !(before(x, y) && before(y, x))
}

/// Two lists strictly sorted by one strict total order and holding the same
/// entries are the same list.
pub proof fn lemma_sorted_unique<T>(s: Seq<T>, t: Seq<T>, before: spec_fn(T, T) -> bool)
    requires
        strictly_sorted(s, before),
        strictly_sorted(t, before),
        strict_total_on(s, before),
        forall|x: T| s.contains(x) <==> t.contains(x),
    ensures
        s == t,
    decreases s.len() + t.len(),
{
    if s.len() == 0 || t.len() == 0 {
        if s.len() > 0 {
            assert(s.contains(s[0]));
        }
        if t.len() > 0 {
            assert(t.contains(t[0]));
        }
        assert(s =~= t);
        return;
    }
    assert(s.contains(s[0]) && t.contains(t[0]));
    let i = choose|i: int| 0 <= i < s.len() && s[i] == t[0];
    let k = choose|k: int| 0 <= k < t.len() && t[k] == s[0];
    if s[0] != t[0] {
        assert(before(s[0], s[i]));
        assert(before(t[0], t[k]));
    }
    let first = s[0];
    let ss = s.drop_first();
    let tt = t.drop_first();
    assert forall|a: int, b: int| 0 <= a < b < ss.len() implies before(#[trigger] ss[a], #[trigger] ss[b]) by {
        assert(ss[a] == s[a + 1] && ss[b] == s[b + 1]);
    }
    assert forall|a: int, b: int| 0 <= a < b < tt.len() implies before(#[trigger] tt[a], #[trigger] tt[b]) by {
        assert(tt[a] == t[a + 1] && tt[b] == t[b + 1]);
    }
    assert forall|x: T| ss.contains(x) <==> tt.contains(x) by {
        if ss.contains(x) {
            let a = choose|a: int| 0 <= a < ss.len() && ss[a] == x;
            assert(s[a + 1] == x);
            assert(s.contains(x));
            assert(before(s[0], s[a + 1]));
            assert(t.contains(x));
            let b = choose|b: int| 0 <= b < t.len() && t[b] == x;
            if b == 0 {
                assert(s.contains(first));
            }
            assert(tt[b - 1] == x);
        }
        if tt.contains(x) {
            let a = choose|a: int| 0 <= a < tt.len() && tt[a] == x;
            assert(t[a + 1] == x);
            assert(t.contains(x));
            assert(before(t[0], t[a + 1]));
            assert(s.contains(x));
            let b = choose|b: int| 0 <= b < s.len() && s[b] == x;
            if b == 0 {
                assert(s.contains(t[0]));
            }
            assert(ss[b - 1] == x);
        }
    }
    assert forall|x: T, y: T| ss.contains(x) && ss.contains(y) && x != y implies before(x, y) || before(y, x) by {
        let a = choose|a: int| 0 <= a < ss.len() && ss[a] == x;
        let b = choose|b: int| 0 <= b < ss.len() && ss[b] == y;
        assert(s[a + 1] == x && s[b + 1] == y);
        assert(s.contains(x) && s.contains(y));
    }
    assert forall|x: T, y: T| ss.contains(x) && ss.contains(y) implies !(before(x, y) && before(y, x)) by {
        let a = choose|a: int| 0 <= a < ss.len() && ss[a] == x;
        let b = choose|b: int| 0 <= b < ss.len() && ss[b] == y;
        assert(s[a + 1] == x && s[b + 1] == y);
        assert(s.contains(x) && s.contains(y));
    }
    lemma_sorted_unique(ss, tt, before);
    assert(s =~= seq![s[0]] + ss);
    assert(t =~= seq![t[0]] + tt);
}

/// Whether entry `i` comes before entry `j` by their keys: an entry without
/// the flag before one with it, then by text in the order of `String`, then
/// by place.
pub open spec fn key_before(keys: Seq<(bool, Seq<char>)>, i: int, j: int) -> bool {
    let a = keys[i];
    let b = keys[j];
    (!a.0 && b.0) || (a.0 == b.0 && (text_before(a.1, b.1) || (a.1 == b.1 && i < j)))
}

/// Flags and key texts as keys.
pub open spec fn keys_of(flags: Seq<bool>, texts: Seq<Vec<char>>) -> Seq<(bool, Seq<char>)> {
    Seq::new(flags.len(), |i: int| (flags[i], texts[i]@))
}

/// `key_before` is a strict total order on places.
pub proof fn lemma_key_order(keys: Seq<(bool, Seq<char>)>, i: int, j: int, k: int)
    ensures
        i != j ==> (key_before(keys, i, j) || key_before(keys, j, i)),
        !(key_before(keys, i, j) && key_before(keys, j, i)),
        key_before(keys, i, j) && key_before(keys, j, k) ==> key_before(keys, i, k),
{
    let a = keys[i].1;
    let b = keys[j].1;
    let c = keys[k].1;
    lemma_text_order_total(a, b);
    lemma_text_order_total(b, c);
    lemma_text_order_total(a, c);
    if text_before(a, b) && text_before(b, c) {
        lemma_text_order_transitive(a, b, c);
    }
}

/// The places of the chosen entries, ordered by their keys (see
/// `key_before`); entries with equal keys keep their order.
pub fn sorted_by_keys(flags: &[bool], keys: &[Vec<char>], chosen: &[bool]) -> (order: Vec<usize>)
    requires
        flags@.len() == keys@.len(),
        chosen@.len() == keys@.len(),
    ensures
        forall|a: int, b: int| 0 <= a < b < order@.len() ==> key_before(keys_of(flags@, keys@), #[trigger] order@[a] as int, #[trigger] order@[b] as int),
        forall|a: int| 0 <= a < order@.len() ==> #[trigger] order@[a] < keys@.len(),
        forall|i: int| 0 <= i < keys@.len() ==> (order@.contains(i as usize) <==> #[trigger] chosen@[i]),
{
    let ghost ks = keys_of(flags@, keys@);
    let mut order: Vec<usize> = Vec::new();
    let mut i: usize = 0;
    while i < keys.len()
        invariant
            i <= keys@.len(),
            flags@.len() == keys@.len(),
            chosen@.len() == keys@.len(),
            ks == keys_of(flags@, keys@),
            forall|a: int| 0 <= a < order@.len() ==> #[trigger] order@[a] < i,
            forall|a: int, b: int| 0 <= a < b < order@.len() ==> key_before(ks, #[trigger] order@[a] as int, #[trigger] order@[b] as int),
            forall|j: int| 0 <= j < i ==> (order@.contains(j as usize) <==> #[trigger] chosen@[j]),
        decreases keys@.len() - i,
    {
        if !chosen[i] {
            assert(!order@.contains(i));
            i += 1;
            continue;
        }
        let mut p: usize = 0;
        while p < order.len() && !(
            (!flags[i] && flags[order[p]]) || (flags[i] == flags[order[p]] && before(keys[i].as_slice(), keys[order[p]].as_slice()))
        )
            invariant
                p <= order@.len(),
                i < keys@.len(),
                flags@.len() == keys@.len(),
                ks == keys_of(flags@, keys@),
                forall|a: int| 0 <= a < order@.len() ==> #[trigger] order@[a] < i,
                forall|a: int| 0 <= a < p ==> key_before(ks, #[trigger] order@[a] as int, i as int),
            decreases order@.len() - p,
        {
            proof {
                let k = order@[p as int] as int;
                lemma_key_order(ks, i as int, k, k);
                lemma_text_order_total(ks[i as int].1, ks[k].1);
            }
            p += 1;
        }
        let ghost old_order = order@;
        proof {
            if p < old_order.len() {
                let k = old_order[p as int] as int;
                assert(key_before(ks, i as int, k));
                assert forall|a: int| p <= a < old_order.len() implies key_before(ks, i as int, #[trigger] old_order[a] as int) by {
                    if a > p {
                        lemma_key_order(ks, i as int, k, old_order[a] as int);
                    }
                }
            }
        }
        order.insert(p, i);
        proof {
            assert forall|a: int, b: int| 0 <= a < b < order@.len() implies key_before(ks, #[trigger] order@[a] as int, #[trigger] order@[b] as int) by {
                if a < p && b < p {
                    assert(order@[a] == old_order[a] && order@[b] == old_order[b]);
                } else if a < p && b == p {
                } else if a < p && b > p {
                    assert(order@[a] == old_order[a] && order@[b] == old_order[b - 1]);
                    lemma_key_order(ks, order@[a] as int, i as int, order@[b] as int);
                } else if a == p {
                    assert(order@[b] == old_order[b - 1]);
                } else {
                    assert(order@[a] == old_order[a - 1] && order@[b] == old_order[b - 1]);
                }
            }
            assert forall|j: int| 0 <= j < i + 1 implies (order@.contains(j as usize) <==> #[trigger] chosen@[j]) by {
                if j < i {
                    if old_order.contains(j as usize) {
                        let a = choose|a: int| 0 <= a < old_order.len() && old_order[a] == j as usize;
                        if a < p {
                            assert(order@[a] == j as usize);
                        } else {
                            assert(order@[a + 1] == j as usize);
                        }
                    }
                    if order@.contains(j as usize) {
                        let a = choose|a: int| 0 <= a < order@.len() && order@[a] == j as usize;
                        if a < p {
                            assert(old_order[a] == j as usize);
                        } else if a > p {
                            assert(old_order[a - 1] == j as usize);
                        }
                    }
                } else {
                    assert(order@[p as int] == i);
                }
            }
            assert forall|a: int| 0 <= a < order@.len() implies #[trigger] order@[a] < i + 1 by {
                if a < p {
                    assert(order@[a] == old_order[a]);
                } else if a > p {
                    assert(order@[a] == old_order[a - 1]);
                }
            }
        }
        i += 1;
    }
    order
}

} // verus!
