//! Keyed entries kept in ascending key order: a map from text keys to
//! values, held as a list.
use vstd::prelude::*;

use crate::order::{chars_lt, key_lt, lemma_key_lt_irreflexive, lemma_key_lt_total, lemma_key_lt_transitive};
use crate::text::{chars_eq, chars_of};

verus! {

/// The values of a list of keyed entries as a map; of two entries with one
/// key, the later wins.
#[verifier::opaque]
pub open spec fn entries_map<V>(s: Seq<(String, V)>) -> Map<Seq<char>, V>
    decreases s.len(),
{
    if s.len() == 0 {
        Map::empty()
    } else {
        entries_map(s.drop_last()).insert(s.last().0@, s.last().1)
    }
}

/// Keys strictly ascending, hence distinct.
#[verifier::opaque]
pub open spec fn keys_ascending<V>(s: Seq<(String, V)>) -> bool {
    forall|i: int, j: int| 0 <= i < j < s.len() ==> key_lt(#[trigger] s[i].0@, #[trigger] s[j].0@)
}

/// Whether the keys of `entries` are strictly ascending.
pub fn keys_in_order<V>(entries: &[(String, V)]) -> (r: bool)
    ensures
        r == keys_ascending(entries@),
{
    proof {
        reveal(keys_ascending);
    }
    let n = entries.len();
    if n == 0 {
        return true;
    }
    for k in 1..n
        invariant
            n == entries@.len(),
            forall|i: int, j: int| 0 <= i < j < k ==> key_lt(#[trigger] entries@[i].0@, #[trigger] entries@[j].0@),
    {
        let a = chars_of(entries[k - 1].0.as_str());
        let b = chars_of(entries[k].0.as_str());
        if !chars_lt(&a, &b) {
            proof {
                reveal(keys_ascending);
                assert(!key_lt(entries@[k - 1].0@, entries@[k as int].0@));
            }
            return false;
        }
        assert forall|i: int, j: int| 0 <= i < j < k + 1 implies key_lt(
            #[trigger] entries@[i].0@,
            #[trigger] entries@[j].0@,
        ) by {
            if j == k && i < k - 1 {
                lemma_key_lt_transitive(entries@[i].0@, entries@[k - 1].0@, entries@[j].0@);
            }
        }
    }
    proof {
        reveal(keys_ascending);
    }
    true
}

/// A key is in the map exactly when some entry has it.
pub proof fn lemma_entries_map_dom<V>(s: Seq<(String, V)>, k: Seq<char>)
    ensures
        entries_map(s).contains_key(k) <==> exists|i: int| 0 <= i < s.len() && #[trigger] s[i].0@ == k,
    decreases s.len(),
{
    reveal(entries_map);
    if s.len() > 0 {
        lemma_entries_map_dom(s.drop_last(), k);
        if entries_map(s.drop_last()).contains_key(k) {
            let i = choose|i: int| 0 <= i < s.drop_last().len() && #[trigger] s.drop_last()[i].0@ == k;
            assert(s[i].0@ == k);
        }
        if exists|i: int| 0 <= i < s.len() && #[trigger] s[i].0@ == k {
            let i = choose|i: int| 0 <= i < s.len() && #[trigger] s[i].0@ == k;
            if i < s.len() - 1 {
                assert(s.drop_last()[i].0@ == k);
            }
        }
    }
}

/// With distinct keys, each entry's value is the map's value for its key.
pub proof fn lemma_entries_map_value<V>(s: Seq<(String, V)>, i: int)
    requires
        keys_ascending(s),
        0 <= i < s.len(),
    ensures
        entries_map(s).contains_key(s[i].0@),
        entries_map(s)[s[i].0@] == s[i].1,
    decreases s.len(),
{
    reveal(entries_map);
    reveal(keys_ascending);
    if i < s.len() - 1 {
        let t = s.drop_last();
        assert(keys_ascending(t)) by {
            assert forall|a: int, b: int| 0 <= a < b < t.len() implies key_lt(#[trigger] t[a].0@, #[trigger] t[b].0@) by {
                assert(t[a] == s[a] && t[b] == s[b]);
            }
        }
        lemma_entries_map_value(t, i);
        assert(key_lt(s[i].0@, s[s.len() - 1].0@));
        lemma_key_lt_irreflexive(s[i].0@);
        assert(t[i] == s[i]);
    }
}

/// Two ascending entry lists that hold the same pairs, but for `key` now
/// mapped to `v`, describe maps that differ by that one insertion.
pub proof fn lemma_entries_map_insert<V>(s: Seq<(String, V)>, t: Seq<(String, V)>, key: Seq<char>, v: V)
    requires
        keys_ascending(s),
        keys_ascending(t),
        exists|x: int| 0 <= x < t.len() && #[trigger] t[x].0@ == key && t[x].1 == v,
        forall|j: int| 0 <= j < t.len() && t[j].0@ != key ==> exists|y: int| 0 <= y < s.len() && #[trigger] s[y] == t[j],
        forall|y: int| 0 <= y < s.len() && s[y].0@ != key ==> exists|j: int| 0 <= j < t.len() && #[trigger] t[j] == s[y],
    ensures
        entries_map(t) == entries_map(s).insert(key, v),
{
    let ms = entries_map(s);
    let mt = entries_map(t);
    assert forall|k: Seq<char>| #[trigger] mt.contains_key(k) implies ms.insert(key, v).contains_key(k) && mt[k] == ms.insert(key, v)[k] by {
        lemma_entry_in_target(s, t, key, v, k);
    }
    assert forall|k: Seq<char>| #[trigger] ms.insert(key, v).contains_key(k) implies mt.contains_key(k) by {
        lemma_entry_in_source(s, t, key, v, k);
    }
    assert(mt =~= ms.insert(key, v));
}

/// A key of the new list maps, in the new map, as the updated old map has it.
pub proof fn lemma_entry_in_target<V>(s: Seq<(String, V)>, t: Seq<(String, V)>, key: Seq<char>, v: V, k: Seq<char>)
    requires
        keys_ascending(s),
        keys_ascending(t),
        exists|x: int| 0 <= x < t.len() && #[trigger] t[x].0@ == key && t[x].1 == v,
        forall|j: int| 0 <= j < t.len() && t[j].0@ != key ==> exists|y: int| 0 <= y < s.len() && #[trigger] s[y] == t[j],
        entries_map(t).contains_key(k),
    ensures
        entries_map(s).insert(key, v).contains_key(k),
        entries_map(t)[k] == entries_map(s).insert(key, v)[k],
{
    lemma_entries_map_dom(t, k);
    let j = choose|j: int| 0 <= j < t.len() && #[trigger] t[j].0@ == k;
    lemma_entries_map_value(t, j);
    if k == key {
        let x = choose|x: int| 0 <= x < t.len() && #[trigger] t[x].0@ == key && t[x].1 == v;
        lemma_entries_map_value(t, x);
    } else {
        let y = choose|y: int| 0 <= y < s.len() && #[trigger] s[y] == t[j];
        lemma_entries_map_value(s, y);
    }
}

/// A key of the updated old map is a key of the new list.
pub proof fn lemma_entry_in_source<V>(s: Seq<(String, V)>, t: Seq<(String, V)>, key: Seq<char>, v: V, k: Seq<char>)
    requires
        exists|x: int| 0 <= x < t.len() && #[trigger] t[x].0@ == key && t[x].1 == v,
        forall|y: int| 0 <= y < s.len() && s[y].0@ != key ==> exists|j: int| 0 <= j < t.len() && #[trigger] t[j] == s[y],
        entries_map(s).insert(key, v).contains_key(k),
    ensures
        entries_map(t).contains_key(k),
{
    lemma_entries_map_dom(t, k);
    if k == key {
        let x = choose|x: int| 0 <= x < t.len() && #[trigger] t[x].0@ == key && t[x].1 == v;
        assert(t[x].0@ == k);
    } else {
        lemma_entries_map_dom(s, k);
        let y = choose|y: int| 0 <= y < s.len() && #[trigger] s[y].0@ == k;
        let j = choose|j: int| 0 <= j < t.len() && #[trigger] t[j] == s[y];
        assert(t[j].0@ == k);
    }
}

/// Replacing the value of an existing key keeps the order and updates the map.
pub proof fn lemma_replace_entry<V>(s: Seq<(String, V)>, i: int, entry: (String, V))
    requires
        keys_ascending(s),
        0 <= i < s.len(),
        s[i].0@ == entry.0@,
    ensures
        keys_ascending(s.update(i, entry)),
        entries_map(s.update(i, entry)) == entries_map(s).insert(entry.0@, entry.1),
{
    reveal(keys_ascending);
    let t = s.update(i, entry);
    let key = entry.0@;
    assert forall|a: int, b: int| 0 <= a < b < t.len() implies key_lt(#[trigger] t[a].0@, #[trigger] t[b].0@) by {
        assert(key_lt(s[a].0@, s[b].0@));
    }
    assert(t[i].0@ == key && t[i].1 == entry.1);
    assert forall|j: int| 0 <= j < t.len() && t[j].0@ != key implies exists|y: int| 0 <= y < s.len() && #[trigger] s[y] == t[j] by {
        assert(s[j] == t[j]);
    }
    assert forall|y: int| 0 <= y < s.len() && s[y].0@ != key implies exists|j: int| 0 <= j < t.len() && #[trigger] t[j] == s[y] by {
        assert(t[y] == s[y]);
    }
    lemma_entries_map_insert(s, t, key, entry.1);
}

/// Inserting a new key at its place in the order keeps the order and
/// updates the map.
pub proof fn lemma_insert_entry<V>(s: Seq<(String, V)>, i: int, entry: (String, V))
    requires
        keys_ascending(s),
        0 <= i <= s.len(),
        forall|j: int| 0 <= j < i ==> key_lt(#[trigger] s[j].0@, entry.0@),
        i < s.len() ==> !key_lt(s[i].0@, entry.0@) && s[i].0@ != entry.0@,
    ensures
        keys_ascending(s.insert(i, entry)),
        entries_map(s.insert(i, entry)) == entries_map(s).insert(entry.0@, entry.1),
{
    let t = s.insert(i, entry);
    lemma_insert_keeps_order(s, i, entry);
    lemma_insert_pairs(s, t, i, entry);
    lemma_entries_map_insert(s, t, entry.0@, entry.1);
}

/// The pairs of a list with one entry inserted are those of the list and the entry.
pub proof fn lemma_insert_pairs<V>(s: Seq<(String, V)>, t: Seq<(String, V)>, i: int, entry: (String, V))
    requires
        0 <= i <= s.len(),
        t == s.insert(i, entry),
    ensures
        exists|x: int| 0 <= x < t.len() && #[trigger] t[x].0@ == entry.0@ && t[x].1 == entry.1,
        forall|j: int| 0 <= j < t.len() && t[j].0@ != entry.0@ ==> exists|y: int| 0 <= y < s.len() && #[trigger] s[y] == t[j],
        forall|y: int| 0 <= y < s.len() && s[y].0@ != entry.0@ ==> exists|j: int| 0 <= j < t.len() && #[trigger] t[j] == s[y],
{
    let key = entry.0@;
    assert(t[i].0@ == key && t[i].1 == entry.1);
    assert forall|j: int| 0 <= j < t.len() && t[j].0@ != key implies exists|y: int| 0 <= y < s.len() && #[trigger] s[y] == t[j] by {
        if j < i {
            assert(s[j] == t[j]);
        } else {
            assert(s[j - 1] == t[j]);
        }
    }
    assert forall|y: int| 0 <= y < s.len() && s[y].0@ != key implies exists|j: int| 0 <= j < t.len() && #[trigger] t[j] == s[y] by {
        if y < i {
            assert(t[y] == s[y]);
        } else {
            assert(t[y + 1] == s[y]);
        }
    }
}

/// Inserting a key at its place keeps the keys ascending.
pub proof fn lemma_insert_keeps_order<V>(s: Seq<(String, V)>, i: int, entry: (String, V))
    requires
        keys_ascending(s),
        0 <= i <= s.len(),
        forall|j: int| 0 <= j < i ==> key_lt(#[trigger] s[j].0@, entry.0@),
        i < s.len() ==> !key_lt(s[i].0@, entry.0@) && s[i].0@ != entry.0@,
    ensures
        keys_ascending(s.insert(i, entry)),
{
    reveal(keys_ascending);
    let t = s.insert(i, entry);
    let key = entry.0@;
    if i < s.len() {
        lemma_key_lt_total(s[i].0@, key);
        assert forall|j: int| i <= j < s.len() implies key_lt(key, #[trigger] s[j].0@) by {
            if j > i {
                assert(key_lt(s[i].0@, s[j].0@));
                lemma_key_lt_transitive(key, s[i].0@, s[j].0@);
            }
        }
    }
    assert forall|a: int, b: int| 0 <= a < b < t.len() implies key_lt(#[trigger] t[a].0@, #[trigger] t[b].0@) by {
        if b < i {
            assert(key_lt(s[a].0@, s[b].0@));
        } else if b == i {
            assert(key_lt(s[a].0@, key));
        } else if a == i {
            assert(key_lt(key, s[b - 1].0@));
        } else if a < i {
            assert(key_lt(s[a].0@, s[b - 1].0@));
        } else {
            assert(key_lt(s[a - 1].0@, s[b - 1].0@));
        }
    }
}


/// Position of the entry with key `key`, if any.
pub fn assoc_position<V>(entries: &Vec<(String, V)>, key: &[char]) -> (r: Option<usize>)
    ensures
        match r {
            Some(i) => i < entries@.len() && entries@[i as int].0@ == key@,
            None => forall|j: int| 0 <= j < entries@.len() ==> #[trigger] entries@[j].0@ != key@,
        },
{
    let mut i: usize = 0;
    while i < entries.len()
        invariant
            i <= entries@.len(),
            forall|j: int| 0 <= j < i ==> #[trigger] entries@[j].0@ != key@,
        decreases entries@.len() - i,
    {
        let k = chars_of(entries[i].0.as_str());
        if chars_eq(&k, key) {
            return Some(i);
        }
        i += 1;
    }
    None
}

/// Set the value of `key` in ascending entries, replacing any value it had.
pub fn assoc_insert<V>(entries: &mut Vec<(String, V)>, key: String, value: V)
    requires
        keys_ascending(old(entries)@),
    ensures
        keys_ascending(final(entries)@),
        entries_map(final(entries)@) == entries_map(old(entries)@).insert(key@, value),
{
    let kv = chars_of(key.as_str());
    let ghost s = entries@;
    let mut i: usize = 0;
    while i < entries.len()
        invariant
            entries@ == s,
            keys_ascending(s),
            i <= s.len(),
            kv@ == key@,
            forall|j: int| 0 <= j < i ==> key_lt(#[trigger] s[j].0@, key@),
        ensures
            entries@ == s,
            i <= s.len(),
            forall|j: int| 0 <= j < i ==> key_lt(#[trigger] s[j].0@, key@),
            i < s.len() ==> !key_lt(s[i as int].0@, key@),
        decreases s.len() - i,
    {
        let here = chars_of(entries[i].0.as_str());
        if !chars_lt(&here, &kv) {
            break;
        }
        i += 1;
    }
    let ghost entry = (key, value);
    if i < entries.len() && chars_eq(&chars_of(entries[i].0.as_str()), &kv) {
        entries.set(i, (key, value));
        proof {
            lemma_replace_entry(s, i as int, entry);
        }
    } else {
        entries.insert(i, (key, value));
        proof {
            lemma_insert_entry(s, i as int, entry);
        }
    }
}

/// Removing the entry of an existing key keeps the order and removes the
/// key from the map.
pub proof fn lemma_remove_entry<V>(s: Seq<(String, V)>, i: int)
    requires
        keys_ascending(s),
        0 <= i < s.len(),
    ensures
        keys_ascending(s.remove(i)),
        entries_map(s.remove(i)) == entries_map(s).remove(s[i].0@),
{
    let t = s.remove(i);
    let key = s[i].0@;
    assert(keys_ascending(t)) by {
        reveal(keys_ascending);
        assert forall|a: int, b: int| 0 <= a < b < t.len() implies key_lt(#[trigger] t[a].0@, #[trigger] t[b].0@) by {
            if b < i {
                assert(key_lt(s[a].0@, s[b].0@));
            } else if a < i {
                assert(key_lt(s[a].0@, s[b + 1].0@));
            } else {
                assert(key_lt(s[a + 1].0@, s[b + 1].0@));
            }
        }
    }
    let ms = entries_map(s);
    let mt = entries_map(t);
    assert forall|k: Seq<char>| #[trigger] mt.contains_key(k) <==> ms.remove(key).contains_key(k) by {
        lemma_entries_map_dom(s, k);
        lemma_entries_map_dom(t, k);
        if mt.contains_key(k) {
            let j = choose|j: int| 0 <= j < t.len() && #[trigger] t[j].0@ == k;
            let y = if j < i { j } else { j + 1 };
            assert(s[y].0@ == k);
            reveal(keys_ascending);
            lemma_key_lt_irreflexive(k);
            if y < i {
                assert(key_lt(s[y].0@, s[i].0@));
            } else {
                assert(key_lt(s[i].0@, s[y].0@));
            }
        }
        if ms.remove(key).contains_key(k) {
            let y = choose|y: int| 0 <= y < s.len() && #[trigger] s[y].0@ == k;
            assert(y != i);
            let j = if y < i { y } else { y - 1 };
            assert(t[j].0@ == k);
        }
    }
    assert forall|k: Seq<char>| #[trigger] mt.contains_key(k) implies mt[k] == ms.remove(key)[k] by {
        lemma_entries_map_dom(t, k);
        let j = choose|j: int| 0 <= j < t.len() && #[trigger] t[j].0@ == k;
        lemma_entries_map_value(t, j);
        let y = if j < i { j } else { j + 1 };
        assert(s[y] == t[j]);
        lemma_entries_map_value(s, y);
    }
    assert(mt =~= ms.remove(key));
}

/// Take the entry of `key` out of ascending entries, if it has one.
pub fn assoc_remove<V>(entries: &mut Vec<(String, V)>, key: &[char]) -> (r: Option<V>)
    requires
        keys_ascending(old(entries)@),
    ensures
        keys_ascending(final(entries)@),
        entries_map(final(entries)@) == entries_map(old(entries)@).remove(key@),
        match r {
            Some(v) => entries_map(old(entries)@).contains_key(key@) && v == entries_map(old(entries)@)[key@],
            None => !entries_map(old(entries)@).contains_key(key@),
        },
{
    let ghost s = entries@;
    match assoc_position(entries, key) {
        Some(i) => {
            proof {
                lemma_entries_map_value(s, i as int);
                lemma_remove_entry(s, i as int);
            }
            let (_, v) = entries.remove(i);
            Some(v)
        },
        None => {
            proof {
                lemma_entries_map_dom(s, key@);
                assert(entries_map(s).remove(key@) =~= entries_map(s));
            }
            None
        },
    }
}

} // verus!
