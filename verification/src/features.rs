//! Features requested for dependencies, gathered per package name from the
//! `[dependencies]` tables of the manifests involved in a build.
use vstd::prelude::*;

use crate::assoc::{
    assoc_insert, assoc_position, assoc_remove, entries_map, keys_ascending, lemma_entries_map_dom, lemma_entries_map_value,
};
use crate::manifest::Dependency;
use crate::path::{last_index, last_index_of, lemma_last_index_of};
use crate::text::{chars_eq, chars_of, clone_strings, string_from, sub_chars, views};

verus! {

/// The package name of a dependency shorthand: its last `/`-separated
/// segment (`gh:owner/repo` names the package `repo`).
pub open spec fn package_name_spec(shorthand: Seq<char>) -> Seq<char> {
    match last_index_of(shorthand, '/') {
        Some(k) => shorthand.skip(k + 1),
        None => shorthand,
    }
}

/// Exec form of [`package_name_spec`].
pub fn package_name(shorthand: &str) -> (r: String)
    ensures
        r@ == package_name_spec(shorthand@),
{
    let v = chars_of(shorthand);
    match last_index(&v, '/') {
        Some(k) => {
            proof {
                lemma_last_index_of(v@, '/');
            }
            let rest = sub_chars(&v, k + 1, v.len());
            assert(rest@ =~= v@.skip(k + 1));
            string_from(&rest)
        },
        None => shorthand.to_owned(),
    }
}

/// `slot` followed by each feature of `fs` that is not in it yet, in order.
pub open spec fn with_new_features(slot: Seq<Seq<char>>, fs: Seq<Seq<char>>) -> Seq<Seq<char>>
    decreases fs.len(),
{
    if fs.len() == 0 {
        slot
    } else {
        let prev = with_new_features(slot, fs.drop_last());
        if prev.contains(fs.last()) {
            prev
        } else {
            prev.push(fs.last())
        }
    }
}

/// The requests `m` after adding those of `deps`, in order: each
/// dependency's package gets an entry (empty when it requests nothing),
/// and its features are appended unless already requested.
pub open spec fn merged_requests(
    m: Map<Seq<char>, Seq<Seq<char>>>,
    deps: Seq<(String, Dependency)>,
) -> Map<Seq<char>, Seq<Seq<char>>>
    decreases deps.len(),
{
    if deps.len() == 0 {
        m
    } else {
        let prev = merged_requests(m, deps.drop_last());
        let name = package_name_spec(deps.last().0@);
        let slot = if prev.contains_key(name) {
            prev[name]
        } else {
            seq![]
        };
        prev.insert(name, with_new_features(slot, views(deps.last().1.features@)))
    }
}

/// Requested features per package name.
#[derive(Debug)]
pub struct FeatureRequests {
    entries: Vec<(String, Vec<String>)>,
}

impl FeatureRequests {
    #[verifier::type_invariant]
    spec fn keys_in_order(self) -> bool {
        keys_ascending(self.entries@)
    }

    /// The requests as a map from package name to features.
    pub closed spec fn requests(self) -> Map<Seq<char>, Seq<Seq<char>>> {
        entries_map(self.entries@).map_values(|v: Vec<String>| views(v@))
    }
}

impl View for FeatureRequests {
    type V = Map<Seq<char>, Seq<Seq<char>>>;

    open spec fn view(&self) -> Map<Seq<char>, Seq<Seq<char>>> {
        self.requests()
    }
}

impl Default for FeatureRequests {
    fn default() -> (r: FeatureRequests)
        ensures
            r@ == Map::<Seq<char>, Seq<Seq<char>>>::empty(),
    {
        proof {
            reveal(keys_ascending);
            reveal(entries_map);
        }
        let r = FeatureRequests { entries: Vec::new() };
        assert(r@ =~= Map::<Seq<char>, Seq<Seq<char>>>::empty());
        r
    }
}

impl FeatureRequests {
    /// The features requested for package `name`, if it has an entry.
    pub fn get(&self, name: &str) -> (r: Option<&Vec<String>>)
        ensures
            match r {
                Some(v) => self@.contains_key(name@) && views(v@) == self@[name@],
                None => !self@.contains_key(name@),
            },
    {
        proof {
            use_type_invariant(self);
        }
        let k = chars_of(name);
        match assoc_position(&self.entries, &k) {
            Some(i) => {
                proof {
                    lemma_entries_map_value(self.entries@, i as int);
                }
                Some(&self.entries[i].1)
            },
            None => {
                proof {
                    lemma_entries_map_dom(self.entries@, name@);
                }
                None
            },
        }
    }
}

impl FeatureRequests {
    /// Take out the features requested for package `name`, if it has an entry.
    pub fn remove(&mut self, name: &str) -> (r: Option<Vec<String>>)
        ensures
            final(self)@ == old(self)@.remove(name@),
            match r {
                Some(v) => old(self)@.contains_key(name@) && views(v@) == old(self)@[name@],
                None => !old(self)@.contains_key(name@),
            },
    {
        proof {
            use_type_invariant(&*self);
        }
        let ghost before = self@;
        let k = chars_of(name);
        let mut entries: Vec<(String, Vec<String>)> = Vec::new();
        proof {
            reveal(keys_ascending);
        }
        std::mem::swap(&mut entries, &mut self.entries);
        let r = assoc_remove(&mut entries, &k);
        self.entries = entries;
        assert(self@ =~= before.remove(name@));
        r
    }
}

/// Whether some string of `v` is `s`.
fn holds_text(v: &Vec<String>, s: &str) -> (r: bool)
    ensures
        r == views(v@).contains(s@),
{
    let sv = chars_of(s);
    for i in 0..v.len()
        invariant
            sv@ == s@,
            forall|j: int| 0 <= j < i ==> v@[j]@ != s@,
    {
        let here = chars_of(v[i].as_str());
        if chars_eq(&here, &sv) {
            assert(views(v@)[i as int] == s@);
            return true;
        }
    }
    assert forall|j: int| 0 <= j < views(v@).len() implies views(v@)[j] != s@ by {
        assert(views(v@)[j] == v@[j]@);
    }
    false
}

/// Add the feature requests of `deps` (a `[dependencies]` table in key
/// order) to `into`, per package name.
pub fn merge_requested_features(into: &mut FeatureRequests, deps: &[(String, Dependency)])
    ensures
        final(into)@ == merged_requests(old(into)@, deps@),
{
    proof {
        use_type_invariant(&*into);
    }
    let ghost start = into@;
    let mut entries: Vec<(String, Vec<String>)> = Vec::new();
    proof {
        reveal(keys_ascending);
    }
    std::mem::swap(&mut entries, &mut into.entries);
    assert(deps@.take(0) =~= Seq::<(String, Dependency)>::empty());
    for i in 0..deps.len()
        invariant
            keys_ascending(entries@),
            entries_map(entries@).map_values(|v: Vec<String>| views(v@)) == merged_requests(start, deps@.take(i as int)),
    {
        let ghost before = entries_map(entries@).map_values(|v: Vec<String>| views(v@));
        let name = package_name(deps[i].0.as_str());
        let nv = chars_of(name.as_str());
        let mut slot: Vec<String> = match assoc_position(&entries, &nv) {
            Some(j) => {
                proof {
                    lemma_entries_map_value(entries@, j as int);
                }
                clone_strings(&entries[j].1)
            },
            None => {
                proof {
                    lemma_entries_map_dom(entries@, name@);
                }
                Vec::new()
            },
        };
        let ghost cur = if before.contains_key(name@) {
            before[name@]
        } else {
            seq![]
        };
        assert(views(slot@) == cur);
        let features = &deps[i].1.features;
        assert(views(features@).take(0) =~= Seq::<Seq<char>>::empty());
        for k in 0..features.len()
            invariant
                views(slot@) == with_new_features(cur, views(features@).take(k as int)),
        {
            let ghost prefix = views(features@).take(k + 1);
            assert(prefix.drop_last() =~= views(features@).take(k as int));
            assert(prefix.last() == features@[k as int]@);
            if !holds_text(&slot, features[k].as_str()) {
                let ghost old_slot = slot@;
                slot.push(features[k].clone());
                assert(views(slot@) =~= views(old_slot).push(features@[k as int]@));
            }
        }
        assert(views(features@).take(features@.len() as int) =~= views(features@));
        let ghost new_slot = slot;
        let ghost old_entries = entries@;
        assoc_insert(&mut entries, name, slot);
        proof {
            let d = deps@.take(i + 1);
            assert(d.drop_last() =~= deps@.take(i as int));
            assert(d.last() == deps@[i as int]);
            assert(entries_map(entries@) == entries_map(old_entries).insert(name@, new_slot));
            assert(entries_map(entries@).map_values(|v: Vec<String>| views(v@)) =~= before.insert(
                name@,
                views(new_slot@),
            ));
        }
    }
    assert(deps@.take(deps@.len() as int) =~= deps@);
    into.entries = entries;
}

/// No feature is listed twice.
pub open spec fn no_repeats(s: Seq<Seq<char>>) -> bool {
    forall|i: int, j: int| 0 <= i < j < s.len() ==> #[trigger] s[i] != #[trigger] s[j]
}

proof fn lemma_with_new_features(slot: Seq<Seq<char>>, fs: Seq<Seq<char>>)
    requires
        no_repeats(slot),
    ensures
        no_repeats(with_new_features(slot, fs)),
        slot.len() <= with_new_features(slot, fs).len(),
        with_new_features(slot, fs).take(slot.len() as int) == slot,
    decreases fs.len(),
{
    if fs.len() > 0 {
        lemma_with_new_features(slot, fs.drop_last());
        let prev = with_new_features(slot, fs.drop_last());
        if !prev.contains(fs.last()) {
            let next = prev.push(fs.last());
            assert forall|i: int, j: int| 0 <= i < j < next.len() implies #[trigger] next[i] != #[trigger] next[j] by {
                if j == next.len() - 1 {
                    assert(prev[i] == next[i]);
                }
            }
            assert(next.take(slot.len() as int) =~= prev.take(slot.len() as int));
        }
    }
}

/// Merging requests keeps each package's earlier requests first and in
/// order, and lists no feature twice.
pub proof fn lemma_merged_requests_keep_order_and_no_repeats(
    m: Map<Seq<char>, Seq<Seq<char>>>,
    deps: Seq<(String, Dependency)>,
)
    requires
        forall|k: Seq<char>| #[trigger] m.contains_key(k) ==> no_repeats(m[k]),
    ensures
        forall|k: Seq<char>| #[trigger] m.contains_key(k) ==> merged_requests(m, deps).contains_key(k),
        forall|k: Seq<char>| #[trigger] merged_requests(m, deps).contains_key(k) ==> no_repeats(merged_requests(m, deps)[k]),
        forall|k: Seq<char>| #[trigger] m.contains_key(k) ==> m[k].len() <= merged_requests(m, deps)[k].len()
            && merged_requests(m, deps)[k].take(m[k].len() as int) == m[k],
    decreases deps.len(),
{
    if deps.len() > 0 {
        let rest = deps.drop_last();
        lemma_merged_requests_keep_order_and_no_repeats(m, rest);
        let prev = merged_requests(m, rest);
        let name = package_name_spec(deps.last().0@);
        let slot = if prev.contains_key(name) { prev[name] } else { seq![] };
        let fs = views(deps.last().1.features@);
        lemma_with_new_features(slot, fs);
        assert forall|k: Seq<char>| #[trigger] m.contains_key(k) implies m[k].len() <= merged_requests(m, deps)[k].len()
            && merged_requests(m, deps)[k].take(m[k].len() as int) == m[k] by {
            if k == name {
                let new_slot = with_new_features(slot, fs);
                assert(prev[k].take(m[k].len() as int) == m[k]);
                assert(new_slot.take(m[k].len() as int) =~= new_slot.take(slot.len() as int).take(m[k].len() as int));
            }
        }
    }
}

} // verus!
