//! The result of a merge: coordinates by key, kept in increasing key order.
use vstd::prelude::*;

use crate::maven_coordinate::{CoordinatesView, MavenCoordinates};
use crate::text::{chars_of, lemma_text_lt_irreflexive, strictly_sorted, text_lt};

verus! {

/// The map that a list of `(key, value)` pairs describes (a later pair for
/// a key replacing an earlier one).
pub open spec fn entries_map(s: Seq<(Seq<char>, CoordinatesView)>) -> Map<Seq<char>, CoordinatesView>
    decreases s.len(),
{
    if s.len() == 0 {
        Map::empty()
    } else {
        entries_map(s.drop_last()).insert(s.last().0, s.last().1)
    }
}

/// The keys of a list of pairs.
pub open spec fn keys_of(s: Seq<(Seq<char>, CoordinatesView)>) -> Seq<Seq<char>> {
    s.map_values(|e: (Seq<char>, CoordinatesView)| e.0)
}

/// A pair list with distinct keys maps each of its keys to that key's value
/// and nothing else.
pub proof fn lemma_entries_map_distinct(s: Seq<(Seq<char>, CoordinatesView)>)
    requires
        forall|i: int, j: int| 0 <= i < j < s.len() ==> s[i].0 != s[j].0,
    ensures
        forall|i: int| 0 <= i < s.len() ==> #[trigger] entries_map(s).contains_key(s[i].0)
            && entries_map(s)[s[i].0] == s[i].1,
        forall|k: Seq<char>| #[trigger]
            entries_map(s).contains_key(k) ==> exists|i: int| 0 <= i < s.len() && s[i].0 == k,
    decreases s.len(),
{
    if s.len() > 0 {
        lemma_entries_map_distinct(s.drop_last());
        let m = entries_map(s);
        assert forall|i: int| 0 <= i < s.len() implies #[trigger] m.contains_key(s[i].0) && m[s[i].0]
            == s[i].1 by {
            if i < s.len() - 1 {
                assert(s.drop_last()[i] == s[i]);
                assert(s[i].0 != s.last().0);
                assert(entries_map(s.drop_last()).contains_key(s.drop_last()[i].0));
            }
        }
        assert forall|k: Seq<char>| #[trigger] m.contains_key(k) implies exists|i: int|
            0 <= i < s.len() && s[i].0 == k by {
            if k != s.last().0 {
                assert(entries_map(s.drop_last()).contains_key(k));
                let i = choose|i: int| 0 <= i < s.drop_last().len() && s.drop_last()[i].0 == k;
                assert(s[i] == s.drop_last()[i]);
            } else {
                assert(s[s.len() - 1].0 == k);
            }
        }
    }
}

/// Strictly increasing keys are distinct.
pub proof fn lemma_sorted_keys_distinct(s: Seq<(Seq<char>, CoordinatesView)>)
    requires
        strictly_sorted(keys_of(s)),
    ensures
        forall|i: int, j: int| 0 <= i < j < s.len() ==> s[i].0 != s[j].0,
{
    assert forall|i: int, j: int| 0 <= i < j < s.len() implies s[i].0 != s[j].0 by {
        assert(text_lt(keys_of(s)[i], keys_of(s)[j]));
        lemma_text_lt_irreflexive(s[i].0);
    }
}

/// Merged coordinates by key, in increasing key order, together with the
/// keys that the whitelist blocked (with the version that it asked for).
pub struct MergedJars {
    entries: Vec<(String, MavenCoordinates)>,
    blocked: Vec<(String, Option<String>)>,
}

/// A `(key, coordinates)` pair by its view.
pub open spec fn entry_view(e: (String, MavenCoordinates)) -> (Seq<char>, CoordinatesView) {
    (e.0@, e.1@)
}

/// The views of a list of `(key, coordinates)` pairs.
pub open spec fn entry_views_of(s: Seq<(String, MavenCoordinates)>) -> Seq<
    (Seq<char>, CoordinatesView),
> {
    s.map_values(|e: (String, MavenCoordinates)| entry_view(e))
}

/// A `(key, version)` pair by its view.
pub open spec fn blocked_views_of(s: Seq<(String, Option<String>)>) -> Seq<
    (Seq<char>, Option<Seq<char>>),
> {
    s.map_values(
        |e: (String, Option<String>)|
            (
                e.0@,
                match e.1 {
                    Some(v) => Some(v@),
                    None => None,
                },
            ),
    )
}

impl MergedJars {
    /// The `(key, coordinates)` pairs, in increasing key order.
    pub closed spec fn entry_views(self) -> Seq<(Seq<char>, CoordinatesView)> {
        entry_views_of(self.entries@)
    }

    /// The blocked keys with the version that the whitelist asked for, in
    /// increasing key order.
    pub closed spec fn blocked_views(self) -> Seq<(Seq<char>, Option<Seq<char>>)> {
        blocked_views_of(self.blocked@)
    }

    #[verifier::type_invariant]
    spec fn keys_increase(self) -> bool {
        strictly_sorted(keys_of(entry_views_of(self.entries@)))
    }

    /// The merged coordinates of the given pairs, which must be in strictly
    /// increasing key order.
    pub fn from_sorted(
        entries: Vec<(String, MavenCoordinates)>,
        blocked: Vec<(String, Option<String>)>,
    ) -> (r: Self)
        requires
            strictly_sorted(keys_of(entry_views_of(entries@))),
        ensures
            r.entry_views() == entry_views_of(entries@),
            r.blocked_views() == blocked_views_of(blocked@),
            r@ == entries_map(entry_views_of(entries@)),
    {
        MergedJars { entries, blocked }
    }

    /// The coordinates merged under `key`.
    pub fn get(&self, key: &str) -> (r: Option<&MavenCoordinates>)
        ensures
            match r {
                Some(c) => self@.contains_key(key@) && c@ == self@[key@],
                None => !self@.contains_key(key@),
            },
    {
        proof {
            use_type_invariant(self);
            lemma_sorted_keys_distinct(self.entry_views());
            lemma_entries_map_distinct(self.entry_views());
        }
        let k = chars_of(key);
        let mut i: usize = 0;
        while i < self.entries.len()
            invariant
                i <= self.entries@.len(),
                k@ == key@,
                forall|j: int| 0 <= j < i ==> (#[trigger] self.entries@[j]).0@ != key@,
            decreases self.entries@.len() - i,
        {
            let ek = chars_of(self.entries[i].0.as_str());
            if crate::text::range_equals(&ek, 0, ek.len(), &k) {
                proof {
                    use_type_invariant(self);
                    lemma_sorted_keys_distinct(self.entry_views());
                    lemma_entries_map_distinct(self.entry_views());
                    assert(ek@.subrange(0, ek@.len() as int) =~= ek@);
                    assert(self.entry_views()[i as int] == entry_view(self.entries@[i as int]));
                    assert(self@.contains_key(self.entry_views()[i as int].0));
                }
                return Some(&self.entries[i].1);
            }
            proof {
                assert(ek@.subrange(0, ek@.len() as int) =~= ek@);
            }
            i = i + 1;
        }
        proof {
            if self@.contains_key(key@) {
                let j = choose|j: int|
                    0 <= j < self.entry_views().len() && self.entry_views()[j].0 == key@;
                assert(self.entry_views()[j] == entry_view(self.entries@[j]));
            }
        }
        None
    }

    /// Whether coordinates were merged under `key`.
    pub fn contains_key(&self, key: &str) -> (r: bool)
        ensures
            r == self@.contains_key(key@),
    {
        self.get(key).is_some()
    }

    /// How many keys were merged.
    pub fn len(&self) -> (r: usize)
        ensures
            r == self.entry_views().len(),
    {
        self.entries.len()
    }

    /// Whether no key was merged.
    pub fn is_empty(&self) -> (r: bool)
        ensures
            r == (self.entry_views().len() == 0),
    {
        self.entries.len() == 0
    }

    /// The `(key, coordinates)` pairs in increasing key order.
    pub fn entries(&self) -> (r: &Vec<(String, MavenCoordinates)>)
        ensures
            entry_views_of(r@) == self.entry_views(),
            strictly_sorted(keys_of(self.entry_views())),
            self@ == entries_map(self.entry_views()),
            forall|i: int|
                0 <= i < self.entry_views().len() ==> #[trigger] self@.contains_key(
                    self.entry_views()[i].0,
                ) && self@[self.entry_views()[i].0] == self.entry_views()[i].1,
            forall|k: Seq<char>| #[trigger]
                self@.contains_key(k) ==> exists|i: int|
                    0 <= i < self.entry_views().len() && self.entry_views()[i].0 == k,
    {
        proof {
            use_type_invariant(self);
            lemma_sorted_keys_distinct(self.entry_views());
            lemma_entries_map_distinct(self.entry_views());
        }
        &self.entries
    }

    /// The keys that the whitelist blocked, with the version it asked for.
    pub fn blocked(&self) -> (r: &Vec<(String, Option<String>)>)
        ensures
            blocked_views_of(r@) == self.blocked_views(),
    {
        &self.blocked
    }
}

impl View for MergedJars {
    type V = Map<Seq<char>, CoordinatesView>;

    closed spec fn view(&self) -> Map<Seq<char>, CoordinatesView> {
        entries_map(self.entry_views())
    }
}

} // verus!
