//! The earlier merge rule: candidates of a key are pooled, and the whitelist
//! is consulted only where their versions conflict.
use vstd::prelude::*;

use crate::maven_coordinate::{
    clone_opt, opt_view, texts_of, views_of, CoordinatesView, MavenCoordinates,
};
use crate::merge::{
    candidate_with_version, find_candidate, has_key, has_key_k, key_of, keys_of_all,
    keys_of_views, lemma_first_with_key, lemma_keys_contains, or_else, union_keys,
    whitelist_entry, whitelist_of, with_inherited_jar_path,
};
use crate::merged_jars::{entries_map, entry_views_of, keys_of, MergedJars};
use crate::text::{
    first_satisfying, lemma_first_satisfying, lemma_first_satisfying_at, strictly_sorted, text_lt,
};

verus! {

/// The version as a text, the empty text where there is none.
pub open spec fn version_text(c: CoordinatesView) -> Seq<char> {
    match c.version {
        Some(v) => v,
        None => Seq::<char>::empty(),
    }
}

/// The first candidate for key `k`: the first source with that key, else
/// the first target.
pub open spec fn first_candidate(
    srcs: Seq<CoordinatesView>,
    tgts: Seq<CoordinatesView>,
    k: Seq<char>,
) -> Option<CoordinatesView> {
    or_else(first_satisfying(srcs, has_key_k(k)), first_satisfying(tgts, has_key_k(k)))
}

/// The coordinates with key `k` whose version text is not `vt`.
pub open spec fn other_version(k: Seq<char>, vt: Seq<char>) -> spec_fn(CoordinatesView) -> bool {
    |c: CoordinatesView| key_of(c) == k && version_text(c) != vt
}

/// Whether the candidates for key `k` have more than one version text
/// (a missing version counting as the empty text).
pub open spec fn has_version_conflict(
    srcs: Seq<CoordinatesView>,
    tgts: Seq<CoordinatesView>,
    k: Seq<char>,
) -> bool {
    match first_candidate(srcs, tgts, k) {
        Some(f) => first_satisfying(srcs, other_version(k, version_text(f))) is Some
            || first_satisfying(tgts, other_version(k, version_text(f))) is Some,
        None => false,
    }
}

/// The candidate chosen for key `k`: the first candidate, except where the
/// versions conflict and the whitelist's version for `k` is among the
/// candidates, in which case the first candidate with that version.
pub open spec fn pooled_primary(
    srcs: Seq<CoordinatesView>,
    tgts: Seq<CoordinatesView>,
    wl: Seq<CoordinatesView>,
    k: Seq<char>,
) -> Option<CoordinatesView> {
    match first_candidate(srcs, tgts, k) {
        Some(f) => if has_version_conflict(srcs, tgts, k) {
            match whitelist_entry(wl, k) {
                Some(w) => match candidate_with_version(srcs, tgts, k, w.version) {
                    Some(m) => Some(m),
                    None => Some(f),
                },
                None => Some(f),
            }
        } else {
            Some(f)
        },
        None => None,
    }
}

/// The version whose jars key `k` may take under the earlier rule: the
/// whitelisted one where the whitelist chose the candidate; any otherwise.
pub open spec fn pooled_jar_version(
    srcs: Seq<CoordinatesView>,
    tgts: Seq<CoordinatesView>,
    wl: Seq<CoordinatesView>,
    k: Seq<char>,
) -> Option<Option<Seq<char>>> {
    if first_candidate(srcs, tgts, k) is Some && has_version_conflict(srcs, tgts, k) {
        match whitelist_entry(wl, k) {
            Some(w) => if candidate_with_version(srcs, tgts, k, w.version) is Some {
                Some(w.version)
            } else {
                None
            },
            None => None,
        }
    } else {
        None
    }
}

/// What the earlier rule merges under key `k`.
pub open spec fn pooled_entry(
    srcs: Seq<CoordinatesView>,
    tgts: Seq<CoordinatesView>,
    wl: Seq<CoordinatesView>,
    k: Seq<char>,
) -> Option<CoordinatesView> {
    match pooled_primary(srcs, tgts, wl, k) {
        Some(p) => Some(with_inherited_jar_path(p, srcs, tgts, k, pooled_jar_version(srcs, tgts, wl, k))),
        None => None,
    }
}

/// The earlier rule's merge: every key of a source or a target, with what
/// is merged under it.
pub open spec fn pooled_merge_view(
    srcs: Seq<CoordinatesView>,
    tgts: Seq<CoordinatesView>,
    wl: Seq<CoordinatesView>,
) -> Map<Seq<char>, CoordinatesView> {
    Map::new(
        |k: Seq<char>| has_key(srcs, k) || has_key(tgts, k),
        |k: Seq<char>| pooled_entry(srcs, tgts, wl, k)->0,
    )
}

/// Whether the version of `c` as a text is `vt`.
fn version_text_is(c: &Option<String>, vt: &Vec<char>) -> (r: bool)
    ensures
        r == (match opt_view(*c) {
            Some(v) => v,
            None => Seq::<char>::empty(),
        } == vt@),
{
    match c {
        Some(v) => {
            let vc = crate::text::chars_of(v.as_str());
            let r = crate::text::range_equals(&vc, 0, vc.len(), vt);
            assert(vc@.subrange(0, vc@.len() as int) =~= vc@);
            r
        },
        None => {
            assert(vt@.len() == 0 ==> vt@ =~= Seq::<char>::empty());
            vt.len() == 0
        },
    }
}

/// Whether some coordinates of `cs` have key `k` and a version text other
/// than `vt`.
fn has_other_version(cs: &Vec<MavenCoordinates>, keys: &Vec<String>, k: &String, vt: &Vec<char>) -> (r:
    bool)
    requires
        texts_of(keys@) == keys_of_views(views_of(cs@)),
    ensures
        r == first_satisfying(views_of(cs@), other_version(k@, vt@)) is Some,
{
    let ghost s = views_of(cs@);
    let ghost p = other_version(k@, vt@);
    assert(texts_of(keys@).len() == keys@.len());
    let mut i: usize = 0;
    while i < cs.len()
        invariant
            i <= cs@.len(),
            keys@.len() == cs@.len(),
            s == views_of(cs@),
            texts_of(keys@) == keys_of_views(s),
            p == other_version(k@, vt@),
            forall|j: int| 0 <= j < i ==> !p(#[trigger] s[j]),
        decreases cs@.len() - i,
    {
        assert(keys@[i as int]@ == texts_of(keys@)[i as int]);
        if keys[i] == *k && !version_text_is(&cs[i].version, vt) {
            proof {
                assert(p(s[i as int]));
                lemma_first_satisfying_at(s, p, i as int);
            }
            return true;
        }
        assert(!p(s[i as int]));
        i = i + 1;
    }
    proof {
        lemma_first_satisfying(s, p);
        match first_satisfying(s, p) {
            Some(c) => {
                let j = choose|j: int|
                    0 <= j < s.len() && s[j] == c && p(c) && (forall|m: int|
                        0 <= m < j ==> !p(#[trigger] s[m]));
                assert(!p(s[j]));
            },
            None => {},
        }
    }
    false
}

/// What the earlier rule merges under key `k`, which some source or target
/// has.
fn pooled_entry_for_key(
    sources: &Vec<MavenCoordinates>,
    source_keys: &Vec<String>,
    targets: &Vec<MavenCoordinates>,
    target_keys: &Vec<String>,
    whitelist: &Vec<MavenCoordinates>,
    whitelist_keys: &Vec<String>,
    k: &String,
) -> (r: MavenCoordinates)
    requires
        texts_of(source_keys@) == keys_of_views(views_of(sources@)),
        texts_of(target_keys@) == keys_of_views(views_of(targets@)),
        texts_of(whitelist_keys@) == keys_of_views(views_of(whitelist@)),
        has_key(views_of(sources@), k@) || has_key(views_of(targets@), k@),
    ensures
        pooled_entry(views_of(sources@), views_of(targets@), views_of(whitelist@), k@) == Some(r@),
{
    let ghost srcs = views_of(sources@);
    let ghost tgts = views_of(targets@);
    let ghost wl = views_of(whitelist@);
    proof {
        lemma_first_with_key(srcs, k@);
        lemma_first_with_key(tgts, k@);
    }
    let none: Option<String> = None;
    let first = match find_candidate(sources, source_keys, k, false, &none, false) {
        Some(i) => sources[i].duplicate(),
        None => match find_candidate(targets, target_keys, k, false, &none, false) {
            Some(j) => targets[j].duplicate(),
            None => {
                assert(false);
                sources[0].duplicate()
            },
        },
    };
    assert(first_candidate(srcs, tgts, k@) == Some(first@));
    let vt = match &first.version {
        Some(v) => crate::text::chars_of(v.as_str()),
        None => Vec::new(),
    };
    assert(vt@ == version_text(first@));
    let conflict = has_other_version(sources, source_keys, k, &vt) || has_other_version(
        targets,
        target_keys,
        k,
        &vt,
    );
    let (mut primary, by_version, jar_version) = if conflict {
        match find_candidate(whitelist, whitelist_keys, k, false, &none, false) {
            Some(w) => {
                let wv = &whitelist[w].version;
                match find_candidate(sources, source_keys, k, true, wv, false) {
                    Some(i) => (sources[i].duplicate(), true, clone_opt(wv)),
                    None => match find_candidate(targets, target_keys, k, true, wv, false) {
                        Some(j) => (targets[j].duplicate(), true, clone_opt(wv)),
                        None => (first, false, None),
                    },
                }
            },
            None => (first, false, None),
        }
    } else {
        (first, false, None)
    };
    assert(pooled_primary(srcs, tgts, wl, k@) == Some(primary@));
    assert(pooled_jar_version(srcs, tgts, wl, k@) == if by_version {
        Some(opt_view(jar_version))
    } else {
        None
    });
    if primary.jar_path.is_none() {
        primary.jar_path = match find_candidate(
            sources,
            source_keys,
            k,
            by_version,
            &jar_version,
            true,
        ) {
            Some(i) => clone_opt(&sources[i].jar_path),
            None => match find_candidate(targets, target_keys, k, by_version, &jar_version, true) {
                Some(j) => clone_opt(&targets[j].jar_path),
                None => None,
            },
        };
    }
    primary
}

/// Merges source and target coordinates by the earlier rule: every key
/// (`groupId:artifactId`) of a source or a target is kept. Its entry is the
/// first candidate (sources before targets), except where the candidates'
/// versions conflict and the whitelist's version for the key is among them:
/// then the first candidate with that version. An entry without a jar path
/// takes that of the first candidate that has one, of the whitelisted
/// version where the whitelist chose the entry.
pub fn merge_jars(
    sources: Vec<MavenCoordinates>,
    targets: Vec<MavenCoordinates>,
    management: Option<Vec<MavenCoordinates>>,
) -> (r: MergedJars)
    ensures
        r@ == pooled_merge_view(views_of(sources@), views_of(targets@), whitelist_of(management)),
{
    let ghost srcs = views_of(sources@);
    let ghost tgts = views_of(targets@);
    let ghost wl = whitelist_of(management);
    let whitelist: Vec<MavenCoordinates> = match management {
        Some(m) => m,
        None => Vec::new(),
    };
    assert(views_of(whitelist@) =~= wl);
    let source_keys = keys_of_all(&sources);
    let target_keys = keys_of_all(&targets);
    let whitelist_keys = keys_of_all(&whitelist);
    let all_keys = union_keys(&source_keys, &target_keys);
    let ghost ks = texts_of(all_keys@);
    proof {
        assert forall|x: Seq<char>| ks.contains(x) <==> (has_key(srcs, x) || has_key(tgts, x)) by {
            lemma_keys_contains(srcs, x);
            lemma_keys_contains(tgts, x);
        }
    }
    let mut entries: Vec<(String, MavenCoordinates)> = Vec::new();
    let mut idx: usize = 0;
    proof {
        assert(entries_map(entry_views_of(entries@)) =~= Map::new(
            |x: Seq<char>| ks.take(0).contains(x),
            |x: Seq<char>| pooled_entry(srcs, tgts, wl, x)->0,
        ));
        assert(keys_of(entry_views_of(entries@)) =~= Seq::<Seq<char>>::empty());
    }
    while idx < all_keys.len()
        invariant
            idx <= all_keys@.len(),
            srcs == views_of(sources@),
            tgts == views_of(targets@),
            wl == views_of(whitelist@),
            texts_of(source_keys@) == keys_of_views(srcs),
            texts_of(target_keys@) == keys_of_views(tgts),
            texts_of(whitelist_keys@) == keys_of_views(wl),
            ks == texts_of(all_keys@),
            strictly_sorted(ks),
            forall|x: Seq<char>| ks.contains(x) <==> (has_key(srcs, x) || has_key(tgts, x)),
            entries@.len() == idx,
            forall|e: int|
                0 <= e < entries@.len() ==> (#[trigger] entry_views_of(entries@)[e]).0 == ks[e],
            strictly_sorted(keys_of(entry_views_of(entries@))),
            entries_map(entry_views_of(entries@)) == Map::new(
                |x: Seq<char>| ks.take(idx as int).contains(x),
                |x: Seq<char>| pooled_entry(srcs, tgts, wl, x)->0,
            ),
        decreases all_keys@.len() - idx,
    {
        let key = &all_keys[idx];
        let ghost k = ks[idx as int];
        assert(key@ == k);
        assert(ks.contains(k));
        let ghost t0 = ks.take(idx as int);
        let ghost t1 = ks.take(idx + 1);
        assert(t1 =~= t0.push(k));
        assert forall|x: Seq<char>| t1.contains(x) <==> (t0.contains(x) || x == k) by {
            if t1.contains(x) {
                let j = choose|j: int| 0 <= j < t1.len() && t1[j] == x;
                if j < idx {
                    assert(t0[j] == x);
                }
            }
            if t0.contains(x) {
                let j = choose|j: int| 0 <= j < t0.len() && t0[j] == x;
                assert(t1[j] == x);
            }
            if x == k {
                assert(t1[idx as int] == x);
            }
        }
        let ghost ev0 = entry_views_of(entries@);
        let c = pooled_entry_for_key(
            &sources,
            &source_keys,
            &targets,
            &target_keys,
            &whitelist,
            &whitelist_keys,
            key,
        );
        let ghost cv = c@;
        entries.push((key.clone(), c));
        proof {
            let ev = entry_views_of(entries@);
            assert(ev =~= ev0.push((k, cv)));
            assert(keys_of(ev) =~= keys_of(ev0).push(k));
            assert forall|a: int, b: int| 0 <= a < b < keys_of(ev).len() implies text_lt(
                #[trigger] keys_of(ev)[a],
                #[trigger] keys_of(ev)[b],
            ) by {
                assert(keys_of(ev)[a] == ev[a].0);
                assert(keys_of(ev)[b] == ev[b].0);
                if a < ev0.len() {
                    assert(ev[a] == ev0[a]);
                }
                if b < ev0.len() {
                    assert(ev[b] == ev0[b]);
                }
            }
            assert forall|e: int| 0 <= e < entries@.len() implies (#[trigger] ev[e]).0 == ks[e] by {
                if e < ev0.len() {
                    assert(ev[e] == ev0[e]);
                }
            }
            assert(ev.drop_last() =~= ev0);
            assert(entries_map(ev) == entries_map(ev0).insert(k, cv));
            assert(entries_map(ev) =~= Map::new(
                |x: Seq<char>| t1.contains(x),
                |x: Seq<char>| pooled_entry(srcs, tgts, wl, x)->0,
            ));
        }
        idx = idx + 1;
    }
    proof {
        assert(ks.take(idx as int) =~= ks);
        assert(entries_map(entry_views_of(entries@)) =~= pooled_merge_view(srcs, tgts, wl));
    }
    MergedJars::from_sorted(entries, Vec::new())
}

} // verus!
