//! Merging the coordinates found in the source jars with those deployed in
//! the target, under a whitelist that arbitrates or blocks by key.
use vstd::prelude::*;

use crate::maven_coordinate::{
    clone_opt, opt_view, texts_of, views_of, with_jar_path, CoordinatesView, MavenCoordinates,
};
use crate::merged_jars::{blocked_views_of, entries_map, entry_views_of, keys_of, MergedJars};
use crate::text::{
    chars_of, first_satisfying, lemma_first_satisfying, lemma_first_satisfying_at,
    lemma_text_lt_total, lemma_text_lt_transitive, strictly_sorted, text_less, text_lt,
};

verus! {

/// Which side wins when the whitelist does not decide: the newly built
/// sources (overwrite the deployment) or the deployed targets (keep it).
#[derive(Clone, Copy, Debug, PartialEq, Eq, Structural)]
pub enum Strategy {
    Source,
    Target,
}

/// The key that coordinates are merged under: `groupId:artifactId`, or the
/// artifact id alone where there is no group id.
pub open spec fn key_of(c: CoordinatesView) -> Seq<char> {
    match c.group_id {
        Some(g) => g + seq![':'] + c.artifact_id,
        None => c.artifact_id,
    }
}

/// The key that coordinates are merged under: `groupId:artifactId`, or the
/// artifact id alone where there is no group id.
pub fn make_key(coord: &MavenCoordinates) -> (r: String)
    ensures
        r@ == key_of(coord@),
{
    proof {
        reveal_strlit(":");
    }
    match &coord.group_id {
        Some(group_id) => {
            let mut r = group_id.clone();
            r.append(":");
            r.append(coord.artifact_id.as_str());
            r
        },
        None => coord.artifact_id.clone(),
    }
}

/// The keys of a list of coordinates.
pub open spec fn keys_of_views(cs: Seq<CoordinatesView>) -> Seq<Seq<char>> {
    cs.map_values(|c: CoordinatesView| key_of(c))
}

/// The coordinates with key `k` (and, where `version` is given, with that
/// version; and, where `with_jar_path`, with a jar path).
pub open spec fn matches_candidate(
    k: Seq<char>,
    version: Option<Option<Seq<char>>>,
    with_jar_path: bool,
) -> spec_fn(CoordinatesView) -> bool {
    |c: CoordinatesView|
        key_of(c) == k && (match version {
            Some(v) => c.version == v,
            None => true,
        }) && (with_jar_path ==> c.jar_path is Some)
}

/// The coordinates with key `k`.
pub open spec fn has_key_k(k: Seq<char>) -> spec_fn(CoordinatesView) -> bool {
    matches_candidate(k, None, false)
}

/// Whether some coordinates of `cs` have key `k`.
pub open spec fn has_key(cs: Seq<CoordinatesView>, k: Seq<char>) -> bool {
    exists|i: int| 0 <= i < cs.len() && key_of(cs[i]) == k
}

/// `a`, or else `b`.
pub open spec fn or_else<A>(a: Option<A>, b: Option<A>) -> Option<A> {
    match a {
        Some(x) => Some(x),
        None => b,
    }
}

/// The whitelist's entry for key `k`: the first one with that key.
pub open spec fn whitelist_entry(wl: Seq<CoordinatesView>, k: Seq<char>) -> Option<CoordinatesView> {
    first_satisfying(wl, has_key_k(k))
}

/// The first candidate for key `k` (sources before targets) with version `v`.
pub open spec fn candidate_with_version(
    srcs: Seq<CoordinatesView>,
    tgts: Seq<CoordinatesView>,
    k: Seq<char>,
    v: Option<Seq<char>>,
) -> Option<CoordinatesView> {
    or_else(
        first_satisfying(srcs, matches_candidate(k, Some(v), false)),
        first_satisfying(tgts, matches_candidate(k, Some(v), false)),
    )
}

/// The jar path that key `k` falls back on: that of the first candidate
/// (sources before targets) that has one, among the candidates with version
/// `v` where `version` is `Some(v)`, else among all of them.
pub open spec fn inherited_jar_path(
    srcs: Seq<CoordinatesView>,
    tgts: Seq<CoordinatesView>,
    k: Seq<char>,
    version: Option<Option<Seq<char>>>,
) -> Option<Seq<char>> {
    match or_else(
        first_satisfying(srcs, matches_candidate(k, version, true)),
        first_satisfying(tgts, matches_candidate(k, version, true)),
    ) {
        Some(c) => c.jar_path,
        None => None,
    }
}

/// `primary`, with the jar path inherited from another candidate (of
/// version `v`, where `version` is `Some(v)`) where it has none.
pub open spec fn with_inherited_jar_path(
    primary: CoordinatesView,
    srcs: Seq<CoordinatesView>,
    tgts: Seq<CoordinatesView>,
    k: Seq<char>,
    version: Option<Option<Seq<char>>>,
) -> CoordinatesView {
    if primary.jar_path is Some {
        primary
    } else {
        with_jar_path(primary, inherited_jar_path(srcs, tgts, k, version))
    }
}

/// The version whose jars key `k` may take: the whitelisted one where the
/// whitelist has an entry for `k`; any where it has none.
pub open spec fn deployable_version(wl: Seq<CoordinatesView>, k: Seq<char>) -> Option<
    Option<Seq<char>>,
> {
    match whitelist_entry(wl, k) {
        Some(w) => Some(w.version),
        None => None,
    }
}

/// The candidate chosen for key `k`. Where the whitelist has an entry for
/// `k`, it decides: the first candidate with the whitelisted version, or
/// none (the key is blocked). Else the strategy decides: the first source,
/// else the first target (`Source`), or the other way round (`Target`).
pub open spec fn primary_candidate(
    srcs: Seq<CoordinatesView>,
    tgts: Seq<CoordinatesView>,
    wl: Seq<CoordinatesView>,
    strategy: Strategy,
    k: Seq<char>,
) -> Option<CoordinatesView> {
    match whitelist_entry(wl, k) {
        Some(w) => candidate_with_version(srcs, tgts, k, w.version),
        None => match strategy {
            Strategy::Source => or_else(
                first_satisfying(srcs, has_key_k(k)),
                first_satisfying(tgts, has_key_k(k)),
            ),
            Strategy::Target => or_else(
                first_satisfying(tgts, has_key_k(k)),
                first_satisfying(srcs, has_key_k(k)),
            ),
        },
    }
}

/// What is merged under key `k`: the chosen candidate, with an inherited jar
/// path where it has none (from a candidate of the whitelisted version, where
/// the whitelist decided); nothing where the whitelist blocks `k`.
pub open spec fn merged_entry(
    srcs: Seq<CoordinatesView>,
    tgts: Seq<CoordinatesView>,
    wl: Seq<CoordinatesView>,
    strategy: Strategy,
    k: Seq<char>,
) -> Option<CoordinatesView> {
    match primary_candidate(srcs, tgts, wl, strategy, k) {
        Some(p) => Some(with_inherited_jar_path(p, srcs, tgts, k, deployable_version(wl, k))),
        None => None,
    }
}

/// The merge of sources and targets under whitelist `wl`: every key of a
/// source or a target that the whitelist does not block, with what is
/// merged under it.
pub open spec fn merge_view(
    srcs: Seq<CoordinatesView>,
    tgts: Seq<CoordinatesView>,
    wl: Seq<CoordinatesView>,
    strategy: Strategy,
) -> Map<Seq<char>, CoordinatesView> {
    Map::new(
        |k: Seq<char>|
            (has_key(srcs, k) || has_key(tgts, k)) && merged_entry(
                srcs,
                tgts,
                wl,
                strategy,
                k,
            ) is Some,
        |k: Seq<char>| merged_entry(srcs, tgts, wl, strategy, k)->0,
    )
}

/// Whether key `k` is blocked: the whitelist has an entry for it and no
/// candidate has the whitelisted version.
pub open spec fn is_blocked(
    srcs: Seq<CoordinatesView>,
    tgts: Seq<CoordinatesView>,
    wl: Seq<CoordinatesView>,
    k: Seq<char>,
) -> bool {
    match whitelist_entry(wl, k) {
        Some(w) => candidate_with_version(srcs, tgts, k, w.version) is None,
        None => false,
    }
}

/// The whitelist as a list of coordinates (empty where there is none).
pub open spec fn whitelist_of(management: Option<Vec<MavenCoordinates>>) -> Seq<CoordinatesView> {
    match management {
        Some(m) => views_of(m@),
        None => Seq::<CoordinatesView>::empty(),
    }
}

/// Whether two optional texts are equal.
pub fn opt_text_eq(a: &Option<String>, b: &Option<String>) -> (r: bool)
    ensures
        r == (opt_view(*a) == opt_view(*b)),
{
    match (a, b) {
        (Some(x), Some(y)) => *x == *y,
        (None, None) => true,
        _ => false,
    }
}

/// The keys of the given coordinates.
pub fn keys_of_all(cs: &Vec<MavenCoordinates>) -> (r: Vec<String>)
    ensures
        texts_of(r@) == keys_of_views(views_of(cs@)),
{
    let mut r: Vec<String> = Vec::new();
    let mut i: usize = 0;
    while i < cs.len()
        invariant
            i <= cs@.len(),
            texts_of(r@) == keys_of_views(views_of(cs@)).take(i as int),
        decreases cs@.len() - i,
    {
        let ghost before = r@;
        let key = make_key(&cs[i]);
        r.push(key);
        proof {
            let ks = keys_of_views(views_of(cs@));
            assert(ks[i as int] == key_of(cs@[i as int]@));
            assert(r@ == before.push(key));
            assert(texts_of(r@) =~= texts_of(before).push(key@));
            assert(ks.take(i + 1) =~= ks.take(i as int).push(ks[i as int]));
        }
        i = i + 1;
    }
    assert(keys_of_views(views_of(cs@)).take(i as int) =~= keys_of_views(views_of(cs@)));
    r
}

/// The position of the first coordinates in `cs` with key `k` (and, where
/// `check_version`, with version `version`; and, where `with_jar_path`,
/// with a jar path). `keys` holds the keys of `cs`.
pub fn find_candidate(
    cs: &Vec<MavenCoordinates>,
    keys: &Vec<String>,
    k: &String,
    check_version: bool,
    version: &Option<String>,
    with_jar_path: bool,
) -> (r: Option<usize>)
    requires
        texts_of(keys@) == keys_of_views(views_of(cs@)),
    ensures
        ({
            let p = matches_candidate(
                k@,
                if check_version {
                    Some(opt_view(*version))
                } else {
                    None
                },
                with_jar_path,
            );
            match r {
                Some(i) => i < cs@.len() && first_satisfying(views_of(cs@), p) == Some(cs@[i as int]@),
                None => first_satisfying(views_of(cs@), p) is None,
            }
        }),
{
    let ghost p = matches_candidate(
        k@,
        if check_version {
            Some(opt_view(*version))
        } else {
            None
        },
        with_jar_path,
    );
    let ghost s = views_of(cs@);
    assert(texts_of(keys@).len() == keys@.len());
    let mut i: usize = 0;
    while i < cs.len()
        invariant
            i <= cs@.len(),
            keys@.len() == cs@.len(),
            s == views_of(cs@),
            texts_of(keys@) == keys_of_views(s),
            p == matches_candidate(
                k@,
                if check_version {
                    Some(opt_view(*version))
                } else {
                    None
                },
                with_jar_path,
            ),
            forall|j: int| 0 <= j < i ==> !p(#[trigger] s[j]),
        decreases cs@.len() - i,
    {
        assert(keys@[i as int]@ == texts_of(keys@)[i as int]);
        let hit = keys[i] == *k && (!check_version || opt_text_eq(&cs[i].version, version)) && (
        !with_jar_path || cs[i].jar_path.is_some());
        if hit {
            proof {
                assert(p(s[i as int]));
                lemma_first_satisfying_at(s, p, i as int);
            }
            return Some(i);
        }
        assert(!p(s[i as int]));
        i = i + 1;
    }
    proof {
        lemma_first_satisfying(s, p);
        match first_satisfying(s, p) {
            Some(c) => {
                let j = choose|j: int|
                    0 <= j < s.len() && s[j] == c && p(c) && (forall|m: int|
                        0 <= m < j ==> !p(#[trigger] s[m]));
                assert(!p(s[j]));
            },
            None => {},
        }
    }
    None
}

/// Adds `k` to the strictly increasing list `keys` where it is missing.
pub fn insert_key(keys: &mut Vec<String>, k: String)
    requires
        strictly_sorted(texts_of(old(keys)@)),
    ensures
        strictly_sorted(texts_of(final(keys)@)),
        forall|x: Seq<char>|
            texts_of(final(keys)@).contains(x) <==> (texts_of(old(keys)@).contains(x) || x == k@),
{
    let ghost old_keys = texts_of(keys@);
    let kc = chars_of(k.as_str());
    let mut p: usize = 0;
    while p < keys.len() && text_less(&chars_of(keys[p].as_str()), &kc)
        invariant
            p <= keys@.len(),
            old_keys == texts_of(keys@),
            kc@ == k@,
            forall|j: int| 0 <= j < p ==> text_lt(#[trigger] old_keys[j], k@),
        decreases keys@.len() - p,
    {
        p = p + 1;
    }
    if p < keys.len() && keys[p] == k {
        assert(old_keys[p as int] == k@);
        return;
    }
    proof {
        if p < old_keys.len() {
            lemma_text_lt_total(old_keys[p as int], k@);
            assert forall|j: int| p <= j < old_keys.len() implies text_lt(k@, #[trigger] old_keys[j]) by {
                if j > p {
                    lemma_text_lt_transitive(k@, old_keys[p as int], old_keys[j]);
                }
            }
        }
    }
    keys.insert(p, k);
    let ghost new_keys = texts_of(keys@);
    assert(new_keys =~= old_keys.insert(p as int, k@));
    assert forall|i: int, j: int| 0 <= i < j < new_keys.len() implies text_lt(
        #[trigger] new_keys[i],
        #[trigger] new_keys[j],
    ) by {
        if j < p {
        } else if j == p {
        } else if i < p {
            assert(new_keys[j] == old_keys[j - 1]);
            assert(text_lt(old_keys[i], k@));
            if j - 1 >= p {
                lemma_text_lt_total(old_keys[p as int], k@);
            }
            if i < j - 1 {
                assert(text_lt(old_keys[i], old_keys[j - 1]));
            }
        } else if i == p {
            assert(new_keys[j] == old_keys[j - 1]);
        } else {
            assert(new_keys[i] == old_keys[i - 1]);
            assert(new_keys[j] == old_keys[j - 1]);
        }
    }
    assert forall|x: Seq<char>| new_keys.contains(x) <==> (old_keys.contains(x) || x == k@) by {
        if old_keys.contains(x) {
            let i = choose|i: int| 0 <= i < old_keys.len() && old_keys[i] == x;
            if i < p {
                assert(new_keys[i] == x);
            } else {
                assert(new_keys[i + 1] == x);
            }
        }
        if x == k@ {
            assert(new_keys[p as int] == x);
        }
        if new_keys.contains(x) {
            let i = choose|i: int| 0 <= i < new_keys.len() && new_keys[i] == x;
            if i < p {
                assert(old_keys[i] == x);
            } else if i > p {
                assert(old_keys[i - 1] == x);
            }
        }
    }
}

/// The keys of `a` and `b` together, each once, in increasing order.
pub fn union_keys(a: &Vec<String>, b: &Vec<String>) -> (r: Vec<String>)
    ensures
        strictly_sorted(texts_of(r@)),
        forall|x: Seq<char>|
            texts_of(r@).contains(x) <==> (texts_of(a@).contains(x) || texts_of(b@).contains(x)),
{
    let mut r: Vec<String> = Vec::new();
    let mut i: usize = 0;
    assert(texts_of(r@) =~= Seq::<Seq<char>>::empty());
    while i < a.len()
        invariant
            i <= a@.len(),
            strictly_sorted(texts_of(r@)),
            forall|x: Seq<char>|
                texts_of(r@).contains(x) <==> texts_of(a@).take(i as int).contains(x),
        decreases a@.len() - i,
    {
        let ghost before = texts_of(r@);
        insert_key(&mut r, a[i].clone());
        proof {
            let ta = texts_of(a@);
            let t0 = ta.take(i as int);
            let t1 = ta.take(i + 1);
            assert(t1 =~= t0.push(a@[i as int]@));
            assert forall|x: Seq<char>| texts_of(r@).contains(x) <==> t1.contains(x) by {
                assert(before.contains(x) <==> t0.contains(x));
                if x == a@[i as int]@ {
                    assert(t1[i as int] == x);
                }
                if t1.contains(x) {
                    let j = choose|j: int| 0 <= j < t1.len() && t1[j] == x;
                    if j < i {
                        assert(t0[j] == x);
                    }
                }
                if t0.contains(x) {
                    let j = choose|j: int| 0 <= j < t0.len() && t0[j] == x;
                    assert(t1[j] == x);
                }
            }
        }
        i = i + 1;
    }
    assert(texts_of(a@).take(i as int) =~= texts_of(a@));
    let mut j: usize = 0;
    while j < b.len()
        invariant
            j <= b@.len(),
            strictly_sorted(texts_of(r@)),
            forall|x: Seq<char>|
                texts_of(r@).contains(x) <==> (texts_of(a@).contains(x) || texts_of(b@).take(
                    j as int,
                ).contains(x)),
        decreases b@.len() - j,
    {
        let ghost before = texts_of(r@);
        insert_key(&mut r, b[j].clone());
        proof {
            let tb = texts_of(b@);
            let t0 = tb.take(j as int);
            let t1 = tb.take(j + 1);
            assert(t1 =~= t0.push(b@[j as int]@));
            assert forall|x: Seq<char>|
                texts_of(r@).contains(x) <==> (texts_of(a@).contains(x) || t1.contains(x)) by {
                assert(before.contains(x) <==> (texts_of(a@).contains(x) || t0.contains(x)));
                if x == b@[j as int]@ {
                    assert(t1[j as int] == x);
                }
                if t1.contains(x) {
                    let m = choose|m: int| 0 <= m < t1.len() && t1[m] == x;
                    if m < j {
                        assert(t0[m] == x);
                    }
                }
                if t0.contains(x) {
                    let m = choose|m: int| 0 <= m < t0.len() && t0[m] == x;
                    assert(t1[m] == x);
                }
            }
        }
        j = j + 1;
    }
    assert(texts_of(b@).take(j as int) =~= texts_of(b@));
    r
}

/// The keys of a list are the keys its coordinates have.
pub proof fn lemma_keys_contains(cs: Seq<CoordinatesView>, k: Seq<char>)
    ensures
        keys_of_views(cs).contains(k) <==> has_key(cs, k),
{
    if has_key(cs, k) {
        let i = choose|i: int| 0 <= i < cs.len() && key_of(cs[i]) == k;
        assert(keys_of_views(cs)[i] == k);
    }
}

/// Where a list has coordinates with key `k`, the first of them exists.
pub proof fn lemma_first_with_key(cs: Seq<CoordinatesView>, k: Seq<char>)
    ensures
        has_key(cs, k) <==> first_satisfying(cs, has_key_k(k)) is Some,
{
    lemma_first_satisfying(cs, has_key_k(k));
    if has_key(cs, k) {
        let i = choose|i: int| 0 <= i < cs.len() && key_of(cs[i]) == k;
        assert(has_key_k(k)(cs[i]));
    }
    if first_satisfying(cs, has_key_k(k)) is Some {
        let c = first_satisfying(cs, has_key_k(k))->0;
        let i = choose|i: int|
            0 <= i < cs.len() && cs[i] == c && has_key_k(k)(c) && (forall|j: int|
                0 <= j < i ==> !has_key_k(k)(#[trigger] cs[j]));
        assert(key_of(cs[i]) == k);
    }
}

/// The coordinates merged under key `k`, or, where none are, the version
/// that the whitelist asked for (none where it has no entry for `k`).
pub fn entry_for_key(
    sources: &Vec<MavenCoordinates>,
    source_keys: &Vec<String>,
    targets: &Vec<MavenCoordinates>,
    target_keys: &Vec<String>,
    whitelist: &Vec<MavenCoordinates>,
    whitelist_keys: &Vec<String>,
    k: &String,
    strategy: Strategy,
) -> (r: Result<MavenCoordinates, Option<String>>)
    requires
        texts_of(source_keys@) == keys_of_views(views_of(sources@)),
        texts_of(target_keys@) == keys_of_views(views_of(targets@)),
        texts_of(whitelist_keys@) == keys_of_views(views_of(whitelist@)),
    ensures
        ({
            let srcs = views_of(sources@);
            let tgts = views_of(targets@);
            let wl = views_of(whitelist@);
            match r {
                Ok(c) => merged_entry(srcs, tgts, wl, strategy, k@) == Some(c@),
                Err(v) => merged_entry(srcs, tgts, wl, strategy, k@) is None && match whitelist_entry(
                    wl,
                    k@,
                ) {
                    Some(w) => opt_view(v) == w.version,
                    None => v is None,
                },
            }
        }),
{
    let ghost srcs = views_of(sources@);
    let ghost tgts = views_of(targets@);
    let ghost wl = views_of(whitelist@);
    let none: Option<String> = None;
    let wl_pos = find_candidate(whitelist, whitelist_keys, k, false, &none, false);
    let (by_version, jar_version) = match wl_pos {
        Some(w) => (true, clone_opt(&whitelist[w].version)),
        None => (false, None),
    };
    assert(deployable_version(wl, k@) == if by_version {
        Some(opt_view(jar_version))
    } else {
        None
    });
    let primary: Option<MavenCoordinates> = match wl_pos {
        Some(w) => {
            let wv = &whitelist[w].version;
            assert(opt_view(*wv) == whitelist_entry(wl, k@)->0.version);
            match find_candidate(sources, source_keys, k, true, wv, false) {
                Some(i) => Some(sources[i].duplicate()),
                None => match find_candidate(targets, target_keys, k, true, wv, false) {
                    Some(j) => Some(targets[j].duplicate()),
                    None => {
                        return Err(clone_opt(wv));
                    },
                },
            }
        },
        None => {
            let fs = find_candidate(sources, source_keys, k, false, &none, false);
            let ft = find_candidate(targets, target_keys, k, false, &none, false);
            match strategy {
                Strategy::Source => match fs {
                    Some(i) => Some(sources[i].duplicate()),
                    None => match ft {
                        Some(j) => Some(targets[j].duplicate()),
                        None => None,
                    },
                },
                Strategy::Target => match ft {
                    Some(j) => Some(targets[j].duplicate()),
                    None => match fs {
                        Some(i) => Some(sources[i].duplicate()),
                        None => None,
                    },
                },
            }
        },
    };
    assert(opt_map_view(primary) == primary_candidate(srcs, tgts, wl, strategy, k@));
    match primary {
        Some(mut p) => {
            if p.jar_path.is_none() {
                p.jar_path = match find_candidate(
                    sources,
                    source_keys,
                    k,
                    by_version,
                    &jar_version,
                    true,
                ) {
                    Some(i) => clone_opt(&sources[i].jar_path),
                    None => match find_candidate(
                        targets,
                        target_keys,
                        k,
                        by_version,
                        &jar_version,
                        true,
                    ) {
                        Some(j) => clone_opt(&targets[j].jar_path),
                        None => None,
                    },
                };
            }
            Ok(p)
        },
        None => Err(None),
    }
}

/// Optional coordinates by their view.
pub open spec fn opt_map_view(o: Option<MavenCoordinates>) -> Option<CoordinatesView> {
    match o {
        Some(c) => Some(c@),
        None => None,
    }
}

/// The keys of a list of blocked `(key, version)` pairs.
pub open spec fn blocked_keys(bl: Seq<(Seq<char>, Option<Seq<char>>)>) -> Seq<Seq<char>> {
    bl.map_values(|e: (Seq<char>, Option<Seq<char>>)| e.0)
}

/// Whether `bl` lists exactly the keys of sources and targets that the
/// whitelist blocks, in increasing order, each with the version that the
/// whitelist asked for.
pub open spec fn blocked_list_is(
    bl: Seq<(Seq<char>, Option<Seq<char>>)>,
    srcs: Seq<CoordinatesView>,
    tgts: Seq<CoordinatesView>,
    wl: Seq<CoordinatesView>,
) -> bool {
    &&& strictly_sorted(blocked_keys(bl))
    &&& forall|i: int|
        0 <= i < bl.len() ==> (has_key(srcs, (#[trigger] bl[i]).0) || has_key(tgts, bl[i].0))
            && is_blocked(srcs, tgts, wl, bl[i].0) && bl[i].1 == whitelist_entry(wl, bl[i].0)->0.version
    &&& forall|k: Seq<char>|
        (has_key(srcs, k) || has_key(tgts, k)) && #[trigger] is_blocked(srcs, tgts, wl, k)
            ==> exists|i: int| 0 <= i < bl.len() && bl[i].0 == k
}

/// Merges the coordinates of the source jars with those deployed in the
/// target. Each key (`groupId:artifactId`) of a source or a target is
/// decided on its own. Where the whitelist has an entry for the key, it
/// decides: the first candidate (sources before targets) with the
/// whitelisted version is taken, and where there is none the key is blocked
/// (left out, so it is not deployed). Else the strategy decides: the first
/// source, else the first target (`Source`), or the other way round
/// (`Target`). A chosen entry without a jar path takes that of the first
/// candidate that has one: of the whitelisted version where the whitelist
/// decided (so no other version's jar is deployed), of any version where the
/// strategy decided. The result is in increasing key order and also
/// lists the blocked keys.
pub fn merge_jars(
    sources: Vec<MavenCoordinates>,
    targets: Vec<MavenCoordinates>,
    management: Option<Vec<MavenCoordinates>>,
    strategy: Strategy,
) -> (r: MergedJars)
    ensures
        r@ == merge_view(
            views_of(sources@),
            views_of(targets@),
            whitelist_of(management),
            strategy,
        ),
        blocked_list_is(
            r.blocked_views(),
            views_of(sources@),
            views_of(targets@),
            whitelist_of(management),
        ),
{
    let ghost srcs = views_of(sources@);
    let ghost tgts = views_of(targets@);
    let ghost wl = whitelist_of(management);
    let whitelist: Vec<MavenCoordinates> = match management {
        Some(m) => m,
        None => Vec::new(),
    };
    assert(views_of(whitelist@) =~= wl);
    let source_keys = keys_of_all(&sources);
    let target_keys = keys_of_all(&targets);
    let whitelist_keys = keys_of_all(&whitelist);
    let all_keys = union_keys(&source_keys, &target_keys);
    let ghost ks = texts_of(all_keys@);
    proof {
        assert forall|x: Seq<char>| ks.contains(x) <==> (has_key(srcs, x) || has_key(tgts, x)) by {
            lemma_keys_contains(srcs, x);
            lemma_keys_contains(tgts, x);
        }
    }
    let mut entries: Vec<(String, MavenCoordinates)> = Vec::new();
    let mut blocked: Vec<(String, Option<String>)> = Vec::new();
    let mut idx: usize = 0;
    proof {
        assert(entries_map(entry_views_of(entries@)) =~= Map::new(
            |x: Seq<char>| ks.take(0).contains(x) && merged_entry(srcs, tgts, wl, strategy, x) is Some,
            |x: Seq<char>| merged_entry(srcs, tgts, wl, strategy, x)->0,
        ));
        assert(keys_of(entry_views_of(entries@)) =~= Seq::<Seq<char>>::empty());
        assert(blocked_keys(blocked_views_of(blocked@)) =~= Seq::<Seq<char>>::empty());
    }
    while idx < all_keys.len()
        invariant
            idx <= all_keys@.len(),
            srcs == views_of(sources@),
            tgts == views_of(targets@),
            wl == views_of(whitelist@),
            texts_of(source_keys@) == keys_of_views(srcs),
            texts_of(target_keys@) == keys_of_views(tgts),
            texts_of(whitelist_keys@) == keys_of_views(wl),
            ks == texts_of(all_keys@),
            strictly_sorted(ks),
            forall|x: Seq<char>| ks.contains(x) <==> (has_key(srcs, x) || has_key(tgts, x)),
            forall|e: int|
                0 <= e < entries@.len() ==> exists|j: int|
                    0 <= j < idx && (#[trigger] entry_views_of(entries@)[e]).0 == ks[j],
            strictly_sorted(keys_of(entry_views_of(entries@))),
            entries_map(entry_views_of(entries@)) == Map::new(
                |x: Seq<char>|
                    ks.take(idx as int).contains(x) && merged_entry(
                        srcs,
                        tgts,
                        wl,
                        strategy,
                        x,
                    ) is Some,
                |x: Seq<char>| merged_entry(srcs, tgts, wl, strategy, x)->0,
            ),
            forall|e: int|
                0 <= e < blocked@.len() ==> exists|j: int|
                    0 <= j < idx && (#[trigger] blocked_views_of(blocked@)[e]).0 == ks[j],
            strictly_sorted(blocked_keys(blocked_views_of(blocked@))),
            forall|e: int|
                0 <= e < blocked@.len() ==> {
                    let b = #[trigger] blocked_views_of(blocked@)[e];
                    &&& (has_key(srcs, b.0) || has_key(tgts, b.0))
                    &&& is_blocked(srcs, tgts, wl, b.0)
                    &&& b.1 == whitelist_entry(wl, b.0)->0.version
                },
            forall|x: Seq<char>|
                ks.take(idx as int).contains(x) && #[trigger] is_blocked(srcs, tgts, wl, x)
                    ==> exists|e: int| 0 <= e < blocked@.len() && blocked_views_of(blocked@)[e].0 == x,
        decreases all_keys@.len() - idx,
    {
        let key = &all_keys[idx];
        let ghost k = ks[idx as int];
        assert(key@ == k);
        assert(ks.contains(k));
        let ghost t0 = ks.take(idx as int);
        let ghost t1 = ks.take(idx + 1);
        assert(t1 =~= t0.push(k));
        assert forall|x: Seq<char>| t1.contains(x) <==> (t0.contains(x) || x == k) by {
            if t1.contains(x) {
                let j = choose|j: int| 0 <= j < t1.len() && t1[j] == x;
                if j < idx {
                    assert(t0[j] == x);
                }
            }
            if t0.contains(x) {
                let j = choose|j: int| 0 <= j < t0.len() && t0[j] == x;
                assert(t1[j] == x);
            }
            if x == k {
                assert(t1[idx as int] == x);
            }
        }
        assert forall|j: int| 0 <= j < idx implies text_lt(#[trigger] ks[j], k) by {}
        let ghost ev0 = entry_views_of(entries@);
        let ghost bv0 = blocked_views_of(blocked@);
        match entry_for_key(
            &sources,
            &source_keys,
            &targets,
            &target_keys,
            &whitelist,
            &whitelist_keys,
            key,
            strategy,
        ) {
            Ok(c) => {
                let ghost cv = c@;
                entries.push((key.clone(), c));
                proof {
                    let ev = entry_views_of(entries@);
                    assert(ev =~= ev0.push((k, cv)));
                    assert(keys_of(ev) =~= keys_of(ev0).push(k));
                    assert forall|a: int, b: int| 0 <= a < b < keys_of(ev).len() implies text_lt(
                        #[trigger] keys_of(ev)[a],
                        #[trigger] keys_of(ev)[b],
                    ) by {
                        if b == keys_of(ev).len() - 1 {
                            assert(ev[a] == ev0[a]);
                            let j = choose|j: int| 0 <= j < idx && (#[trigger] ev0[a]).0 == ks[j];
                        } else {
                            assert(keys_of(ev)[a] == keys_of(ev0)[a]);
                            assert(keys_of(ev)[b] == keys_of(ev0)[b]);
                        }
                    }
                    assert forall|e: int| 0 <= e < entries@.len() implies exists|j: int|
                        0 <= j < idx + 1 && (#[trigger] ev[e]).0 == ks[j] by {
                        if e < ev0.len() {
                            assert(ev[e] == ev0[e]);
                            let j = choose|j: int| 0 <= j < idx && (#[trigger] ev0[e]).0 == ks[j];
                        } else {
                            assert(ev[e].0 == ks[idx as int]);
                        }
                    }
                    assert(ev.drop_last() =~= ev0);
                    assert(entries_map(ev) == entries_map(ev0).insert(k, cv));
                    assert(merged_entry(srcs, tgts, wl, strategy, k) == Some(cv));
                    assert(entries_map(ev) =~= Map::new(
                        |x: Seq<char>| t1.contains(x) && merged_entry(srcs, tgts, wl, strategy, x) is Some,
                        |x: Seq<char>| merged_entry(srcs, tgts, wl, strategy, x)->0,
                    ));
                    assert(!is_blocked(srcs, tgts, wl, k)) by {
                        match whitelist_entry(wl, k) {
                            Some(w) => {},
                            None => {},
                        }
                    }
                    assert forall|x: Seq<char>| t1.contains(x) && #[trigger] is_blocked(srcs, tgts, wl, x)
                        implies exists|e: int| 0 <= e < blocked@.len() && blocked_views_of(blocked@)[e].0 == x by {
                        assert(t0.contains(x));
                    }
                }
            },
            Err(v) => {
                let ghost vv = opt_view(v);
                blocked.push((key.clone(), v));
                proof {
                    lemma_first_with_key(srcs, k);
                    lemma_first_with_key(tgts, k);
                    assert(is_blocked(srcs, tgts, wl, k));
                    let bv = blocked_views_of(blocked@);
                    assert(bv =~= bv0.push((k, vv)));
                    assert(blocked_keys(bv) =~= blocked_keys(bv0).push(k));
                    assert forall|a: int, b: int| 0 <= a < b < blocked_keys(bv).len() implies text_lt(
                        #[trigger] blocked_keys(bv)[a],
                        #[trigger] blocked_keys(bv)[b],
                    ) by {
                        if b == blocked_keys(bv).len() - 1 {
                            assert(bv[a] == bv0[a]);
                            let j = choose|j: int| 0 <= j < idx && (#[trigger] bv0[a]).0 == ks[j];
                        } else {
                            assert(blocked_keys(bv)[a] == blocked_keys(bv0)[a]);
                            assert(blocked_keys(bv)[b] == blocked_keys(bv0)[b]);
                        }
                    }
                    assert forall|e: int| 0 <= e < blocked@.len() implies exists|j: int|
                        0 <= j < idx + 1 && (#[trigger] bv[e]).0 == ks[j] by {
                        if e < bv0.len() {
                            assert(bv[e] == bv0[e]);
                            let j = choose|j: int| 0 <= j < idx && (#[trigger] bv0[e]).0 == ks[j];
                        } else {
                            assert(bv[e].0 == ks[idx as int]);
                        }
                    }
                    assert forall|e: int| 0 <= e < blocked@.len() implies {
                        let b = #[trigger] bv[e];
                        &&& (has_key(srcs, b.0) || has_key(tgts, b.0))
                        &&& is_blocked(srcs, tgts, wl, b.0)
                        &&& b.1 == whitelist_entry(wl, b.0)->0.version
                    } by {
                        if e < bv0.len() {
                            assert(bv[e] == bv0[e]);
                        }
                    }
                    assert forall|x: Seq<char>| t1.contains(x) && #[trigger] is_blocked(srcs, tgts, wl, x)
                        implies exists|e: int| 0 <= e < blocked@.len() && bv[e].0 == x by {
                        if x == k {
                            assert(bv[bv.len() - 1].0 == x);
                        } else {
                            assert(t0.contains(x));
                            let e = choose|e: int| 0 <= e < bv0.len() && bv0[e].0 == x;
                            assert(bv[e] == bv0[e]);
                        }
                    }
                    assert(entries_map(entry_views_of(entries@)) =~= Map::new(
                        |x: Seq<char>| t1.contains(x) && merged_entry(srcs, tgts, wl, strategy, x) is Some,
                        |x: Seq<char>| merged_entry(srcs, tgts, wl, strategy, x)->0,
                    ));
                }
            },
        }
        idx = idx + 1;
    }
    proof {
        assert(ks.take(idx as int) =~= ks);
        assert(entries_map(entry_views_of(entries@)) =~= merge_view(srcs, tgts, wl, strategy));
    }
    MergedJars::from_sorted(entries, blocked)
}

/// The keys of the whitelist entries that repeat the key of an earlier
/// entry (and so are ignored), in order.
pub open spec fn repeated_keys(wl: Seq<CoordinatesView>) -> Seq<Seq<char>>
    decreases wl.len(),
{
    if wl.len() == 0 {
        Seq::<Seq<char>>::empty()
    } else {
        let rest = repeated_keys(wl.drop_last());
        if has_key(wl.drop_last(), key_of(wl.last())) {
            rest.push(key_of(wl.last()))
        } else {
            rest
        }
    }
}

/// The keys of the whitelist entries that repeat the key of an earlier
/// entry: only the first entry for a key counts.
pub fn duplicate_whitelist_keys(management: &Vec<MavenCoordinates>) -> (r: Vec<String>)
    ensures
        texts_of(r@) == repeated_keys(views_of(management@)),
{
    let ghost wl = views_of(management@);
    let keys = keys_of_all(management);
    assert(texts_of(keys@).len() == keys@.len());
    let mut r: Vec<String> = Vec::new();
    let mut i: usize = 0;
    while i < keys.len()
        invariant
            i <= keys@.len(),
            keys@.len() == wl.len(),
            wl == views_of(management@),
            texts_of(keys@) == keys_of_views(wl),
            texts_of(r@) == repeated_keys(wl.take(i as int)),
        decreases keys@.len() - i,
    {
        let ghost prefix = wl.take(i as int);
        assert(wl.take(i + 1).drop_last() =~= prefix);
        assert(wl.take(i + 1).last() == wl[i as int]);
        assert(texts_of(keys@)[i as int] == keys@[i as int]@);
        assert(keys_of_views(wl)[i as int] == key_of(wl[i as int]));
        let mut seen = false;
        let mut j: usize = 0;
        while j < i
            invariant
                j <= i < keys@.len(),
                keys@.len() == wl.len(),
                texts_of(keys@) == keys_of_views(wl),
                prefix == wl.take(i as int),
                seen == (exists|m: int| 0 <= m < j && key_of(prefix[m]) == key_of(wl[i as int])),
            decreases i - j,
        {
            assert(texts_of(keys@)[j as int] == keys@[j as int]@);
            assert(keys_of_views(wl)[j as int] == key_of(wl[j as int]));
            assert(texts_of(keys@)[i as int] == keys@[i as int]@);
            assert(keys_of_views(wl)[i as int] == key_of(wl[i as int]));
            assert(prefix[j as int] == wl[j as int]);
            if keys[j] == keys[i] {
                seen = true;
                assert(key_of(prefix[j as int]) == key_of(wl[i as int]));
            }
            j = j + 1;
        }
        let ghost before = r@;
        if seen {
            r.push(keys[i].clone());
            assert(texts_of(r@) =~= texts_of(before).push(key_of(wl[i as int])));
        }
        i = i + 1;
    }
    assert(wl.take(i as int) =~= wl);
    r
}

} // verus!
