//! What holds of every merge: the whitelist arbitrates or blocks only its
//! own keys, the strategy decides the rest, nothing is merged under a key
//! that no input has, and every key that is not blocked is kept.
use vstd::prelude::*;

use crate::handler::{
    first_candidate, has_version_conflict, pooled_entry, pooled_merge_view, pooled_primary,
};
use crate::maven_coordinate::{coordinates_text, with_jar_path, CoordinatesView};
use crate::merge::{
    deployable_version, has_key, has_key_k, inherited_jar_path, is_blocked, key_of,
    lemma_first_with_key, matches_candidate, merge_view, merged_entry, or_else, primary_candidate,
    whitelist_entry, with_inherited_jar_path, Strategy,
};
use crate::text::{
    first_satisfying, lemma_first_satisfying, lemma_first_satisfying_at, starts_with,
};

verus! {

/// The element that `first_satisfying` picks is in the list and satisfies
/// the predicate.
pub proof fn lemma_first_satisfying_member<A>(s: Seq<A>, p: spec_fn(A) -> bool)
    ensures
        first_satisfying(s, p) matches Some(a) ==> s.contains(a) && p(a),
{
    lemma_first_satisfying(s, p);
    if first_satisfying(s, p) is Some {
        let a = first_satisfying(s, p)->0;
        let i = choose|i: int|
            0 <= i < s.len() && s[i] == a && p(a) && (forall|j: int|
                0 <= j < i ==> !p(#[trigger] s[j]));
        assert(s[i] == a);
    }
}

/// Where some element satisfies `p`, `first_satisfying` finds one.
pub proof fn lemma_first_satisfying_exists<A>(s: Seq<A>, p: spec_fn(A) -> bool, i: int)
    requires
        0 <= i < s.len(),
        p(s[i]),
    ensures
        first_satisfying(s, p) is Some,
{
    lemma_first_satisfying(s, p);
}

/// The candidate chosen for a key has that key.
proof fn lemma_primary_has_key(
    srcs: Seq<CoordinatesView>,
    tgts: Seq<CoordinatesView>,
    wl: Seq<CoordinatesView>,
    strategy: Strategy,
    k: Seq<char>,
)
    ensures
        primary_candidate(srcs, tgts, wl, strategy, k) matches Some(p) ==> key_of(p) == k,
{
    lemma_first_satisfying_member(srcs, has_key_k(k));
    lemma_first_satisfying_member(tgts, has_key_k(k));
    match whitelist_entry(wl, k) {
        Some(w) => {
            lemma_first_satisfying_member(srcs, matches_candidate(k, Some(w.version), false));
            lemma_first_satisfying_member(tgts, matches_candidate(k, Some(w.version), false));
        },
        None => {},
    }
}

/// Every key of the merge is a key of a source or a target, and what is
/// merged under it has that key; every key of a source or a target that
/// the whitelist does not block is in the merge.
pub proof fn lemma_merge_keys(
    srcs: Seq<CoordinatesView>,
    tgts: Seq<CoordinatesView>,
    wl: Seq<CoordinatesView>,
    strategy: Strategy,
    k: Seq<char>,
)
    ensures
        merge_view(srcs, tgts, wl, strategy).contains_key(k) ==> (has_key(srcs, k) || has_key(
            tgts,
            k,
        )) && key_of(merge_view(srcs, tgts, wl, strategy)[k]) == k,
        (has_key(srcs, k) || has_key(tgts, k)) ==> (merge_view(srcs, tgts, wl, strategy).contains_key(
            k,
        ) <==> !is_blocked(srcs, tgts, wl, k)),
{
    lemma_primary_has_key(srcs, tgts, wl, strategy, k);
    lemma_first_with_key(srcs, k);
    lemma_first_with_key(tgts, k);
}

/// Nothing is invented: what is merged under a key is one of the candidates
/// for that key except for its jar path, and that jar path, where there is
/// one, is the jar path of a candidate for the key.
pub proof fn lemma_merged_entry_is_candidate(
    srcs: Seq<CoordinatesView>,
    tgts: Seq<CoordinatesView>,
    wl: Seq<CoordinatesView>,
    strategy: Strategy,
    k: Seq<char>,
)
    requires
        merge_view(srcs, tgts, wl, strategy).contains_key(k),
    ensures
        ({
            let m = merge_view(srcs, tgts, wl, strategy)[k];
            &&& exists|c: CoordinatesView|
                (srcs.contains(c) || tgts.contains(c)) && key_of(c) == k && with_jar_path(
                    m,
                    c.jar_path,
                ) == c
            &&& m.jar_path is Some ==> exists|d: CoordinatesView|
                (srcs.contains(d) || tgts.contains(d)) && key_of(d) == k && d.jar_path
                    == m.jar_path
        }),
{
    let m = merge_view(srcs, tgts, wl, strategy)[k];
    lemma_primary_has_key(srcs, tgts, wl, strategy, k);
    lemma_first_satisfying_member(srcs, has_key_k(k));
    lemma_first_satisfying_member(tgts, has_key_k(k));
    let dv = deployable_version(wl, k);
    lemma_first_satisfying_member(srcs, matches_candidate(k, dv, true));
    lemma_first_satisfying_member(tgts, matches_candidate(k, dv, true));
    match whitelist_entry(wl, k) {
        Some(w) => {
            lemma_first_satisfying_member(srcs, matches_candidate(k, Some(w.version), false));
            lemma_first_satisfying_member(tgts, matches_candidate(k, Some(w.version), false));
        },
        None => {},
    }
    let p = primary_candidate(srcs, tgts, wl, strategy, k)->0;
    assert(with_jar_path(m, p.jar_path) == p);
    if m.jar_path is Some && p.jar_path is None {
        let q = or_else(
            first_satisfying(srcs, matches_candidate(k, dv, true)),
            first_satisfying(tgts, matches_candidate(k, dv, true)),
        )->0;
        assert(q.jar_path == m.jar_path);
        assert(key_of(q) == k);
    }
}

/// Where the whitelist has an entry for a key and some candidate has the
/// whitelisted version, the merge takes that version, whatever the
/// strategy and whether or not the candidates' versions conflict.
pub proof fn lemma_whitelist_arbitrates(
    srcs: Seq<CoordinatesView>,
    tgts: Seq<CoordinatesView>,
    wl: Seq<CoordinatesView>,
    strategy: Strategy,
    k: Seq<char>,
    w: CoordinatesView,
    c: CoordinatesView,
)
    requires
        whitelist_entry(wl, k) == Some(w),
        srcs.contains(c) || tgts.contains(c),
        key_of(c) == k,
        c.version == w.version,
    ensures
        merge_view(srcs, tgts, wl, strategy).contains_key(k),
        merge_view(srcs, tgts, wl, strategy)[k].version == w.version,
{
    let p = matches_candidate(k, Some(w.version), false);
    if srcs.contains(c) {
        let i = choose|i: int| 0 <= i < srcs.len() && srcs[i] == c;
        lemma_first_satisfying_exists(srcs, p, i);
        assert(has_key(srcs, k));
    } else {
        let i = choose|i: int| 0 <= i < tgts.len() && tgts[i] == c;
        lemma_first_satisfying_exists(tgts, p, i);
        assert(has_key(tgts, k));
    }
    lemma_first_satisfying_member(srcs, p);
    lemma_first_satisfying_member(tgts, p);
}

/// Only the whitelisted version is deployed: where the whitelist decides a
/// key, the merged jar path, where there is one, is that of a candidate of
/// the whitelisted version; and there is one exactly when some candidate of
/// that version has a jar path.
pub proof fn lemma_whitelisted_jar_is_of_that_version(
    srcs: Seq<CoordinatesView>,
    tgts: Seq<CoordinatesView>,
    wl: Seq<CoordinatesView>,
    strategy: Strategy,
    k: Seq<char>,
    w: CoordinatesView,
)
    requires
        whitelist_entry(wl, k) == Some(w),
        merge_view(srcs, tgts, wl, strategy).contains_key(k),
    ensures
        ({
            let m = merge_view(srcs, tgts, wl, strategy)[k];
            let of_version = |d: CoordinatesView|
                (srcs.contains(d) || tgts.contains(d)) && key_of(d) == k && d.version == w.version
                    && d.jar_path is Some;
            &&& m.version == w.version
            &&& m.jar_path is Some ==> exists|d: CoordinatesView| #[trigger]
                of_version(d) && d.jar_path == m.jar_path
            &&& m.jar_path is None ==> forall|d: CoordinatesView| !#[trigger] of_version(d)
        }),
{
    let m = merge_view(srcs, tgts, wl, strategy)[k];
    let pv = matches_candidate(k, Some(w.version), false);
    let pj = matches_candidate(k, Some(w.version), true);
    lemma_first_satisfying_member(srcs, pv);
    lemma_first_satisfying_member(tgts, pv);
    lemma_first_satisfying_member(srcs, pj);
    lemma_first_satisfying_member(tgts, pj);
    lemma_first_satisfying(srcs, pj);
    lemma_first_satisfying(tgts, pj);
    let of_version = |d: CoordinatesView|
        (srcs.contains(d) || tgts.contains(d)) && key_of(d) == k && d.version == w.version
            && d.jar_path is Some;
    let p = primary_candidate(srcs, tgts, wl, strategy, k)->0;
    if m.jar_path is Some {
        if p.jar_path is Some {
            assert(of_version(p));
        } else {
            let q = or_else(first_satisfying(srcs, pj), first_satisfying(tgts, pj))->0;
            assert(of_version(q));
        }
    } else {
        assert forall|d: CoordinatesView| !#[trigger] of_version(d) by {
            if of_version(d) {
                if srcs.contains(d) {
                    let i = choose|i: int| 0 <= i < srcs.len() && srcs[i] == d;
                    assert(pj(srcs[i]));
                } else {
                    let i = choose|i: int| 0 <= i < tgts.len() && tgts[i] == d;
                    assert(pj(tgts[i]));
                }
            }
        }
    }
}

/// Where the whitelist has an entry for a key and no candidate has the
/// whitelisted version, the key is left out of the merge (blocked), even
/// where all candidates share one version.
pub proof fn lemma_whitelist_blocks(
    srcs: Seq<CoordinatesView>,
    tgts: Seq<CoordinatesView>,
    wl: Seq<CoordinatesView>,
    strategy: Strategy,
    k: Seq<char>,
    w: CoordinatesView,
)
    requires
        whitelist_entry(wl, k) == Some(w),
        forall|i: int|
            0 <= i < srcs.len() && key_of(#[trigger] srcs[i]) == k ==> srcs[i].version != w.version,
        forall|i: int|
            0 <= i < tgts.len() && key_of(#[trigger] tgts[i]) == k ==> tgts[i].version != w.version,
    ensures
        !merge_view(srcs, tgts, wl, strategy).contains_key(k),
        is_blocked(srcs, tgts, wl, k),
{
    let p = matches_candidate(k, Some(w.version), false);
    lemma_first_satisfying(srcs, p);
    lemma_first_satisfying(tgts, p);
    if first_satisfying(srcs, p) is Some {
        let a = first_satisfying(srcs, p)->0;
        let i = choose|i: int|
            0 <= i < srcs.len() && srcs[i] == a && p(a) && (forall|j: int|
                0 <= j < i ==> !p(#[trigger] srcs[j]));
        assert(p(srcs[i]));
    }
    if first_satisfying(tgts, p) is Some {
        let a = first_satisfying(tgts, p)->0;
        let i = choose|i: int|
            0 <= i < tgts.len() && tgts[i] == a && p(a) && (forall|j: int|
                0 <= j < i ==> !p(#[trigger] tgts[j]));
        assert(p(tgts[i]));
    }
}

/// Where the whitelist has no entry for a key, the strategy decides: with
/// `Source`, the first source with the key, else the first target; with
/// `Target`, the first target, else the first source (each with its jar
/// path inherited where it has none).
pub proof fn lemma_strategy_decides(
    srcs: Seq<CoordinatesView>,
    tgts: Seq<CoordinatesView>,
    wl: Seq<CoordinatesView>,
    strategy: Strategy,
    k: Seq<char>,
)
    requires
        whitelist_entry(wl, k) is None,
        has_key(srcs, k) || has_key(tgts, k),
    ensures
        merge_view(srcs, tgts, wl, strategy).contains_key(k),
        ({
            let chosen = match strategy {
                Strategy::Source => or_else(
                    first_satisfying(srcs, has_key_k(k)),
                    first_satisfying(tgts, has_key_k(k)),
                ),
                Strategy::Target => or_else(
                    first_satisfying(tgts, has_key_k(k)),
                    first_satisfying(srcs, has_key_k(k)),
                ),
            }->0;
            &&& merge_view(srcs, tgts, wl, strategy)[k] == if chosen.jar_path is Some {
                chosen
            } else {
                with_jar_path(chosen, inherited_jar_path(srcs, tgts, k, None))
            }
        }),
{
    lemma_first_with_key(srcs, k);
    lemma_first_with_key(tgts, k);
}

/// The whitelist acts on its own keys only: where it has no entry for a
/// key, the merge under that key is the same as with no whitelist at all.
pub proof fn lemma_whitelist_only_its_keys(
    srcs: Seq<CoordinatesView>,
    tgts: Seq<CoordinatesView>,
    wl: Seq<CoordinatesView>,
    strategy: Strategy,
    k: Seq<char>,
)
    requires
        whitelist_entry(wl, k) is None,
    ensures
        merged_entry(srcs, tgts, wl, strategy, k) == merged_entry(
            srcs,
            tgts,
            Seq::<CoordinatesView>::empty(),
            strategy,
            k,
        ),
        merge_view(srcs, tgts, wl, strategy).contains_key(k) == merge_view(
            srcs,
            tgts,
            Seq::<CoordinatesView>::empty(),
            strategy,
        ).contains_key(k),
{
    assert(whitelist_entry(Seq::<CoordinatesView>::empty(), k) is None);
}

/// A merged entry has a jar path wherever some candidate for its key that
/// it may take a jar from has one: any candidate where the strategy decided,
/// one of the whitelisted version where the whitelist decided.
pub proof fn lemma_merged_jar_path(
    srcs: Seq<CoordinatesView>,
    tgts: Seq<CoordinatesView>,
    wl: Seq<CoordinatesView>,
    strategy: Strategy,
    k: Seq<char>,
    c: CoordinatesView,
)
    requires
        merge_view(srcs, tgts, wl, strategy).contains_key(k),
        srcs.contains(c) || tgts.contains(c),
        key_of(c) == k,
        c.jar_path is Some,
        whitelist_entry(wl, k) matches Some(w) ==> c.version == w.version,
    ensures
        merge_view(srcs, tgts, wl, strategy)[k].jar_path is Some,
{
    let p = matches_candidate(k, deployable_version(wl, k), true);
    if srcs.contains(c) {
        let i = choose|i: int| 0 <= i < srcs.len() && srcs[i] == c;
        lemma_first_satisfying_exists(srcs, p, i);
    } else {
        let i = choose|i: int| 0 <= i < tgts.len() && tgts[i] == c;
        lemma_first_satisfying_exists(tgts, p, i);
    }
    lemma_first_satisfying_member(srcs, p);
    lemma_first_satisfying_member(tgts, p);
}

/// The earlier rule keeps every key of a source or a target, never blocks
/// one, and where the candidates' versions agree it takes the first
/// candidate (sources before targets), whatever the whitelist says.
pub proof fn lemma_pooled_keeps_every_key(
    srcs: Seq<CoordinatesView>,
    tgts: Seq<CoordinatesView>,
    wl: Seq<CoordinatesView>,
    k: Seq<char>,
)
    requires
        has_key(srcs, k) || has_key(tgts, k),
    ensures
        pooled_merge_view(srcs, tgts, wl).contains_key(k),
        pooled_entry(srcs, tgts, wl, k) is Some,
        key_of(pooled_merge_view(srcs, tgts, wl)[k]) == k,
        !has_version_conflict(srcs, tgts, k) ==> pooled_primary(srcs, tgts, wl, k) == first_candidate(
            srcs,
            tgts,
            k,
        ),
{
    lemma_first_with_key(srcs, k);
    lemma_first_with_key(tgts, k);
    lemma_first_satisfying_member(srcs, has_key_k(k));
    lemma_first_satisfying_member(tgts, has_key_k(k));
    match whitelist_entry(wl, k) {
        Some(w) => {
            lemma_first_satisfying_member(srcs, matches_candidate(k, Some(w.version), false));
            lemma_first_satisfying_member(tgts, matches_candidate(k, Some(w.version), false));
        },
        None => {},
    }
}

/// The merge key of coordinates is the beginning of their text form.
pub proof fn lemma_key_starts_text(c: CoordinatesView)
    ensures
        starts_with(coordinates_text(c), key_of(c)),
{
    let t = coordinates_text(c);
    let k = key_of(c);
    assert(t.take(k.len() as int) =~= k);
}

/// What is found first in a list is found first in any extension of it.
pub proof fn lemma_first_satisfying_extend<A>(a: Seq<A>, b: Seq<A>, p: spec_fn(A) -> bool)
    requires
        first_satisfying(a, p) is Some,
    ensures
        first_satisfying(a + b, p) == first_satisfying(a, p),
{
    lemma_first_satisfying(a, p);
    let x = first_satisfying(a, p)->0;
    let i = choose|i: int|
        0 <= i < a.len() && a[i] == x && p(x) && (forall|j: int| 0 <= j < i ==> !p(#[trigger] a[j]));
    assert forall|j: int| 0 <= j < i implies !p(#[trigger] (a + b)[j]) by {
        assert((a + b)[j] == a[j]);
    }
    assert((a + b)[i] == x);
    lemma_first_satisfying_at(a + b, p, i);
}

/// Only the first whitelist entry for a key counts: entries added after it
/// for the same key change nothing.
pub proof fn lemma_first_whitelist_entry_wins(
    srcs: Seq<CoordinatesView>,
    tgts: Seq<CoordinatesView>,
    wl: Seq<CoordinatesView>,
    extra: Seq<CoordinatesView>,
    strategy: Strategy,
    k: Seq<char>,
)
    requires
        has_key(wl, k),
    ensures
        merged_entry(srcs, tgts, wl + extra, strategy, k) == merged_entry(srcs, tgts, wl, strategy, k),
        is_blocked(srcs, tgts, wl + extra, k) == is_blocked(srcs, tgts, wl, k),
{
    lemma_first_with_key(wl, k);
    lemma_first_satisfying_extend(wl, extra, has_key_k(k));
}

/// Sources come before targets among the candidates of the whitelisted
/// version: where the first whitelist entry with key `k` is `wl[wi]` and the
/// first source with key `k` and that entry's version is `srcs[i]`, the
/// entry merged under `k` is `srcs[i]` (with its own jar path where it has
/// one), whatever the targets and the strategy.
pub proof fn lemma_whitelisted_source_comes_first(
    srcs: Seq<CoordinatesView>,
    tgts: Seq<CoordinatesView>,
    wl: Seq<CoordinatesView>,
    strategy: Strategy,
    k: Seq<char>,
    wi: int,
    i: int,
)
    requires
        0 <= wi < wl.len(),
        key_of(wl[wi]) == k,
        forall|j: int| 0 <= j < wi ==> key_of(#[trigger] wl[j]) != k,
        0 <= i < srcs.len(),
        key_of(srcs[i]) == k,
        srcs[i].version == wl[wi].version,
        forall|j: int|
            0 <= j < i ==> !(key_of(#[trigger] srcs[j]) == k && srcs[j].version == wl[wi].version),
    ensures
        merge_view(srcs, tgts, wl, strategy).contains_key(k),
        with_jar_path(merge_view(srcs, tgts, wl, strategy)[k], srcs[i].jar_path) == srcs[i],
        srcs[i].jar_path is Some ==> merge_view(srcs, tgts, wl, strategy)[k] == srcs[i],
{
    assert forall|j: int| 0 <= j < wi implies !has_key_k(k)(#[trigger] wl[j]) by {}
    lemma_first_satisfying_at(wl, has_key_k(k), wi);
    let p = matches_candidate(k, Some(wl[wi].version), false);
    assert forall|j: int| 0 <= j < i implies !p(#[trigger] srcs[j]) by {}
    lemma_first_satisfying_at(srcs, p, i);
    assert(has_key(srcs, k));
}

/// The earlier rule falls back on the first candidate: where the whitelist
/// has no entry for `k`, or no candidate has the version of its first entry
/// for `k`, the entry merged under `k` is the first source with key `k`
/// (apart from an inherited jar path).
pub proof fn lemma_pooled_falls_back_on_first_source(
    srcs: Seq<CoordinatesView>,
    tgts: Seq<CoordinatesView>,
    wl: Seq<CoordinatesView>,
    k: Seq<char>,
    i: int,
)
    requires
        forall|wi: int|
            (0 <= wi < wl.len() && key_of(wl[wi]) == k && forall|j: int|
                0 <= j < wi ==> key_of(#[trigger] wl[j]) != k) ==> {
                &&& forall|x: int|
                    0 <= x < srcs.len() && key_of(#[trigger] srcs[x]) == k ==> srcs[x].version
                        != wl[wi].version
                &&& forall|x: int|
                    0 <= x < tgts.len() && key_of(#[trigger] tgts[x]) == k ==> tgts[x].version
                        != wl[wi].version
            },
        0 <= i < srcs.len(),
        key_of(srcs[i]) == k,
        forall|j: int| 0 <= j < i ==> key_of(#[trigger] srcs[j]) != k,
    ensures
        pooled_merge_view(srcs, tgts, wl).contains_key(k),
        with_jar_path(pooled_merge_view(srcs, tgts, wl)[k], srcs[i].jar_path) == srcs[i],
        srcs[i].jar_path is Some ==> pooled_merge_view(srcs, tgts, wl)[k] == srcs[i],
{
    assert forall|j: int| 0 <= j < i implies !has_key_k(k)(#[trigger] srcs[j]) by {}
    lemma_first_satisfying_at(srcs, has_key_k(k), i);
    assert(has_key(srcs, k));
    lemma_pooled_no_whitelisted_candidate(srcs, tgts, wl, k);
}

/// The earlier rule, for a key that only targets have: where the whitelist
/// has no entry for `k`, or no candidate has the version of its first entry
/// for `k`, the entry merged under `k` is the first target with key `k`
/// (apart from an inherited jar path).
pub proof fn lemma_pooled_falls_back_on_first_target(
    srcs: Seq<CoordinatesView>,
    tgts: Seq<CoordinatesView>,
    wl: Seq<CoordinatesView>,
    k: Seq<char>,
    i: int,
)
    requires
        forall|wi: int|
            (0 <= wi < wl.len() && key_of(wl[wi]) == k && forall|j: int|
                0 <= j < wi ==> key_of(#[trigger] wl[j]) != k) ==> forall|x: int|
                0 <= x < tgts.len() && key_of(#[trigger] tgts[x]) == k ==> tgts[x].version
                    != wl[wi].version,
        forall|x: int| 0 <= x < srcs.len() ==> key_of(#[trigger] srcs[x]) != k,
        0 <= i < tgts.len(),
        key_of(tgts[i]) == k,
        forall|j: int| 0 <= j < i ==> key_of(#[trigger] tgts[j]) != k,
    ensures
        pooled_merge_view(srcs, tgts, wl).contains_key(k),
        with_jar_path(pooled_merge_view(srcs, tgts, wl)[k], tgts[i].jar_path) == tgts[i],
        tgts[i].jar_path is Some ==> pooled_merge_view(srcs, tgts, wl)[k] == tgts[i],
{
    assert forall|j: int| 0 <= j < i implies !has_key_k(k)(#[trigger] tgts[j]) by {}
    lemma_first_satisfying_at(tgts, has_key_k(k), i);
    lemma_first_satisfying(srcs, has_key_k(k));
    assert forall|x: int| 0 <= x < srcs.len() implies !has_key_k(k)(#[trigger] srcs[x]) by {}
    assert(has_key(tgts, k));
    lemma_pooled_no_whitelisted_candidate(srcs, tgts, wl, k);
}

/// Where no candidate has the version of the first whitelist entry for `k`
/// (or there is none), the earlier rule takes the first candidate.
proof fn lemma_pooled_no_whitelisted_candidate(
    srcs: Seq<CoordinatesView>,
    tgts: Seq<CoordinatesView>,
    wl: Seq<CoordinatesView>,
    k: Seq<char>,
)
    requires
        forall|wi: int|
            (0 <= wi < wl.len() && key_of(wl[wi]) == k && forall|j: int|
                0 <= j < wi ==> key_of(#[trigger] wl[j]) != k) ==> {
                &&& forall|x: int|
                    0 <= x < srcs.len() && key_of(#[trigger] srcs[x]) == k ==> srcs[x].version
                        != wl[wi].version
                &&& forall|x: int|
                    0 <= x < tgts.len() && key_of(#[trigger] tgts[x]) == k ==> tgts[x].version
                        != wl[wi].version
            },
    ensures
        pooled_primary(srcs, tgts, wl, k) == first_candidate(srcs, tgts, k),
        pooled_entry(srcs, tgts, wl, k) == match first_candidate(srcs, tgts, k) {
            Some(f) => Some(with_inherited_jar_path(f, srcs, tgts, k, None)),
            None => None,
        },
{
    lemma_first_satisfying(wl, has_key_k(k));
    match whitelist_entry(wl, k) {
        Some(w) => {
            let wi = choose|wi: int|
                0 <= wi < wl.len() && wl[wi] == w && has_key_k(k)(w) && (forall|j: int|
                    0 <= j < wi ==> !has_key_k(k)(#[trigger] wl[j]));
            assert(forall|j: int| 0 <= j < wi ==> key_of(#[trigger] wl[j]) != k) by {
                assert forall|j: int| 0 <= j < wi implies key_of(#[trigger] wl[j]) != k by {
                    assert(!has_key_k(k)(wl[j]));
                }
            }
            let pv = matches_candidate(k, Some(w.version), false);
            lemma_first_satisfying(srcs, pv);
            lemma_first_satisfying(tgts, pv);
            if first_satisfying(srcs, pv) is Some {
                let c = first_satisfying(srcs, pv)->0;
                let x = choose|x: int|
                    0 <= x < srcs.len() && srcs[x] == c && pv(c) && (forall|j: int|
                        0 <= j < x ==> !pv(#[trigger] srcs[j]));
                assert(key_of(srcs[x]) == k);
            }
            if first_satisfying(tgts, pv) is Some {
                let c = first_satisfying(tgts, pv)->0;
                let x = choose|x: int|
                    0 <= x < tgts.len() && tgts[x] == c && pv(c) && (forall|j: int|
                        0 <= j < x ==> !pv(#[trigger] tgts[j]));
                assert(key_of(tgts[x]) == k);
            }
        },
        None => {},
    }
}

} // verus!
