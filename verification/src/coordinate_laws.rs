//! What holds of coordinates, of reading `pom.properties`, and of the
//! jar-name rules on every input.
use vstd::prelude::*;

use crate::maven_coordinate::{
    artifact_id_in_name, coordinates_from_name, coordinates_from_text, coordinates_text,
    has_artifact_id, jar_coordinates, jar_stem, pom_coordinates, properties_coordinates,
    read_properties, CoordinatesView, JarError,
};
use crate::merge_laws::lemma_first_satisfying_member;
use crate::text::{
    dash_before_digit, first_satisfying, has_char, index_of, is_ascii_digit,
    lemma_first_index_below, lemma_first_index_below_at, lemma_first_satisfying,
    lemma_first_satisfying_at, lemma_split_on_nonempty, lines, split_on, trim, version_dash,
};

verus! {

/// A text without the separator is one piece.
pub proof fn lemma_split_on_no_sep(s: Seq<char>, sep: char)
    requires
        !has_char(s, sep),
    ensures
        split_on(s, sep) == seq![s],
    decreases s.len(),
{
    if s.len() > 0 {
        assert(!has_char(s.drop_last(), sep)) by {
            if has_char(s.drop_last(), sep) {
                let i = choose|i: int| 0 <= i < s.drop_last().len() && s.drop_last()[i] == sep;
                assert(s[i] == sep);
            }
        }
        lemma_split_on_no_sep(s.drop_last(), sep);
        assert(s[s.len() - 1] != sep);
        assert(s.drop_last().push(s.last()) =~= s);
    } else {
        assert(s =~= Seq::<char>::empty());
    }
}

/// Splitting `s`, a separator and `t` gives the pieces of `s` followed by
/// those of `t`.
pub proof fn lemma_split_on_concat(s: Seq<char>, sep: char, t: Seq<char>)
    ensures
        split_on(s + seq![sep] + t, sep) == split_on(s, sep) + split_on(t, sep),
    decreases t.len(),
{
    let whole = s + seq![sep] + t;
    if t.len() == 0 {
        assert(whole.drop_last() =~= s);
        assert(split_on(t, sep) =~= seq![Seq::<char>::empty()]);
        assert(split_on(whole, sep) =~= split_on(s, sep) + split_on(t, sep));
    } else {
        lemma_split_on_concat(s, sep, t.drop_last());
        assert(whole.drop_last() =~= s + seq![sep] + t.drop_last());
        crate::text::lemma_split_on_nonempty(t.drop_last(), sep);
        let a = split_on(s, sep);
        let b = split_on(t.drop_last(), sep);
        if t.last() == sep {
            assert((a + b).push(Seq::<char>::empty()) =~= a + b.push(Seq::<char>::empty()));
        } else {
            assert((a + b).update((a + b).len() - 1, (a + b).last().push(t.last())) =~= a + b.update(
                b.len() - 1,
                b.last().push(t.last()),
            ));
        }
    }
}

/// Coordinates with a version and without classifier or packaging, whose
/// parts hold no `:` (and which carry no jar path), are read back from their
/// text form unchanged.
pub proof fn lemma_text_form_round_trip(c: CoordinatesView)
    requires
        c.version is Some,
        c.classifier is None,
        c.packaging is None,
        c.jar_path is None,
        !has_char(c.artifact_id, ':'),
        !has_char(c.version->0, ':'),
        c.group_id matches Some(g) ==> !has_char(g, ':'),
    ensures
        coordinates_from_text(coordinates_text(c)) == Some(c),
{
    let a = c.artifact_id;
    let v = c.version->0;
    lemma_split_on_no_sep(a, ':');
    lemma_split_on_no_sep(v, ':');
    lemma_split_on_concat(a, ':', v);
    match c.group_id {
        Some(g) => {
            lemma_split_on_no_sep(g, ':');
            lemma_split_on_concat(g, ':', a + seq![':'] + v);
            assert(coordinates_text(c) =~= g + seq![':'] + (a + seq![':'] + v));
            assert(split_on(coordinates_text(c), ':') =~= seq![g, a, v]);
        },
        None => {
            assert(coordinates_text(c) =~= a + seq![':'] + v);
            assert(split_on(coordinates_text(c), ':') =~= seq![a, v]);
        },
    }
}

/// Every coordinates that the `pom.properties` texts of a jar give carry
/// that jar's path.
proof fn lemma_pom_coordinates_jar_path(texts: Seq<Seq<char>>, jar: Seq<char>)
    ensures
        forall|i: int|
            0 <= i < pom_coordinates(texts, jar).len() ==> (#[trigger] pom_coordinates(
                texts,
                jar,
            )[i]).jar_path == Some(jar),
    decreases texts.len(),
{
    if texts.len() > 0 {
        lemma_pom_coordinates_jar_path(texts.drop_last(), jar);
    }
}

/// Every coordinates read from a jar carry the jar's path.
pub proof fn lemma_jar_coordinates_carry_jar_path(jar: Seq<char>, texts: Seq<Seq<char>>)
    ensures
        jar_coordinates(jar, texts) matches Ok(cs) ==> forall|i: int|
            0 <= i < cs.len() ==> (#[trigger] cs[i]).jar_path == Some(jar),
{
    let cs = pom_coordinates(texts, jar);
    lemma_pom_coordinates_jar_path(texts, jar);
    match artifact_id_in_name(jar_stem(jar)) {
        Some(aid) => {
            lemma_first_satisfying_member(cs, has_artifact_id(aid));
        },
        None => {},
    }
}

/// Reading the coordinates of a jar yields at least one, unless its name
/// does not end in `.jar`; and where its texts give several, the result is
/// one of them or all of them.
pub proof fn lemma_jar_coordinates_from_texts(jar: Seq<char>, texts: Seq<Seq<char>>)
    ensures
        jar_coordinates(jar, texts) matches Ok(cs) ==> cs.len() >= 1,
        pom_coordinates(texts, jar).len() > 1 ==> (jar_coordinates(jar, texts) matches Ok(cs) && (
        cs == pom_coordinates(texts, jar) || (cs.len() == 1 && pom_coordinates(
            texts,
            jar,
        ).contains(cs[0])))),
{
    let cs = pom_coordinates(texts, jar);
    match artifact_id_in_name(jar_stem(jar)) {
        Some(aid) => {
            lemma_first_satisfying_member(cs, has_artifact_id(aid));
        },
        None => {},
    }
}

/// Where a version is guessed from a jar's file name, the artifact id, a
/// `-` and the version make up the name again, the version starts with a
/// digit, and the artifact id holds no `-` that a digit follows.
pub proof fn lemma_name_split_rebuilds(stem: Seq<char>, jar: Seq<char>)
    ensures
        ({
            let c = coordinates_from_name(stem, jar);
            &&& c.jar_path == Some(jar)
            &&& c.group_id is None
            &&& c.version matches Some(v) ==> {
                &&& c.artifact_id + seq!['-'] + v == stem
                &&& v.len() > 0 && is_ascii_digit(v[0])
                &&& artifact_id_in_name(stem) == Some(c.artifact_id)
                &&& version_dash(c.artifact_id) is None
            }
            &&& c.version is None ==> c.artifact_id == stem
        }),
{
    let p = dash_before_digit(stem);
    lemma_first_index_below(p, stem.len() as int);
    match version_dash(stem) {
        Some(m) => {
            let a = stem.take(m);
            let v = stem.skip(m + 1);
            assert(a + seq!['-'] + v =~= stem);
            assert(v[0] == stem[m + 1]);
            let q = dash_before_digit(a);
            lemma_first_index_below(q, a.len() as int);
            if version_dash(a) is Some {
                let j = version_dash(a)->0;
                assert(q(j));
                assert(a[j] == stem[j] && a[j + 1] == stem[j + 1]);
                assert(p(j));
            }
        },
        None => {},
    }
}

/// The trimmed value of a `key=value` line whose trimmed key (the text
/// before its first `=`) is `key`.
pub open spec fn property_value(line: Seq<char>, key: Seq<char>) -> Option<Seq<char>> {
    match index_of(line, '=') {
        Some(i) => if trim(line.take(i)) == key {
            Some(trim(line.skip(i + 1)))
        } else {
            None
        },
        None => None,
    }
}

/// The value that the last line of `ls` with key `key` gives.
pub open spec fn last_property(ls: Seq<Seq<char>>, key: Seq<char>) -> Option<Seq<char>>
    decreases ls.len(),
{
    if ls.len() == 0 {
        None
    } else {
        match property_value(ls.last(), key) {
            Some(v) => Some(v),
            None => last_property(ls.drop_last(), key),
        }
    }
}

/// The value of an optional text part, the empty text where it is missing.
pub open spec fn or_empty(o: Option<Seq<char>>) -> Seq<char> {
    match o {
        Some(v) => v,
        None => Seq::<char>::empty(),
    }
}

/// Reading `pom.properties` lines, each part is the trimmed value of the
/// last line with that part's key; all other lines are ignored.
pub proof fn lemma_last_line_per_key_wins(ls: Seq<Seq<char>>)
    ensures
        read_properties(ls).group_id == last_property(ls, "groupId"@),
        read_properties(ls).artifact_id == or_empty(last_property(ls, "artifactId"@)),
        read_properties(ls).version == last_property(ls, "version"@),
        read_properties(ls).classifier == last_property(ls, "classifier"@),
        read_properties(ls).packaging == last_property(ls, "packaging"@),
        read_properties(ls).jar_path is None,
    decreases ls.len(),
{
    reveal_strlit("groupId");
    reveal_strlit("artifactId");
    reveal_strlit("version");
    reveal_strlit("classifier");
    reveal_strlit("packaging");
    assert("groupId"@ != "artifactId"@ && "groupId"@ != "classifier"@ && "groupId"@
        != "packaging"@ && "artifactId"@ != "version"@ && "artifactId"@ != "packaging"@
        && "version"@ != "classifier"@ && "version"@ != "packaging"@ && "classifier"@
        != "packaging"@) by {
        assert("groupId"@.len() != "artifactId"@.len());
        assert("groupId"@.len() != "classifier"@.len());
        assert("groupId"@.len() != "packaging"@.len());
        assert("artifactId"@.len() != "version"@.len());
        assert("artifactId"@.len() != "packaging"@.len());
        assert("version"@.len() != "classifier"@.len());
        assert("version"@.len() != "packaging"@.len());
        assert("classifier"@.len() != "packaging"@.len());
    }
    assert("groupId"@ != "version"@) by {
        assert("groupId"@[0] != "version"@[0]);
    }
    assert("artifactId"@ != "classifier"@) by {
        assert("artifactId"@[0] != "classifier"@[0]);
    }
    if ls.len() > 0 {
        lemma_last_line_per_key_wins(ls.drop_last());
    }
}

/// A `pom.properties` text gives coordinates exactly when its last line with
/// the key `artifactId` has a non-empty value; they then hold, for each part,
/// the value of the last line with that part's key, and no jar path.
pub proof fn lemma_properties_coordinates(content: Seq<char>)
    ensures
        ({
            let ls = lines(content);
            &&& properties_coordinates(content) is None <==> or_empty(
                last_property(ls, "artifactId"@),
            ).len() == 0
            &&& properties_coordinates(content) matches Some(c) ==> {
                &&& c.group_id == last_property(ls, "groupId"@)
                &&& c.artifact_id == or_empty(last_property(ls, "artifactId"@))
                &&& c.version == last_property(ls, "version"@)
                &&& c.classifier == last_property(ls, "classifier"@)
                &&& c.packaging == last_property(ls, "packaging"@)
                &&& c.jar_path is None
            }
        }),
{
    lemma_last_line_per_key_wins(lines(content));
}


/// Of the coordinates that several `pom.properties` texts of a jar give,
/// reading the jar keeps exactly one where the artifact id that its file
/// name gives is that of one of them: one with that artifact id and the
/// jar's path, and the first record with it.
pub proof fn lemma_named_artifact_is_kept(jar: Seq<char>, texts: Seq<Seq<char>>, aid: Seq<char>, i: int)
    requires
        pom_coordinates(texts, jar).len() > 1,
        artifact_id_in_name(jar_stem(jar)) == Some(aid),
        0 <= i < pom_coordinates(texts, jar).len(),
        pom_coordinates(texts, jar)[i].artifact_id == aid,
    ensures
        jar_coordinates(jar, texts) matches Ok(r) && r.len() == 1 && r[0].artifact_id == aid
            && r[0].jar_path == Some(jar) && pom_coordinates(texts, jar).contains(r[0]),
        (forall|j: int| 0 <= j < i ==> (#[trigger] pom_coordinates(texts, jar)[j]).artifact_id != aid)
            ==> jar_coordinates(jar, texts) == Ok::<Seq<CoordinatesView>, JarError>(
            seq![pom_coordinates(texts, jar)[i]],
        ),
{
    let cs = pom_coordinates(texts, jar);
    let p = has_artifact_id(aid);
    lemma_pom_coordinates_jar_path(texts, jar);
    lemma_first_satisfying(cs, p);
    assert(p(cs[i]));
    if first_satisfying(cs, p) is None {
        assert(!p(cs[i]));
    }
    let k = choose|k: int|
        0 <= k < cs.len() && cs[k] == first_satisfying(cs, p)->0 && p(first_satisfying(cs, p)->0)
            && (forall|j: int| 0 <= j < k ==> !p(#[trigger] cs[j]));
    assert(cs.contains(cs[k]));
    if forall|j: int| 0 <= j < i ==> (#[trigger] cs[j]).artifact_id != aid {
        assert forall|j: int| 0 <= j < i implies !p(#[trigger] cs[j]) by {
            assert(cs[j].artifact_id != aid);
        }
        lemma_first_satisfying_at(cs, p, i);
    }
}

/// A jar name made of a non-empty artifact id in which no `-` is followed by
/// a digit, a `-`, a digit `d` and any rest is split at that `-`: the
/// artifact id is guessed as the text before it and the version as `d`
/// followed by the rest, and the artifact id the name gives is the same.
pub proof fn lemma_name_splits_before_first_digit(
    a: Seq<char>,
    d: char,
    rest: Seq<char>,
    jar: Seq<char>,
)
    requires
        a.len() > 0,
        '0' <= d <= '9',
        forall|j: int|
            #![trigger a[j]]
            0 <= j && j + 1 < a.len() ==> !(a[j] == '-' && '0' <= a[j + 1] <= '9'),
    ensures
        ({
            let stem = a + seq!['-'] + (seq![d] + rest);
            let c = coordinates_from_name(stem, jar);
            &&& c.artifact_id == a
            &&& c.version == Some(seq![d] + rest)
            &&& c.group_id is None
            &&& c.jar_path == Some(jar)
            &&& artifact_id_in_name(stem) == Some(a)
        }),
{
    let t = seq![d] + rest;
    let stem = a + seq!['-'] + t;
    let m = a.len() as int;
    let p = dash_before_digit(stem);
    assert(stem[m] == '-' && stem[m + 1] == d);
    assert(p(m));
    assert forall|j: int| 0 <= j < m implies !#[trigger] p(j) by {
        assert(stem[j] == a[j]);
        if j + 1 < m {
            assert(stem[j + 1] == a[j + 1]);
        } else {
            assert(stem[j + 1] == '-');
        }
    }
    lemma_first_index_below_at(p, stem.len() as int, m);
    lemma_split_on_concat(a, '-', t);
    lemma_split_on_nonempty(a, '-');
    lemma_split_on_nonempty(t, '-');
    assert(stem.take(m) =~= a);
    assert(stem.skip(m + 1) =~= t);
}

/// Text whose `:`-separated parts number at least four is read with the
/// fourth part as classifier (and the fifth, where there is one, as
/// packaging), after group id, artifact id and version.
pub proof fn lemma_fourth_part_is_classifier(s: Seq<char>)
    ensures
        ({
            let parts = split_on(s, ':');
            &&& parts.len() >= 4 ==> (coordinates_from_text(s) matches Some(c) && c.group_id == Some(
                parts[0],
            ) && c.artifact_id == parts[1] && c.version == Some(parts[2]) && c.classifier == Some(
                parts[3],
            ))
            &&& parts.len() == 4 ==> (coordinates_from_text(s) matches Some(c) && c.packaging is None)
            &&& parts.len() >= 5 ==> (coordinates_from_text(s) matches Some(c) && c.packaging == Some(
                parts[4],
            ))
        }),
{
}

/// `g:a:v:c`, with no `:` inside any part, is read as group id `g`,
/// artifact id `a`, version `v` and classifier `c`, without packaging.
pub proof fn lemma_four_part_text(g: Seq<char>, a: Seq<char>, v: Seq<char>, c: Seq<char>)
    requires
        !has_char(g, ':'),
        !has_char(a, ':'),
        !has_char(v, ':'),
        !has_char(c, ':'),
    ensures
        coordinates_from_text(g + seq![':'] + a + seq![':'] + v + seq![':'] + c) == Some(
            CoordinatesView {
                group_id: Some(g),
                artifact_id: a,
                version: Some(v),
                classifier: Some(c),
                packaging: None,
                jar_path: None,
            },
        ),
{
    lemma_split_on_no_sep(g, ':');
    lemma_split_on_no_sep(a, ':');
    lemma_split_on_no_sep(v, ':');
    lemma_split_on_no_sep(c, ':');
    lemma_split_on_concat(g, ':', a);
    lemma_split_on_concat(g + seq![':'] + a, ':', v);
    lemma_split_on_concat(g + seq![':'] + a + seq![':'] + v, ':', c);
    assert(split_on(g + seq![':'] + a + seq![':'] + v + seq![':'] + c, ':') =~= seq![g, a, v, c]);
}

} // verus!
