//! Maven coordinates: the record, its text form, and how it is read from a
//! `pom.properties` file.
use vstd::prelude::*;

use crate::text::{
    chars_of, ends_with, find_char_in, find_version_dash, first_satisfying, index_of,
    lemma_first_satisfying, lemma_first_satisfying_at, lemma_split_on_nonempty, lines,
    range_equals, split_on, split_ranges, starts_with, strip_carriage_return,
    strip_suffix_or_keep, substring, text_ends_with, text_starts_with, trim, trim_range,
    version_dash,
};

verus! {

/// The coordinates of one artifact, and the jar it was found in.
#[derive(Debug, Clone, PartialEq, Eq)]
pub struct MavenCoordinates {
    pub group_id: Option<String>,
    pub artifact_id: String,
    pub version: Option<String>,
    pub classifier: Option<String>,
    pub packaging: Option<String>,
    pub jar_path: Option<String>,
}

/// The coordinates with each text taken as its sequence of characters.
pub struct CoordinatesView {
    pub group_id: Option<Seq<char>>,
    pub artifact_id: Seq<char>,
    pub version: Option<Seq<char>>,
    pub classifier: Option<Seq<char>>,
    pub packaging: Option<Seq<char>>,
    pub jar_path: Option<Seq<char>>,
}

/// An optional text as an optional character sequence.
pub open spec fn opt_view(o: Option<String>) -> Option<Seq<char>> {
    match o {
        Some(s) => Some(s@),
        None => None,
    }
}

impl View for MavenCoordinates {
    type V = CoordinatesView;

    open spec fn view(&self) -> CoordinatesView {
        CoordinatesView {
            group_id: opt_view(self.group_id),
            artifact_id: self.artifact_id@,
            version: opt_view(self.version),
            classifier: opt_view(self.classifier),
            packaging: opt_view(self.packaging),
            jar_path: opt_view(self.jar_path),
        }
    }
}

/// The views of a sequence of coordinates.
pub open spec fn views_of(v: Seq<MavenCoordinates>) -> Seq<CoordinatesView> {
    v.map_values(|c: MavenCoordinates| c@)
}

/// The views of a sequence of texts.
pub open spec fn texts_of(v: Seq<String>) -> Seq<Seq<char>> {
    v.map_values(|s: String| s@)
}

/// `c` with its jar path set to `path`.
pub open spec fn with_jar_path(c: CoordinatesView, path: Option<Seq<char>>) -> CoordinatesView {
    CoordinatesView {
        group_id: c.group_id,
        artifact_id: c.artifact_id,
        version: c.version,
        classifier: c.classifier,
        packaging: c.packaging,
        jar_path: path,
    }
}

/// `prefix` followed by the text, or nothing where there is no text.
pub open spec fn optional_part(prefix: Seq<char>, o: Option<Seq<char>>, suffix: Seq<char>) -> Seq<
    char,
> {
    match o {
        Some(t) => prefix + t + suffix,
        None => Seq::<char>::empty(),
    }
}

/// The text form `[groupId:]artifactId[:version][-classifier][.packaging]`.
pub open spec fn coordinates_text(c: CoordinatesView) -> Seq<char> {
    optional_part(Seq::<char>::empty(), c.group_id, seq![':']) + c.artifact_id + optional_part(
        seq![':'],
        c.version,
        Seq::<char>::empty(),
    ) + optional_part(seq!['-'], c.classifier, Seq::<char>::empty()) + optional_part(
        seq!['.'],
        c.packaging,
        Seq::<char>::empty(),
    )
}

/// An optional text copied.
pub fn clone_opt(o: &Option<String>) -> (r: Option<String>)
    ensures
        r == *o,
{
    match o {
        Some(s) => Some(s.clone()),
        None => None,
    }
}

impl MavenCoordinates {
    /// Coordinates with the given parts and no jar path.
    pub fn new(
        group_id: Option<String>,
        artifact_id: String,
        version: Option<String>,
        classifier: Option<String>,
        packaging: Option<String>,
    ) -> (r: Self)
        ensures
            r.group_id == group_id,
            r.artifact_id == artifact_id,
            r.version == version,
            r.classifier == classifier,
            r.packaging == packaging,
            r.jar_path is None,
    {
        MavenCoordinates { group_id, artifact_id, version, classifier, packaging, jar_path: None }
    }

    /// A copy of these coordinates.
    pub fn duplicate(&self) -> (r: Self)
        ensures
            r == *self,
    {
        MavenCoordinates {
            group_id: clone_opt(&self.group_id),
            artifact_id: self.artifact_id.clone(),
            version: clone_opt(&self.version),
            classifier: clone_opt(&self.classifier),
            packaging: clone_opt(&self.packaging),
            jar_path: clone_opt(&self.jar_path),
        }
    }

    /// The text form `[groupId:]artifactId[:version][-classifier][.packaging]`.
    pub fn to_string(&self) -> (r: String)
        ensures
            r@ == coordinates_text(self@),
    {
        proof {
            reveal_strlit(":");
            reveal_strlit("-");
            reveal_strlit(".");
        }
        let mut result = String::new();
        if let Some(group_id) = &self.group_id {
            result.append(group_id.as_str());
            result.append(":");
        }
        result.append(self.artifact_id.as_str());
        if let Some(version) = &self.version {
            result.append(":");
            result.append(version.as_str());
        }
        if let Some(classifier) = &self.classifier {
            result.append("-");
            result.append(classifier.as_str());
        }
        if let Some(packaging) = &self.packaging {
            result.append(".");
            result.append(packaging.as_str());
        }
        assert(result@ =~= coordinates_text(self@));
        result
    }
}

/// Coordinates with no part set.
pub open spec fn blank_coordinates() -> CoordinatesView {
    CoordinatesView {
        group_id: None,
        artifact_id: Seq::<char>::empty(),
        version: None,
        classifier: None,
        packaging: None,
        jar_path: None,
    }
}

/// The state after reading one line of a `pom.properties` file: a line
/// `key=value` (split at its first `=`, both sides trimmed) sets the part
/// that `key` names; any other line changes nothing.
pub open spec fn assign_property(st: CoordinatesView, line: Seq<char>) -> CoordinatesView {
    match index_of(line, '=') {
        Some(i) => {
            let key = trim(line.take(i));
            let value = trim(line.skip(i + 1));
            if key == "groupId"@ {
                CoordinatesView { group_id: Some(value), ..st }
            } else if key == "artifactId"@ {
                CoordinatesView { artifact_id: value, ..st }
            } else if key == "version"@ {
                CoordinatesView { version: Some(value), ..st }
            } else if key == "classifier"@ {
                CoordinatesView { classifier: Some(value), ..st }
            } else if key == "packaging"@ {
                CoordinatesView { packaging: Some(value), ..st }
            } else {
                st
            }
        },
        None => st,
    }
}

/// The state after reading `ls` in order, from blank coordinates.
pub open spec fn read_properties(ls: Seq<Seq<char>>) -> CoordinatesView
    decreases ls.len(),
{
    if ls.len() == 0 {
        blank_coordinates()
    } else {
        assign_property(read_properties(ls.drop_last()), ls.last())
    }
}

/// The coordinates that a `pom.properties` text gives: none where it names
/// no artifact.
pub open spec fn properties_coordinates(content: Seq<char>) -> Option<CoordinatesView> {
    let st = read_properties(lines(content));
    if st.artifact_id.len() == 0 {
        None
    } else {
        Some(st)
    }
}

/// The part that one property line sets, applied to the parts read so far.
fn apply_property_line(
    content: &str,
    v: &Vec<char>,
    from: usize,
    to: usize,
    words: &Vec<Vec<char>>,
    st: &mut MavenCoordinates,
)
    requires
        from <= to <= v@.len(),
        v@ == content@,
        words@.len() == 5,
        words@[0]@ == "groupId"@,
        words@[1]@ == "artifactId"@,
        words@[2]@ == "version"@,
        words@[3]@ == "classifier"@,
        words@[4]@ == "packaging"@,
    ensures
        final(st)@ == assign_property(old(st)@, v@.subrange(from as int, to as int)),
{
    let ghost line = v@.subrange(from as int, to as int);
    match find_char_in(v, from, to, '=') {
        Some(i) => {
            let (ka, kb) = trim_range(v, from, from + i);
            let (va, vb) = trim_range(v, from + i + 1, to);
            assert(line.take(i as int) =~= v@.subrange(from as int, from + i));
            assert(line.skip(i + 1) =~= v@.subrange(from + i + 1, to as int));
            if range_equals(v, ka, kb, &words[0]) {
                st.group_id = Some(substring(content, va, vb));
            } else if range_equals(v, ka, kb, &words[1]) {
                st.artifact_id = substring(content, va, vb);
            } else if range_equals(v, ka, kb, &words[2]) {
                st.version = Some(substring(content, va, vb));
            } else if range_equals(v, ka, kb, &words[3]) {
                st.classifier = Some(substring(content, va, vb));
            } else if range_equals(v, ka, kb, &words[4]) {
                st.packaging = Some(substring(content, va, vb));
            }
        },
        None => {},
    }
}

/// Reads the coordinates from the text of a `pom.properties` file; `None`
/// where it names no artifact.
pub fn parse_properties(content: &str) -> (r: Option<MavenCoordinates>)
    ensures
        match r {
            Some(c) => properties_coordinates(content@) == Some(c@),
            None => properties_coordinates(content@) is None,
        },
{
    let v = chars_of(content);
    let mut words: Vec<Vec<char>> = Vec::new();
    words.push(chars_of("groupId"));
    words.push(chars_of("artifactId"));
    words.push(chars_of("version"));
    words.push(chars_of("classifier"));
    words.push(chars_of("packaging"));
    let mut st = MavenCoordinates {
        group_id: None,
        artifact_id: String::new(),
        version: None,
        classifier: None,
        packaging: None,
        jar_path: None,
    };
    let pieces = split_ranges(&v, '\n');
    let ghost all_pieces = split_on(v@, '\n');
    let ghost ls = lines(v@);
    proof {
        lemma_split_on_nonempty(v@, '\n');
        assert(st@ =~= blank_coordinates());
        assert(ls.take(0) =~= Seq::<Seq<char>>::empty());
    }
    let n = pieces.len();
    let mut k: usize = 0;
    while k + 1 < n
        invariant
            n == pieces@.len() == all_pieces.len() >= 1,
            all_pieces == split_on(v@, '\n'),
            ls == lines(v@),
            v@ == content@,
            k + 1 <= n,
            words@.len() == 5,
            words@[0]@ == "groupId"@,
            words@[1]@ == "artifactId"@,
            words@[2]@ == "version"@,
            words@[3]@ == "classifier"@,
            words@[4]@ == "packaging"@,
            forall|j: int|
                0 <= j < pieces@.len() ==> {
                    &&& (#[trigger] pieces@[j]).0 <= pieces@[j].1 <= v@.len()
                    &&& v@.subrange(pieces@[j].0 as int, pieces@[j].1 as int) == all_pieces[j]
                },
            st@ == read_properties(ls.take(k as int)),
        decreases n - k,
    {
        let (a, b0) = pieces[k];
        let b = if b0 > a && v[b0 - 1] == '\r' {
            b0 - 1
        } else {
            b0
        };
        proof {
            let piece = all_pieces[k as int];
            assert(ls[k as int] == strip_carriage_return(piece));
            if b0 > a && v@[b0 - 1] == '\r' {
                assert(piece.drop_last() =~= v@.subrange(a as int, b as int));
            }
            assert(v@.subrange(a as int, b as int) == ls[k as int]);
            assert(ls.take(k + 1).drop_last() =~= ls.take(k as int));
        }
        apply_property_line(content, &v, a, b, &words, &mut st);
        k = k + 1;
    }
    let (a, b) = pieces[n - 1];
    if a < b {
        apply_property_line(content, &v, a, b, &words, &mut st);
        proof {
            assert(ls.drop_last() =~= ls.take((n - 1) as int));
            assert(ls =~= ls.take(n as int));
        }
    } else {
        proof {
            assert(ls =~= ls.take((n - 1) as int));
        }
    }
    if st.artifact_id.as_str().is_empty() {
        return None;
    }
    Some(st)
}

/// The artifact id that a jar's file name (without `.jar`) gives: the
/// characters before the first `-` that a digit follows.
pub open spec fn artifact_id_in_name(stem: Seq<char>) -> Option<Seq<char>> {
    match version_dash(stem) {
        Some(m) => Some(stem.take(m)),
        None => None,
    }
}

/// The artifact id in a jar's file name (without `.jar`): the characters
/// before the first `-` that a digit follows.
pub fn extract_artifact_id_from_filename(file_stem: &str) -> (r: Option<String>)
    ensures
        opt_view(r) == artifact_id_in_name(file_stem@),
{
    let chars = chars_of(file_stem);
    match find_version_dash(&chars) {
        Some(m) => Some(substring(file_stem, 0, m)),
        None => None,
    }
}

/// The coordinates that the text `s` names, in the form
/// `artifactId:version` or `groupId:artifactId:version[:classifier[:packaging]]`;
/// none where it holds no `:`.
pub open spec fn coordinates_from_text(s: Seq<char>) -> Option<CoordinatesView> {
    let parts = split_on(s, ':');
    if parts.len() < 2 {
        None
    } else {
        Some(
            CoordinatesView {
                group_id: if parts.len() == 2 {
                    None
                } else {
                    Some(parts[0])
                },
                artifact_id: if parts.len() == 2 {
                    parts[0]
                } else {
                    parts[1]
                },
                version: Some(
                    if parts.len() == 2 {
                        parts[1]
                    } else {
                        parts[2]
                    },
                ),
                classifier: if parts.len() > 3 {
                    Some(parts[3])
                } else {
                    None
                },
                packaging: if parts.len() > 4 {
                    Some(parts[4])
                } else {
                    None
                },
                jar_path: None,
            },
        )
    }
}

/// Reads coordinates from their `:`-separated text form:
/// `artifactId:version` or `groupId:artifactId:version[:classifier[:packaging]]`
/// (parts after the fifth are ignored).
pub fn parse_coordinates(s: &str) -> (r: Result<MavenCoordinates, String>)
    ensures
        match r {
            Ok(c) => coordinates_from_text(s@) == Some(c@),
            Err(e) => coordinates_from_text(s@) is None && e@ == "Invalid Maven coordinates"@,
        },
{
    let v = chars_of(s);
    let parts = split_ranges(&v, ':');
    let ghost ps = split_on(v@, ':');
    if parts.len() < 2 {
        return Err("Invalid Maven coordinates".to_owned());
    }
    let (group_id, artifact_id, version) = if parts.len() == 2 {
        (None, substring(s, parts[0].0, parts[0].1), Some(substring(s, parts[1].0, parts[1].1)))
    } else {
        (
            Some(substring(s, parts[0].0, parts[0].1)),
            substring(s, parts[1].0, parts[1].1),
            Some(substring(s, parts[2].0, parts[2].1)),
        )
    };
    let classifier = if parts.len() > 3 {
        Some(substring(s, parts[3].0, parts[3].1))
    } else {
        None
    };
    let packaging = if parts.len() > 4 {
        Some(substring(s, parts[4].0, parts[4].1))
    } else {
        None
    };
    let r = MavenCoordinates { group_id, artifact_id, version, classifier, packaging, jar_path: None };
    assert(coordinates_from_text(s@) == Some(r@));
    Ok(r)
}

impl std::str::FromStr for MavenCoordinates {
    type Err = String;

    fn from_str(s: &str) -> (r: Result<Self, Self::Err>)
        ensures
            match r {
                Ok(c) => coordinates_from_text(s@) == Some(c@),
                Err(e) => coordinates_from_text(s@) is None && e@ == "Invalid Maven coordinates"@,
            },
    {
        parse_coordinates(s)
    }
}

/// Why a jar's coordinates cannot be given.
#[derive(Debug, PartialEq, Eq, Structural)]
pub enum JarError {
    /// The file's name does not end in `.jar`.
    NotAJarFile,
}

impl JarError {
    /// The message that describes the error.
    pub fn message(&self) -> (r: String)
        ensures
            r@ == "Not a JAR file"@,
    {
        match self {
            JarError::NotAJarFile => "Not a JAR file".to_owned(),
        }
    }
}

/// The coordinates that the `pom.properties` texts of a jar give, in order,
/// each with the jar's path.
pub open spec fn pom_coordinates(texts: Seq<Seq<char>>, jar: Seq<char>) -> Seq<CoordinatesView>
    decreases texts.len(),
{
    if texts.len() == 0 {
        Seq::<CoordinatesView>::empty()
    } else {
        let rest = pom_coordinates(texts.drop_last(), jar);
        match properties_coordinates(texts.last()) {
            Some(c) => rest.push(with_jar_path(c, Some(jar))),
            None => rest,
        }
    }
}

/// The file name in a path: the text after its last `/`.
pub open spec fn path_file_name(path: Seq<char>) -> Seq<char> {
    split_on(path, '/').last()
}

/// A jar's file name without `.jar`.
pub open spec fn jar_stem(path: Seq<char>) -> Seq<char> {
    strip_suffix_or_keep(path_file_name(path), ".jar"@)
}

/// The coordinates whose artifact id is `aid`.
pub open spec fn has_artifact_id(aid: Seq<char>) -> spec_fn(CoordinatesView) -> bool {
    |c: CoordinatesView| c.artifact_id == aid
}

/// Of the coordinates of a jar that bundles several artifacts, the one that
/// its file name names (the first with that artifact id), or all of them
/// where the name names none of them.
pub open spec fn main_coordinates(cs: Seq<CoordinatesView>, stem: Seq<char>) -> Seq<
    CoordinatesView,
> {
    match artifact_id_in_name(stem) {
        Some(aid) => match first_satisfying(cs, has_artifact_id(aid)) {
            Some(c) => seq![c],
            None => cs,
        },
        None => cs,
    }
}

/// Coordinates that hold only an artifact id and the jar's path.
pub open spec fn name_only(artifact_id: Seq<char>, jar: Seq<char>) -> CoordinatesView {
    CoordinatesView {
        group_id: None,
        artifact_id,
        version: None,
        classifier: None,
        packaging: None,
        jar_path: Some(jar),
    }
}

/// The coordinates guessed from a jar's file name (without `.jar`): where a
/// `-` followed by a digit stands after the first character, the text before
/// it is the artifact id and the text after it the version (`zstd-jni-1.5.6-3`
/// gives `zstd-jni` and `1.5.6-3`); else the whole name is the artifact id.
pub open spec fn coordinates_from_name(stem: Seq<char>, jar: Seq<char>) -> CoordinatesView {
    if split_on(stem, '-').len() < 2 {
        name_only(stem, jar)
    } else {
        match version_dash(stem) {
            Some(m) => if m > 0 {
                CoordinatesView {
                    group_id: None,
                    artifact_id: stem.take(m),
                    version: Some(stem.skip(m + 1)),
                    classifier: None,
                    packaging: None,
                    jar_path: Some(jar),
                }
            } else {
                name_only(stem, jar)
            },
            None => name_only(stem, jar),
        }
    }
}

/// The coordinates of the jar at `jar` whose `pom.properties` texts are
/// `texts`: those that the texts give (narrowed to the one the file name
/// names, where there are several); where the texts give none, the ones
/// guessed from the file name, which must end in `.jar`.
pub open spec fn jar_coordinates(jar: Seq<char>, texts: Seq<Seq<char>>) -> Result<
    Seq<CoordinatesView>,
    JarError,
> {
    let cs = pom_coordinates(texts, jar);
    if cs.len() > 1 {
        Ok(main_coordinates(cs, jar_stem(jar)))
    } else if cs.len() == 1 {
        Ok(cs)
    } else if !ends_with(path_file_name(jar), ".jar"@) {
        Err(JarError::NotAJarFile)
    } else {
        Ok(seq![coordinates_from_name(jar_stem(jar), jar)])
    }
}

/// The file name in a path: the text after its last `/`.
pub fn file_name_of(path: &str) -> (r: String)
    ensures
        r@ == path_file_name(path@),
{
    let v = chars_of(path);
    let parts = split_ranges(&v, '/');
    proof {
        lemma_split_on_nonempty(v@, '/');
    }
    let (a, b) = parts[parts.len() - 1];
    substring(path, a, b)
}

/// A jar's file name without `.jar` (the name itself where it does not end
/// in `.jar`).
pub fn stem_of(name: &str) -> (r: String)
    ensures
        r@ == strip_suffix_or_keep(name@, ".jar"@),
{
    proof {
        reveal_strlit(".jar");
    }
    if text_ends_with(name, ".jar") {
        let n = chars_of(name).len();
        substring(name, 0, n - 4)
    } else {
        name.to_owned()
    }
}

/// Whether a file name (or path) names a jar: it ends in `.jar`.
pub fn is_jar_file_name(name: &str) -> (r: bool)
    ensures
        r == ends_with(name@, ".jar"@),
{
    text_ends_with(name, ".jar")
}

/// Whether an entry of a jar is Maven's `pom.properties` record: its name
/// starts with `META-INF/maven/` and ends with `pom.properties`.
pub fn is_pom_properties_entry(name: &str) -> (r: bool)
    ensures
        r == (starts_with(name@, "META-INF/maven/"@) && ends_with(name@, "pom.properties"@)),
{
    text_starts_with(name, "META-INF/maven/") && text_ends_with(name, "pom.properties")
}

/// The coordinates guessed from a jar's file name (without `.jar`).
pub fn from_file_stem(stem: &str, jar: &str) -> (r: MavenCoordinates)
    ensures
        r@ == coordinates_from_name(stem@, jar@),
{
    let chars = chars_of(stem);
    let dashes = split_ranges(&chars, '-');
    if dashes.len() < 2 {
        let mut c = MavenCoordinates::new(None, stem.to_owned(), None, None, None);
        c.jar_path = Some(jar.to_owned());
        return c;
    }
    match find_version_dash(&chars) {
        Some(version_pos) if version_pos > 0 => {
            let n = chars.len();
            let version = substring(stem, version_pos + 1, n);
            let artifact_id = substring(stem, 0, version_pos);
            let mut c = MavenCoordinates::new(None, artifact_id, Some(version), None, None);
            c.jar_path = Some(jar.to_owned());
            c
        },
        _ => {
            let mut c = MavenCoordinates::new(None, stem.to_owned(), None, None, None);
            c.jar_path = Some(jar.to_owned());
            c
        },
    }
}

impl MavenCoordinates {
    /// The coordinates of the jar at `abs_jar_path`, given the texts of its
    /// `pom.properties` entries in the order the jar holds them.
    pub fn from_jar_entries(abs_jar_path: &str, pom_properties: &Vec<String>) -> (r: Result<
        Vec<MavenCoordinates>,
        JarError,
    >)
        ensures
            match (r, jar_coordinates(abs_jar_path@, texts_of(pom_properties@))) {
                (Ok(v), Ok(s)) => views_of(v@) == s,
                (Err(e), Err(f)) => e == f,
                _ => false,
            },
    {
        let ghost texts = texts_of(pom_properties@);
        let ghost jar = abs_jar_path@;
        let mut coordinates: Vec<MavenCoordinates> = Vec::new();
        let mut i: usize = 0;
        while i < pom_properties.len()
            invariant
                i <= pom_properties@.len(),
                texts == texts_of(pom_properties@),
                jar == abs_jar_path@,
                views_of(coordinates@) == pom_coordinates(texts.take(i as int), jar),
            decreases pom_properties@.len() - i,
        {
            proof {
                assert(texts.take(i + 1).drop_last() =~= texts.take(i as int));
                assert(texts.take(i + 1).last() == pom_properties@[i as int]@);
            }
            match parse_properties(pom_properties[i].as_str()) {
                Some(mut c) => {
                    c.jar_path = Some(abs_jar_path.to_owned());
                    coordinates.push(c);
                    assert(views_of(coordinates@) =~= pom_coordinates(texts.take(i + 1), jar));
                },
                None => {
                    assert(views_of(coordinates@) =~= pom_coordinates(texts.take(i + 1), jar));
                },
            }
            i = i + 1;
        }
        assert(texts.take(i as int) =~= texts);
        let ghost cs = pom_coordinates(texts, jar);
        let file_name = file_name_of(abs_jar_path);
        let file_stem = stem_of(file_name.as_str());
        if coordinates.len() > 1 {
            if let Some(aid) = extract_artifact_id_from_filename(file_stem.as_str()) {
                let ghost p = has_artifact_id(aid@);
                let mut j: usize = 0;
                while j < coordinates.len()
                    invariant
                        j <= coordinates@.len(),
                        views_of(coordinates@) == cs,
                        p == has_artifact_id(aid@),
                        forall|k: int| 0 <= k < j ==> !p(#[trigger] cs[k]),
                        artifact_id_in_name(jar_stem(jar)) == Some(aid@),
                        cs == pom_coordinates(texts, jar),
                        cs.len() > 1,
                        texts == texts_of(pom_properties@),
                        jar == abs_jar_path@,
                    decreases coordinates@.len() - j,
                {
                    if coordinates[j].artifact_id == aid {
                        proof {
                            assert(p(cs[j as int]));
                            lemma_first_satisfying_at(cs, p, j as int);
                        }
                        let primary = coordinates[j].duplicate();
                        coordinates = vec![primary];
                        assert(views_of(coordinates@) =~= seq![cs[j as int]]);
                        return Ok(coordinates);
                    }
                    assert(!p(cs[j as int]));
                    j = j + 1;
                }
                proof {
                    lemma_first_satisfying(cs, p);
                    match first_satisfying(cs, p) {
                        Some(c) => {
                            let k = choose|k: int|
                                0 <= k < cs.len() && cs[k] == c && p(c) && (forall|j: int|
                                    0 <= j < k ==> !p(#[trigger] cs[j]));
                            assert(!p(cs[k]));
                        },
                        None => {},
                    }
                }
            }
            return Ok(coordinates);
        }
        if coordinates.len() == 0 {
            if !is_jar_file_name(file_name.as_str()) {
                return Err(JarError::NotAJarFile);
            }
            let c = from_file_stem(file_stem.as_str(), abs_jar_path);
            let r = vec![c];
            assert(views_of(r@) =~= seq![c@]);
            return Ok(r);
        }
        Ok(coordinates)
    }
}

} // verus!
