//! The decisions of copying the merged jars into the target directory: which
//! entries are skipped and why, what is counted, and how the run ends.
use vstd::prelude::*;

use crate::maven_coordinate::{opt_view, MavenCoordinates};

verus! {

/// Why a merged entry is not copied.
#[derive(Clone, Copy, Debug, PartialEq, Eq, Structural)]
pub enum SkipReason {
    /// The entry has no jar path.
    NoJarPath,
    /// The jar path is empty or names no existing file.
    JarNotFound,
    /// The jar path has no file name.
    NoFileName,
    /// The jar already is the file in the target.
    AlreadyInTarget,
}

/// How the handling of one merged entry ended.
#[derive(Clone, Copy, Debug, PartialEq, Eq, Structural)]
pub enum CopyOutcome {
    Skipped(SkipReason),
    Copied,
    Failed,
}

/// Why the entry with jar path `jar_path` is skipped, checked in this
/// order: it has no jar path; the path is empty or names no existing file;
/// it has no file name; it is the target's own file. None where it is to be
/// copied.
pub open spec fn skip_reason(
    jar_path: Option<Seq<char>>,
    jar_exists: bool,
    has_file_name: bool,
    same_file: bool,
) -> Option<SkipReason> {
    match jar_path {
        None => Some(SkipReason::NoJarPath),
        Some(p) => if p.len() == 0 || !jar_exists {
            Some(SkipReason::JarNotFound)
        } else if !has_file_name {
            Some(SkipReason::NoFileName)
        } else if same_file {
            Some(SkipReason::AlreadyInTarget)
        } else {
            None
        },
    }
}

/// Why an entry is skipped (see `skip_reason`); `jar_exists`,
/// `has_file_name` and `same_file` describe the file at its jar path.
pub fn copy_skip_reason(
    jar_path: &Option<String>,
    jar_exists: bool,
    has_file_name: bool,
    same_file: bool,
) -> (r: Option<SkipReason>)
    ensures
        r == skip_reason(opt_view(*jar_path), jar_exists, has_file_name, same_file),
{
    match jar_path {
        None => Some(SkipReason::NoJarPath),
        Some(p) => if p.as_str().is_empty() || !jar_exists {
            Some(SkipReason::JarNotFound)
        } else if !has_file_name {
            Some(SkipReason::NoFileName)
        } else if same_file {
            Some(SkipReason::AlreadyInTarget)
        } else {
            None
        },
    }
}

/// The name under which an entry is reported: `groupId:artifactId`, with
/// `?` for a missing group id.
pub fn artifact_label(c: &MavenCoordinates) -> (r: String)
    ensures
        r@ == match c.group_id {
            Some(g) => g@,
            None => "?"@,
        } + ":"@ + c.artifact_id@,
{
    let mut r = match &c.group_id {
        Some(g) => g.clone(),
        None => "?".to_owned(),
    };
    r.append(":");
    r.append(c.artifact_id.as_str());
    r
}

/// The counts after one more entry with the given outcome.
pub open spec fn tally_after(counts: (int, int, int), outcome: CopyOutcome) -> (int, int, int) {
    match outcome {
        CopyOutcome::Skipped(_) => (counts.0, counts.1 + 1, counts.2),
        CopyOutcome::Copied => (counts.0 + 1, counts.1, counts.2),
        CopyOutcome::Failed => (counts.0, counts.1, counts.2 + 1),
    }
}

/// The counts `(copied, skipped, errors)` after the given outcomes.
pub open spec fn tally_of(outcomes: Seq<CopyOutcome>) -> (int, int, int)
    decreases outcomes.len(),
{
    if outcomes.len() == 0 {
        (0, 0, 0)
    } else {
        tally_after(tally_of(outcomes.drop_last()), outcomes.last())
    }
}

/// Whether some copy in `outcomes` failed.
pub open spec fn some_copy_failed(outcomes: Seq<CopyOutcome>) -> bool {
    exists|i: int| 0 <= i < outcomes.len() && outcomes[i] == CopyOutcome::Failed
}

/// The counts of a copy run, with the outcomes they were counted from.
pub struct CopyTally {
    copied: u32,
    skipped: u32,
    errors: u32,
    outcomes: Ghost<Seq<CopyOutcome>>,
}

impl CopyTally {
    /// The outcomes recorded so far, in order.
    pub closed spec fn recorded(self) -> Seq<CopyOutcome> {
        self.outcomes@
    }

    /// The counts `(copied, skipped, errors)`.
    pub closed spec fn counts(self) -> (int, int, int) {
        (self.copied as int, self.skipped as int, self.errors as int)
    }

    #[verifier::type_invariant]
    spec fn counts_match(self) -> bool {
        (self.copied as int, self.skipped as int, self.errors as int) == tally_of(self.outcomes@)
    }

    /// No entry handled yet.
    pub fn new() -> (r: Self)
        ensures
            r.recorded() == Seq::<CopyOutcome>::empty(),
            r.counts() == tally_of(r.recorded()),
    {
        CopyTally { copied: 0, skipped: 0, errors: 0, outcomes: Ghost(Seq::empty()) }
    }

    /// Counts one more entry with the given outcome; the count it adds to
    /// must not be at its limit.
    pub fn record(&mut self, outcome: CopyOutcome)
        requires
            match outcome {
                CopyOutcome::Skipped(_) => old(self).counts().1 < u32::MAX,
                CopyOutcome::Copied => old(self).counts().0 < u32::MAX,
                CopyOutcome::Failed => old(self).counts().2 < u32::MAX,
            },
        ensures
            final(self).recorded() == old(self).recorded().push(outcome),
            final(self).counts() == tally_of(final(self).recorded()),
            final(self).counts() == tally_after(old(self).counts(), outcome),
    {
        proof {
            use_type_invariant(&*self);
        }
        let ghost before = self.outcomes@;
        let (copied, skipped, errors) = match outcome {
            CopyOutcome::Skipped(_) => (self.copied, self.skipped + 1, self.errors),
            CopyOutcome::Copied => (self.copied + 1, self.skipped, self.errors),
            CopyOutcome::Failed => (self.copied, self.skipped, self.errors + 1),
        };
        assert(before.push(outcome).drop_last() =~= before);
        *self = CopyTally { copied, skipped, errors, outcomes: Ghost(before.push(outcome)) };
    }

    /// How many entries were copied.
    pub fn copied(&self) -> (r: u32)
        ensures
            r == self.counts().0,
            r == tally_of(self.recorded()).0,
    {
        proof {
            use_type_invariant(self);
        }
        self.copied
    }

    /// How many entries were skipped.
    pub fn skipped(&self) -> (r: u32)
        ensures
            r == self.counts().1,
            r == tally_of(self.recorded()).1,
    {
        proof {
            use_type_invariant(self);
        }
        self.skipped
    }

    /// How many copies failed.
    pub fn errors(&self) -> (r: u32)
        ensures
            r == self.counts().2,
            r == tally_of(self.recorded()).2,
    {
        proof {
            use_type_invariant(self);
        }
        self.errors
    }

    /// The run's exit status: 1 where some copy failed, else 0.
    pub fn exit_code(&self) -> (r: i32)
        ensures
            r == (if some_copy_failed(self.recorded()) {
                1i32
            } else {
                0i32
            }),
    {
        proof {
            use_type_invariant(self);
            lemma_run_tally(self.recorded());
        }
        if self.errors > 0 {
            1
        } else {
            0
        }
    }
}

/// Over a whole run, every entry handled adds one to exactly one count: the
/// counts sum to the number of entries; the error count is positive exactly
/// when some copy failed; each count only grows.
pub proof fn lemma_run_tally(outcomes: Seq<CopyOutcome>)
    ensures
        ({
            let (c, s, e) = tally_of(outcomes);
            &&& c + s + e == outcomes.len()
            &&& c >= 0 && s >= 0 && e >= 0
            &&& (e > 0 <==> some_copy_failed(outcomes))
        }),
    decreases outcomes.len(),
{
    if outcomes.len() > 0 {
        let rest = outcomes.drop_last();
        lemma_run_tally(rest);
        if some_copy_failed(rest) {
            let i = choose|i: int| 0 <= i < rest.len() && rest[i] == CopyOutcome::Failed;
            assert(outcomes[i] == CopyOutcome::Failed);
        }
        if some_copy_failed(outcomes) {
            let i = choose|i: int| 0 <= i < outcomes.len() && outcomes[i] == CopyOutcome::Failed;
            if i < outcomes.len() - 1 {
                assert(rest[i] == CopyOutcome::Failed);
            }
        }
        if outcomes.last() == CopyOutcome::Failed {
            assert(outcomes[outcomes.len() - 1] == CopyOutcome::Failed);
        }
    }
}

} // verus!
