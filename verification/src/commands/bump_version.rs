//! The `bump-version` command: the next version of the workspace, the edit
//! of each manifest, and the checks that a bump touched nothing else.
pub use crate::utils::bump::verify_changes;
use crate::utils::bump::{
    bump_targets, bump_targets_are_version_fields, version_field_change, change_findings, changes, flat, lock_packages, package_label, parse_lock_packages,
    targets_spec, BumpError, LockStage,
};
use crate::utils::cargo::WorkspaceMembers;
use crate::utils::ordmap::{entry_keys, key_order, lemma_entries_map, lemma_key_order, Textual};
use crate::utils::text::{
    contains_text, decimal, decimal_string, find_char, is_digit, lemma_decimal, lemma_find_char,
    lemma_find_char_first,
    owned, parse_u64, parse_unsigned, split_on, split_once,
    split_once_spec, split_text, views,
};
use crate::utils::toml::{parse_document, toml_parse, toml_with_string, with_string_at, TomlError, TomlNode};
use crate::utils::version::version_text;
use crate::utils::version::{
    identifier_char, lemma_stage_starts_valid, prerelease, valid_pre_identifier,
    valid_prerelease, Version,
};
use vstd::prelude::*;

verus! {

/// How far a version moves.
#[derive(Debug, Clone, Copy, PartialEq, Eq)]
pub enum BumpLevel {
    /// `x.y.z -> x+1.0.0`
    Major,
    /// `x.y.z -> x.y+1.0`
    Minor,
    /// `x.y.z -> x.y.z+1`
    Patch,
    /// `x.y.z-<tag>.n -> x.y.z-<tag>.n+1` (alpha, beta, rc, ...)
    PreRelease,
    /// `alpha.n -> beta.0`, `beta.n -> rc.0`, `rc.n ->` no pre-release
    PromotePreRelease,
    /// The pre-release bump when there is a pre-release, else the patch bump.
    PatchOrPreRelease,
}

/// The arguments of `bump-version`.
#[derive(Debug, Clone, Copy)]
pub struct CommandArgs {
    pub level: BumpLevel,
}

/// Why a version could not be bumped.
#[derive(Debug)]
pub enum BumpVersionError {
    /// The pre-release is not `<tag>.<number>`.
    UnexpectedPrerelease { pre: String },
    /// The pre-release stage is none of alpha, beta and rc.
    UnsupportedPrerelease { pre: String },
}

/// The message for a pre-release that is not `<tag>.<number>`.
pub open spec fn unexpected_format(pre: Seq<char>) -> Seq<char> {
    "unexpected prerelease format: "@ + pre
}

/// The message for a pre-release stage that cannot be promoted.
pub open spec fn unsupported_stage(pre: Seq<char>) -> Seq<char> {
    "unexpected prerelease format: "@ + pre + ", only alpha, beta, and rc are supported"@
}

impl BumpVersionError {
    /// The pre-release the error is about.
    pub open spec fn pre_text(&self) -> Seq<char> {
        match self {
            BumpVersionError::UnexpectedPrerelease { pre } => pre@,
            BumpVersionError::UnsupportedPrerelease { pre } => pre@,
        }
    }

    /// The error's message.
    pub open spec fn message(&self) -> Seq<char> {
        match self {
            BumpVersionError::UnexpectedPrerelease { pre } => unexpected_format(pre@),
            BumpVersionError::UnsupportedPrerelease { pre } => unsupported_stage(pre@),
        }
    }

    /// The error's message.
    pub fn to_string(&self) -> (r: String)
        ensures
            r@ == self.message(),
    {
        match self {
            BumpVersionError::UnexpectedPrerelease { pre } => {
                let mut r = owned("unexpected prerelease format: ");
                r.append(pre.as_str());
                r
            },
            BumpVersionError::UnsupportedPrerelease { pre } => {
                let mut r = owned("unexpected prerelease format: ");
                r.append(pre.as_str());
                r.append(", only alpha, beta, and rc are supported");
                r
            },
        }
    }
}

/// `n + 1`, or `n` when that does not fit.
pub open spec fn sat_inc(n: u64) -> u64 {
    if n < u64::MAX {
        (n + 1) as u64
    } else {
        n
    }
}

/// The pre-release after a major or minor bump: none stays none, any other
/// starts over at `alpha.0`.
pub open spec fn reset_prerelease(pre: Seq<char>) -> Seq<char> {
    if pre.len() == 0 {
        Seq::empty()
    } else {
        "alpha.0"@
    }
}

/// The pre-release after a pre-release bump of `pre` = `<tag>.<n>`: the
/// number counts up (saturating), kept as it was when the result is no valid
/// pre-release; refused when `pre` has no dot or `n` is no number.
pub open spec fn next_prerelease(pre: Seq<char>) -> Result<Seq<char>, Seq<char>> {
    match split_once_spec(pre, '.') {
        None => Err(unexpected_format(pre)),
        Some(parts) => match parse_unsigned(parts.1, u64::MAX as nat) {
            None => Err(unexpected_format(pre)),
            Some(n) => {
                let candidate = parts.0 + "."@ + decimal(sat_inc(n as u64) as nat);
                if valid_prerelease(candidate) {
                    Ok(candidate)
                } else {
                    Ok(pre)
                }
            },
        },
    }
}

/// The pre-release after promoting `pre` = `<stage>.<anything>`: alpha to
/// `beta.0`, beta to `rc.0`, rc to a release.
pub open spec fn promoted_prerelease(pre: Seq<char>) -> Result<Seq<char>, Seq<char>> {
    match split_once_spec(pre, '.') {
        None => Err(unexpected_format(pre)),
        Some(parts) => if parts.0 == "alpha"@ {
            Ok("beta.0"@)
        } else if parts.0 == "beta"@ {
            Ok("rc.0"@)
        } else if parts.0 == "rc"@ {
            Ok(Seq::empty())
        } else {
            Err(unsupported_stage(pre))
        },
    }
}

/// `v` with the pre-release `p`, or the error.
pub open spec fn with_prerelease(v: Version, p: Result<Seq<char>, Seq<char>>) -> Result<
    (u64, u64, u64, Seq<char>),
    Seq<char>,
> {
    match p {
        Ok(pre) => Ok((v.major, v.minor, v.patch, pre)),
        Err(m) => Err(m),
    }
}

/// The bumped version's major, minor, patch and pre-release, or the error
/// message. The build metadata is kept.
pub open spec fn bumped(level: BumpLevel, v: Version) -> Result<(u64, u64, u64, Seq<char>), Seq<char>> {
    match level {
        BumpLevel::Major => Ok((sat_inc(v.major), 0u64, 0u64, reset_prerelease(v.pre@))),
        BumpLevel::Minor => Ok((v.major, sat_inc(v.minor), 0u64, reset_prerelease(v.pre@))),
        BumpLevel::Patch => Ok((v.major, v.minor, sat_inc(v.patch), v.pre@)),
        BumpLevel::PreRelease => with_prerelease(v, next_prerelease(v.pre@)),
        BumpLevel::PromotePreRelease => with_prerelease(v, promoted_prerelease(v.pre@)),
        BumpLevel::PatchOrPreRelease => if v.pre@.len() == 0 {
            Ok((v.major, v.minor, sat_inc(v.patch), v.pre@))
        } else {
            with_prerelease(v, next_prerelease(v.pre@))
        },
    }
}

/// The fields of `v` other than the build metadata.
pub open spec fn fields_of(v: Version) -> Result<(u64, u64, u64, Seq<char>), Seq<char>> {
    Ok((v.major, v.minor, v.patch, v.pre@))
}

/// A refusal with `message`.
pub open spec fn refusal(message: Seq<char>) -> Result<(u64, u64, u64, Seq<char>), Seq<char>> {
    Err(message)
}

/// `n + 1`, saturating.
fn saturating_inc(n: u64) -> (r: u64)
    ensures
        r == sat_inc(n),
{
    n.saturating_add(1)
}

/// A `semver`-checked pre-release that is known to be valid: `alpha.0`,
/// `beta.0` or `rc.0`.
fn stage_start(stage: &str) -> (r: String)
    requires
        stage@ == "alpha.0"@ || stage@ == "beta.0"@ || stage@ == "rc.0"@,
    ensures
        r@ == stage@,
        valid_prerelease(r@),
{
    proof {
        lemma_stage_starts_valid();
    }
    match prerelease(stage) {
        Some(p) => p,
        None => owned(stage),
    }
}

/// The pre-release bump of `pre`.
fn bump_prerelease(pre: &String) -> (r: Result<String, BumpVersionError>)
    ensures
        match next_prerelease(pre@) {
            Ok(p) => (r matches Ok(x) && x@ == p),
            Err(m) => (r matches Err(e) && e.message() == m && e.pre_text() == pre@),
        },
{
    match split_once(pre.as_str(), '.') {
        None => Err(BumpVersionError::UnexpectedPrerelease { pre: pre.clone() }),
        Some((prefix, number)) => match parse_u64(number.as_str()) {
            None => Err(BumpVersionError::UnexpectedPrerelease { pre: pre.clone() }),
            Some(n) => {
                let next = saturating_inc(n);
                let mut candidate = prefix;
                candidate.append(".");
                candidate.append(decimal_string(next).as_str());
                match prerelease(candidate.as_str()) {
                    Some(p) => Ok(p),
                    None => Ok(pre.clone()),
                }
            },
        },
    }
}

/// The promotion of `pre`.
fn promote_prerelease(pre: &String) -> (r: Result<String, BumpVersionError>)
    ensures
        match promoted_prerelease(pre@) {
            Ok(p) => (r matches Ok(x) && x@ == p),
            Err(m) => (r matches Err(e) && e.message() == m && e.pre_text() == pre@),
        },
{
    match split_once(pre.as_str(), '.') {
        None => Err(BumpVersionError::UnexpectedPrerelease { pre: pre.clone() }),
        Some((stage, _)) => {
            if crate::utils::text::str_eq(stage.as_str(), "alpha") {
                Ok(stage_start("beta.0"))
            } else if crate::utils::text::str_eq(stage.as_str(), "beta") {
                Ok(stage_start("rc.0"))
            } else if crate::utils::text::str_eq(stage.as_str(), "rc") {
                proof {
                    reveal_strlit("");
                    assert(valid_prerelease(""@));
                }
                match prerelease("") {
                    Some(p) => Ok(p),
                    None => Ok(String::new()),
                }
            } else {
                Err(BumpVersionError::UnsupportedPrerelease { pre: pre.clone() })
            }
        },
    }
}

/// The version after a bump of `level` from `current`. Numbers saturate at
/// their largest value; the build metadata is kept. A major or minor bump of
/// a pre-release version starts the pre-release over at `alpha.0`.
pub fn bump_version(level: &BumpLevel, current: &Version) -> (r: Result<Version, BumpVersionError>)
    ensures
        r is Ok <==> bumped(*level, *current) is Ok,
        r matches Ok(v) ==> bumped(*level, *current) == fields_of(v) && v.build@ == current.build@,
        r matches Err(e) ==> bumped(*level, *current) == refusal(e.message()) && e.pre_text()
            == current.pre@,
        r matches Ok(v) ==> (current.wf() ==> v.wf()),
{
    proof {
        lemma_stage_starts_valid();
    }
    let mut new_version = current.copy();
    match level {
        BumpLevel::Major => {
            new_version.major = saturating_inc(current.major);
            new_version.minor = 0;
            new_version.patch = 0;
            if !current.pre.as_str().is_empty() {
                new_version.pre = stage_start("alpha.0");
            } else {
                assert(current.pre@ =~= reset_prerelease(current.pre@));
            }
        },
        BumpLevel::Minor => {
            new_version.minor = saturating_inc(current.minor);
            new_version.patch = 0;
            if !current.pre.as_str().is_empty() {
                new_version.pre = stage_start("alpha.0");
            } else {
                assert(current.pre@ =~= reset_prerelease(current.pre@));
            }
        },
        BumpLevel::Patch => {
            new_version.patch = saturating_inc(current.patch);
        },
        BumpLevel::PreRelease => match bump_prerelease(&current.pre) {
            Ok(p) => new_version.pre = p,
            Err(e) => return Err(e),
        },
        BumpLevel::PromotePreRelease => match promote_prerelease(&current.pre) {
            Ok(p) => new_version.pre = p,
            Err(e) => return Err(e),
        },
        BumpLevel::PatchOrPreRelease => {
            if current.pre.as_str().is_empty() {
                new_version.patch = saturating_inc(current.patch);
            } else {
                match bump_prerelease(&current.pre) {
                    Ok(p) => new_version.pre = p,
                    Err(e) => return Err(e),
                }
            }
        },
    }
    Ok(new_version)
}

// ---------------------------------------------------------------------------
// Bumping one manifest
// ---------------------------------------------------------------------------

/// Why a manifest could not be bumped.
#[derive(Debug)]
pub enum ManifestBumpError {
    /// The manifest did not parse.
    Parse { file: String, error: TomlError },
    /// `toml_edit` could not write a bumped field, or its output did not
    /// parse again.
    Edit { file: String },
    /// The edited manifest differs from the manifest as it was elsewhere
    /// than in the fields the bump targets.
    Unexpected { file: String, error: BumpError },
    /// The manifest could not be read; the reader's message.
    Read { file: String, message: String },
}

impl ManifestBumpError {
    /// The error's message (the inner error, where there is one, is its
    /// cause).
    pub open spec fn message(&self) -> Seq<char> {
        match self {
            ManifestBumpError::Parse { file, .. } => "failed to parse "@ + file@,
            ManifestBumpError::Edit { file } => "failed to bump the version fields of "@ + file@,
            ManifestBumpError::Unexpected { file, .. } => "unexpected changes while bumping "@
                + file@,
            ManifestBumpError::Read { file, .. } => "failed to read "@ + file@,
        }
    }

    /// The error's message.
    pub fn to_string(&self) -> (r: String)
        ensures
            r@ == self.message(),
    {
        match self {
            ManifestBumpError::Parse { file, .. } => {
                let mut r = owned("failed to parse ");
                r.append(file.as_str());
                r
            },
            ManifestBumpError::Edit { file } => {
                let mut r = owned("failed to bump the version fields of ");
                r.append(file.as_str());
                r
            },
            ManifestBumpError::Read { file, .. } => {
                let mut r = owned("failed to read ");
                r.append(file.as_str());
                r
            },
            ManifestBumpError::Unexpected { file, .. } => {
                let mut r = owned("unexpected changes while bumping ");
                r.append(file.as_str());
                r
            },
        }
    }
}

/// The edits that carry out the targets `t`, in path order: the key path
/// of each target (its dotted path split at the dots) and its new text.
pub open spec fn target_edits(t: Map<Seq<Seq<char>>, Seq<Seq<char>>>) -> Seq<
    (Seq<Seq<char>>, Seq<char>),
> {
    key_order(t.dom()).map_values(|k: Seq<Seq<char>>| (split_on(k[0], '.'), t[k][1]))
}

/// The text after the edits `edits`, one after the other, each by
/// `toml_edit`; nothing once one of them fails.
pub open spec fn apply_edits(text: Seq<char>, edits: Seq<(Seq<Seq<char>>, Seq<char>)>) -> Option<
    Seq<char>,
>
    decreases edits.len(),
{
    if edits.len() == 0 {
        Some(text)
    } else {
        match apply_edits(text, edits.drop_last()) {
            Some(t) => toml_with_string(t, edits.last().0, edits.last().1),
            None => None,
        }
    }
}

/// Once an edit has failed, the edits after it do not matter.
proof fn lemma_failed_edit_stays_failed(
    text: Seq<char>,
    edits: Seq<(Seq<Seq<char>>, Seq<char>)>,
    k: int,
)
    requires
        0 <= k <= edits.len(),
        apply_edits(text, edits.take(k)) is None,
    ensures
        apply_edits(text, edits) is None,
    decreases edits.len() - k,
{
    if k < edits.len() {
        assert(edits.take(k + 1).drop_last() == edits.take(k));
        lemma_failed_edit_stays_failed(text, edits, k + 1);
    } else {
        assert(edits.take(k) == edits);
    }
}

/// Whether `e` is the error `bump_manifest` gives for `content` at `file`:
/// `Parse` with the parser's message when it does not parse; `Edit` when a
/// target cannot be written or the edited text does not parse again;
/// otherwise `Unexpected`, naming each difference from the targets.
pub open spec fn manifest_refusal(
    file: Seq<char>,
    content: Seq<char>,
    members: WorkspaceMembers,
    current: Version,
    new: Version,
    e: ManifestBumpError,
) -> bool {
    match toml_parse(content) {
        Err(m) => e matches ManifestBumpError::Parse { file: f, error } && f@ == file
            && error.message@ == m,
        Ok(d) => {
            let t = targets_spec(file, d, members, version_text(current), version_text(new));
            match apply_edits(content, target_edits(t)) {
                None => e matches ManifestBumpError::Edit { file: f } && f@ == file,
                Some(text) => match toml_parse(text) {
                    Err(_) => e matches ManifestBumpError::Edit { file: f } && f@ == file,
                    Ok(d2) => e matches ManifestBumpError::Unexpected { file: f, error } && f@
                        == file && (error matches BumpError::UnexpectedContent { problems, .. }
                        && views(problems@) == change_findings(changes(flat(d), flat(d2)), t)),
                },
            }
        },
    }
}

/// Bumps the manifest `content` (at the canonical path `file`) from
/// `current` to `new`: writes each target of `bump_targets` with
/// `toml_edit`, then checks leaf by leaf that nothing but those targets
/// changed. Returns the new text.
pub fn bump_manifest(
    file: &str,
    content: &str,
    members: &WorkspaceMembers,
    current: &Version,
    new: &Version,
) -> (r: Result<String, ManifestBumpError>)
    ensures
        match toml_parse(content@) {
            Err(m) => (r matches Err(e) && e matches ManifestBumpError::Parse { file: f, error }
                && f@ == file@ && error.message@ == m),
            Ok(d) => {
                let t = targets_spec(file@, d, *members, version_text(*current), version_text(*new));
                match apply_edits(content@, target_edits(t)) {
                    None => (r matches Err(e) && e matches ManifestBumpError::Edit { file: f } && f@
                        == file@),
                    Some(text) => match toml_parse(text) {
                        Err(_) => (r matches Err(e) && e matches ManifestBumpError::Edit { file: f }
                            && f@ == file@),
                        Ok(d2) => {
                            &&& r is Ok <==> changes(flat(d), flat(d2)) == t
                            &&& r matches Ok(x) ==> x@ == text
                            &&& r matches Err(e) ==> (e matches ManifestBumpError::Unexpected {
                                file: f,
                                error,
                            } && f@ == file@ && (error matches BumpError::UnexpectedContent {
                                problems,
                                ..
                            } && views(problems@) == change_findings(changes(flat(d), flat(d2)), t)))
                        },
                    },
                }
            },
        },
        r matches Err(e) ==> manifest_refusal(file@, content@, *members, *current, *new, e),
{
    let doc = match parse_document(content) {
        Ok(d) => d,
        Err(error) => return Err(ManifestBumpError::Parse { file: owned(file), error }),
    };
    let targets = bump_targets(file, &doc, members, current, new);
    let ghost t = targets.map();
    let ghost edits = target_edits(t);
    proof {
        lemma_key_order(targets.entries());
        lemma_entries_map(targets.entries());
    }
    let mut text = owned(content);
    let mut i: usize = 0;
    while i < targets.len()
        invariant
            targets.wf(),
            t == targets.map(),
            edits == target_edits(t),
            key_order(t.dom()) == crate::utils::ordmap::entry_keys(targets.entries()),
            forall|j: int|
                0 <= j < targets.entries().len() ==> #[trigger] t[targets.entries()[j].0.parts()]
                    == targets.entries()[j].1.parts(),
            i <= targets.entries().len(),
            apply_edits(content@, edits.take(i as int)) == Some(text@),
            toml_parse(content@) == crate::utils::toml::parsed(doc),
            t == targets_spec(file@, doc, *members, version_text(*current), version_text(*new)),
        decreases targets.entries().len() - i,
    {
        let entry = targets.entry(i);
        let path = split_text(entry.0.as_str(), '.');
        proof {
            assert(split_on(entry.0@, '.').len() > 0);
            assert(path@.len() == views(path@).len());
            let k = key_order(t.dom())[i as int];
            assert(k == entry.0.parts());
            assert(edits[i as int] == (split_on(k[0], '.'), t[k][1]));
            assert(edits.take(i + 1).drop_last() == edits.take(i as int));
            assert(edits.take(i + 1).last() == edits[i as int]);
        }
        match with_string_at(text.as_str(), &path, entry.1.1.as_str()) {
            Some(next) => {
                text = next;
            },
            None => {
                proof {
                    lemma_failed_edit_stays_failed(content@, edits, i + 1);
                }
                return Err(ManifestBumpError::Edit { file: owned(file) });
            },
        }
        i = i + 1;
    }
    assert(edits.take(targets.entries().len() as int) == edits);
    let edited = match parse_document(text.as_str()) {
        Ok(d) => d,
        Err(_) => return Err(ManifestBumpError::Edit { file: owned(file) }),
    };
    match verify_changes(&doc, &edited, &targets, file) {
        Ok(()) => Ok(text),
        Err(error) => Err(ManifestBumpError::Unexpected { file: owned(file), error }),
    }
}

/// The text `bump_manifest` gives for `content` at `file`, or nothing when
/// it refuses.
pub open spec fn bumped_text(
    file: Seq<char>,
    content: Seq<char>,
    members: WorkspaceMembers,
    current: Version,
    new: Version,
) -> Option<Seq<char>> {
    match toml_parse(content) {
        Err(_) => None,
        Ok(d) => {
            let t = targets_spec(file, d, members, version_text(current), version_text(new));
            match apply_edits(content, target_edits(t)) {
                None => None,
                Some(text) => match toml_parse(text) {
                    Err(_) => None,
                    Ok(d2) => if changes(flat(d), flat(d2)) == t {
                        Some(text)
                    } else {
                        None
                    },
                },
            }
        },
    }
}

/// Whether manifest `i` of `files` bumps cleanly: it was read and
/// `bump_manifest` accepts it.
pub open spec fn bumps_cleanly(
    files: Seq<(String, Result<String, String>)>,
    i: int,
    members: WorkspaceMembers,
    current: Version,
    new: Version,
) -> bool {
    files[i].1 matches Ok(c) && bumped_text(files[i].0@, c@, members, current, new) is Some
}

/// Bumps the manifests of a repository in walk order, given each one's
/// (canonical) path and what was read of it, and stops at the first that
/// cannot be read or bumped: returns the new texts of the manifests before
/// it (to be written, in order) and its error, if any. The manifests after
/// it are left alone.
pub fn bump_manifests(
    files: &Vec<(String, Result<String, String>)>,
    members: &WorkspaceMembers,
    current: &Version,
    new: &Version,
) -> (r: (Vec<String>, Option<ManifestBumpError>))
    ensures
        r.0@.len() <= files@.len(),
        forall|i: int| 0 <= i < r.0@.len() ==> bumps_cleanly(files@, i, *members, *current, *new),
        forall|i: int|
            0 <= i < r.0@.len() ==> Some((#[trigger] r.0@[i])@) == bumped_text(
                files@[i].0@,
                files@[i].1->Ok_0@,
                *members,
                *current,
                *new,
            ),
        r.1 is None <==> r.0@.len() == files@.len(),
        r.1 is Some ==> !bumps_cleanly(files@, r.0@.len() as int, *members, *current, *new),
        r.1 matches Some(e) ==> match files@[r.0@.len() as int].1 {
            Err(m) => e matches ManifestBumpError::Read { file, message } && file@
                == files@[r.0@.len() as int].0@ && message@ == m@,
            Ok(c) => manifest_refusal(
                files@[r.0@.len() as int].0@,
                c@,
                *members,
                *current,
                *new,
                e,
            ),
        },
{
    let mut out: Vec<String> = Vec::new();
    let mut i: usize = 0;
    while i < files.len()
        invariant
            i <= files@.len(),
            out@.len() == i,
            forall|j: int| 0 <= j < i ==> bumps_cleanly(files@, j, *members, *current, *new),
            forall|j: int|
                0 <= j < i ==> Some((#[trigger] out@[j])@) == bumped_text(
                    files@[j].0@,
                    files@[j].1->Ok_0@,
                    *members,
                    *current,
                    *new,
                ),
        decreases files@.len() - i,
    {
        let (file, read) = (&files[i].0, &files[i].1);
        let content = match read {
            Ok(c) => c,
            Err(m) => {
                return (out, Some(ManifestBumpError::Read { file: file.clone(), message: m.clone() }));
            },
        };
        match bump_manifest(file.as_str(), content.as_str(), members, current, new) {
            Ok(text) => {
                let ghost prev = out@;
                out.push(text);
                assert(out@[i as int] == out@.last());
                assert forall|j: int| 0 <= j < i implies out@[j] == prev[j] by {}
            },
            Err(e) => {
                return (out, Some(e));
            },
        }
        i = i + 1;
    }
    (out, None)
}

// ---------------------------------------------------------------------------
// Checking a lock file by its package set
// ---------------------------------------------------------------------------

/// Whether the bump should take the package `k` (name, version) away: a
/// workspace crate at `current`.
pub open spec fn to_remove(k: Seq<Seq<char>>, crates: Seq<Seq<char>>, current: Seq<char>) -> bool {
    crates.contains(k[0]) && k[1] == current
}

/// Whether the bump should bring the package `k` in: a workspace crate at
/// `new` that was at `current` before.
pub open spec fn to_add(
    k: Seq<Seq<char>>,
    before: Set<Seq<Seq<char>>>,
    crates: Seq<Seq<char>>,
    current: Seq<char>,
    new: Seq<char>,
) -> bool {
    crates.contains(k[0]) && k[1] == new && before.contains(seq![k[0], current])
}

/// The packages the bump should remove from `before`.
pub open spec fn removed_set(before: Set<Seq<Seq<char>>>, crates: Seq<Seq<char>>, current: Seq<char>) -> Set<
    Seq<Seq<char>>,
> {
    before.filter(|k: Seq<Seq<char>>| to_remove(k, crates, current))
}

/// The packages the bump should add to `before`.
pub open spec fn added_set(
    before: Set<Seq<Seq<char>>>,
    crates: Seq<Seq<char>>,
    current: Seq<char>,
    new: Seq<char>,
) -> Set<Seq<Seq<char>>> {
    Set::new(|k: Seq<Seq<char>>| k.len() == 2 && to_add(k, before, crates, current, new))
}

/// Whether `k`, a package after the bump, is new and unexpected.
pub open spec fn stray_added(
    k: Seq<Seq<char>>,
    before: Set<Seq<Seq<char>>>,
    crates: Seq<Seq<char>>,
    current: Seq<char>,
    new: Seq<char>,
) -> bool {
    !before.contains(k) && !to_add(k, before, crates, current, new)
}

/// Whether `k`, a package before the bump, is gone and should not be.
pub open spec fn stray_removed(
    k: Seq<Seq<char>>,
    after: Set<Seq<Seq<char>>>,
    crates: Seq<Seq<char>>,
    current: Seq<char>,
) -> bool {
    !after.contains(k) && !to_remove(k, crates, current)
}

/// Whether `k`, a package before the bump, should have moved to `new` and
/// did not arrive there.
pub open spec fn missed_bump(
    k: Seq<Seq<char>>,
    before: Set<Seq<Seq<char>>>,
    after: Set<Seq<Seq<char>>>,
    crates: Seq<Seq<char>>,
    current: Seq<char>,
    new: Seq<char>,
) -> bool {
    to_remove(k, crates, current) && !(after.contains(seq![k[0], new]) && !before.contains(
        seq![k[0], new],
    ))
}

/// One line per unexpected new package among `keys`, in order.
pub open spec fn added_findings(
    keys: Seq<Seq<Seq<char>>>,
    before: Set<Seq<Seq<char>>>,
    crates: Seq<Seq<char>>,
    current: Seq<char>,
    new: Seq<char>,
) -> Seq<Seq<char>>
    decreases keys.len(),
{
    if keys.len() == 0 {
        Seq::empty()
    } else {
        let rest = added_findings(keys.drop_last(), before, crates, current, new);
        if stray_added(keys.last(), before, crates, current, new) {
            rest.push("  unexpected package `"@ + package_label(keys.last()) + "`"@)
        } else {
            rest
        }
    }
}

/// One line per package among `keys` that went away unexpectedly, in order.
pub open spec fn removed_findings(
    keys: Seq<Seq<Seq<char>>>,
    after: Set<Seq<Seq<char>>>,
    crates: Seq<Seq<char>>,
    current: Seq<char>,
) -> Seq<Seq<char>>
    decreases keys.len(),
{
    if keys.len() == 0 {
        Seq::empty()
    } else {
        let rest = removed_findings(keys.drop_last(), after, crates, current);
        if stray_removed(keys.last(), after, crates, current) {
            rest.push("  unexpectedly removed package `"@ + package_label(keys.last()) + "`"@)
        } else {
            rest
        }
    }
}

/// One line per package among `keys` whose bump is missing, in order.
pub open spec fn missed_findings(
    keys: Seq<Seq<Seq<char>>>,
    before: Set<Seq<Seq<char>>>,
    after: Set<Seq<Seq<char>>>,
    crates: Seq<Seq<char>>,
    current: Seq<char>,
    new: Seq<char>,
) -> Seq<Seq<char>>
    decreases keys.len(),
{
    if keys.len() == 0 {
        Seq::empty()
    } else {
        let rest = missed_findings(keys.drop_last(), before, after, crates, current, new);
        let k = keys.last();
        if missed_bump(k, before, after, crates, current, new) {
            rest.push("  expected `"@ + k[0] + "` to be bumped to `"@ + new + "` but it was not"@)
        } else {
            rest
        }
    }
}

/// All findings of a package-set check: unexpected new packages, then
/// unexpectedly removed ones, then missing bumps, each in key order.
pub open spec fn set_findings(
    before: Set<Seq<Seq<char>>>,
    after: Set<Seq<Seq<char>>>,
    crates: Seq<Seq<char>>,
    current: Seq<char>,
    new: Seq<char>,
) -> Seq<Seq<char>> {
    added_findings(key_order(after), before, crates, current, new) + removed_findings(
        key_order(before),
        after,
        crates,
        current,
    ) + missed_findings(key_order(before), before, after, crates, current, new)
}

/// A bump that moves exactly the workspace crates locked at `current` to
/// `new`, and leaves every other package as it was, passes the lock check:
/// the packages that went away are the ones expected to go and the ones
/// that came in are the ones expected to come. This holds too when other
/// members stay locked at versions of their own; only a member locked at
/// `current` is expected to move.
pub proof fn moving_members_at_current_passes(
    bs: Set<Seq<Seq<char>>>,
    as_: Set<Seq<Seq<char>>>,
    crates: Seq<Seq<char>>,
    current: Seq<char>,
    new: Seq<char>,
)
    requires
        current != new,
        forall|k: Seq<Seq<char>>| #[trigger] bs.contains(k) ==> k.len() == 2,
        forall|n: Seq<char>|
            crates.contains(n) && bs.contains(seq![n, current]) ==> !bs.contains(
                #[trigger] seq![n, new],
            ),
        forall|k: Seq<Seq<char>>| #[trigger]
            as_.contains(k) <==> ((bs.contains(k) && !(crates.contains(k[0]) && k[1] == current)) || (
            k.len() == 2 && k[1] == new && crates.contains(k[0]) && bs.contains(seq![k[0], current]))),
    ensures
        bs.difference(as_) == removed_set(bs, crates, current),
        as_.difference(bs) == added_set(bs, crates, current, new),
{
    assert(bs.difference(as_) =~= removed_set(bs, crates, current));
    assert forall|k: Seq<Seq<char>>|
        as_.difference(bs).contains(k) <==> added_set(bs, crates, current, new).contains(k) by {
        if added_set(bs, crates, current, new).contains(k) {
            assert(k =~= seq![k[0], new]);
            assert(!bs.contains(seq![k[0], new]));
        }
    }
    assert(as_.difference(bs) =~= added_set(bs, crates, current, new));
}

/// The label `name version` of a package key.
fn label_of(key: &(String, String)) -> (r: String)
    ensures
        r@ == package_label(key.parts()),
{
    let mut r = key.0.clone();
    r.append(" ");
    r.append(key.1.as_str());
    r
}

/// Checks a lock file across a bump by its set of packages (name and
/// version): the packages that went away must be exactly the workspace
/// crates at `current`, and the packages that came in exactly those crates
/// at `new`. Other fields of the entries are not compared.
pub fn verify_lock_changes(
    before: &str,
    after: &str,
    all_crates: &Vec<String>,
    current: &Version,
    new: &Version,
    file: &str,
) -> (r: Result<(), BumpError>)
    ensures
        toml_parse(before@) is Err ==> (r matches Err(e) && e matches BumpError::LockParse {
            file: f,
            stage: LockStage::Before,
        } && f@ == file@),
        toml_parse(before@) is Ok && toml_parse(after@) is Err ==> (r matches Err(e) && e matches BumpError::LockParse {
            file: f,
            stage: LockStage::After,
        } && f@ == file@),
        toml_parse(before@) matches Ok(b) ==> (toml_parse(after@) matches Ok(a) ==> {
            let bs = lock_packages(b).dom();
            let as_ = lock_packages(a).dom();
            let crates = views(all_crates@);
            let cur = version_text(*current);
            let nv = version_text(*new);
            &&& r is Ok <==> (bs.difference(as_) == removed_set(bs, crates, cur) && as_.difference(bs)
                == added_set(bs, crates, cur, nv))
            &&& r matches Err(e) ==> (e matches BumpError::UnexpectedContent { file: f, problems }
                && f@ == file@ && views(problems@) == set_findings(bs, as_, crates, cur, nv))
        }),
{
    let before_pkgs = match parse_lock_packages(before) {
        Ok(p) => p,
        Err(_) => return Err(BumpError::LockParse { file: owned(file), stage: LockStage::Before }),
    };
    let after_pkgs = match parse_lock_packages(after) {
        Ok(p) => p,
        Err(_) => return Err(BumpError::LockParse { file: owned(file), stage: LockStage::After }),
    };
    let current = current.to_string();
    let new = new.to_string();
    let ghost bs = before_pkgs.map().dom();
    let ghost as_ = after_pkgs.map().dom();
    let ghost crates = views(all_crates@);
    let ghost bk = entry_keys(before_pkgs.entries());
    let ghost ak = entry_keys(after_pkgs.entries());
    proof {
        lemma_key_order(before_pkgs.entries());
        lemma_key_order(after_pkgs.entries());
        lemma_entries_map(before_pkgs.entries());
        lemma_entries_map(after_pkgs.entries());
    }
    let mut problems: Vec<String> = Vec::new();
    // Packages that came in.
    let mut added_ok = true;
    let mut i: usize = 0;
    while i < after_pkgs.len()
        invariant
            before_pkgs.wf(),
            after_pkgs.wf(),
            bs == before_pkgs.map().dom(),
            crates == views(all_crates@),
            ak == entry_keys(after_pkgs.entries()),
            i <= ak.len(),
            views(problems@) == added_findings(ak.take(i as int), bs, crates, current@, new@),
            added_ok == forall|j: int|
                0 <= j < i ==> !stray_added(#[trigger] ak[j], bs, crates, current@, new@),
        decreases ak.len() - i,
    {
        let key = &after_pkgs.entry(i).0;
        proof {
            assert(ak[i as int] == key.parts());
            assert(ak.take(i + 1).drop_last() == ak.take(i as int));
            assert(ak.take(i + 1).last() == key.parts());
        }
        let known = before_pkgs.contains_key(key);
        let earlier = (key.0.clone(), current.clone());
        let bumped_member = contains_text(all_crates, key.0.as_str()) && key.1.parts_eq(&new)
            && before_pkgs.contains_key(&earlier);
        proof {
            assert(key.1.parts() == new.parts() <==> key.1@ == new@) by {
                if key.1@ == new@ {
                    assert(key.1.parts() =~= new.parts());
                } else {
                    assert(key.1.parts()[0] != new.parts()[0]);
                }
            }
            assert(bumped_member == to_add(key.parts(), bs, crates, current@, new@)) by {
                assert(earlier.parts() =~= seq![key.parts()[0], current@]);
            }
        }
        if !known && !bumped_member {
            let mut t = owned("  unexpected package `");
            t.append(label_of(key).as_str());
            t.append("`");
            let ghost prev = problems@;
            problems.push(t);
            assert(views(problems@) =~= views(prev).push(
                "  unexpected package `"@ + package_label(key.parts()) + "`"@,
            ));
            added_ok = false;
        }
        i = i + 1;
    }
    assert(ak.take(ak.len() as int) == ak);
    let ghost added_part = views(problems@);
    // Packages that went away.
    let mut removed_exact = true;
    let mut i: usize = 0;
    while i < before_pkgs.len()
        invariant
            before_pkgs.wf(),
            after_pkgs.wf(),
            as_ == after_pkgs.map().dom(),
            crates == views(all_crates@),
            bk == entry_keys(before_pkgs.entries()),
            i <= bk.len(),
            views(problems@) == added_part + removed_findings(bk.take(i as int), as_, crates, current@),
            removed_exact == forall|j: int|
                0 <= j < i ==> (!as_.contains(#[trigger] bk[j]) <==> to_remove(
                    bk[j],
                    crates,
                    current@,
                )),
        decreases bk.len() - i,
    {
        let key = &before_pkgs.entry(i).0;
        proof {
            assert(bk[i as int] == key.parts());
            assert(bk.take(i + 1).drop_last() == bk.take(i as int));
            assert(bk.take(i + 1).last() == key.parts());
        }
        let gone = !after_pkgs.contains_key(key);
        let member_at_current = contains_text(all_crates, key.0.as_str()) && key.1.parts_eq(&current);
        proof {
            assert(key.1.parts() == current.parts() <==> key.1@ == current@) by {
                if key.1@ == current@ {
                    assert(key.1.parts() =~= current.parts());
                } else {
                    assert(key.1.parts()[0] != current.parts()[0]);
                }
            }
            assert(member_at_current == to_remove(key.parts(), crates, current@));
        }
        if gone != member_at_current {
            removed_exact = false;
        }
        if gone && !member_at_current {
            let mut t = owned("  unexpectedly removed package `");
            t.append(label_of(key).as_str());
            t.append("`");
            let ghost prev = problems@;
            problems.push(t);
            assert(views(problems@) =~= views(prev).push(
                "  unexpectedly removed package `"@ + package_label(key.parts()) + "`"@,
            ));
        }
        i = i + 1;
    }
    assert(bk.take(bk.len() as int) == bk);
    let ghost removed_part = views(problems@);
    // Bumps that did not happen.
    let mut missed_ok = true;
    let mut i: usize = 0;
    while i < before_pkgs.len()
        invariant
            before_pkgs.wf(),
            after_pkgs.wf(),
            bs == before_pkgs.map().dom(),
            as_ == after_pkgs.map().dom(),
            crates == views(all_crates@),
            bk == entry_keys(before_pkgs.entries()),
            i <= bk.len(),
            views(problems@) == removed_part + missed_findings(
                bk.take(i as int),
                bs,
                as_,
                crates,
                current@,
                new@,
            ),
            missed_ok == forall|j: int|
                0 <= j < i ==> !missed_bump(#[trigger] bk[j], bs, as_, crates, current@, new@),
        decreases bk.len() - i,
    {
        let key = &before_pkgs.entry(i).0;
        proof {
            assert(bk[i as int] == key.parts());
            assert(bk.take(i + 1).drop_last() == bk.take(i as int));
            assert(bk.take(i + 1).last() == key.parts());
        }
        let member_at_current = contains_text(all_crates, key.0.as_str()) && key.1.parts_eq(&current);
        proof {
            assert(key.1.parts() == current.parts() <==> key.1@ == current@) by {
                if key.1@ == current@ {
                    assert(key.1.parts() =~= current.parts());
                } else {
                    assert(key.1.parts()[0] != current.parts()[0]);
                }
            }
        }
        if member_at_current {
            let bumped_key = (key.0.clone(), new.clone());
            assert(bumped_key.parts() =~= seq![key.parts()[0], new@]);
            let arrived = after_pkgs.contains_key(&bumped_key) && !before_pkgs.contains_key(
                &bumped_key,
            );
            if !arrived {
                let mut t = owned("  expected `");
                t.append(key.0.as_str());
                t.append("` to be bumped to `");
                t.append(new.as_str());
                t.append("` but it was not");
                let ghost prev = problems@;
                problems.push(t);
                assert(views(problems@) =~= views(prev).push(
                    "  expected `"@ + key.parts()[0] + "` to be bumped to `"@ + new@
                        + "` but it was not"@,
                ));
                missed_ok = false;
            }
        }
        i = i + 1;
    }
    proof {
        assert(bk.take(bk.len() as int) == bk);
        lemma_entries_map(after_pkgs.entries());
        lemma_entries_map(before_pkgs.entries());
        assert forall|k| #[trigger] as_.contains(k) <==> exists|j: int|
            0 <= j < ak.len() && ak[j] == k by {
            if as_.contains(k) {
                let j = choose|j: int|
                    0 <= j < after_pkgs.entries().len() && #[trigger] after_pkgs.entries()[j].0.parts()
                        == k;
                assert(ak[j] == k);
            }
        }
        assert forall|k| #[trigger] bs.contains(k) <==> exists|j: int|
            0 <= j < bk.len() && bk[j] == k by {
            if bs.contains(k) {
                let j = choose|j: int|
                    0 <= j < before_pkgs.entries().len() && #[trigger] before_pkgs.entries()[j].0.parts()
                        == k;
                assert(bk[j] == k);
            }
        }
        lemma_set_check(bs, as_, bk, ak, crates, current@, new@);
    }
    if removed_exact && added_ok && missed_ok {
        return Ok(());
    }
    Err(BumpError::UnexpectedContent { file: owned(file), problems })
}

/// The loop conditions of the set check amount to the set equalities.
proof fn lemma_set_check(
    bs: Set<Seq<Seq<char>>>,
    as_: Set<Seq<Seq<char>>>,
    bk: Seq<Seq<Seq<char>>>,
    ak: Seq<Seq<Seq<char>>>,
    crates: Seq<Seq<char>>,
    current: Seq<char>,
    new: Seq<char>,
)
    requires
        forall|k| #[trigger] bs.contains(k) <==> exists|j: int| 0 <= j < bk.len() && bk[j] == k,
        forall|k| #[trigger] as_.contains(k) <==> exists|j: int| 0 <= j < ak.len() && ak[j] == k,
        forall|j: int| 0 <= j < bk.len() ==> (#[trigger] bk[j]).len() == 2,
        forall|j: int| 0 <= j < ak.len() ==> (#[trigger] ak[j]).len() == 2,
    ensures
        (bs.difference(as_) == removed_set(bs, crates, current) && as_.difference(bs) == added_set(
            bs,
            crates,
            current,
            new,
        )) <==> ((forall|j: int|
            0 <= j < bk.len() ==> (!as_.contains(#[trigger] bk[j]) <==> to_remove(
                bk[j],
                crates,
                current,
            ))) && (forall|j: int|
            0 <= j < ak.len() ==> !stray_added(#[trigger] ak[j], bs, crates, current, new))
            && (forall|j: int|
            0 <= j < bk.len() ==> !missed_bump(#[trigger] bk[j], bs, as_, crates, current, new))),
{
    let er = removed_set(bs, crates, current);
    let ea = added_set(bs, crates, current, new);
    let c1 = forall|j: int|
        0 <= j < bk.len() ==> (!as_.contains(#[trigger] bk[j]) <==> to_remove(bk[j], crates, current));
    let c2 = forall|j: int|
        0 <= j < ak.len() ==> !stray_added(#[trigger] ak[j], bs, crates, current, new);
    let c3 = forall|j: int|
        0 <= j < bk.len() ==> !missed_bump(#[trigger] bk[j], bs, as_, crates, current, new);
    if c1 && c2 && c3 {
        assert(bs.difference(as_) =~= er) by {
            assert forall|k| bs.difference(as_).contains(k) <==> er.contains(k) by {
                if bs.contains(k) {
                    let j = choose|j: int| 0 <= j < bk.len() && bk[j] == k;
                    assert(!as_.contains(bk[j]) <==> to_remove(bk[j], crates, current));
                }
            }
        }
        assert(as_.difference(bs) =~= ea) by {
            assert forall|k| as_.difference(bs).contains(k) <==> ea.contains(k) by {
                if as_.contains(k) && !bs.contains(k) {
                    let j = choose|j: int| 0 <= j < ak.len() && ak[j] == k;
                    assert(!stray_added(ak[j], bs, crates, current, new));
                }
                if ea.contains(k) {
                    let kb = seq![k[0], current];
                    assert(bs.contains(kb));
                    let j = choose|j: int| 0 <= j < bk.len() && bk[j] == kb;
                    assert(!missed_bump(bk[j], bs, as_, crates, current, new));
                    assert(seq![kb[0], new] =~= k);
                }
            }
        }
    }
    if bs.difference(as_) == er && as_.difference(bs) == ea {
        assert(c1) by {
            assert forall|j: int| 0 <= j < bk.len() implies (!as_.contains(#[trigger] bk[j])
                <==> to_remove(bk[j], crates, current)) by {
                assert(bs.contains(bk[j]));
                assert(er.contains(bk[j]) == bs.difference(as_).contains(bk[j]));
            }
        }
        assert(c2) by {
            assert forall|j: int| 0 <= j < ak.len() implies !stray_added(
                #[trigger] ak[j],
                bs,
                crates,
                current,
                new,
            ) by {
                assert(as_.contains(ak[j]));
                assert(ea.contains(ak[j]) == as_.difference(bs).contains(ak[j]));
            }
        }
        assert(c3) by {
            assert forall|j: int| 0 <= j < bk.len() implies !missed_bump(
                #[trigger] bk[j],
                bs,
                as_,
                crates,
                current,
                new,
            ) by {
                let k = bk[j];
                if to_remove(k, crates, current) {
                    let kn = seq![k[0], new];
                    assert(bs.contains(k));
                    assert(seq![kn[0], current] =~= k);
                    assert(ea.contains(kn));
                    assert(as_.difference(bs).contains(kn));
                }
            }
        }
    }
}

// ---------------------------------------------------------------------------
// Laws
// ---------------------------------------------------------------------------

/// A bump to the pre-release `p`.
pub open spec fn becomes(p: Seq<char>) -> Result<Seq<char>, Seq<char>> {
    Ok(p)
}

/// Promotion walks the stages in order: any alpha pre-release becomes
/// `beta.0`, which becomes `rc.0`, which becomes the release; so three
/// promotions take an alpha to its release.
pub proof fn promotion_reaches_release(rest: Seq<char>)
    ensures
        promoted_prerelease("alpha."@ + rest) == becomes("beta.0"@),
        promoted_prerelease("beta.0"@) == becomes("rc.0"@),
        promoted_prerelease("rc.0"@) == becomes(Seq::empty()),
{
    reveal_strlit("alpha.");
    reveal_strlit("alpha");
    reveal_strlit("beta.0");
    reveal_strlit("beta");
    reveal_strlit("rc.0");
    reveal_strlit("rc");
    let a = "alpha."@ + rest;
    assert(a[5] == '.');
    lemma_find_char_first(a, '.', 5);
    assert(a.take(5) =~= "alpha"@);
    let b = "beta.0"@;
    lemma_find_char_first(b, '.', 4);
    assert(b.take(4) =~= "beta"@);
    assert(b.take(4) != "alpha"@);
    let c = "rc.0"@;
    lemma_find_char_first(c, '.', 2);
    assert(c.take(2) =~= "rc"@);
    assert(c.take(2) != "alpha"@);
    assert(c.take(2) != "beta"@);
}

/// Promotion looks only at the stage before the first dot of the
/// pre-release, whatever follows it: `alpha.*` becomes `beta.0`, `beta.*`
/// becomes `rc.0`, `rc.*` becomes the release, and any other stage is
/// refused. The numbers stay, and `bump_version` keeps the build metadata.
pub proof fn promotion_looks_only_at_the_stage(v: Version, stage: Seq<char>, suffix: Seq<char>)
    requires
        v.pre@ == stage + "."@ + suffix,
        forall|j: int| 0 <= j < stage.len() ==> stage[j] != '.',
    ensures
        stage == "alpha"@ ==> bumped(BumpLevel::PromotePreRelease, v) == with_prerelease(
            v,
            becomes("beta.0"@),
        ),
        stage == "beta"@ ==> bumped(BumpLevel::PromotePreRelease, v) == with_prerelease(
            v,
            becomes("rc.0"@),
        ),
        stage == "rc"@ ==> bumped(BumpLevel::PromotePreRelease, v) == with_prerelease(
            v,
            becomes(Seq::empty()),
        ),
        !(stage == "alpha"@ || stage == "beta"@ || stage == "rc"@) ==> bumped(
            BumpLevel::PromotePreRelease,
            v,
        ) == refusal(unsupported_stage(v.pre@)),
{
    reveal_strlit(".");
    let pre = v.pre@;
    let k = stage.len() as int;
    assert(pre[k] == '.');
    assert forall|j: int| 0 <= j < k implies pre[j] != '.' by {
        assert(pre[j] == stage[j]);
    }
    lemma_find_char_first(pre, '.', k);
    assert(pre.take(k) =~= stage);
    assert(pre.skip(k + 1) =~= suffix);
    assert(split_once_spec(pre, '.') == Some((stage, suffix)));
    reveal_strlit("alpha");
    reveal_strlit("beta");
    reveal_strlit("rc");
    assert("beta"@ != "alpha"@) by {
        assert("beta"@[0] != "alpha"@[0]);
    }
    assert("rc"@ != "alpha"@ && "rc"@ != "beta"@) by {
        assert("rc"@.len() != "alpha"@.len() && "rc"@.len() != "beta"@.len());
    }
}

/// A manifest that `bump_manifest` accepted differs from the manifest as it
/// was only in version fields: each changed leaf is the workspace or package version
/// moving from `current` to `new`, or a member's pinning requirement in
/// `[workspace.dependencies]` moving from a pin of `current` to a pin of
/// `new`.
pub proof fn bumped_manifest_changes_only_version_fields(
    file: Seq<char>,
    original: TomlNode,
    bumped: TomlNode,
    members: WorkspaceMembers,
    current: Version,
    new: Version,
)
    requires
        changes(flat(original), flat(bumped)) == targets_spec(
            file,
            original,
            members,
            version_text(current),
            version_text(new),
        ),
    ensures
        forall|k| #[trigger] changes(flat(original), flat(bumped)).contains_key(k)
            ==> version_field_change(
            k,
            changes(flat(original), flat(bumped))[k],
            views(members.names@),
            version_text(current),
            version_text(new),
        ),
{
    bump_targets_are_version_fields(file, original, members, version_text(current), version_text(new));
}

/// With nothing to bump, no edit is made: the text stays as it was (and
/// `bump_manifest` then returns it unchanged, since a document shows no
/// change against itself).
pub proof fn nothing_to_bump_keeps_text(text: Seq<char>)
    ensures
        apply_edits(text, target_edits(Map::empty())) == Some(text),
{
    let k = key_order(Set::<Seq<Seq<char>>>::empty());
    assert(crate::utils::ordmap::increasing(Seq::<Seq<Seq<char>>>::empty()));
    assert(Seq::<Seq<Seq<char>>>::empty().to_set() =~= Set::<Seq<Seq<char>>>::empty());
    assert(k.to_set() == Set::<Seq<Seq<char>>>::empty());
    if k.len() > 0 {
        assert(k.to_set().contains(k[0]));
    }
    assert(target_edits(Map::empty()).len() == 0);
}

/// The pre-release after `<tag>.<n>` is `<tag>.<n + 1>` when the tag is a
/// valid identifier, and stays as it was when it is not.
proof fn lemma_prerelease_step(tag: Seq<char>, n: u64)
    requires
        forall|j: int| 0 <= j < tag.len() ==> tag[j] != '.',
        n < u64::MAX,
    ensures
        split_on(tag + "."@ + decimal(n as nat), '.')[0] == tag,
        valid_pre_identifier(tag) ==> next_prerelease(tag + "."@ + decimal(n as nat)) == becomes(
            tag + "."@ + decimal((n + 1) as nat),
        ),
        !valid_pre_identifier(tag) ==> next_prerelease(tag + "."@ + decimal(n as nat)) == becomes(
            tag + "."@ + decimal(n as nat),
        ),
{
    reveal_strlit(".");
    let k = tag.len() as int;
    let before = decimal(n as nat);
    let after = decimal((n + 1) as nat);
    lemma_decimal(n as nat);
    lemma_decimal((n + 1) as nat);
    let a = tag + "."@ + before;
    assert(a[k] == '.');
    assert forall|j: int| 0 <= j < k implies a[j] != '.' by {
        assert(a[j] == tag[j]);
    }
    lemma_find_char_first(a, '.', k);
    assert(a.take(k) =~= tag);
    assert(a.skip(k + 1) =~= before);
    assert(before[0] != '+') by {
        assert(is_digit(before[0]));
    }
    assert(parse_unsigned(before, u64::MAX as nat) == Some(n as nat));
    let c = tag + "."@ + after;
    assert(c[k] == '.');
    assert forall|j: int| 0 <= j < k implies c[j] != '.' by {
        assert(c[j] == tag[j]);
    }
    lemma_find_char_first(c, '.', k);
    assert(c.take(k) =~= tag);
    assert(c.skip(k + 1) =~= after);
    lemma_find_char(after, '.');
    assert(find_char(after, '.') is None) by {
        if find_char(after, '.') is Some {
            let i = find_char(after, '.')->Some_0;
            assert(is_digit(after[i]));
        }
    }
    assert(split_on(after, '.') == seq![after]);
    assert(split_on(c, '.') =~= seq![tag, after]);
    assert(valid_pre_identifier(after)) by {
        assert forall|i: int| 0 <= i < after.len() implies identifier_char(#[trigger] after[i]) by {
            assert(is_digit(after[i]));
        }
    }
    if valid_pre_identifier(tag) {
        assert(valid_prerelease(c)) by {
            assert forall|i: int| 0 <= i < split_on(c, '.').len() implies valid_pre_identifier(
                #[trigger] split_on(c, '.')[i],
            ) by {
                if i == 0 {
                    assert(split_on(c, '.')[0] == tag);
                } else {
                    assert(split_on(c, '.')[1] == after);
                }
            }
        }
    } else {
        assert(!valid_prerelease(c)) by {
            assert(split_on(c, '.')[0] == tag);
            assert(c.len() > 0);
        }
    }
    assert(sat_inc(n) == n + 1);
}

/// A pre-release bump counts the number after the tag up by one:
/// `1.2.3-alpha.1` becomes `1.2.3-alpha.2`, `1.2.3-rc.9` becomes
/// `1.2.3-rc.10`; the numbers stay, and `bump_version` keeps the build
/// metadata.
pub proof fn prerelease_bump_counts_up(v: Version, tag: Seq<char>, n: u64)
    requires
        v.wf(),
        v.pre@ == tag + "."@ + decimal(n as nat),
        forall|j: int| 0 <= j < tag.len() ==> tag[j] != '.',
        n < u64::MAX,
    ensures
        bumped(BumpLevel::PreRelease, v) == with_prerelease(
            v,
            becomes(tag + "."@ + decimal((n + 1) as nat)),
        ),
{
    lemma_prerelease_step(tag, n);
    let pre = v.pre@;
    assert(pre.len() > 0) by {
        reveal_strlit(".");
        assert(pre[tag.len() as int] == '.');
    }
    assert(valid_pre_identifier(split_on(pre, '.')[0]));
}

/// `PatchOrPreRelease` is the pre-release bump for a pre-release version and
/// the patch bump for a release.
pub proof fn patch_or_prerelease_picks_by_prerelease(v: Version)
    ensures
        v.pre@.len() == 0 ==> bumped(BumpLevel::PatchOrPreRelease, v) == bumped(BumpLevel::Patch, v),
        v.pre@.len() > 0 ==> bumped(BumpLevel::PatchOrPreRelease, v) == bumped(
            BumpLevel::PreRelease,
            v,
        ),
{
}

} // verus!
