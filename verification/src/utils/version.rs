//! Semantic versions as plain values. Parsing and pre-release validation are
//! `semver`'s; the version's text is the one `semver` displays.
use crate::utils::text::{decimal, decimal_string, find_char, lemma_find_char_first, split_on};
use vstd::prelude::*;

verus! {

/// A semantic version: `major.minor.patch[-pre][+build]`.
#[derive(Debug, Clone, PartialEq, Eq)]
pub struct Version {
    pub major: u64,
    pub minor: u64,
    pub patch: u64,
    /// The pre-release identifiers, empty when there are none.
    pub pre: String,
    /// The build metadata, empty when there is none.
    pub build: String,
}

/// The text of a version, as `semver` displays it: the three numbers in
/// decimal joined by dots, then `-pre` and `+build` when not empty.
pub open spec fn version_text(v: Version) -> Seq<char> {
    decimal(v.major as nat) + "."@ + decimal(v.minor as nat) + "."@ + decimal(v.patch as nat) + (if v.pre@.len() > 0 {
        "-"@ + v.pre@
    } else {
        Seq::empty()
    }) + (if v.build@.len() > 0 {
        "+"@ + v.build@
    } else {
        Seq::empty()
    })
}

/// A character that a pre-release identifier may hold.
pub open spec fn identifier_char(c: char) -> bool {
    ('A' <= c <= 'Z') || ('a' <= c <= 'z') || c == '-' || ('0' <= c <= '9')
}

/// One dot-separated pre-release identifier: not empty, of identifier
/// characters, and without a leading zero when it is a number of more than
/// one digit.
pub open spec fn valid_pre_identifier(s: Seq<char>) -> bool {
    &&& s.len() > 0
    &&& forall|i: int| 0 <= i < s.len() ==> identifier_char(#[trigger] s[i])
    &&& !(s.len() > 1 && s[0] == '0' && forall|i: int|
        0 <= i < s.len() ==> '0' <= #[trigger] s[i] <= '9')
}

/// What `semver::Prerelease::new` accepts: the empty text, or identifiers
/// joined by dots.
pub open spec fn valid_prerelease(s: Seq<char>) -> bool {
    s.len() == 0 || forall|i: int|
        0 <= i < split_on(s, '.').len() ==> valid_pre_identifier(#[trigger] split_on(s, '.')[i])
}

/// What `semver::Version::parse` makes of a text: the numbers, pre-release
/// and build texts of the version, or the parser's message.
pub uninterp spec fn semver_parse(text: Seq<char>) -> Result<(u64, u64, u64, Seq<char>, Seq<char>), Seq<char>>;

/// A version parse that gave `v`.
pub open spec fn parsed_as(v: Version) -> Result<(u64, u64, u64, Seq<char>, Seq<char>), Seq<char>> {
    Ok((v.major, v.minor, v.patch, v.pre@, v.build@))
}

/// A version parse refused with `message`.
pub open spec fn refused_with(message: Seq<char>) -> Result<(u64, u64, u64, Seq<char>, Seq<char>), Seq<char>> {
    Err(message)
}

/// `semver::Version::parse`, its fields copied into a [`Version`]; on
/// failure the error's display. The parser reads the pre-release with the
/// same identifier check as `semver::Prerelease::new`, so what it accepts
/// is a valid pre-release.
#[verifier::external_body]
fn semver_version_parse(text: &str) -> (r: Result<Version, String>)
    ensures
        r matches Ok(v) ==> semver_parse(text@) == parsed_as(v),
        r matches Ok(v) ==> valid_prerelease(v.pre@),
        r matches Err(m) ==> semver_parse(text@) == refused_with(m@),
{
    match semver::Version::parse(text) {
        Ok(v) => Ok(
            Version {
                major: v.major,
                minor: v.minor,
                patch: v.patch,
                pre: v.pre.as_str().to_string(),
                build: v.build.as_str().to_string(),
            },
        ),
        Err(e) => Err(e.to_string()),
    }
}

/// `semver::Prerelease::new`: accepts what `valid_prerelease` describes and
/// then holds exactly the given text.
#[verifier::external_body]
fn semver_prerelease(text: &str) -> (r: Option<String>)
    ensures
        r is Some <==> valid_prerelease(text@),
        r matches Some(p) ==> p@ == text@,
{
    semver::Prerelease::new(text).ok().map(|p| p.as_str().to_string())
}

/// `word.0` is a valid pre-release, for an identifier `word` of letters.
pub proof fn lemma_word_dot_zero(word: Seq<char>)
    requires
        word.len() > 0,
        forall|i: int| 0 <= i < word.len() ==> 'a' <= #[trigger] word[i] <= 'z',
    ensures
        valid_prerelease(word + "."@ + "0"@),
{
    reveal_strlit(".");
    reveal_strlit("0");
    let s = word + "."@ + "0"@;
    let n = word.len() as int;
    assert(s.len() == n + 2);
    assert(s[n] == '.');
    assert(s[n + 1] == '0');
    lemma_find_char_first(s, '.', n);
    let tail = s.skip(n + 1);
    assert(tail =~= seq!['0']);
    assert(find_char(tail, '.') is None) by {
        assert(tail[0] != '.');
        assert(tail.drop_first() =~= Seq::<char>::empty());
        assert(find_char(tail.drop_first(), '.') is None);
    }
    assert(split_on(tail, '.') == seq![tail]);
    assert(s.take(n) =~= word);
    assert(split_on(s, '.') =~= seq![word, tail]);
    assert(valid_pre_identifier(word)) by {
        assert(word[0] != '0');
    }
    assert(valid_pre_identifier(tail));
}

/// The pre-releases a bump starts a stage with, and the empty one, are
/// valid.
pub proof fn lemma_stage_starts_valid()
    ensures
        valid_prerelease("alpha.0"@),
        valid_prerelease("beta.0"@),
        valid_prerelease("rc.0"@),
        valid_prerelease(""@),
{
    reveal_strlit("alpha.0");
    reveal_strlit("beta.0");
    reveal_strlit("rc.0");
    reveal_strlit("");
    reveal_strlit(".");
    reveal_strlit("0");
    let alpha = seq!['a', 'l', 'p', 'h', 'a'];
    let beta = seq!['b', 'e', 't', 'a'];
    let rc = seq!['r', 'c'];
    lemma_word_dot_zero(alpha);
    lemma_word_dot_zero(beta);
    lemma_word_dot_zero(rc);
    assert("alpha.0"@ =~= alpha + "."@ + "0"@);
    assert("beta.0"@ =~= beta + "."@ + "0"@);
    assert("rc.0"@ =~= rc + "."@ + "0"@);
}

/// Why a version text did not parse: the parser's message.
#[derive(Debug)]
pub struct VersionParseError {
    pub message: String,
}

impl VersionParseError {
    /// The parser's message.
    pub fn to_string(&self) -> (r: String)
        ensures
            r@ == self.message@,
    {
        self.message.clone()
    }
}

/// A pre-release checked by `semver`: the text when it is a valid
/// pre-release.
pub fn prerelease(text: &str) -> (r: Option<String>)
    ensures
        r is Some <==> valid_prerelease(text@),
        r matches Some(p) ==> p@ == text@,
{
    semver_prerelease(text)
}

impl Version {
    /// What every version that `semver` parses satisfies: its pre-release
    /// is valid.
    pub open spec fn wf(self) -> bool {
        valid_prerelease(self.pre@)
    }

    /// Parses a version.
    pub fn parse(text: &str) -> (r: Result<Version, VersionParseError>)
        ensures
            r matches Ok(v) ==> semver_parse(text@) == parsed_as(v) && v.wf(),
            r matches Err(e) ==> semver_parse(text@) == refused_with(e.message@),
    {
        match semver_version_parse(text) {
            Ok(v) => Ok(v),
            Err(message) => Err(VersionParseError { message }),
        }
    }

    /// The version's text.
    pub fn to_string(&self) -> (r: String)
        ensures
            r@ == version_text(*self),
    {
        let mut r = decimal_string(self.major);
        r.append(".");
        r.append(decimal_string(self.minor).as_str());
        r.append(".");
        r.append(decimal_string(self.patch).as_str());
        if !self.pre.as_str().is_empty() {
            r.append("-");
            r.append(self.pre.as_str());
        }
        if !self.build.as_str().is_empty() {
            r.append("+");
            r.append(self.build.as_str());
        }
        r
    }

    /// A copy of the version.
    pub fn copy(&self) -> (r: Version)
        ensures
            r == *self,
    {
        Version {
            major: self.major,
            minor: self.minor,
            patch: self.patch,
            pre: self.pre.clone(),
            build: self.build.clone(),
        }
    }
}

} // verus!
