//! Version ordering: versions are parsed and compared by the `semver` crate;
//! the library keeps the parsed fields and reasons about the order they
//! stand in.

use vstd::prelude::*;

verus! {

/// How one version stands to another.
#[derive(Copy, Clone, Debug, PartialEq, Eq, Structural)]
pub enum Precedence {
    Less,
    Equal,
    Greater,
}

impl Precedence {
    /// The same relation read from the other side.
    pub open spec fn reversed(self) -> Precedence {
        match self {
            Precedence::Less => Precedence::Greater,
            Precedence::Equal => Precedence::Equal,
            Precedence::Greater => Precedence::Less,
        }
    }
}

/// The fields of a version.
pub ghost struct VersionView {
    pub major: u64,
    pub minor: u64,
    pub patch: u64,
    pub pre: Seq<char>,
    pub build: Seq<char>,
}

/// A version as `semver` parsed it. Values come from [`ParsedVersion::parse`]
/// only, so each one is a version that `semver` accepts.
#[derive(Debug)]
pub struct ParsedVersion {
    major: u64,
    minor: u64,
    patch: u64,
    pre: String,
    build: String,
}

impl View for ParsedVersion {
    type V = VersionView;

    closed spec fn view(&self) -> VersionView {
        VersionView {
            major: self.major,
            minor: self.minor,
            patch: self.patch,
            pre: self.pre@,
            build: self.build@,
        }
    }
}

/// What `semver::Version::parse` makes of the text that `text` encodes:
/// the fields of the version, or `None` where the bytes are no UTF-8 or the
/// text is no version.
pub uninterp spec fn semver_parse(text: Seq<u8>) -> Option<VersionView>;

/// How `semver` orders the version with the fields `a` against the one with
/// the fields `b`: the result of `Ord::cmp` on the two.
pub uninterp spec fn semver_precedence(a: VersionView, b: VersionView) -> Precedence;

/// `v` is a version that `semver` accepts: some text parses to it.
pub open spec fn is_semver(v: VersionView) -> bool {
    exists|text: Seq<u8>| semver_parse(text) == Some(v)
}

/// `a` does not come after `b`.
pub open spec fn at_most(a: VersionView, b: VersionView) -> bool {
    a == b || semver_precedence(a, b) != Precedence::Greater
}

/// The view of a parse result.
pub open spec fn parsed_view(r: Option<ParsedVersion>) -> Option<VersionView> {
    match r {
        Some(v) => Some(v@),
        None => None,
    }
}

/// What comparing `a` with `b` tells about the order beyond the pair itself:
/// read from the other side the result is reversed, and where `a` does not
/// come before `b`, whatever does not come after `b` does not come after `a`.
pub open spec fn ordered_pair(a: VersionView, b: VersionView, r: Precedence) -> bool {
    &&& semver_precedence(b, a) == r.reversed()
    &&& forall|c: VersionView|
        is_semver(c) && r != Precedence::Less && #[trigger] semver_precedence(c, b)
            != Precedence::Greater ==> semver_precedence(c, a) != Precedence::Greater
}

/// Calls `semver::Version::parse` on the text that `text` encodes and copies
/// the fields out of the version. Claimed: the result is a function of the
/// bytes alone.
#[verifier::external_body]
fn semver_parse_text(text: &[u8]) -> (r: Option<ParsedVersion>)
    ensures
        parsed_view(r) == semver_parse(text@),
{
    let v = semver::Version::parse(std::str::from_utf8(text).ok()?).ok()?;
    Some(
        ParsedVersion {
            major: v.major,
            minor: v.minor,
            patch: v.patch,
            pre: v.pre.as_str().to_owned(),
            build: v.build.as_str().to_owned(),
        },
    )
}

/// Builds the two `semver::Version` values from their fields and calls
/// `Ord::cmp` on them. Claimed: the result is a function of the fields alone,
/// and `cmp` is the total order that `Ord` documents (antisymmetric and
/// transitive). The fields of a parsed version are identifiers that
/// `Prerelease::new` and `BuildMetadata::new` accept, so nothing is unwrapped
/// in vain.
#[verifier::external_body]
fn semver_compare(a: &ParsedVersion, b: &ParsedVersion) -> (r: Precedence)
    requires
        is_semver(a@),
        is_semver(b@),
    ensures
        r == semver_precedence(a@, b@),
        ordered_pair(a@, b@, r),
{
    let mut x = semver::Version::new(a.major, a.minor, a.patch);
    x.pre = semver::Prerelease::new(&a.pre).unwrap();
    x.build = semver::BuildMetadata::new(&a.build).unwrap();
    let mut y = semver::Version::new(b.major, b.minor, b.patch);
    y.pre = semver::Prerelease::new(&b.pre).unwrap();
    y.build = semver::BuildMetadata::new(&b.build).unwrap();
    match x.cmp(&y) {
        std::cmp::Ordering::Less => Precedence::Less,
        std::cmp::Ordering::Equal => Precedence::Equal,
        std::cmp::Ordering::Greater => Precedence::Greater,
    }
}

impl ParsedVersion {
    /// This value is a version that `semver` accepts.
    pub open spec fn wf(&self) -> bool {
        is_semver(self@)
    }

    /// Parses the version that `text` spells out.
    pub fn parse(text: &[u8]) -> (r: Option<ParsedVersion>)
        ensures
            parsed_view(r) == semver_parse(text@),
            r matches Some(v) ==> v.wf(),
    {
        semver_parse_text(text)
    }

    /// How this version stands to `other`.
    pub fn precedence(&self, other: &ParsedVersion) -> (r: Precedence)
        requires
            self.wf(),
            other.wf(),
        ensures
            r == semver_precedence(self@, other@),
            ordered_pair(self@, other@, r),
    {
        semver_compare(self, other)
    }

    /// Tells whether this version replaces `current` as the latest one of a
    /// package when it is observed after it: it does unless it comes before
    /// `current`.
    pub fn supersedes(&self, current: &ParsedVersion) -> (r: bool)
        requires
            self.wf(),
            current.wf(),
        ensures
            r == replaces(semver_precedence(self@, current@)),
            ordered_pair(self@, current@, semver_precedence(self@, current@)),
    {
        replaces_current(self.precedence(current))
    }

    pub fn major(&self) -> (n: u64)
        ensures
            n == self@.major,
    {
        self.major
    }

    pub fn minor(&self) -> (n: u64)
        ensures
            n == self@.minor,
    {
        self.minor
    }

    pub fn patch(&self) -> (n: u64)
        ensures
            n == self@.patch,
    {
        self.patch
    }

    /// The pre-release identifiers, empty for a release.
    pub fn pre(&self) -> (s: &str)
        ensures
            s@ == self@.pre,
    {
        self.pre.as_str()
    }

    /// The build metadata, empty where there is none.
    pub fn build(&self) -> (s: &str)
        ensures
            s@ == self@.build,
    {
        self.build.as_str()
    }
}

/// A version observed later replaces the current one unless it comes before
/// it: of two equal versions the later one stays.
pub open spec fn replaces(observed_to_current: Precedence) -> bool {
    observed_to_current != Precedence::Less
}

/// Decides from the comparison of an observed version with the current one
/// whether the observed one replaces it.
pub fn replaces_current(observed_to_current: Precedence) -> (r: bool)
    ensures
        r == replaces(observed_to_current),
{
    match observed_to_current {
        Precedence::Less => false,
        Precedence::Equal => true,
        Precedence::Greater => true,
    }
}

/// Parses two version texts and compares them; `None` where one of them is
/// no version.
pub fn compare_texts(a: &[u8], b: &[u8]) -> (r: Option<Precedence>)
    ensures
        r == match (semver_parse(a@), semver_parse(b@)) {
            (Some(x), Some(y)) => Some(semver_precedence(x, y)),
            _ => None,
        },
{
    match ParsedVersion::parse(a) {
        Some(x) => match ParsedVersion::parse(b) {
            Some(y) => Some(x.precedence(&y)),
            None => None,
        },
        None => None,
    }
}

} // verus!
