//! The corpus indexer: from the paths that a walk of the corpus found to the
//! archives that a run operates over, all of them or the latest one of each
//! package.
//!
//! An archive lies at `<root>/<package>/<package>-<version>.crate`.

use crate::paths::{
    copy_range, ends_with, file_name, file_name_start, has_prefix, has_suffix, last_separator,
    lemma_last_separator, parent, starts_with, SEPARATOR,
};
use crate::table::NameTable;
use crate::version::{
    at_most, is_semver, ordered_pair, replaces, semver_parse, semver_precedence, ParsedVersion,
    Precedence, VersionView,
};
use crate::Versions;
use vstd::prelude::*;

verus! {

/// The byte between the package name and the version in an archive's name.
pub const DASH: u8 = 45u8;

/// The length of the archive extension.
pub const EXTENSION_LEN: usize = 6;

/// The archive extension, `.crate`.
pub open spec fn archive_extension() -> Seq<u8> {
    seq![46u8, 99u8, 114u8, 97u8, 116u8, 101u8]
}

/// The name of `p` ends in the archive extension.
pub open spec fn is_archive(p: Seq<u8>) -> bool {
    has_suffix(file_name(p), archive_extension())
}

/// The archives among `walked`, in their order.
pub open spec fn archives_among(walked: Seq<Seq<u8>>) -> Seq<Seq<u8>> {
    walked.filter(|p: Seq<u8>| is_archive(p))
}

/// The views of a sequence of byte strings.
pub open spec fn byte_strings(v: Seq<Vec<u8>>) -> Seq<Seq<u8>> {
    v.map_values(|p: Vec<u8>| p@)
}

/// The package that an archive at `p` belongs to: the name of the directory
/// it lies in.
pub open spec fn package_name(p: Seq<u8>) -> Seq<u8> {
    file_name(parent(p))
}

/// The version text in the name of an archive at `p`: what stands between
/// the package name with its dash and the extension. `None` where the name
/// does not start with the package name and a dash.
pub open spec fn version_text(p: Seq<u8>) -> Option<Seq<u8>> {
    let name = file_name(p);
    let package = package_name(p);
    if has_prefix(name, package.push(DASH)) && name.len() >= package.len() + 1 + EXTENSION_LEN {
        Some(name.subrange(package.len() + 1 as int, name.len() - EXTENSION_LEN))
    } else {
        None
    }
}

/// Why an archive is not indexed.
#[derive(Copy, Clone, Debug, PartialEq, Eq, Structural)]
pub enum IndexingErrorKind {
    /// The archive lies in no named directory, so it belongs to no package.
    NoPackage,
    /// The archive's name does not start with its package's name and a dash.
    NameMismatch,
    /// The version in the archive's name is no version.
    MalformedVersion,
}

/// What a path of the corpus is to the indexer.
pub ghost enum PathClass {
    /// No archive.
    Other,
    /// An archive that cannot be indexed.
    Rejected(IndexingErrorKind),
    /// An archive of `package` in `version`.
    Candidate { package: Seq<u8>, version: VersionView },
}

/// Classifies a path of the corpus.
pub open spec fn classify(p: Seq<u8>) -> PathClass {
    if !is_archive(p) {
        PathClass::Other
    } else if package_name(p).len() == 0 {
        PathClass::Rejected(IndexingErrorKind::NoPackage)
    } else {
        match version_text(p) {
            None => PathClass::Rejected(IndexingErrorKind::NameMismatch),
            Some(text) => match semver_parse(text) {
                None => PathClass::Rejected(IndexingErrorKind::MalformedVersion),
                Some(version) => PathClass::Candidate { package: package_name(p), version },
            },
        }
    }
}

/// A path of the corpus as the indexer classified it.
#[derive(Debug)]
pub enum Classified {
    Other,
    Rejected(IndexingErrorKind),
    Candidate { package: Vec<u8>, version: ParsedVersion },
}

impl View for Classified {
    type V = PathClass;

    open spec fn view(&self) -> PathClass {
        match self {
            Classified::Other => PathClass::Other,
            Classified::Rejected(kind) => PathClass::Rejected(*kind),
            Classified::Candidate { package, version } => PathClass::Candidate {
                package: package@,
                version: version@,
            },
        }
    }
}

/// A path ends in the archive extension just when its name does: the
/// extension holds no separator.
pub proof fn lemma_archive_suffix(p: Seq<u8>)
    ensures
        is_archive(p) == has_suffix(p, archive_extension()),
{
    lemma_last_separator(p);
    let ext = archive_extension();
    let k = last_separator(p);
    let name = file_name(p);
    if has_suffix(p, ext) {
        let tail = p.subrange(p.len() - ext.len(), p.len() as int);
        assert forall|i: int| p.len() - ext.len() <= i < p.len() implies p[i] != SEPARATOR by {
            assert(tail[i - (p.len() - ext.len())] == p[i]);
        }
        assert(k < p.len() - ext.len());
        assert(name.subrange(name.len() - ext.len(), name.len() as int) =~= tail);
    }
    if has_suffix(name, ext) {
        assert(p.subrange(p.len() - ext.len(), p.len() as int) =~= name.subrange(
            name.len() - ext.len(),
            name.len() as int,
        ));
    }
}

/// Tells whether `s` ends in the archive extension.
pub fn has_archive_extension(s: &[u8]) -> (b: bool)
    ensures
        b == has_suffix(s@, archive_extension()),
{
    let extension: [u8; 6] = [46u8, 99u8, 114u8, 97u8, 116u8, 101u8];
    assert(extension@ =~= archive_extension());
    ends_with(s, extension.as_slice())
}

/// Tells whether the name of `p` ends in the archive extension.
pub fn is_archive_path(p: &[u8]) -> (b: bool)
    ensures
        b == is_archive(p@),
{
    proof {
        lemma_archive_suffix(p@);
    }
    has_archive_extension(p)
}

/// Every archive among the paths that a walk found, in the order of the walk.
pub fn collect_all_crates(walked: &Vec<Vec<u8>>) -> (found: Vec<Vec<u8>>)
    ensures
        byte_strings(found@) == archives_among(byte_strings(walked@)),
{
    let ghost all = byte_strings(walked@);
    let ghost pred = |p: Seq<u8>| is_archive(p);
    let mut found: Vec<Vec<u8>> = Vec::new();
    let mut i: usize = 0;
    proof {
        reveal(Seq::filter);
        assert(all.subrange(0, 0) =~= Seq::<Seq<u8>>::empty());
        assert(byte_strings(found@) =~= Seq::<Seq<u8>>::empty());
    }
    while i < walked.len()
        invariant
            i <= walked@.len(),
            all == byte_strings(walked@),
            pred == (|p: Seq<u8>| is_archive(p)),
            byte_strings(found@) == all.subrange(0, i as int).filter(pred),
        decreases walked@.len() - i,
    {
        let path = &walked[i];
        let ghost before = byte_strings(found@);
        if is_archive_path(path.as_slice()) {
            let copy = copy_range(path.as_slice(), 0, path.len());
            assert(copy@ =~= path@);
            found.push(copy);
            assert(byte_strings(found@) =~= before.push(path@));
        }
        proof {
            reveal(Seq::filter);
            let next = all.subrange(0, i + 1);
            assert(next.drop_last() =~= all.subrange(0, i as int));
            assert(next.last() == path@);
        }
        i += 1;
    }
    assert(all.subrange(0, walked@.len() as int) =~= all);
    found
}

/// Classifies one path of the corpus: no archive, an archive that cannot be
/// indexed, or an archive with its package and its parsed version.
pub fn classify_path(p: &[u8]) -> (c: Classified)
    ensures
        c@ == classify(p@),
        c matches Classified::Candidate { version, .. } ==> version.wf(),
{
    if !is_archive_path(p) {
        return Classified::Other;
    }
    let start = file_name_start(p);
    if start == 0 {
        assert(parent(p@) =~= Seq::<u8>::empty());
        assert(package_name(p@) =~= Seq::<u8>::empty());
        return Classified::Rejected(IndexingErrorKind::NoPackage);
    }
    let name = copy_range(p, start, p.len());
    let dir = copy_range(p, 0, start - 1);
    let package_start = file_name_start(dir.as_slice());
    let package = copy_range(dir.as_slice(), package_start, dir.len());
    assert(name@ == file_name(p@));
    assert(dir@ == parent(p@));
    assert(package@ == package_name(p@));
    if package.len() == 0 {
        return Classified::Rejected(IndexingErrorKind::NoPackage);
    }
    if name.len() - EXTENSION_LEN <= package.len() || !starts_with(
        name.as_slice(),
        package.as_slice(),
    ) || name[package.len()] != DASH {
        proof {
            let prefix = package@.push(DASH);
            if has_prefix(name@, prefix) && name@.len() >= package@.len() + 1 + EXTENSION_LEN {
                let head = name@.subrange(0, prefix.len() as int);
                assert(head[package@.len() as int] == name@[package@.len() as int]);
                assert(name@.subrange(0, package@.len() as int) =~= head.subrange(
                    0,
                    package@.len() as int,
                ));
                assert(prefix.subrange(0, package@.len() as int) =~= package@);
            }
        }
        return Classified::Rejected(IndexingErrorKind::NameMismatch);
    }
    proof {
        let prefix = package@.push(DASH);
        assert(name@.subrange(0, prefix.len() as int) =~= name@.subrange(
            0,
            package@.len() as int,
        ).push(DASH));
    }
    let text = copy_range(name.as_slice(), package.len() + 1, name.len() - EXTENSION_LEN);
    assert(version_text(p@) == Some(text@));
    match ParsedVersion::parse(text.as_slice()) {
        None => Classified::Rejected(IndexingErrorKind::MalformedVersion),
        Some(version) => Classified::Candidate { package, version },
    }
}

/// The archive selected for one package.
#[derive(Debug)]
pub struct Selected {
    /// The package's name.
    pub package: Vec<u8>,
    /// The archive's path, as the walk gave it.
    pub path: Vec<u8>,
    /// The version in the archive's name.
    pub version: ParsedVersion,
    /// Where the path stands among the walked paths.
    pub position: usize,
}

/// An archive that could not be indexed.
#[derive(Copy, Clone, Debug, PartialEq, Eq, Structural)]
pub struct IndexingError {
    /// Where the archive's path stands among the walked paths.
    pub position: usize,
    /// Why it was left out.
    pub kind: IndexingErrorKind,
}

/// The latest archive of each package, and the archives left out.
#[derive(Debug)]
pub struct LatestIndex {
    pub selected: Vec<Selected>,
    pub errors: Vec<IndexingError>,
}

/// The path at `j` is an archive of `package` with a version.
pub open spec fn candidate_for(w: Seq<Seq<u8>>, j: int, package: Seq<u8>) -> bool {
    &&& 0 <= j < w.len()
    &&& classify(w[j]) is Candidate
    &&& package_name(w[j]) == package
}

/// The version of the archive at `p`.
pub open spec fn version_of(p: Seq<u8>) -> VersionView {
    classify(p)->version
}

/// Among the first `n` paths, the one at `i` is the latest archive of its
/// package: none of them has a later version, and those that come after it
/// have an earlier one.
pub open spec fn latest_among(w: Seq<Seq<u8>>, n: int, i: int) -> bool {
    &&& 0 <= i < n <= w.len()
    &&& classify(w[i]) is Candidate
    &&& forall|j: int|
        0 <= j < n && #[trigger] candidate_for(w, j, package_name(w[i])) ==> {
            &&& at_most(version_of(w[j]), version_of(w[i]))
            &&& i < j ==> !at_most(version_of(w[i]), version_of(w[j]))
        }
}

/// `s` is the entry for the latest archive of its package among the first
/// `n` paths.
pub open spec fn selects(w: Seq<Seq<u8>>, n: int, s: Selected) -> bool {
    &&& latest_among(w, n, s.position as int)
    &&& s.path@ == w[s.position as int]
    &&& s.package@ == package_name(w[s.position as int])
    &&& s.version@ == version_of(w[s.position as int])
}

/// `sel` is the selection over the first `n` paths: each entry is the latest
/// archive of its package, no package has two entries, and every package
/// with an archive that has a version has one.
pub open spec fn selection_of(w: Seq<Seq<u8>>, n: int, sel: Seq<Selected>) -> bool {
    &&& forall|k: int| 0 <= k < sel.len() ==> selects(w, n, #[trigger] sel[k])
    &&& forall|k1: int, k2: int|
        0 <= k1 < k2 < sel.len() ==> (#[trigger] sel[k1]).package@ != (#[trigger] sel[k2]).package@
    &&& forall|j: int|
        0 <= j < n && #[trigger] classify(w[j]) is Candidate ==> exists|k: int|
            0 <= k < sel.len() && (#[trigger] sel[k]).package@ == package_name(w[j])
}

/// `errors` lists, in the order of the walk, the archives among the first
/// `n` paths that cannot be indexed, each with the reason.
pub open spec fn rejections_of(w: Seq<Seq<u8>>, n: int, errors: Seq<IndexingError>) -> bool {
    &&& forall|e: int|
        0 <= e < errors.len() ==> {
            &&& 0 <= (#[trigger] errors[e]).position < n
            &&& classify(w[errors[e].position as int]) == PathClass::Rejected(errors[e].kind)
        }
    &&& forall|e1: int, e2: int|
        0 <= e1 < e2 < errors.len() ==> (#[trigger] errors[e1]).position < (
        #[trigger] errors[e2]).position
    &&& forall|j: int|
        0 <= j < n && #[trigger] classify(w[j]) is Rejected ==> exists|e: int|
            0 <= e < errors.len() && (#[trigger] errors[e]).position == j
}

/// A package with an archive that has a version has exactly one entry in
/// the selection, and no archive of the package has a later version than
/// the one selected.
pub proof fn lemma_one_latest_per_package(w: Seq<Seq<u8>>, sel: Seq<Selected>, j: int)
    requires
        selection_of(w, w.len() as int, sel),
        0 <= j < w.len(),
        classify(w[j]) is Candidate,
    ensures
        exists|k: int|
            {
                &&& 0 <= k < sel.len()
                &&& (#[trigger] sel[k]).package@ == package_name(w[j])
                &&& at_most(version_of(w[j]), sel[k].version@)
                &&& forall|m: int|
                    0 <= m < sel.len() && (#[trigger] sel[m]).package@ == package_name(w[j])
                        ==> m == k
            },
{
    let k = choose|k: int| 0 <= k < sel.len() && (#[trigger] sel[k]).package@ == package_name(w[j]);
    assert(selects(w, w.len() as int, sel[k]));
    assert(candidate_for(w, j, package_name(w[sel[k].position as int])));
    assert forall|m: int|
        0 <= m < sel.len() && (#[trigger] sel[m]).package@ == package_name(w[j]) implies m
        == k by {
        if m < k {
            assert(sel[m].package@ != sel[k].package@);
        } else if k < m {
            assert(sel[k].package@ != sel[m].package@);
        }
    }
}

/// `sel` holds an entry for the package of `s` with the archive of `s`.
pub open spec fn holds_entry(sel: Seq<Selected>, s: Selected) -> bool {
    exists|m: int|
        0 <= m < sel.len() && (#[trigger] sel[m]).package@ == s.package@ && sel[m].position
            == s.position && sel[m].path@ == s.path@
}

/// Two selections over the same paths hold the same archive for each
/// package, whatever order their entries stand in.
pub proof fn lemma_selection_unique(w: Seq<Seq<u8>>, a: Seq<Selected>, b: Seq<Selected>)
    requires
        selection_of(w, w.len() as int, a),
        selection_of(w, w.len() as int, b),
    ensures
        forall|k: int| 0 <= k < a.len() ==> holds_entry(b, #[trigger] a[k]),
        forall|k: int| 0 <= k < b.len() ==> holds_entry(a, #[trigger] b[k]),
        a.len() == b.len(),
{
    assert forall|k: int| 0 <= k < a.len() implies holds_entry(b, #[trigger] a[k]) by {
        lemma_same_entry(w, a, b, k);
    }
    assert forall|k: int| 0 <= k < b.len() implies holds_entry(a, #[trigger] b[k]) by {
        lemma_same_entry(w, b, a, k);
    }
    lemma_selection_len(w, a, b);
    lemma_selection_len(w, b, a);
}

proof fn lemma_same_entry(w: Seq<Seq<u8>>, a: Seq<Selected>, b: Seq<Selected>, k: int)
    requires
        selection_of(w, w.len() as int, a),
        selection_of(w, w.len() as int, b),
        0 <= k < a.len(),
    ensures
        holds_entry(b, a[k]),
{
    let i = a[k].position as int;
    assert(selects(w, w.len() as int, a[k]));
    assert(classify(w[i]) is Candidate);
    let m = choose|m: int| 0 <= m < b.len() && (#[trigger] b[m]).package@ == package_name(w[i]);
    assert(selects(w, w.len() as int, b[m]));
    let j = b[m].position as int;
    assert(candidate_for(w, j, package_name(w[i])));
    assert(candidate_for(w, i, package_name(w[j])));
    assert(i == j);
}

proof fn lemma_selection_len(w: Seq<Seq<u8>>, a: Seq<Selected>, b: Seq<Selected>)
    requires
        selection_of(w, w.len() as int, a),
        selection_of(w, w.len() as int, b),
    ensures
        a.len() <= b.len(),
{
    // Each entry of `a` has its package in `b`, and no two entries of `a`
    // share a package: the packages of `a` are a subset of those of `b`.
    let pa = a.map_values(|s: Selected| s.package@);
    let pb = b.map_values(|s: Selected| s.package@);
    assert(pa.no_duplicates());
    assert(pb.no_duplicates());
    assert forall|x: Seq<u8>| pa.to_set().contains(x) implies pb.to_set().contains(x) by {
        let k = choose|k: int| 0 <= k < pa.len() && pa[k] == x;
        lemma_same_entry(w, a, b, k);
        let m = choose|m: int|
            0 <= m < b.len() && (#[trigger] b[m]).package@ == a[k].package@ && b[m].position
                == a[k].position && b[m].path@ == a[k].path@;
        assert(pb[m] == x);
    }
    pa.unique_seq_to_set();
    pb.unique_seq_to_set();
    vstd::set_lib::lemma_len_subset(pa.to_set(), pb.to_set());
}

/// The latest archive of each package among the paths that a walk found.
///
/// An archive whose name holds no version that can be read is listed among
/// the errors and takes no part in the selection. Of two archives of one
/// package with equal versions, the one that the walk found later is
/// selected.
pub fn collect_latest_crates(walked: &Vec<Vec<u8>>) -> (index: LatestIndex)
    ensures
        selection_of(byte_strings(walked@), walked@.len() as int, index.selected@),
        rejections_of(byte_strings(walked@), walked@.len() as int, index.errors@),
{
    let ghost w = byte_strings(walked@);
    let mut selected: Vec<Selected> = Vec::new();
    let mut packages = NameTable::new();
    let mut errors: Vec<IndexingError> = Vec::new();
    let mut i: usize = 0;
    while i < walked.len()
        invariant
            i <= walked@.len(),
            w == byte_strings(walked@),
            selection_of(w, i as int, selected@),
            rejections_of(w, i as int, errors@),
            forall|k: int| 0 <= k < selected@.len() ==> (#[trigger] selected@[k]).version.wf(),
            packages.wf(),
            packages@.len() == selected@.len(),
            forall|k: int|
                0 <= k < selected@.len() ==> (#[trigger] packages@[k]) == selected@[k].package@,
        decreases walked@.len() - i,
    {
        let path = &walked[i];
        assert(w[i as int] == path@);
        let ghost old_sel = selected@;
        let ghost old_err = errors@;
        match classify_path(path.as_slice()) {
            Classified::Other => {
                proof {
                    lemma_extend_unchanged(w, i as int, selected@);
                }
            },
            Classified::Rejected(kind) => {
                errors.push(IndexingError { position: i, kind });
                proof {
                    lemma_extend_unchanged(w, i as int, selected@);
                    assert forall|j: int|
                        0 <= j < i + 1 && #[trigger] classify(w[j]) is Rejected implies exists|
                        e: int,
                    | 0 <= e < errors@.len() && (#[trigger] errors@[e]).position == j by {
                        if j < i {
                            let e = choose|e: int|
                                0 <= e < old_err.len() && (#[trigger] old_err[e]).position == j;
                            assert(errors@[e].position == j);
                        } else {
                            assert(errors@[old_err.len() as int].position == j);
                        }
                    }
                }
            },
            Classified::Candidate { package, version } => {
                let copy = copy_range(path.as_slice(), 0, path.len());
                assert(copy@ =~= path@);
                let ghost v = version@;
                assert(is_semver(v));
                match packages.find(package.as_slice()) {
                    None => {
                        let name = copy_range(package.as_slice(), 0, package.len());
                        assert(name@ =~= package@);
                        assert forall|k: int| 0 <= k < old_sel.len() implies (
                        #[trigger] old_sel[k]).package@ != package@ by {
                            assert(packages@[k] == old_sel[k].package@);
                        }
                        packages.insert(name);
                        selected.push(Selected { package, path: copy, version, position: i });
                        proof {
                            lemma_extend_new_package(w, i as int, old_sel, selected@);
                        }
                    },
                    Some(k) => {
                        let current = &selected[k];
                        assert(selects(w, i as int, old_sel[k as int]));
                        if version.supersedes(&current.version) {
                            selected.set(k, Selected { package, path: copy, version, position: i });
                            proof {
                                lemma_extend_replaced(w, i as int, old_sel, selected@, k as int);
                            }
                        } else {
                            proof {
                                lemma_extend_kept(w, i as int, selected@, k as int);
                            }
                        }
                    },
                }
            },
        }
        proof {
            if !(classify(w[i as int]) is Rejected) {
                assert forall|j: int|
                    0 <= j < i + 1 && #[trigger] classify(w[j]) is Rejected implies exists|e: int|
                    0 <= e < errors@.len() && (#[trigger] errors@[e]).position == j by {
                    let e = choose|e: int|
                        0 <= e < old_err.len() && (#[trigger] old_err[e]).position == j;
                    assert(errors@[e].position == j);
                }
            }
        }
        i += 1;
    }
    LatestIndex { selected, errors }
}

/// Every version among the paths is one that `semver` accepts.
proof fn lemma_candidate_is_semver(p: Seq<u8>)
    requires
        classify(p) is Candidate,
    ensures
        is_semver(version_of(p)),
{
    let text = version_text(p)->Some_0;
    assert(semver_parse(text) == Some(version_of(p)));
}

/// A path that is no archive with a version leaves the selection as it is.
proof fn lemma_extend_unchanged(w: Seq<Seq<u8>>, i: int, sel: Seq<Selected>)
    requires
        0 <= i < w.len(),
        selection_of(w, i, sel),
        !(classify(w[i]) is Candidate),
    ensures
        selection_of(w, i + 1, sel),
{
    assert forall|k: int| 0 <= k < sel.len() implies selects(w, i + 1, #[trigger] sel[k]) by {
        assert(selects(w, i, sel[k]));
        let pos = sel[k].position as int;
        assert forall|j: int|
            0 <= j < i + 1 && #[trigger] candidate_for(w, j, package_name(w[pos])) implies {
            &&& at_most(version_of(w[j]), version_of(w[pos]))
            &&& pos < j ==> !at_most(version_of(w[pos]), version_of(w[j]))
        } by {
            assert(j < i);
        }
    }
}

/// The first archive of a package gets an entry of its own.
proof fn lemma_extend_new_package(
    w: Seq<Seq<u8>>,
    i: int,
    old_sel: Seq<Selected>,
    sel: Seq<Selected>,
)
    requires
        0 <= i < w.len(),
        selection_of(w, i, old_sel),
        classify(w[i]) is Candidate,
        sel.len() == old_sel.len() + 1,
        forall|k: int| 0 <= k < old_sel.len() ==> sel[k] == old_sel[k],
        forall|k: int|
            0 <= k < old_sel.len() ==> (#[trigger] old_sel[k]).package@ != package_name(w[i]),
        sel.last().position == i,
        sel.last().path@ == w[i],
        sel.last().package@ == package_name(w[i]),
        sel.last().version@ == version_of(w[i]),
    ensures
        selection_of(w, i + 1, sel),
{
    let n = old_sel.len() as int;
    assert forall|k: int| 0 <= k < sel.len() implies selects(w, i + 1, #[trigger] sel[k]) by {
        if k < n {
            assert(selects(w, i, old_sel[k]));
            let pos = sel[k].position as int;
            assert forall|j: int|
                0 <= j < i + 1 && #[trigger] candidate_for(w, j, package_name(w[pos])) implies {
                &&& at_most(version_of(w[j]), version_of(w[pos]))
                &&& pos < j ==> !at_most(version_of(w[pos]), version_of(w[j]))
            } by {
                assert(j < i);
            }
        } else {
            assert forall|j: int|
                0 <= j < i + 1 && #[trigger] candidate_for(w, j, package_name(w[i])) implies {
                &&& at_most(version_of(w[j]), version_of(w[i]))
                &&& i < j ==> !at_most(version_of(w[i]), version_of(w[j]))
            } by {
                if j < i {
                    assert(classify(w[j]) is Candidate);
                    let m = choose|m: int|
                        0 <= m < old_sel.len() && (#[trigger] old_sel[m]).package@ == package_name(
                            w[j],
                        );
                    assert(false);
                }
            }
        }
    }
    assert forall|k1: int, k2: int| 0 <= k1 < k2 < sel.len() implies (#[trigger] sel[k1]).package@
        != (#[trigger] sel[k2]).package@ by {
        if k2 < n {
            assert(old_sel[k1].package@ != old_sel[k2].package@);
        } else {
            assert(old_sel[k1].package@ != package_name(w[i]));
        }
    }
    assert forall|j: int| 0 <= j < i + 1 && #[trigger] classify(w[j]) is Candidate implies exists|
        k: int,
    | 0 <= k < sel.len() && (#[trigger] sel[k]).package@ == package_name(w[j]) by {
        if j < i {
            let m = choose|m: int|
                0 <= m < old_sel.len() && (#[trigger] old_sel[m]).package@ == package_name(w[j]);
            assert(sel[m].package@ == package_name(w[j]));
        } else {
            assert(sel[n].package@ == package_name(w[j]));
        }
    }
}

/// An archive that does not come before the current one of its package
/// takes its entry.
proof fn lemma_extend_replaced(
    w: Seq<Seq<u8>>,
    i: int,
    old_sel: Seq<Selected>,
    sel: Seq<Selected>,
    k: int,
)
    requires
        0 <= i < w.len(),
        selection_of(w, i, old_sel),
        classify(w[i]) is Candidate,
        0 <= k < old_sel.len(),
        sel.len() == old_sel.len(),
        forall|m: int| 0 <= m < old_sel.len() && m != k ==> sel[m] == old_sel[m],
        old_sel[k].package@ == package_name(w[i]),
        sel[k].position == i,
        sel[k].path@ == w[i],
        sel[k].package@ == package_name(w[i]),
        sel[k].version@ == version_of(w[i]),
        replaces(semver_precedence(version_of(w[i]), old_sel[k].version@)),
        ordered_pair(
            version_of(w[i]),
            old_sel[k].version@,
            semver_precedence(version_of(w[i]), old_sel[k].version@),
        ),
    ensures
        selection_of(w, i + 1, sel),
{
    let observed = version_of(w[i]);
    let current = old_sel[k].version@;
    let at = old_sel[k].position as int;
    assert(selects(w, i, old_sel[k]));
    assert forall|m: int| 0 <= m < sel.len() implies selects(w, i + 1, #[trigger] sel[m]) by {
        if m != k {
            assert(selects(w, i, old_sel[m]));
            assert(old_sel[m].package@ != old_sel[k].package@);
            let pos = sel[m].position as int;
            assert forall|j: int|
                0 <= j < i + 1 && #[trigger] candidate_for(w, j, package_name(w[pos])) implies {
                &&& at_most(version_of(w[j]), version_of(w[pos]))
                &&& pos < j ==> !at_most(version_of(w[pos]), version_of(w[j]))
            } by {
                assert(j < i);
            }
        } else {
            assert forall|j: int|
                0 <= j < i + 1 && #[trigger] candidate_for(w, j, package_name(w[i])) implies {
                &&& at_most(version_of(w[j]), observed)
                &&& i < j ==> !at_most(observed, version_of(w[j]))
            } by {
                if j < i {
                    assert(candidate_for(w, j, package_name(w[at])));
                    assert(at_most(version_of(w[j]), current));
                    lemma_candidate_is_semver(w[j]);
                    if version_of(w[j]) != current {
                        assert(semver_precedence(version_of(w[j]), current)
                            != Precedence::Greater);
                    }
                }
            }
        }
    }
    assert forall|k1: int, k2: int| 0 <= k1 < k2 < sel.len() implies (#[trigger] sel[k1]).package@
        != (#[trigger] sel[k2]).package@ by {
        assert(old_sel[k1].package@ != old_sel[k2].package@);
    }
    assert forall|j: int| 0 <= j < i + 1 && #[trigger] classify(w[j]) is Candidate implies exists|
        m: int,
    | 0 <= m < sel.len() && (#[trigger] sel[m]).package@ == package_name(w[j]) by {
        if j < i {
            let m = choose|m: int|
                0 <= m < old_sel.len() && (#[trigger] old_sel[m]).package@ == package_name(w[j]);
            assert(sel[m].package@ == package_name(w[j]));
        } else {
            assert(sel[k].package@ == package_name(w[j]));
        }
    }
}

/// An archive that comes before the current one of its package leaves the
/// selection as it is.
proof fn lemma_extend_kept(w: Seq<Seq<u8>>, i: int, sel: Seq<Selected>, k: int)
    requires
        0 <= i < w.len(),
        selection_of(w, i, sel),
        classify(w[i]) is Candidate,
        0 <= k < sel.len(),
        sel[k].package@ == package_name(w[i]),
        !replaces(semver_precedence(version_of(w[i]), sel[k].version@)),
        ordered_pair(
            version_of(w[i]),
            sel[k].version@,
            semver_precedence(version_of(w[i]), sel[k].version@),
        ),
    ensures
        selection_of(w, i + 1, sel),
{
    let observed = version_of(w[i]);
    let current = sel[k].version@;
    assert(selects(w, i, sel[k]));
    assert forall|m: int| 0 <= m < sel.len() implies selects(w, i + 1, #[trigger] sel[m]) by {
        assert(selects(w, i, sel[m]));
        let pos = sel[m].position as int;
        assert forall|j: int|
            0 <= j < i + 1 && #[trigger] candidate_for(w, j, package_name(w[pos])) implies {
            &&& at_most(version_of(w[j]), version_of(w[pos]))
            &&& pos < j ==> !at_most(version_of(w[pos]), version_of(w[j]))
        } by {
            if j == i {
                if m != k {
                    assert(sel[m].package@ != sel[k].package@);
                } else {
                    assert(semver_precedence(observed, current) == Precedence::Less);
                    assert(semver_precedence(current, observed) == Precedence::Greater);
                }
            }
        }
    }
    assert forall|j: int| 0 <= j < i + 1 && #[trigger] classify(w[j]) is Candidate implies exists|
        m: int,
    | 0 <= m < sel.len() && (#[trigger] sel[m]).package@ == package_name(w[j]) by {
        if j < i {
            let m = choose|m: int|
                0 <= m < sel.len() && (#[trigger] sel[m]).package@ == package_name(w[j]);
            assert(sel[m].package@ == package_name(w[j]));
        } else {
            assert(sel[k].package@ == package_name(w[j]));
        }
    }
}

impl LatestIndex {
    /// The paths of the selected archives, one for each package.
    pub fn paths(&self) -> (paths: Vec<Vec<u8>>)
        ensures
            paths@.len() == self.selected@.len(),
            forall|k: int|
                0 <= k < paths@.len() ==> (#[trigger] paths@[k])@ == self.selected@[k].path@,
    {
        let mut paths: Vec<Vec<u8>> = Vec::new();
        let mut k: usize = 0;
        while k < self.selected.len()
            invariant
                k <= self.selected@.len(),
                paths@.len() == k,
                forall|m: int| 0 <= m < k ==> (#[trigger] paths@[m])@ == self.selected@[m].path@,
            decreases self.selected@.len() - k,
        {
            let path = &self.selected[k].path;
            let copy = copy_range(path.as_slice(), 0, path.len());
            assert(copy@ =~= path@);
            paths.push(copy);
            k += 1;
        }
        paths
    }
}

/// The archives of a corpus that a run operates over, and those that were
/// left out.
#[derive(Debug)]
pub struct CorpusView {
    pub paths: Vec<Vec<u8>>,
    pub errors: Vec<IndexingError>,
}

/// `paths` are the paths of the entries of `sel`, in their order.
pub open spec fn paths_of(sel: Seq<Selected>, paths: Seq<Vec<u8>>) -> bool {
    &&& paths.len() == sel.len()
    &&& forall|k: int| 0 <= k < paths.len() ==> (#[trigger] paths[k])@ == sel[k].path@
}

/// `view` is the view of the walked paths that `versions` asks for: every
/// archive among them, or the latest one of each package together with the
/// archives that cannot be indexed.
pub open spec fn view_fits(walked: Seq<Vec<u8>>, versions: Versions, view: CorpusView) -> bool {
    match versions {
        Versions::All => {
            &&& byte_strings(view.paths@) == archives_among(byte_strings(walked))
            &&& view.errors@.len() == 0
        },
        Versions::Latest => {
            &&& exists|sel: Seq<Selected>| #[trigger]
                selection_of(byte_strings(walked), walked.len() as int, sel) && paths_of(
                    sel,
                    view.paths@,
                )
            &&& rejections_of(byte_strings(walked), walked.len() as int, view.errors@)
        },
    }
}

/// The view of the corpus that `versions` asks for: every archive among the
/// walked paths, or the latest one of each package.
pub fn corpus_view(walked: &Vec<Vec<u8>>, versions: Versions) -> (view: CorpusView)
    ensures
        view_fits(walked@, versions, view),
{
    match versions {
        Versions::All => CorpusView { paths: collect_all_crates(walked), errors: Vec::new() },
        Versions::Latest => {
            let index = collect_latest_crates(walked);
            let paths = index.paths();
            assert(paths_of(index.selected@, paths@));
            CorpusView { paths, errors: index.errors }
        },
    }
}

/// The archives that are collected from a walk are those of the walked
/// paths whose name ends in the archive extension, however deep they lie:
/// none is left out, none is added, and none comes twice that the walk did
/// not find twice.
pub proof fn lemma_collect_all_exact(walked: Seq<Seq<u8>>)
    ensures
        forall|p: Seq<u8>| #[trigger]
            archives_among(walked).contains(p) <==> walked.contains(p) && is_archive(p),
        walked.no_duplicates() ==> archives_among(walked).no_duplicates(),
    decreases walked.len(),
{
    reveal(Seq::filter);
    let found = archives_among(walked);
    if walked.len() > 0 {
        let rest = walked.drop_last();
        let last = walked.last();
        let sub = archives_among(rest);
        lemma_collect_all_exact(rest);
        assert(found == if is_archive(last) {
            sub.push(last)
        } else {
            sub
        });
        assert forall|p: Seq<u8>| #[trigger] found.contains(p) <==> walked.contains(p)
            && is_archive(p) by {
            if found.contains(p) {
                let i = choose|i: int| 0 <= i < found.len() && found[i] == p;
                if i < sub.len() {
                    assert(sub[i] == p);
                    assert(sub.contains(p));
                    let j = choose|j: int| 0 <= j < rest.len() && rest[j] == p;
                    assert(walked[j] == p);
                } else {
                    assert(p == last);
                    assert(walked[walked.len() - 1] == p);
                }
            }
            if walked.contains(p) && is_archive(p) {
                let j = choose|j: int| 0 <= j < walked.len() && walked[j] == p;
                if j < rest.len() {
                    assert(rest[j] == p);
                    assert(rest.contains(p));
                    assert(sub.contains(p));
                    let i = choose|i: int| 0 <= i < sub.len() && sub[i] == p;
                    assert(found[i] == p);
                } else {
                    assert(found[found.len() - 1] == p);
                }
            }
        }
        if walked.no_duplicates() {
            assert(rest.no_duplicates());
            if is_archive(last) {
                assert forall|i: int, j: int|
                    0 <= i < found.len() && 0 <= j < found.len() && i != j implies found[i]
                    != found[j] by {
                    if i == sub.len() || j == sub.len() {
                        let k = if i == sub.len() {
                            j
                        } else {
                            i
                        };
                        assert(sub[k] == found[k]);
                        if sub[k] == last {
                            assert(sub.contains(last));
                            let m = choose|m: int| 0 <= m < rest.len() && rest[m] == last;
                            assert(walked[m] == walked[walked.len() - 1]);
                        }
                    } else {
                        assert(sub[i] != sub[j]);
                    }
                }
            }
        }
    }
}

} // verus!
