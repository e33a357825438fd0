//! The uncompressed mirror: a walker that lists the directory of each
//! extracted package version, and the engine that runs a callback on each.
//!
//! The mirror is sharded by the length of the package name:
//! `<root>/1/<package>/<package>-<version>` and
//! `<root>/2/<package>/<package>-<version>` for names of one and two bytes,
//! and one level more under every other shard.

use crate::archive::capped;
use crate::paths::{copy_range, join, joined};
use vstd::prelude::*;

verus! {

/// What a directory holds: the names of its entries, or nothing where it
/// cannot be read.
pub type Listing = Option<Vec<Vec<u8>>>;

/// A directory tree as a walk sees it: for each path the names of its
/// entries, or nothing where it cannot be read as a directory.
pub type Tree = spec_fn(Seq<u8>) -> Option<Seq<Seq<u8>>>;

/// The value of a listing.
pub open spec fn listing_view(listing: Listing) -> Option<Seq<Seq<u8>>> {
    match listing {
        Some(names) => Some(names@.map_values(|n: Vec<u8>| n@)),
        None => None,
    }
}

/// The values of a sequence of paths.
pub open spec fn path_views(paths: Seq<Vec<u8>>) -> Seq<Seq<u8>> {
    paths.map_values(|p: Vec<u8>| p@)
}

/// Whatever `list` returns for a directory is what `tree` holds there.
pub open spec fn lists<List>(list: &List, tree: Tree) -> bool where
    List: Fn(&Vec<u8>) -> Listing,
 {
    forall|dir: Vec<u8>, listing: Listing| #[trigger]
        list.ensures((&dir,), listing) ==> listing_view(listing) == tree(dir@)
}

/// The paths of the entries of `dir`, in the order of the listing; none
/// where `dir` cannot be read.
pub open spec fn children(tree: Tree, dir: Seq<u8>) -> Seq<Seq<u8>> {
    match tree(dir) {
        Some(names) => names.map_values(|n: Seq<u8>| joined(dir, n)),
        None => Seq::empty(),
    }
}

/// The paths of the entries of each of `dirs` in turn.
pub open spec fn entries_under(tree: Tree, dirs: Seq<Seq<u8>>) -> Seq<Seq<u8>>
    decreases dirs.len(),
{
    if dirs.len() == 0 {
        Seq::empty()
    } else {
        entries_under(tree, dirs.drop_last()) + children(tree, dirs.last())
    }
}

/// Those of `dirs` that cannot be read, in their order.
pub open spec fn unreadable_among(tree: Tree, dirs: Seq<Seq<u8>>) -> Seq<Seq<u8>>
    decreases dirs.len(),
{
    if dirs.len() == 0 {
        Seq::empty()
    } else if tree(dirs.last()) is None {
        unreadable_among(tree, dirs.drop_last()).push(dirs.last())
    } else {
        unreadable_among(tree, dirs.drop_last())
    }
}

/// The shard holds package directories directly: it is named `1` or `2`.
pub open spec fn is_short_shard(name: Seq<u8>) -> bool {
    name == seq![49u8] || name == seq![50u8]
}

/// The shards of the mirror at `root` of one kind, in the order of the
/// listing: those that hold package directories directly, or the others.
pub open spec fn shards(tree: Tree, root: Seq<u8>, short: bool) -> Seq<Seq<u8>> {
    match tree(root) {
        Some(names) => names.filter(|n: Seq<u8>| is_short_shard(n) == short).map_values(
            |n: Seq<u8>| joined(root, n),
        ),
        None => Seq::empty(),
    }
}

/// The directories of the extracted package versions in the mirror at
/// `root`: three levels down under the shards `1` and `2`, four levels down
/// under the others.
pub open spec fn leaves(tree: Tree, root: Seq<u8>) -> Seq<Seq<u8>> {
    let short = shards(tree, root, true);
    let long = shards(tree, root, false);
    entries_under(tree, entries_under(tree, short)) + entries_under(
        tree,
        entries_under(tree, entries_under(tree, long)),
    )
}

/// The directories that a walk of the mirror at `root` cannot read, level by
/// level.
pub open spec fn unreadable(tree: Tree, root: Seq<u8>) -> Seq<Seq<u8>> {
    let short = shards(tree, root, true);
    let long = shards(tree, root, false);
    let below = entries_under(tree, long);
    unreadable_among(tree, seq![root]) + unreadable_among(tree, short) + unreadable_among(
        tree,
        entries_under(tree, short),
    ) + unreadable_among(tree, long) + unreadable_among(tree, below) + unreadable_among(
        tree,
        entries_under(tree, below),
    )
}

/// What a walk of the mirror found.
#[derive(Debug)]
pub struct MirrorListing {
    /// The directory of each extracted package version.
    pub leaves: Vec<Vec<u8>>,
    /// The directories that could not be read.
    pub unreadable: Vec<Vec<u8>>,
}

/// Tells whether a shard holds package directories directly.
pub fn is_short_shard_name(name: &Vec<u8>) -> (b: bool)
    ensures
        b == is_short_shard(name@),
{
    let b = name.len() == 1 && (name[0] == 49u8 || name[0] == 50u8);
    proof {
        if b {
            assert(name@ =~= seq![name@[0]]);
        }
        if is_short_shard(name@) {
            assert(seq![49u8].len() == 1 && seq![50u8].len() == 1);
            assert(seq![49u8][0] == 49u8 && seq![50u8][0] == 50u8);
        }
    }
    b
}

/// Lists each of `dirs` in turn: appends the paths of their entries to
/// `found`, and those of `dirs` that cannot be read to `failed`.
fn descend<List>(
    dirs: &Vec<Vec<u8>>,
    list: &List,
    found: &mut Vec<Vec<u8>>,
    failed: &mut Vec<Vec<u8>>,
) where List: Fn(&Vec<u8>) -> Listing
    requires
        forall|dir: &Vec<u8>| list.requires((dir,)),
    ensures
        forall|tree: Tree| #[trigger]
            lists(list, tree) ==> {
                &&& path_views(final(found)@) == path_views(old(found)@) + entries_under(
                    tree,
                    path_views(dirs@),
                )
                &&& path_views(final(failed)@) == path_views(old(failed)@) + unreadable_among(
                    tree,
                    path_views(dirs@),
                )
            },
{
    let ghost found0 = path_views(found@);
    let ghost failed0 = path_views(failed@);
    let ghost all = path_views(dirs@);
    let mut i: usize = 0;
    proof {
        assert(all.subrange(0, 0) =~= Seq::<Seq<u8>>::empty());
        assert forall|tree: Tree| #[trigger] lists(list, tree) implies {
            &&& path_views(found@) == found0 + entries_under(tree, all.subrange(0, 0))
            &&& path_views(failed@) == failed0 + unreadable_among(tree, all.subrange(0, 0))
        } by {
            assert(found0 + Seq::<Seq<u8>>::empty() =~= found0);
            assert(failed0 + Seq::<Seq<u8>>::empty() =~= failed0);
        }
    }
    while i < dirs.len()
        invariant
            i <= dirs@.len(),
            all == path_views(dirs@),
            forall|dir: &Vec<u8>| list.requires((dir,)),
            forall|tree: Tree| #[trigger]
                lists(list, tree) ==> {
                    &&& path_views(found@) == found0 + entries_under(
                        tree,
                        all.subrange(0, i as int),
                    )
                    &&& path_views(failed@) == failed0 + unreadable_among(
                        tree,
                        all.subrange(0, i as int),
                    )
                },
        decreases dirs@.len() - i,
    {
        let dir = &dirs[i];
        let ghost found1 = path_views(found@);
        let ghost failed1 = path_views(failed@);
        let listing = list(dir);
        let ghost added: Seq<Seq<u8>>;
        match &listing {
            Some(names) => {
                append_children(dir, names, found);
                proof {
                    added = names@.map_values(|n: Vec<u8>| joined(dir@, n@));
                }
            },
            None => {
                let copy = copy_range(dir.as_slice(), 0, dir.len());
                proof {
                    added = Seq::empty();
                    assert(copy@ =~= dir@);
                }
                failed.push(copy);
            },
        }
        proof {
            let step = all.subrange(0, i + 1);
            assert(step.drop_last() =~= all.subrange(0, i as int));
            assert(step.last() == dir@);
            assert forall|tree: Tree| #[trigger] lists(list, tree) implies {
                &&& path_views(found@) == found0 + entries_under(tree, step)
                &&& path_views(failed@) == failed0 + unreadable_among(tree, step)
            } by {
                assert(list.ensures((dir,), listing));
                assert(listing_view(listing) == tree(dir@));
                match listing {
                    Some(names) => {
                        assert(children(tree, dir@) =~= added);
                        assert(path_views(found@) =~= found1 + added);
                        assert(path_views(failed@) =~= failed1);
                    },
                    None => {
                        assert(children(tree, dir@) =~= added);
                        assert(path_views(found@) =~= found1);
                        assert(path_views(failed@) =~= failed1.push(dir@));
                    },
                }
                assert(found0 + entries_under(tree, step) =~= found0 + entries_under(
                    tree,
                    step.drop_last(),
                ) + children(tree, dir@));
                if tree(dir@) is None {
                    assert(failed0 + unreadable_among(tree, step) =~= (failed0 + unreadable_among(
                        tree,
                        step.drop_last(),
                    )).push(dir@));
                }
            }
        }
        i += 1;
    }
    assert(all.subrange(0, dirs@.len() as int) =~= all);
}

/// Appends to `found` the path of each entry of `dir`.
pub fn append_children(dir: &Vec<u8>, names: &Vec<Vec<u8>>, found: &mut Vec<Vec<u8>>)
    ensures
        path_views(final(found)@) == path_views(old(found)@) + names@.map_values(
            |n: Vec<u8>| joined(dir@, n@),
        ),
{
    let ghost found0 = path_views(found@);
    let ghost all = names@.map_values(|n: Vec<u8>| joined(dir@, n@));
    let mut k: usize = 0;
    assert(path_views(found@) =~= found0 + all.subrange(0, 0));
    while k < names.len()
        invariant
            k <= names@.len(),
            all == names@.map_values(|n: Vec<u8>| joined(dir@, n@)),
            path_views(found@) == found0 + all.subrange(0, k as int),
        decreases names@.len() - k,
    {
        let ghost before = path_views(found@);
        let child = join(dir.as_slice(), names[k].as_slice());
        found.push(child);
        assert(path_views(found@) =~= before.push(all[k as int]));
        k += 1;
        assert(found0 + all.subrange(0, k as int) =~= (found0 + all.subrange(0, k - 1)).push(
            all[k - 1],
        ));
    }
    assert(all.subrange(0, names@.len() as int) =~= all);
}

/// The paths of the shards named in `names`, parted into those that hold
/// package directories directly and the others.
pub fn split_shards(root: &Vec<u8>, names: &Vec<Vec<u8>>) -> (r: (Vec<Vec<u8>>, Vec<Vec<u8>>))
    ensures
        path_views(r.0@) == path_views(names@).filter(
            |n: Seq<u8>| is_short_shard(n) == true,
        ).map_values(|n: Seq<u8>| joined(root@, n)),
        path_views(r.1@) == path_views(names@).filter(
            |n: Seq<u8>| is_short_shard(n) == false,
        ).map_values(|n: Seq<u8>| joined(root@, n)),
{
    let ghost all = path_views(names@);
    let ghost is_short = |n: Seq<u8>| is_short_shard(n) == true;
    let ghost is_long = |n: Seq<u8>| is_short_shard(n) == false;
    let ghost under = |n: Seq<u8>| joined(root@, n);
    let mut short: Vec<Vec<u8>> = Vec::new();
    let mut long: Vec<Vec<u8>> = Vec::new();
    let mut k: usize = 0;
    proof {
        reveal(Seq::filter);
        assert(all.subrange(0, 0) =~= Seq::<Seq<u8>>::empty());
        assert(path_views(short@) =~= all.subrange(0, 0).filter(is_short).map_values(under));
        assert(path_views(long@) =~= all.subrange(0, 0).filter(is_long).map_values(under));
    }
    while k < names.len()
        invariant
            k <= names@.len(),
            all == path_views(names@),
            is_short == (|n: Seq<u8>| is_short_shard(n) == true),
            is_long == (|n: Seq<u8>| is_short_shard(n) == false),
            under == (|n: Seq<u8>| joined(root@, n)),
            path_views(short@) == all.subrange(0, k as int).filter(is_short).map_values(under),
            path_views(long@) == all.subrange(0, k as int).filter(is_long).map_values(under),
        decreases names@.len() - k,
    {
        let name = &names[k];
        let child = join(root.as_slice(), name.as_slice());
        let ghost short0 = path_views(short@);
        let ghost long0 = path_views(long@);
        let ghost seen = all.subrange(0, k as int);
        if is_short_shard_name(name) {
            short.push(child);
            assert(path_views(short@) =~= short0.push(joined(root@, name@)));
        } else {
            long.push(child);
            assert(path_views(long@) =~= long0.push(joined(root@, name@)));
        }
        proof {
            reveal(Seq::filter);
            let step = all.subrange(0, k + 1);
            assert(step.drop_last() =~= seen);
            assert(step.last() == name@);
            if is_short_shard(name@) {
                assert(step.filter(is_short) == seen.filter(is_short).push(name@));
                assert(step.filter(is_long) == seen.filter(is_long));
                assert(step.filter(is_short).map_values(under) =~= seen.filter(
                    is_short,
                ).map_values(under).push(joined(root@, name@)));
            } else {
                assert(step.filter(is_long) == seen.filter(is_long).push(name@));
                assert(step.filter(is_short) == seen.filter(is_short));
                assert(step.filter(is_long).map_values(under) =~= seen.filter(is_long).map_values(
                    under,
                ).push(joined(root@, name@)));
            }
        }
        k += 1;
    }
    assert(all.subrange(0, names@.len() as int) =~= all);
    (short, long)
}

/// `found` is what a walk of the mirror at `root` finds, whatever tree
/// `list` reads from.
pub open spec fn listing_fits<List>(root: Seq<u8>, list: &List, found: MirrorListing) -> bool where
    List: Fn(&Vec<u8>) -> Listing,
 {
    forall|tree: Tree| #[trigger]
        lists(list, tree) ==> {
            &&& path_views(found.leaves@) == leaves(tree, root)
            &&& path_views(found.unreadable@) == unreadable(tree, root)
        }
}

/// Walks the mirror at `root` and lists the directory of each extracted
/// package version. `list` hands over the names of the entries of a
/// directory, or nothing where it cannot be read; a directory that cannot be
/// read is reported and holds no leaves.
pub fn collect_uncompressed_paths<List>(root: &Vec<u8>, list: &List) -> (found: MirrorListing) where
    List: Fn(&Vec<u8>) -> Listing,

    requires
        forall|dir: &Vec<u8>| list.requires((dir,)),
    ensures
        listing_fits(root@, list, found),
{
    let mut failed: Vec<Vec<u8>> = Vec::new();
    let listing = list(root);
    let (short, long) = match &listing {
        Some(names) => split_shards(root, names),
        None => {
            let copy = copy_range(root.as_slice(), 0, root.len());
            assert(copy@ =~= root@);
            failed.push(copy);
            (Vec::new(), Vec::new())
        },
    };
    let ghost failed1 = path_views(failed@);
    let mut packages: Vec<Vec<u8>> = Vec::new();
    descend(&short, list, &mut packages, &mut failed);
    let mut found: Vec<Vec<u8>> = Vec::new();
    descend(&packages, list, &mut found, &mut failed);
    let mut below: Vec<Vec<u8>> = Vec::new();
    descend(&long, list, &mut below, &mut failed);
    let mut deep: Vec<Vec<u8>> = Vec::new();
    descend(&below, list, &mut deep, &mut failed);
    descend(&deep, list, &mut found, &mut failed);
    proof {
        assert forall|tree: Tree| #[trigger] lists(list, tree) implies {
            &&& path_views(found@) == leaves(tree, root@)
            &&& path_views(failed@) == unreadable(tree, root@)
        } by {
            assert(list.ensures((root,), listing));
            assert(listing_view(listing) == tree(root@));
            let empty = Seq::<Seq<u8>>::empty();
            assert(path_views(Seq::<Vec<u8>>::empty()) =~= empty);
            assert(path_views(short@) =~= shards(tree, root@, true)) by {
                if listing is None {
                    assert(path_views(short@) =~= empty);
                }
            }
            assert(path_views(long@) =~= shards(tree, root@, false)) by {
                if listing is None {
                    assert(path_views(long@) =~= empty);
                }
            }
            assert(failed1 =~= unreadable_among(tree, seq![root@])) by {
                reveal_with_fuel(unreadable_among, 2);
                let one = seq![root@];
                assert(one.drop_last() =~= empty);
                assert(one.last() == root@);
                assert(unreadable_among(tree, one.drop_last()) =~= empty);
                if listing is None {
                    assert(failed1 =~= empty.push(root@));
                } else {
                    assert(failed1 =~= empty);
                }
            }
            assert(path_views(packages@) =~= entries_under(tree, shards(tree, root@, true)));
            assert(path_views(below@) =~= entries_under(tree, shards(tree, root@, false)));
            assert(path_views(deep@) =~= entries_under(tree, path_views(below@)));
            assert(path_views(found@) =~= leaves(tree, root@));
            assert(path_views(failed@) =~= unreadable(tree, root@));
        }
    }
    MirrorListing { leaves: found, unreadable: failed }
}

/// A directory on which the callback failed.
#[derive(Debug)]
pub struct DirectoryFailure<E> {
    /// Where the directory stands in the list.
    pub position: usize,
    /// What the callback returned.
    pub error: E,
}

/// What a run over the directories of a mirror came to.
#[derive(Debug)]
pub struct UncompressedSummary<E> {
    /// The directories on which the callback failed, in the order of the
    /// list.
    pub failures: Vec<DirectoryFailure<E>>,
    /// How many directories the callback failed on.
    pub scan_errors: u64,
    /// How many directories the run went over.
    pub total: u64,
}

/// The callback was called on `dir` and succeeded.
pub open spec fn succeeded_on<Scan, E>(scanner: &Scan, dir: Vec<u8>) -> bool where
    Scan: Fn(&Vec<u8>) -> Result<(), E>,
 {
    exists|r: Result<(), E>| r is Ok && #[trigger] scanner.ensures((&dir,), r)
}

/// `failures` holds, in the order of the list, each of the first `n`
/// directories on which the callback failed, with what it returned; on the
/// others it succeeded.
pub open spec fn failures_fit<Scan, E>(
    dirs: Seq<Vec<u8>>,
    n: int,
    scanner: &Scan,
    failures: Seq<DirectoryFailure<E>>,
) -> bool where Scan: Fn(&Vec<u8>) -> Result<(), E> {
    &&& forall|f: int|
        0 <= f < failures.len() ==> {
            &&& 0 <= (#[trigger] failures[f]).position < n
            &&& scanner.ensures(
                (&dirs[failures[f].position as int],),
                Err::<(), E>(failures[f].error),
            )
        }
    &&& forall|f1: int, f2: int|
        0 <= f1 < f2 < failures.len() ==> (#[trigger] failures[f1]).position < (
        #[trigger] failures[f2]).position
    &&& forall|k: int|
        0 <= k < n ==> (#[trigger] succeeded_on(scanner, dirs[k]) || exists|f: int|
            0 <= f < failures.len() && (#[trigger] failures[f]).position == k)
}

/// `summary` is what a run over `dirs` comes to.
pub open spec fn directories_fit<Scan, E>(
    dirs: Seq<Vec<u8>>,
    scanner: &Scan,
    summary: UncompressedSummary<E>,
) -> bool where Scan: Fn(&Vec<u8>) -> Result<(), E> {
    &&& failures_fit(dirs, dirs.len() as int, scanner, summary.failures@)
    &&& summary.scan_errors == capped(summary.failures@.len() as int)
    &&& summary.total == capped(dirs.len() as int)
}

/// Runs the callback on each directory in turn. A failure is recorded and
/// the run goes on with the next directory.
pub fn scan_directories<Scan, E>(dirs: &Vec<Vec<u8>>, scanner: &Scan) -> (summary:
    UncompressedSummary<E>) where Scan: Fn(&Vec<u8>) -> Result<(), E>
    requires
        forall|dir: &Vec<u8>| scanner.requires((dir,)),
    ensures
        directories_fit(dirs@, scanner, summary),
{
    let mut failures: Vec<DirectoryFailure<E>> = Vec::new();
    let mut k: usize = 0;
    while k < dirs.len()
        invariant
            k <= dirs@.len(),
            failures@.len() <= k,
            failures_fit(dirs@, k as int, scanner, failures@),
            forall|dir: &Vec<u8>| scanner.requires((dir,)),
        decreases dirs@.len() - k,
    {
        let ghost before = failures@;
        let r = scanner(&dirs[k]);
        match r {
            Ok(_) => {
                assert(succeeded_on(scanner, dirs@[k as int]));
            },
            Err(error) => {
                failures.push(DirectoryFailure { position: k, error });
                assert(failures@[before.len() as int].position == k);
            },
        }
        proof {
            assert forall|m: int| 0 <= m < k + 1 implies (#[trigger] succeeded_on(
                scanner,
                dirs@[m],
            ) || exists|f: int|
                0 <= f < failures@.len() && (#[trigger] failures@[f]).position == m) by {
                if m < k && !succeeded_on(scanner, dirs@[m]) {
                    let f = choose|f: int|
                        0 <= f < before.len() && (#[trigger] before[f]).position == m;
                    assert(failures@[f].position == m);
                }
            }
        }
        k += 1;
    }
    let scan_errors = failures.len() as u64;
    let total = dirs.len() as u64;
    UncompressedSummary { failures, scan_errors, total }
}

/// What a run over a mirror came to.
#[derive(Debug)]
pub struct UncompressedRun<E> {
    /// The directories that the walk found, and those it could not read.
    pub listing: MirrorListing,
    /// The failures and the counters.
    pub summary: UncompressedSummary<E>,
}

/// Scans a mirror of extracted packages: walks it from `root` and runs the
/// callback on the directory of each extracted package version.
pub fn scan_uncompressed<List, Scan, E>(root: &Vec<u8>, list: &List, scanner: &Scan) -> (run:
    UncompressedRun<E>) where List: Fn(&Vec<u8>) -> Listing, Scan: Fn(&Vec<u8>) -> Result<(), E>
    requires
        forall|dir: &Vec<u8>| list.requires((dir,)),
        forall|dir: &Vec<u8>| scanner.requires((dir,)),
    ensures
        listing_fits(root@, list, run.listing),
        directories_fit(run.listing.leaves@, scanner, run.summary),
{
    let listing = collect_uncompressed_paths(root, list);
    let summary = scan_directories(&listing.leaves, scanner);
    UncompressedRun { listing, summary }
}

} // verus!
