//! The archive scan engine: one compressed archive is read entry by entry,
//! each entry that the filter accepts is decoded to text and handed to the
//! scan callback, and the first failure ends the scan of that archive.

use crate::index::{corpus_view, view_fits, CorpusView};
use crate::paths::{copy_range, file_name, file_name_start, join, joined};
use crate::Versions;
use vstd::prelude::*;
use vstd::utf8::{decode_utf8, valid_utf8};

verus! {

/// One entry of an archive, as far as it could be read.
#[derive(Debug)]
pub enum RawEntry {
    /// Nothing could be read where a further entry was expected.
    Broken,
    /// An entry: its path in the archive, where that could be decoded, and
    /// its contents, where they could be read to the end.
    Member { path: Option<Vec<u8>>, contents: Option<Vec<u8>> },
}

/// The value of an entry.
pub ghost enum EntryView {
    Broken,
    Member { path: Option<Seq<u8>>, contents: Option<Seq<u8>> },
}

impl View for RawEntry {
    type V = EntryView;

    open spec fn view(&self) -> EntryView {
        match self {
            RawEntry::Broken => EntryView::Broken,
            RawEntry::Member { path, contents } => EntryView::Member {
                path: match path {
                    Some(p) => Some(p@),
                    None => None,
                },
                contents: match contents {
                    Some(c) => Some(c@),
                    None => None,
                },
            },
        }
    }
}

/// The values of a sequence of entries.
pub open spec fn entry_views(entries: Seq<RawEntry>) -> Seq<EntryView> {
    entries.map_values(|e: RawEntry| e@)
}

/// The entries that `tar` reads from the stream that `flate2` decompresses
/// out of `bytes`, in the order of the archive, each as far as it could be
/// read.
pub uninterp spec fn archive_entries(bytes: Seq<u8>) -> Seq<EntryView>;

/// Reads a gzip-compressed tar archive that is held in memory: a
/// `flate2::read::GzDecoder` over the bytes, a `tar::Archive` over that, and
/// its `entries()`, each with `path()` and its data read to the end.
/// Claimed: what comes out is a function of the bytes alone.
#[verifier::external_body]
fn read_archive(bytes: &[u8]) -> (entries: Vec<RawEntry>)
    ensures
        entry_views(entries@) == archive_entries(bytes@),
{
    let mut archive = tar::Archive::new(flate2::read::GzDecoder::new(bytes));
    let Ok(entries) = archive.entries() else { return vec![RawEntry::Broken] };
    entries.map(|entry| match entry {
        Err(_) => RawEntry::Broken,
        Ok(mut e) => {
            let path = e.path().ok().map(|p| p.as_os_str().as_encoded_bytes().to_vec());
            let mut data = Vec::new();
            let contents = std::io::Read::read_to_end(&mut e, &mut data).ok().map(|_| data);
            RawEntry::Member { path, contents }
        },
    }).collect()
}

/// `String::from_utf8`: the text that the bytes encode, where they are valid
/// UTF-8, and nothing where they are not.
#[verifier::external_body]
fn decode_text(bytes: Vec<u8>) -> (r: Option<String>)
    ensures
        r is Some <==> valid_utf8(bytes@),
        r matches Some(text) ==> text@ == decode_utf8(bytes@),
{
    String::from_utf8(bytes).ok()
}

/// What became of one entry during a scan.
#[derive(Copy, Clone, Debug, PartialEq, Eq, Structural)]
pub enum EntryOutcome {
    /// The filter did not accept the entry's path.
    Skipped,
    /// The entry was decoded and the callback succeeded on it.
    Scanned,
    /// The entry could not be read or decoded.
    LoadFailed,
    /// The entry was decoded and the callback failed on it.
    ScanFailed,
}

/// The outcome ends the scan of its archive.
pub open spec fn is_failure(o: EntryOutcome) -> bool {
    o == EntryOutcome::LoadFailed || o == EntryOutcome::ScanFailed
}

/// The entry was handed to the callback.
pub open spec fn was_scanned(o: EntryOutcome) -> bool {
    o == EntryOutcome::Scanned || o == EntryOutcome::ScanFailed
}

/// How many of the outcomes are of entries that were handed to the callback.
pub open spec fn scanned_in(outcomes: Seq<EntryOutcome>) -> nat
    decreases outcomes.len(),
{
    if outcomes.len() == 0 {
        0
    } else {
        scanned_in(outcomes.drop_last()) + if was_scanned(outcomes.last()) {
            1nat
        } else {
            0nat
        }
    }
}

/// The failure that ended the scan of an archive.
#[derive(Debug)]
pub enum Failure<E> {
    /// The archive could not be opened.
    Open,
    /// No further entry could be read.
    Entry,
    /// The path of an entry could not be decoded.
    Path,
    /// The contents of an entry could not be read as text.
    Contents { display_path: Vec<u8> },
    /// The callback failed on an entry.
    Scan { display_path: Vec<u8>, error: E, contents: String },
}

impl<E> Failure<E> {
    /// The failure counts as a load error; the other kind is a scan error.
    pub open spec fn is_load(&self) -> bool {
        !(self is Scan)
    }

    /// Tells whether the failure counts as a load error.
    pub fn is_load_error(&self) -> (b: bool)
        ensures
            b == self.is_load(),
    {
        match self {
            Failure::Scan { .. } => false,
            _ => true,
        }
    }
}

/// What the scan of one archive came to.
#[derive(Debug)]
pub struct ArchiveReport<E> {
    /// The outcome of each entry that the scan reached, in archive order.
    pub outcomes: Vec<EntryOutcome>,
    /// How many entries were handed to the callback.
    pub scanned: usize,
    /// The failure that ended the scan, if one did.
    pub failure: Option<Failure<E>>,
}

impl<E> ArchiveReport<E> {
    /// The counter agrees with the outcomes, a failure stands only at their
    /// end, and it is recorded just when there is one.
    pub open spec fn wf(&self) -> bool {
        &&& self.scanned == scanned_in(self.outcomes@)
        &&& forall|i: int|
            0 <= i < self.outcomes@.len() - 1 ==> !is_failure(#[trigger] self.outcomes@[i])
        &&& match self.failure {
            None => self.outcomes@.len() > 0 ==> !is_failure(self.outcomes@.last()),
            Some(Failure::Open) => self.outcomes@.len() == 0,
            Some(Failure::Scan { .. }) => self.outcomes@.len() > 0 && self.outcomes@.last()
                == EntryOutcome::ScanFailed,
            Some(_) => self.outcomes@.len() > 0 && self.outcomes@.last()
                == EntryOutcome::LoadFailed,
        }
    }

    /// The load errors of the archive: one or none.
    pub open spec fn load_errors(&self) -> nat {
        match self.failure {
            Some(f) => if f.is_load() {
                1
            } else {
                0
            },
            None => 0,
        }
    }

    /// The scan errors of the archive: one or none.
    pub open spec fn scan_errors(&self) -> nat {
        match self.failure {
            Some(f) => if f.is_load() {
                0
            } else {
                1
            },
            None => 0,
        }
    }
}

/// The path under which an entry is reported: the archive's file name with
/// the entry's path in the archive appended.
pub open spec fn display_path(archive: Seq<u8>, entry: Seq<u8>) -> Seq<u8> {
    joined(file_name(archive), entry)
}

/// Builds the path under which an entry is reported.
pub fn make_display_path(archive: &[u8], entry: &[u8]) -> (path: Vec<u8>)
    ensures
        path@ == display_path(archive@, entry@),
{
    let start = file_name_start(archive);
    let name = copy_range(archive, start, archive.len());
    join(name.as_slice(), entry)
}

/// The callback was called on the text of `data` under the path `display`
/// and returned `r`.
pub open spec fn scanner_gave<Scan, E>(
    scanner: &Scan,
    display: Seq<u8>,
    data: Seq<u8>,
    r: Result<(), E>,
) -> bool where Scan: Fn(&Vec<u8>, &String) -> Result<(), E> {
    exists|d: Vec<u8>, t: String|
        d@ == display && t@ == decode_utf8(data) && #[trigger] scanner.ensures((&d, &t), r)
}

/// The outcome `o` is what the scan makes of `entry` with this filter and
/// this callback: an entry without a path, or one that the filter accepts
/// and that is no text, fails to load; one that the filter rejects is
/// skipped; the others go to the callback.
pub open spec fn entry_fits<Filt, Scan, E>(
    archive: Seq<u8>,
    entry: RawEntry,
    filter: &Filt,
    scanner: &Scan,
    o: EntryOutcome,
) -> bool where Filt: Fn(&Vec<u8>) -> bool, Scan: Fn(&Vec<u8>, &String) -> Result<(), E> {
    match entry {
        RawEntry::Broken => o == EntryOutcome::LoadFailed,
        RawEntry::Member { path: None, .. } => o == EntryOutcome::LoadFailed,
        RawEntry::Member { path: Some(p), contents } => {
            if o == EntryOutcome::Skipped {
                filter.ensures((&p,), false)
            } else {
                &&& filter.ensures((&p,), true)
                &&& match contents {
                    Some(data) if valid_utf8(data@) => exists|r: Result<(), E>| #[trigger]
                        scanner_gave(scanner, display_path(archive, p@), data@, r) && o == (if r
                            is Ok {
                            EntryOutcome::Scanned
                        } else {
                            EntryOutcome::ScanFailed
                        }),
                    _ => o == EntryOutcome::LoadFailed,
                }
            }
        },
    }
}

/// The outcomes are those of a scan of `entries`: one for each entry in
/// turn, up to the first failure or to the end.
pub open spec fn trace_fits<Filt, Scan, E>(
    archive: Seq<u8>,
    entries: Seq<RawEntry>,
    filter: &Filt,
    scanner: &Scan,
    outcomes: Seq<EntryOutcome>,
) -> bool where Filt: Fn(&Vec<u8>) -> bool, Scan: Fn(&Vec<u8>, &String) -> Result<(), E> {
    &&& outcomes.len() <= entries.len()
    &&& forall|i: int|
        0 <= i < outcomes.len() ==> entry_fits(
            archive,
            entries[i],
            filter,
            scanner,
            #[trigger] outcomes[i],
        )
    &&& outcomes.len() < entries.len() ==> outcomes.len() > 0 && is_failure(outcomes.last())
}

/// The failure recorded for an archive says what went wrong at the entry
/// that the scan stopped at, and holds what the callback was given and what
/// it returned.
pub open spec fn failure_fits<Scan, E>(
    archive: Seq<u8>,
    entry: RawEntry,
    scanner: &Scan,
    failure: Failure<E>,
) -> bool where Scan: Fn(&Vec<u8>, &String) -> Result<(), E> {
    match failure {
        Failure::Open => false,
        Failure::Entry => entry is Broken,
        Failure::Path => entry matches RawEntry::Member { path: None, .. },
        Failure::Contents { display_path: shown } => entry matches RawEntry::Member {
            path: Some(p),
            ..
        } && shown@ == display_path(archive, p@),
        Failure::Scan { display_path: shown, error, contents } => entry matches RawEntry::Member {
            path: Some(p),
            contents: Some(data),
        } && shown@ == display_path(archive, p@) && contents@ == decode_utf8(data@)
            && scanner.ensures((&shown, &contents), Err::<(), E>(error)),
    }
}

/// `report` is what a scan of `entries` comes to.
pub open spec fn scan_fits<Filt, Scan, E>(
    archive: Seq<u8>,
    entries: Seq<RawEntry>,
    filter: &Filt,
    scanner: &Scan,
    report: ArchiveReport<E>,
) -> bool where Filt: Fn(&Vec<u8>) -> bool, Scan: Fn(&Vec<u8>, &String) -> Result<(), E> {
    &&& report.wf()
    &&& trace_fits(archive, entries, filter, scanner, report.outcomes@)
    &&& report.failure matches Some(f) ==> failure_fits(
        archive,
        entries[report.outcomes@.len() - 1],
        scanner,
        f,
    )
}

/// `report` is what a scan of the archive held in `bytes` comes to.
pub open spec fn archive_scan_fits<Filt, Scan, E>(
    archive: Seq<u8>,
    bytes: Seq<u8>,
    filter: &Filt,
    scanner: &Scan,
    report: ArchiveReport<E>,
) -> bool where Filt: Fn(&Vec<u8>) -> bool, Scan: Fn(&Vec<u8>, &String) -> Result<(), E> {
    exists|entries: Seq<RawEntry>|
        entry_views(entries) == archive_entries(bytes) && #[trigger] scan_fits(
            archive,
            entries,
            filter,
            scanner,
            report,
        )
}

/// Scans the entries of one archive in turn. The filter decides on each
/// entry's path; an entry that it accepts is decoded to text and handed to
/// the callback under its display path. The first entry that cannot be read
/// or decoded, or on which the callback fails, ends the scan.
pub fn scan_entries<Filt, Scan, E>(
    archive: &Vec<u8>,
    entries: Vec<RawEntry>,
    filter: &Filt,
    scanner: &Scan,
) -> (report: ArchiveReport<E>) where
    Filt: Fn(&Vec<u8>) -> bool,
    Scan: Fn(&Vec<u8>, &String) -> Result<(), E>,

    requires
        forall|p: &Vec<u8>| filter.requires((p,)),
        forall|p: &Vec<u8>, t: &String| scanner.requires((p, t)),
    ensures
        scan_fits(archive@, entries@, filter, scanner, report),
{
    let ghost all = entries@;
    let count = entries.len();
    let mut outcomes: Vec<EntryOutcome> = Vec::new();
    let mut scanned: usize = 0;
    let mut failure: Option<Failure<E>> = None;
    let mut i: usize = 0;
    for entry in it: entries
        invariant
            i == it.index(),
            it.seq() == all,
            all.len() == count,
            outcomes@.len() == i || (failure is Some && outcomes@.len() < i),
            failure is None ==> outcomes@.len() == i,
            scanned == scanned_in(outcomes@),
            scanned <= outcomes@.len() <= all.len(),
            forall|k: int|
                0 <= k < outcomes@.len() ==> entry_fits(
                    archive@,
                    all[k],
                    filter,
                    scanner,
                    #[trigger] outcomes@[k],
                ),
            forall|k: int| 0 <= k < outcomes@.len() - 1 ==> !is_failure(#[trigger] outcomes@[k]),
            match failure {
                None => outcomes@.len() > 0 ==> !is_failure(outcomes@.last()),
                Some(Failure::Open) => false,
                Some(Failure::Scan { .. }) => outcomes@.len() > 0 && outcomes@.last()
                    == EntryOutcome::ScanFailed,
                Some(_) => outcomes@.len() > 0 && outcomes@.last() == EntryOutcome::LoadFailed,
            },
            failure matches Some(f) ==> failure_fits(
                archive@,
                all[outcomes@.len() - 1],
                scanner,
                f,
            ),
            forall|p: &Vec<u8>| filter.requires((p,)),
            forall|p: &Vec<u8>, t: &String| scanner.requires((p, t)),
    {
        if failure.is_none() {
            let ghost before = outcomes@;
            let (outcome, failed) = scan_entry(archive, entry, filter, scanner);
            outcomes.push(outcome);
            proof {
                assert(outcomes@.drop_last() =~= before);
            }
            match outcome {
                EntryOutcome::Scanned | EntryOutcome::ScanFailed => {
                    scanned = scanned + 1;
                },
                _ => {},
            }
            failure = failed;
        }
        i = i + 1;
    }
    ArchiveReport { outcomes, scanned, failure }
}

/// Settles an entry on which the callback returned `result`: it was scanned,
/// and a failure of the callback is recorded with what the callback was
/// given and what it returned.
pub fn settle<E>(display_path: Vec<u8>, contents: String, result: Result<(), E>) -> (r: (
    EntryOutcome,
    Option<Failure<E>>,
))
    ensures
        match result {
            Ok(_) => r.0 == EntryOutcome::Scanned && r.1 is None,
            Err(error) => r.0 == EntryOutcome::ScanFailed && r.1 == Some(
                Failure::Scan { display_path, error, contents },
            ),
        },
{
    match result {
        Ok(_) => (EntryOutcome::Scanned, None),
        Err(error) => (
            EntryOutcome::ScanFailed,
            Some(Failure::Scan { display_path, error, contents }),
        ),
    }
}

/// Scans one entry: the outcome, and the failure where it is one.
pub fn scan_entry<Filt, Scan, E>(
    archive: &Vec<u8>,
    entry: RawEntry,
    filter: &Filt,
    scanner: &Scan,
) -> (r: (EntryOutcome, Option<Failure<E>>)) where
    Filt: Fn(&Vec<u8>) -> bool,
    Scan: Fn(&Vec<u8>, &String) -> Result<(), E>,

    requires
        forall|p: &Vec<u8>| filter.requires((p,)),
        forall|p: &Vec<u8>, t: &String| scanner.requires((p, t)),
    ensures
        entry_fits(archive@, entry, filter, scanner, r.0),
        r.1 is Some <==> is_failure(r.0),
        r.1 matches Some(f) ==> failure_fits(archive@, entry, scanner, f) && (f is Scan <==> r.0
            == EntryOutcome::ScanFailed),
{
    match entry {
        RawEntry::Broken => (EntryOutcome::LoadFailed, Some(Failure::Entry)),
        RawEntry::Member { path: None, .. } => (EntryOutcome::LoadFailed, Some(Failure::Path)),
        RawEntry::Member { path: Some(p), contents } => {
            if !filter(&p) {
                return (EntryOutcome::Skipped, None);
            }
            let shown = make_display_path(archive.as_slice(), p.as_slice());
            let data = match contents {
                Some(data) => data,
                None => {
                    return (
                        EntryOutcome::LoadFailed,
                        Some(Failure::Contents { display_path: shown }),
                    );
                },
            };
            let ghost bytes = data@;
            let text = match decode_text(data) {
                Some(text) => text,
                None => {
                    return (
                        EntryOutcome::LoadFailed,
                        Some(Failure::Contents { display_path: shown }),
                    );
                },
            };
            let r = scanner(&shown, &text);
            assert(scanner_gave(scanner, display_path(archive@, p@), bytes, r));
            settle(shown, text, r)
        },
    }
}

/// Scans one archive that is held in memory: decompresses it, reads its
/// entries and scans them in turn.
pub fn scan_archive<Filt, Scan, E>(
    archive: &Vec<u8>,
    bytes: &[u8],
    filter: &Filt,
    scanner: &Scan,
) -> (report: ArchiveReport<E>) where
    Filt: Fn(&Vec<u8>) -> bool,
    Scan: Fn(&Vec<u8>, &String) -> Result<(), E>,

    requires
        forall|p: &Vec<u8>| filter.requires((p,)),
        forall|p: &Vec<u8>, t: &String| scanner.requires((p, t)),
    ensures
        archive_scan_fits(archive@, bytes@, filter, scanner, report),
{
    let entries = read_archive(bytes);
    let ghost all = entries@;
    let report = scan_entries(archive, entries, filter, scanner);
    assert(scan_fits(archive@, all, filter, scanner, report));
    report
}

/// What is reported for an archive that could not be opened: one load error
/// and no entry.
pub fn unopened<E>() -> (report: ArchiveReport<E>)
    ensures
        report.wf(),
        report.outcomes@.len() == 0,
        report.scanned == 0,
        report.failure == Some(Failure::<E>::Open),
{
    ArchiveReport { outcomes: Vec::new(), scanned: 0, failure: Some(Failure::Open) }
}

/// The counters of a run over a corpus. A counter that reaches the greatest
/// value it can hold stays there.
#[derive(Copy, Clone, Debug, PartialEq, Eq, Structural)]
pub struct ScanTotals {
    /// Entries handed to the callback.
    pub scanned: u64,
    /// Archives whose scan ended on a load error.
    pub load_errors: u64,
    /// Archives whose scan ended on a failure of the callback.
    pub scan_errors: u64,
    /// Archives in the run.
    pub total: u64,
}

/// `n`, or the greatest value of a counter where `n` is beyond it.
pub open spec fn capped(n: int) -> u64 {
    if n > u64::MAX {
        u64::MAX
    } else {
        n as u64
    }
}

/// The entries handed to the callback over all the reports.
pub open spec fn total_scanned<E>(reports: Seq<ArchiveReport<E>>) -> nat
    decreases reports.len(),
{
    if reports.len() == 0 {
        0
    } else {
        total_scanned(reports.drop_last()) + reports.last().scanned as nat
    }
}

/// The load errors over all the reports.
pub open spec fn total_load_errors<E>(reports: Seq<ArchiveReport<E>>) -> nat
    decreases reports.len(),
{
    if reports.len() == 0 {
        0
    } else {
        total_load_errors(reports.drop_last()) + reports.last().load_errors()
    }
}

/// The scan errors over all the reports.
pub open spec fn total_scan_errors<E>(reports: Seq<ArchiveReport<E>>) -> nat
    decreases reports.len(),
{
    if reports.len() == 0 {
        0
    } else {
        total_scan_errors(reports.drop_last()) + reports.last().scan_errors()
    }
}

/// The counters of a run that came to these reports.
pub open spec fn totals_of<E>(reports: Seq<ArchiveReport<E>>) -> ScanTotals {
    ScanTotals {
        scanned: capped(total_scanned(reports) as int),
        load_errors: capped(total_load_errors(reports) as int),
        scan_errors: capped(total_scan_errors(reports) as int),
        total: capped(reports.len() as int),
    }
}

impl ScanTotals {
    /// The counters before the first archive.
    pub fn new() -> (totals: ScanTotals)
        ensures
            totals == (ScanTotals { scanned: 0, load_errors: 0, scan_errors: 0, total: 0 }),
    {
        ScanTotals { scanned: 0, load_errors: 0, scan_errors: 0, total: 0 }
    }

    /// Adds the report of one archive to the counters.
    pub fn absorb<E>(&mut self, report: &ArchiveReport<E>)
        ensures
            final(self).scanned == capped(old(self).scanned + report.scanned),
            final(self).load_errors == capped(old(self).load_errors + report.load_errors()),
            final(self).scan_errors == capped(old(self).scan_errors + report.scan_errors()),
            final(self).total == capped(old(self).total + 1),
    {
        self.scanned = self.scanned.saturating_add(report.scanned as u64);
        match &report.failure {
            Some(f) => {
                if f.is_load_error() {
                    self.load_errors = self.load_errors.saturating_add(1);
                } else {
                    self.scan_errors = self.scan_errors.saturating_add(1);
                }
            },
            None => {},
        }
        self.total = self.total.saturating_add(1);
    }

    /// Adds the counters of another part of the run to these.
    pub fn merge(&mut self, other: &ScanTotals)
        ensures
            final(self).scanned == capped(old(self).scanned + other.scanned),
            final(self).load_errors == capped(old(self).load_errors + other.load_errors),
            final(self).scan_errors == capped(old(self).scan_errors + other.scan_errors),
            final(self).total == capped(old(self).total + other.total),
    {
        self.scanned = self.scanned.saturating_add(other.scanned);
        self.load_errors = self.load_errors.saturating_add(other.load_errors);
        self.scan_errors = self.scan_errors.saturating_add(other.scan_errors);
        self.total = self.total.saturating_add(other.total);
    }
}

/// What a run over a list of archives came to.
#[derive(Debug)]
pub struct CompressedSummary<E> {
    /// The report of each archive, in the order of the list.
    pub reports: Vec<ArchiveReport<E>>,
    /// The counters over all of them.
    pub totals: ScanTotals,
}

/// `report` is what the run makes of the archive at `path`: where it cannot
/// be loaded, one load error; else the scan of its bytes.
pub open spec fn report_fits<Load, Filt, Scan, E>(
    path: Vec<u8>,
    load: &Load,
    filter: &Filt,
    scanner: &Scan,
    report: ArchiveReport<E>,
) -> bool where
    Load: Fn(&Vec<u8>) -> Option<Vec<u8>>,
    Filt: Fn(&Vec<u8>) -> bool,
    Scan: Fn(&Vec<u8>, &String) -> Result<(), E>,
 {
    exists|loaded: Option<Vec<u8>>| #[trigger]
        load.ensures((&path,), loaded) && match loaded {
            None => report.wf() && report.outcomes@.len() == 0 && report.failure == Some(
                Failure::<E>::Open,
            ),
            Some(bytes) => archive_scan_fits(path@, bytes@, filter, scanner, report),
        }
}

/// `summary` is what a run over the archives at `paths` comes to: a report
/// for each in turn, and the counters over them.
pub open spec fn summary_fits<Load, Filt, Scan, E>(
    paths: Seq<Vec<u8>>,
    load: &Load,
    filter: &Filt,
    scanner: &Scan,
    summary: CompressedSummary<E>,
) -> bool where
    Load: Fn(&Vec<u8>) -> Option<Vec<u8>>,
    Filt: Fn(&Vec<u8>) -> bool,
    Scan: Fn(&Vec<u8>, &String) -> Result<(), E>,
 {
    &&& summary.reports@.len() == paths.len()
    &&& forall|k: int|
        0 <= k < paths.len() ==> report_fits(
            paths[k],
            load,
            filter,
            scanner,
            #[trigger] summary.reports@[k],
        )
    &&& summary.totals == totals_of(summary.reports@)
}

/// Scans the archives at `paths` one after the other. `load` hands over the
/// bytes of the archive at a path, or nothing where it cannot be read. A
/// failure ends the scan of the archive it occurs in and of no other.
pub fn scan_archives<Load, Filt, Scan, E>(
    paths: &Vec<Vec<u8>>,
    load: &Load,
    filter: &Filt,
    scanner: &Scan,
) -> (summary: CompressedSummary<E>) where
    Load: Fn(&Vec<u8>) -> Option<Vec<u8>>,
    Filt: Fn(&Vec<u8>) -> bool,
    Scan: Fn(&Vec<u8>, &String) -> Result<(), E>,

    requires
        forall|p: &Vec<u8>| load.requires((p,)),
        forall|p: &Vec<u8>| filter.requires((p,)),
        forall|p: &Vec<u8>, t: &String| scanner.requires((p, t)),
    ensures
        summary_fits(paths@, load, filter, scanner, summary),
{
    let mut reports: Vec<ArchiveReport<E>> = Vec::new();
    let mut totals = ScanTotals::new();
    let mut k: usize = 0;
    while k < paths.len()
        invariant
            k <= paths@.len(),
            reports@.len() == k,
            forall|m: int|
                0 <= m < k ==> report_fits(paths@[m], load, filter, scanner, #[trigger] reports@[m]),
            totals == totals_of(reports@),
            forall|p: &Vec<u8>| load.requires((p,)),
            forall|p: &Vec<u8>| filter.requires((p,)),
            forall|p: &Vec<u8>, t: &String| scanner.requires((p, t)),
        decreases paths@.len() - k,
    {
        let path = &paths[k];
        let loaded = load(path);
        let report = match loaded {
            Some(bytes) => {
                let report = scan_archive(path, bytes.as_slice(), filter, scanner);
                assert(report_fits(*path, load, filter, scanner, report)) by {
                    assert(load.ensures((path,), loaded));
                }
                report
            },
            None => {
                let report = unopened();
                assert(report_fits(*path, load, filter, scanner, report)) by {
                    assert(load.ensures((path,), loaded));
                }
                report
            },
        };
        totals.absorb(&report);
        let ghost before = reports@;
        reports.push(report);
        proof {
            assert(reports@.drop_last() =~= before);
        }
        k += 1;
    }
    CompressedSummary { reports, totals }
}

/// What a run over a corpus came to.
#[derive(Debug)]
pub struct CompressedRun<E> {
    /// The archives that the run went over, and those left out of the index.
    pub view: CorpusView,
    /// The reports and the counters.
    pub summary: CompressedSummary<E>,
}

/// Scans a corpus of compressed archives: takes the view that `versions`
/// asks for of the paths that a walk of the corpus found, and scans the
/// archives of that view one after the other.
pub fn scan_compressed<Load, Filt, Scan, E>(
    walked: &Vec<Vec<u8>>,
    versions: Versions,
    load: &Load,
    filter: &Filt,
    scanner: &Scan,
) -> (run: CompressedRun<E>) where
    Load: Fn(&Vec<u8>) -> Option<Vec<u8>>,
    Filt: Fn(&Vec<u8>) -> bool,
    Scan: Fn(&Vec<u8>, &String) -> Result<(), E>,

    requires
        forall|p: &Vec<u8>| load.requires((p,)),
        forall|p: &Vec<u8>| filter.requires((p,)),
        forall|p: &Vec<u8>, t: &String| scanner.requires((p, t)),
    ensures
        view_fits(walked@, versions, run.view),
        summary_fits(run.view.paths@, load, filter, scanner, run.summary),
{
    let view = corpus_view(walked, versions);
    let summary = scan_archives(&view.paths, load, filter, scanner);
    CompressedRun { view, summary }
}

/// A scan has at most one failure, and what was scanned before it stays
/// counted: with a load error at its end, an archive has one load error, no
/// scan error, and as many scanned entries as were scanned before.
pub proof fn lemma_failure_ends_scan<E>(report: ArchiveReport<E>)
    requires
        report.wf(),
    ensures
        report.load_errors() + report.scan_errors() <= 1,
        report.load_errors() + report.scan_errors() == 1 <==> report.failure is Some,
        report.outcomes@.len() > 0 && report.outcomes@.last() == EntryOutcome::LoadFailed ==> {
            &&& report.load_errors() == 1
            &&& report.scan_errors() == 0
            &&& report.scanned == scanned_in(report.outcomes@.drop_last())
        },
        forall|i: int|
            0 <= i < report.outcomes@.len() - 1 ==> !is_failure(#[trigger] report.outcomes@[i]),
{
}

/// An entry that the filter accepts and that is no text ends the scan of its
/// archive with a load error: the entries before it were skipped or scanned
/// with success and stay counted, and nothing after it is reached.
pub proof fn lemma_undecodable_entry_stops_scan<Filt, Scan, E>(
    archive: Seq<u8>,
    entries: Seq<RawEntry>,
    filter: &Filt,
    scanner: &Scan,
    report: ArchiveReport<E>,
    k: int,
) where Filt: Fn(&Vec<u8>) -> bool, Scan: Fn(&Vec<u8>, &String) -> Result<(), E>
    requires
        scan_fits(archive, entries, filter, scanner, report),
        0 <= k < report.outcomes@.len(),
        report.outcomes@[k] != EntryOutcome::Skipped,
        entries[k] matches RawEntry::Member { path: Some(_), contents: Some(data) }
            && !valid_utf8(data@),
    ensures
        report.outcomes@.len() == k + 1,
        report.outcomes@[k] == EntryOutcome::LoadFailed,
        forall|i: int|
            0 <= i < k ==> (#[trigger] report.outcomes@[i]) == EntryOutcome::Skipped
                || report.outcomes@[i] == EntryOutcome::Scanned,
        report.scanned == scanned_in(report.outcomes@.take(k)),
        report.load_errors() == 1,
        report.scan_errors() == 0,
{
    let outcomes = report.outcomes@;
    assert(entry_fits(archive, entries[k], filter, scanner, outcomes[k]));
    assert(outcomes[k] == EntryOutcome::LoadFailed);
    if k < outcomes.len() - 1 {
        assert(!is_failure(outcomes[k]));
    }
    assert(outcomes.take(k) =~= outcomes.drop_last());
    assert forall|i: int| 0 <= i < k implies (#[trigger] outcomes[i]) == EntryOutcome::Skipped
        || outcomes[i] == EntryOutcome::Scanned by {
        assert(!is_failure(outcomes[i]));
    }
}

/// The counters are sums over the archives: putting another report in the
/// place of one changes each total by the difference between the two
/// reports, and touches what the other archives contribute in nothing.
pub proof fn lemma_failure_is_confined<E>(
    reports: Seq<ArchiveReport<E>>,
    k: int,
    other: ArchiveReport<E>,
)
    requires
        0 <= k < reports.len(),
    ensures
        total_scanned(reports.update(k, other)) + reports[k].scanned == total_scanned(reports)
            + other.scanned,
        total_load_errors(reports.update(k, other)) + reports[k].load_errors()
            == total_load_errors(reports) + other.load_errors(),
        total_scan_errors(reports.update(k, other)) + reports[k].scan_errors()
            == total_scan_errors(reports) + other.scan_errors(),
    decreases reports.len(),
{
    let changed = reports.update(k, other);
    if k == reports.len() - 1 {
        assert(changed.drop_last() =~= reports.drop_last());
    } else {
        assert(changed.drop_last() =~= reports.drop_last().update(k, other));
        lemma_failure_is_confined(reports.drop_last(), k, other);
    }
}

} // verus!
