use std::cell::RefCell;
use std::io::Write;

use crates_scanner::archive::{
    make_display_path, scan_archive, scan_archives, scan_compressed, scan_entries, scan_entry,
    settle, unopened, ArchiveReport, EntryOutcome, Failure, RawEntry, ScanTotals,
};
use crates_scanner::Versions;

fn tar_of(entries: &[(&str, &[u8])]) -> Vec<u8> {
    let mut builder = tar::Builder::new(Vec::new());
    for (path, data) in entries {
        let mut header = tar::Header::new_gnu();
        header.set_size(data.len() as u64);
        header.set_mode(0o644);
        builder.append_data(&mut header, path, *data).unwrap();
    }
    builder.into_inner().unwrap()
}

fn gzip(bytes: &[u8]) -> Vec<u8> {
    let mut encoder = flate2::write::GzEncoder::new(Vec::new(), flate2::Compression::default());
    encoder.write_all(bytes).unwrap();
    encoder.finish().unwrap()
}

fn archive_of(entries: &[(&str, &[u8])]) -> Vec<u8> {
    gzip(&tar_of(entries))
}

fn named(name: &[u8]) -> impl Fn(&Vec<u8>) -> bool + '_ {
    move |path: &Vec<u8>| path.rsplit(|b| *b == b'/').next() == Some(name)
}

fn accept_all(_path: &Vec<u8>) -> bool {
    true
}

fn member(path: &str, contents: &[u8]) -> RawEntry {
    RawEntry::Member { path: Some(path.as_bytes().to_vec()), contents: Some(contents.to_vec()) }
}

#[test]
fn display_path_is_the_archive_name_and_the_entry_path() {
    assert_eq!(
        make_display_path(b"root/foo/foo-1.0.0.crate", b"foo-1.0.0/Cargo.toml"),
        b"foo-1.0.0.crate/foo-1.0.0/Cargo.toml".to_vec()
    );
    assert_eq!(make_display_path(b"foo-1.0.0.crate", b"x"), b"foo-1.0.0.crate/x".to_vec());
    assert_eq!(make_display_path(b"root/foo-1.0.0.crate", b"/abs"), b"/abs".to_vec());
}

#[test]
fn round_trip_of_a_single_text_entry() {
    let text = "[package]\nname = \"foo\"\nversion = \"1.0.0\"\n# gr\u{fc}\u{df}e\n";
    let bytes = archive_of(&[("foo-1.0.0/Cargo.toml", text.as_bytes())]);
    let calls = RefCell::new(Vec::new());
    let report: ArchiveReport<String> = scan_archive(
        &b"root/foo/foo-1.0.0.crate".to_vec(),
        &bytes,
        &accept_all,
        &|path: &Vec<u8>, contents: &String| {
            calls.borrow_mut().push((path.clone(), contents.clone()));
            Ok(())
        },
    );
    assert_eq!(
        calls.into_inner(),
        vec![(b"foo-1.0.0.crate/foo-1.0.0/Cargo.toml".to_vec(), text.to_string())]
    );
    assert_eq!(report.outcomes, vec![EntryOutcome::Scanned]);
    assert_eq!(report.scanned, 1);
    assert!(report.failure.is_none());
}

#[test]
fn filter_on_the_manifest_calls_back_once() {
    let bytes = archive_of(&[
        ("foo-1.0.0/Cargo.toml", b"[package]\n"),
        ("foo-1.0.0/src/lib.rs", b"pub fn f() {}\n"),
    ]);
    let calls = RefCell::new(Vec::new());
    let report: ArchiveReport<String> = scan_archive(
        &b"root/foo/foo-1.0.0.crate".to_vec(),
        &bytes,
        &named(b"Cargo.toml"),
        &|path: &Vec<u8>, contents: &String| {
            calls.borrow_mut().push((path.clone(), contents.clone()));
            Ok(())
        },
    );
    let calls = calls.into_inner();
    assert_eq!(calls.len(), 1);
    assert!(calls[0].0.ends_with(b"/Cargo.toml"));
    assert_eq!(calls[0].0, b"foo-1.0.0.crate/foo-1.0.0/Cargo.toml".to_vec());
    assert_eq!(calls[0].1, "[package]\n");
    assert_eq!(report.outcomes, vec![EntryOutcome::Scanned, EntryOutcome::Skipped]);
    assert_eq!(report.scanned, 1);
    assert!(report.failure.is_none());
}

#[test]
fn a_skipped_entry_is_not_decoded() {
    let bytes = archive_of(&[("foo-1.0.0/blob.bin", &[0xff, 0xfe, 0x00]), ("foo-1.0.0/a.rs", b"x")]);
    let report: ArchiveReport<String> = scan_archive(
        &b"foo-1.0.0.crate".to_vec(),
        &bytes,
        &named(b"a.rs"),
        &|_path: &Vec<u8>, _contents: &String| Ok(()),
    );
    assert_eq!(report.outcomes, vec![EntryOutcome::Skipped, EntryOutcome::Scanned]);
    assert!(report.failure.is_none());
}

#[test]
fn an_entry_that_is_no_text_ends_the_scan_of_its_archive() {
    let bytes = archive_of(&[
        ("foo-1.0.0/a.txt", b"first"),
        ("foo-1.0.0/b.txt", &[0x66, 0xff, 0x6f]),
        ("foo-1.0.0/c.txt", b"third"),
    ]);
    let calls = RefCell::new(Vec::new());
    let report: ArchiveReport<String> = scan_archive(
        &b"root/foo/foo-1.0.0.crate".to_vec(),
        &bytes,
        &accept_all,
        &|_path: &Vec<u8>, contents: &String| {
            calls.borrow_mut().push(contents.clone());
            Ok(())
        },
    );
    assert_eq!(calls.into_inner(), vec!["first".to_string()]);
    assert_eq!(report.outcomes, vec![EntryOutcome::Scanned, EntryOutcome::LoadFailed]);
    assert_eq!(report.scanned, 1);
    match report.failure {
        Some(Failure::Contents { display_path }) => {
            assert_eq!(display_path, b"foo-1.0.0.crate/foo-1.0.0/b.txt".to_vec())
        }
        other => panic!("{:?}", other),
    }
}

#[test]
fn a_failure_of_the_callback_ends_the_scan_of_its_archive() {
    let bytes = archive_of(&[
        ("foo-1.0.0/a.txt", b"fine"),
        ("foo-1.0.0/b.txt", b"bad"),
        ("foo-1.0.0/c.txt", b"fine"),
    ]);
    let calls = RefCell::new(0usize);
    let report: ArchiveReport<String> = scan_archive(
        &b"root/foo/foo-1.0.0.crate".to_vec(),
        &bytes,
        &accept_all,
        &|_path: &Vec<u8>, contents: &String| {
            *calls.borrow_mut() += 1;
            if contents == "bad" {
                Err("refused".to_string())
            } else {
                Ok(())
            }
        },
    );
    assert_eq!(calls.into_inner(), 2);
    assert_eq!(report.outcomes, vec![EntryOutcome::Scanned, EntryOutcome::ScanFailed]);
    assert_eq!(report.scanned, 2);
    match report.failure {
        Some(Failure::Scan { display_path, error, contents }) => {
            assert_eq!(display_path, b"foo-1.0.0.crate/foo-1.0.0/b.txt".to_vec());
            assert_eq!(error, "refused");
            assert_eq!(contents, "bad");
        }
        other => panic!("{:?}", other),
    }
}

#[test]
fn bytes_that_are_no_archive_are_a_load_error() {
    let report: ArchiveReport<String> = scan_archive(
        &b"foo-1.0.0.crate".to_vec(),
        b"this is not a gzip stream at all",
        &accept_all,
        &|_path: &Vec<u8>, _contents: &String| Ok(()),
    );
    assert_eq!(report.outcomes, vec![EntryOutcome::LoadFailed]);
    assert_eq!(report.scanned, 0);
    assert!(matches!(report.failure, Some(Failure::Entry)));
}

#[test]
fn a_truncated_archive_is_a_load_error_after_what_could_be_read() {
    let big = vec![b'x'; 200_000];
    let mut bytes = archive_of(&[("foo-1.0.0/a.txt", b"first"), ("foo-1.0.0/big.txt", &big)]);
    bytes.truncate(bytes.len() / 2);
    let calls = RefCell::new(Vec::new());
    let report: ArchiveReport<String> = scan_archive(
        &b"foo-1.0.0.crate".to_vec(),
        &bytes,
        &accept_all,
        &|_path: &Vec<u8>, contents: &String| {
            calls.borrow_mut().push(contents.len());
            Ok(())
        },
    );
    assert_eq!(calls.into_inner(), vec![5]);
    assert_eq!(report.outcomes, vec![EntryOutcome::Scanned, EntryOutcome::LoadFailed]);
    assert!(matches!(report.failure, Some(Failure::Contents { .. })));
}

#[test]
fn an_archive_without_entries_has_nothing_to_report() {
    let bytes = archive_of(&[]);
    let report: ArchiveReport<String> = scan_archive(
        &b"foo-1.0.0.crate".to_vec(),
        &bytes,
        &accept_all,
        &|_path: &Vec<u8>, _contents: &String| Err("never".to_string()),
    );
    assert!(report.outcomes.is_empty());
    assert_eq!(report.scanned, 0);
    assert!(report.failure.is_none());
}

#[test]
fn scan_entries_stops_at_a_broken_entry() {
    let entries = vec![member("a", b"one"), RawEntry::Broken, member("b", b"two")];
    let calls = RefCell::new(0usize);
    let report: ArchiveReport<String> = scan_entries(
        &b"x.crate".to_vec(),
        entries,
        &accept_all,
        &|_path: &Vec<u8>, _contents: &String| {
            *calls.borrow_mut() += 1;
            Ok(())
        },
    );
    assert_eq!(calls.into_inner(), 1);
    assert_eq!(report.outcomes, vec![EntryOutcome::Scanned, EntryOutcome::LoadFailed]);
    assert!(matches!(report.failure, Some(Failure::Entry)));
}

#[test]
fn scan_entries_stops_at_an_entry_without_a_path() {
    let entries = vec![
        RawEntry::Member { path: None, contents: Some(b"lost".to_vec()) },
        member("b", b"two"),
    ];
    let report: ArchiveReport<String> = scan_entries(
        &b"x.crate".to_vec(),
        entries,
        &accept_all,
        &|_path: &Vec<u8>, _contents: &String| Ok(()),
    );
    assert_eq!(report.outcomes, vec![EntryOutcome::LoadFailed]);
    assert_eq!(report.scanned, 0);
    assert!(matches!(report.failure, Some(Failure::Path)));
}

#[test]
fn scan_entries_stops_at_contents_that_could_not_be_read() {
    let entries =
        vec![member("a", b"one"), RawEntry::Member { path: Some(b"b".to_vec()), contents: None }];
    let report: ArchiveReport<String> = scan_entries(
        &b"dir/x.crate".to_vec(),
        entries,
        &accept_all,
        &|_path: &Vec<u8>, _contents: &String| Ok(()),
    );
    assert_eq!(report.outcomes, vec![EntryOutcome::Scanned, EntryOutcome::LoadFailed]);
    match report.failure {
        Some(Failure::Contents { display_path }) => assert_eq!(display_path, b"x.crate/b".to_vec()),
        other => panic!("{:?}", other),
    }
}

#[test]
fn scan_entries_skips_unreadable_contents_that_the_filter_rejects() {
    let entries =
        vec![RawEntry::Member { path: Some(b"b".to_vec()), contents: None }, member("a", b"one")];
    let report: ArchiveReport<String> = scan_entries(
        &b"x.crate".to_vec(),
        entries,
        &named(b"a"),
        &|_path: &Vec<u8>, _contents: &String| Ok(()),
    );
    assert_eq!(report.outcomes, vec![EntryOutcome::Skipped, EntryOutcome::Scanned]);
    assert!(report.failure.is_none());
}

#[test]
fn scan_entries_of_nothing() {
    let report: ArchiveReport<String> = scan_entries(
        &b"x.crate".to_vec(),
        Vec::new(),
        &accept_all,
        &|_path: &Vec<u8>, _contents: &String| Ok(()),
    );
    assert!(report.outcomes.is_empty());
    assert!(report.failure.is_none());
}

#[test]
fn an_unopened_archive_is_one_load_error() {
    let report: ArchiveReport<String> = unopened();
    assert!(report.outcomes.is_empty());
    assert_eq!(report.scanned, 0);
    match report.failure {
        Some(f) => {
            assert!(matches!(f, Failure::Open));
            assert!(f.is_load_error());
        }
        None => panic!("no failure"),
    }
}

#[test]
fn only_a_failure_of_the_callback_is_a_scan_error() {
    assert!(Failure::<String>::Open.is_load_error());
    assert!(Failure::<String>::Entry.is_load_error());
    assert!(Failure::<String>::Path.is_load_error());
    assert!(Failure::<String>::Contents { display_path: Vec::new() }.is_load_error());
    let scan = Failure::Scan {
        display_path: Vec::new(),
        error: "e".to_string(),
        contents: String::new(),
    };
    assert!(!scan.is_load_error());
}

#[test]
fn a_failure_in_one_archive_leaves_the_others_alone() {
    let good = archive_of(&[("good-1.0.0/a.txt", b"a"), ("good-1.0.0/b.txt", b"b")]);
    let bad = archive_of(&[
        ("bad-1.0.0/a.txt", b"a"),
        ("bad-1.0.0/b.txt", &[0xc3, 0x28]),
        ("bad-1.0.0/c.txt", b"c"),
    ]);
    let last = archive_of(&[("last-1.0.0/a.txt", b"a")]);
    let paths = vec![
        b"root/good/good-1.0.0.crate".to_vec(),
        b"root/bad/bad-1.0.0.crate".to_vec(),
        b"root/gone/gone-1.0.0.crate".to_vec(),
        b"root/last/last-1.0.0.crate".to_vec(),
    ];
    let load = |path: &Vec<u8>| -> Option<Vec<u8>> {
        if path == &paths[0] {
            Some(good.clone())
        } else if path == &paths[1] {
            Some(bad.clone())
        } else if path == &paths[3] {
            Some(last.clone())
        } else {
            None
        }
    };
    let seen = RefCell::new(Vec::new());
    let summary = scan_archives(&paths, &load, &accept_all, &|path: &Vec<u8>, _c: &String| {
        seen.borrow_mut().push(String::from_utf8(path.clone()).unwrap());
        Ok::<(), String>(())
    });
    assert_eq!(
        seen.into_inner(),
        vec![
            "good-1.0.0.crate/good-1.0.0/a.txt",
            "good-1.0.0.crate/good-1.0.0/b.txt",
            "bad-1.0.0.crate/bad-1.0.0/a.txt",
            "last-1.0.0.crate/last-1.0.0/a.txt",
        ]
    );
    assert_eq!(summary.reports.len(), 4);
    assert_eq!(summary.reports[0].outcomes, vec![EntryOutcome::Scanned, EntryOutcome::Scanned]);
    assert!(summary.reports[0].failure.is_none());
    assert_eq!(summary.reports[1].outcomes, vec![EntryOutcome::Scanned, EntryOutcome::LoadFailed]);
    assert!(matches!(summary.reports[1].failure, Some(Failure::Contents { .. })));
    assert!(summary.reports[2].outcomes.is_empty());
    assert!(matches!(summary.reports[2].failure, Some(Failure::Open)));
    assert_eq!(summary.reports[3].outcomes, vec![EntryOutcome::Scanned]);
    assert!(summary.reports[3].failure.is_none());
    assert_eq!(
        summary.totals,
        ScanTotals { scanned: 4, load_errors: 2, scan_errors: 0, total: 4 }
    );
}

#[test]
fn scan_errors_and_load_errors_are_counted_apart() {
    let first = archive_of(&[("a-1.0.0/x", b"boom"), ("a-1.0.0/y", b"fine")]);
    let second = archive_of(&[("b-1.0.0/x", b"fine"), ("b-1.0.0/y", b"fine")]);
    let paths = vec![b"a-1.0.0.crate".to_vec(), b"b-1.0.0.crate".to_vec(), b"c-1.0.0.crate".to_vec()];
    let load = |path: &Vec<u8>| -> Option<Vec<u8>> {
        if path == &paths[0] {
            Some(first.clone())
        } else if path == &paths[1] {
            Some(second.clone())
        } else {
            Some(b"garbage".to_vec())
        }
    };
    let summary = scan_archives(&paths, &load, &accept_all, &|_p: &Vec<u8>, c: &String| {
        if c == "boom" {
            Err(7u32)
        } else {
            Ok(())
        }
    });
    assert_eq!(
        summary.totals,
        ScanTotals { scanned: 3, load_errors: 1, scan_errors: 1, total: 3 }
    );
    match &summary.reports[0].failure {
        Some(Failure::Scan { error, .. }) => assert_eq!(*error, 7),
        other => panic!("{:?}", other),
    }
}

#[test]
fn scan_archives_of_nothing() {
    let summary = scan_archives(
        &Vec::new(),
        &|_p: &Vec<u8>| None,
        &accept_all,
        &|_p: &Vec<u8>, _c: &String| Ok::<(), String>(()),
    );
    assert!(summary.reports.is_empty());
    assert_eq!(summary.totals, ScanTotals { scanned: 0, load_errors: 0, scan_errors: 0, total: 0 });
}

#[test]
fn scan_compressed_goes_over_the_view_that_is_asked_for() {
    let walked: Vec<Vec<u8>> = [
        "root/foo",
        "root/foo/foo-1.0.0.crate",
        "root/foo/foo-2.0.0-beta.crate",
        "root/foo/foo-nonsense.crate",
        "root/bar/bar-0.1.0.crate",
    ]
    .iter()
    .map(|p| p.as_bytes().to_vec())
    .collect();
    let load = |path: &Vec<u8>| -> Option<Vec<u8>> {
        let shown = String::from_utf8(path.clone()).unwrap();
        Some(archive_of(&[("Cargo.toml", shown.as_bytes())]))
    };
    let seen = RefCell::new(Vec::new());
    let scanner = |_path: &Vec<u8>, contents: &String| {
        seen.borrow_mut().push(contents.clone());
        Ok::<(), String>(())
    };
    let all = scan_compressed(&walked, Versions::All, &load, &accept_all, &scanner);
    assert_eq!(all.view.paths.len(), 4);
    assert!(all.view.errors.is_empty());
    assert_eq!(all.summary.totals, ScanTotals { scanned: 4, load_errors: 0, scan_errors: 0, total: 4 });
    assert_eq!(
        seen.borrow().clone(),
        vec![
            "root/foo/foo-1.0.0.crate",
            "root/foo/foo-2.0.0-beta.crate",
            "root/foo/foo-nonsense.crate",
            "root/bar/bar-0.1.0.crate",
        ]
    );
    seen.borrow_mut().clear();
    let latest = scan_compressed(&walked, Versions::Latest, &load, &accept_all, &scanner);
    assert_eq!(
        latest.view.paths,
        vec![b"root/foo/foo-2.0.0-beta.crate".to_vec(), b"root/bar/bar-0.1.0.crate".to_vec()]
    );
    assert_eq!(latest.view.errors.len(), 1);
    assert_eq!(latest.view.errors[0].position, 3);
    assert_eq!(
        latest.summary.totals,
        ScanTotals { scanned: 2, load_errors: 0, scan_errors: 0, total: 2 }
    );
    assert_eq!(
        seen.borrow().clone(),
        vec!["root/foo/foo-2.0.0-beta.crate", "root/bar/bar-0.1.0.crate"]
    );
}

#[test]
fn totals_start_at_nothing() {
    assert_eq!(ScanTotals::new(), ScanTotals { scanned: 0, load_errors: 0, scan_errors: 0, total: 0 });
}

#[test]
fn totals_absorb_a_report() {
    let mut totals = ScanTotals { scanned: 10, load_errors: 1, scan_errors: 2, total: 5 };
    let clean: ArchiveReport<String> = ArchiveReport {
        outcomes: vec![EntryOutcome::Scanned, EntryOutcome::Skipped, EntryOutcome::Scanned],
        scanned: 2,
        failure: None,
    };
    totals.absorb(&clean);
    assert_eq!(totals, ScanTotals { scanned: 12, load_errors: 1, scan_errors: 2, total: 6 });
    totals.absorb(&unopened::<String>());
    assert_eq!(totals, ScanTotals { scanned: 12, load_errors: 2, scan_errors: 2, total: 7 });
    let failed = ArchiveReport {
        outcomes: vec![EntryOutcome::ScanFailed],
        scanned: 1,
        failure: Some(Failure::Scan {
            display_path: b"x".to_vec(),
            error: "e".to_string(),
            contents: String::new(),
        }),
    };
    totals.absorb(&failed);
    assert_eq!(totals, ScanTotals { scanned: 13, load_errors: 2, scan_errors: 3, total: 8 });
}

#[test]
fn totals_merge_adds_each_counter() {
    let mut totals = ScanTotals { scanned: 10, load_errors: 1, scan_errors: 2, total: 5 };
    totals.merge(&ScanTotals { scanned: 5, load_errors: 0, scan_errors: 1, total: 3 });
    assert_eq!(totals, ScanTotals { scanned: 15, load_errors: 1, scan_errors: 3, total: 8 });
}

#[test]
fn totals_stay_at_the_greatest_value() {
    let mut totals = ScanTotals { scanned: u64::MAX - 1, load_errors: u64::MAX, scan_errors: 0, total: u64::MAX };
    totals.merge(&ScanTotals { scanned: 5, load_errors: 1, scan_errors: 1, total: 1 });
    assert_eq!(
        totals,
        ScanTotals { scanned: u64::MAX, load_errors: u64::MAX, scan_errors: 1, total: u64::MAX }
    );
    totals.absorb(&unopened::<String>());
    assert_eq!(totals.load_errors, u64::MAX);
    assert_eq!(totals.total, u64::MAX);
}

#[test]
fn settle_records_a_failure_of_the_callback() {
    let (outcome, failure) = settle(b"x.crate/a".to_vec(), "text".to_string(), Err(5u8));
    assert_eq!(outcome, EntryOutcome::ScanFailed);
    match failure {
        Some(Failure::Scan { display_path, error, contents }) => {
            assert_eq!(display_path, b"x.crate/a".to_vec());
            assert_eq!(error, 5);
            assert_eq!(contents, "text");
        }
        other => panic!("{:?}", other),
    }
}

#[test]
fn settle_counts_a_success_as_scanned() {
    let (outcome, failure) = settle::<u8>(b"x.crate/a".to_vec(), "text".to_string(), Ok(()));
    assert_eq!(outcome, EntryOutcome::Scanned);
    assert!(failure.is_none());
}

#[test]
fn scan_entry_asks_the_filter_before_it_decodes() {
    let asked = RefCell::new(Vec::new());
    let filter = |path: &Vec<u8>| {
        asked.borrow_mut().push(path.clone());
        false
    };
    let (outcome, failure) = scan_entry(
        &b"x.crate".to_vec(),
        member("dir/a.bin", &[0xff]),
        &filter,
        &|_p: &Vec<u8>, _c: &String| Err::<(), u8>(1),
    );
    assert_eq!(outcome, EntryOutcome::Skipped);
    assert!(failure.is_none());
    assert_eq!(asked.into_inner(), vec![b"dir/a.bin".to_vec()]);
}
