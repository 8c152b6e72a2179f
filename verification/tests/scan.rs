use dirstat::classify::FileInfo;
use dirstat::error::ScanError;
use dirstat::node::{DiskItem, NodeKind};
use dirstat::progress::{ProgressSnapshot, Throttle};
use dirstat::scan::{Action, Event, Scanner};
use dirstat::turbo::{worker_count, DirectoryTask, Offer, MAX_WORKERS};

/// What a walk finds at one entry of a directory held in memory.
enum Found {
    File(&'static str, u64),
    Dir(&'static str, u64, Result<Vec<Found>, ScanError>),
    Other(&'static str),
    Unreadable(&'static str, ScanError),
}

impl Found {
    fn path(&self) -> String {
        match self {
            Found::File(path, _)
            | Found::Dir(path, _, _)
            | Found::Other(path)
            | Found::Unreadable(path, _) => path.to_string(),
        }
    }

    fn info(&self) -> Result<FileInfo, ScanError> {
        match self {
            Found::File(_, size) => Ok(FileInfo::File { size: *size }),
            Found::Dir(_, volume_id, _) => Ok(FileInfo::Directory { volume_id: *volume_id }),
            Found::Other(_) => Ok(FileInfo::Other),
            Found::Unreadable(_, error) => Err(*error),
        }
    }
}

fn drive(scanner: &mut Scanner, event: Event) -> Action {
    assert!(scanner.accepts(&event));
    scanner.step(event)
}

/// Feeds the scanner the events of a walk of `entries`, as a caller that
/// lists real directories would, and collects the snapshots.
fn walk(scanner: &mut Scanner, entries: &[Found], seen: &mut Vec<ProgressSnapshot>) {
    for found in entries {
        let event = Event::Entry { path: found.path(), info: found.info() };
        match drive(scanner, event) {
            Action::Notify { progress } => seen.push(progress),
            Action::Descend => match found {
                Found::Dir(_, _, Ok(inner)) => {
                    walk(scanner, inner, seen);
                    assert!(matches!(drive(scanner, Event::EndOfDirectory), Action::Continue));
                }
                Found::Dir(_, _, Err(error)) => {
                    let failed = Event::ListingFailed { error: *error };
                    assert!(matches!(drive(scanner, failed), Action::Continue));
                }
                _ => panic!("only a directory is descended into"),
            },
            Action::Continue => {}
            other => panic!("unexpected action {:?}", other),
        }
    }
}

fn scan_sequential(
    root: &str,
    volume_id: u64,
    known_total: u64,
    entries: &[Found],
) -> (DiskItem, ProgressSnapshot, Vec<ProgressSnapshot>) {
    let info = Ok(FileInfo::Directory { volume_id });
    let mut scanner = Scanner::start(root.to_string(), info, known_total).unwrap();
    let mut seen = Vec::new();
    walk(&mut scanner, entries, &mut seen);
    match drive(&mut scanner, Event::EndOfDirectory) {
        Action::Finished { tree, progress } => {
            assert!(!scanner.is_active());
            (tree, progress, seen)
        }
        other => panic!("unexpected action {:?}", other),
    }
}

/// Scans a directory as the parallel scanner does: the files at once, the
/// subdirectories afterwards, each on its own, then the join.
fn scan_parallel(path: &str, root_volume: u64, entries: &[Found]) -> Option<DiskItem> {
    let mut task = DirectoryTask::new(path.to_string());
    let mut handed_out = Vec::new();
    for found in entries {
        match task.offer(found.path(), found.info(), root_volume) {
            Offer::Counted { .. } | Offer::Skipped => {}
            Offer::Dispatch => handed_out.push(found),
        }
    }
    let mut results = Vec::new();
    for found in handed_out {
        match found {
            Found::Dir(sub, _, Ok(inner)) => results.push(scan_parallel(sub, root_volume, inner)),
            Found::Dir(_, _, Err(_)) => results.push(None),
            _ => panic!("only a directory is handed out"),
        }
    }
    assert_eq!(task.pending(), results.len());
    task.join(results)
}

fn example() -> Vec<Found> {
    vec![
        Found::File("/data/a.bin", 100),
        Found::Dir(
            "/data/sub",
            7,
            Ok(vec![Found::File("/data/sub/b.bin", 50), Found::File("/data/sub/c.bin", 25)]),
        ),
    ]
}

fn mixed() -> Vec<Found> {
    vec![
        Found::File("/r/one", 10),
        Found::Unreadable("/r/gone", ScanError::NotFound),
        Found::Dir(
            "/r/d",
            1,
            Ok(vec![
                Found::File("/r/d/two", 20),
                Found::Dir("/r/d/mnt", 2, Ok(vec![Found::File("/r/d/mnt/big", 1000)])),
                Found::Dir("/r/d/locked", 1, Err(ScanError::AccessDenied)),
                Found::Dir("/r/d/e", 1, Ok(vec![Found::File("/r/d/e/three", 30)])),
                Found::Other("/r/d/socket"),
            ]),
        ),
        Found::Unreadable("/r/secret", ScanError::AccessDenied),
        Found::File("/r/four", 40),
        Found::Dir("/r/empty", 1, Ok(vec![])),
    ]
}

fn same_tree(a: &DiskItem, b: &DiskItem) -> bool {
    a.path() == b.path()
        && a.name() == b.name()
        && a.kind() == b.kind()
        && a.size_bytes() == b.size_bytes()
        && a.children().len() == b.children().len()
        && a.children().iter().zip(b.children().iter()).all(|(x, y)| same_tree(x, y))
}

fn sizes_add_up(node: &DiskItem) -> bool {
    let sum: u64 = node.children().iter().map(|child| child.size_bytes()).sum();
    let here = match node.kind() {
        NodeKind::File => node.children().is_empty(),
        NodeKind::Directory => node.size_bytes() == sum,
    };
    here && node.children().iter().all(sizes_add_up)
}

#[test]
fn scan_sums_files_and_subdirectories() {
    let (tree, _, _) = scan_sequential("/data", 7, 1000, &example());
    assert_eq!(tree.size_bytes(), 175);
    assert_eq!(tree.kind(), NodeKind::Directory);
    assert_eq!(tree.path(), "/data");
    assert_eq!(tree.name(), "data");
    assert_eq!(tree.children().len(), 2);
    let file = &tree.children()[0];
    assert_eq!(file.kind(), NodeKind::File);
    assert_eq!(file.size_bytes(), 100);
    assert_eq!(file.name(), "a.bin");
    assert!(file.children().is_empty());
    let sub = &tree.children()[1];
    assert_eq!(sub.kind(), NodeKind::Directory);
    assert_eq!(sub.size_bytes(), 75);
    assert_eq!(sub.path(), "/data/sub");
    assert_eq!(sub.name(), "sub");
    assert_eq!(sub.children().len(), 2);
    assert_eq!(sub.children()[0].size_bytes(), 50);
    assert_eq!(sub.children()[1].size_bytes(), 25);
}

#[test]
fn scan_then_flatten_gives_the_two_largest_nodes() {
    let (tree, _, _) = scan_sequential("/data", 7, 1000, &example());
    let top = tree.flatten(2);
    assert_eq!(top.len(), 2);
    assert_eq!((top[0].path().as_str(), top[0].size_bytes()), ("/data", 175));
    assert_eq!((top[1].path().as_str(), top[1].size_bytes()), ("/data/a.bin", 100));
    let top = tree.flatten(3);
    assert_eq!((top[2].path().as_str(), top[2].size_bytes()), ("/data/sub", 75));
}

#[test]
fn every_directory_size_is_the_sum_of_its_children() {
    let (tree, _, _) = scan_sequential("/r", 1, 0, &mixed());
    assert!(sizes_add_up(&tree));
    assert_eq!(tree.size_bytes(), 100);
    let d = &tree.children()[1];
    assert_eq!(d.path(), "/r/d");
    assert_eq!(d.size_bytes(), 50);
}

#[test]
fn file_node_has_the_length_that_was_reported() {
    let entries = vec![Found::File("/r/zero", 0), Found::File("/r/huge", u64::MAX)];
    let (tree, _, seen) = scan_sequential("/r", 1, 5, &entries);
    assert_eq!(tree.children()[0].size_bytes(), 0);
    assert_eq!(tree.children()[1].size_bytes(), u64::MAX);
    assert_eq!(tree.size_bytes(), u64::MAX);
    assert_eq!(seen.last().unwrap().scanned, u64::MAX);
}

#[test]
fn unreadable_entries_are_left_out_and_the_scan_succeeds() {
    let (tree, _, _) = scan_sequential("/r", 1, 0, &mixed());
    let names: Vec<&str> = tree.children().iter().map(|c| c.name().as_str()).collect();
    assert_eq!(names, vec!["one", "d", "four", "empty"]);
    let d = &tree.children()[1];
    let inner: Vec<&str> = d.children().iter().map(|c| c.name().as_str()).collect();
    assert_eq!(inner, vec!["two", "e"]);
}

#[test]
fn unreadable_entry_leaves_the_scanner_as_it_was() {
    let info = Ok(FileInfo::Directory { volume_id: 1 });
    let mut scanner = Scanner::start("/r".to_string(), info, 0).unwrap();
    drive(&mut scanner, Event::Entry { path: "/r/a".to_string(), info: Ok(FileInfo::File { size: 7 }) });
    for error in [ScanError::NotFound, ScanError::AccessDenied, ScanError::IoError] {
        let event = Event::Entry { path: "/r/bad".to_string(), info: Err(error) };
        assert!(matches!(drive(&mut scanner, event), Action::Continue));
        assert_eq!(scanner.scanned(), 7);
        assert_eq!(scanner.depth(), 1);
    }
    match drive(&mut scanner, Event::EndOfDirectory) {
        Action::Finished { tree, .. } => {
            assert_eq!(tree.size_bytes(), 7);
            assert_eq!(tree.children().len(), 1);
        }
        other => panic!("unexpected action {:?}", other),
    }
}

#[test]
fn entries_on_another_volume_are_absent() {
    let entries = vec![
        Found::File("/r/a", 5),
        Found::Dir("/r/mnt", 9, Ok(vec![Found::File("/r/mnt/x", 500)])),
    ];
    let (tree, _, seen) = scan_sequential("/r", 1, 0, &entries);
    assert_eq!(tree.size_bytes(), 5);
    assert_eq!(tree.children().len(), 1);
    assert_eq!(tree.children()[0].path(), "/r/a");
    assert_eq!(seen.len(), 1);
}

#[test]
fn directory_on_another_volume_is_not_descended_into() {
    let info = Ok(FileInfo::Directory { volume_id: 1 });
    let mut scanner = Scanner::start("/r".to_string(), info, 0).unwrap();
    let foreign = Event::Entry { path: "/r/mnt".to_string(), info: Ok(FileInfo::Directory { volume_id: 2 }) };
    assert!(matches!(drive(&mut scanner, foreign), Action::Continue));
    assert_eq!(scanner.depth(), 1);
    let own = Event::Entry { path: "/r/sub".to_string(), info: Ok(FileInfo::Directory { volume_id: 1 }) };
    assert!(matches!(drive(&mut scanner, own), Action::Descend));
    assert_eq!(scanner.depth(), 2);
}

#[test]
fn final_snapshot_reports_the_known_total() {
    let (tree, last, seen) = scan_sequential("/data", 7, 1000, &example());
    assert_eq!(tree.size_bytes(), 175);
    assert_eq!(last, ProgressSnapshot { scanned: 1000, total: 1000 });
    assert!(last.is_complete());
    assert_eq!(
        seen,
        vec![
            ProgressSnapshot { scanned: 100, total: 1000 },
            ProgressSnapshot { scanned: 150, total: 1000 },
            ProgressSnapshot { scanned: 175, total: 1000 },
        ]
    );
}

#[test]
fn final_snapshot_passes_a_closed_throttle() {
    let info = Ok(FileInfo::Directory { volume_id: 1 });
    let mut scanner = Scanner::start("/r".to_string(), info, 64).unwrap();
    let mut throttle = Throttle::sequential(1_000);
    let file = Event::Entry { path: "/r/a".to_string(), info: Ok(FileInfo::File { size: 8 }) };
    let counted = drive(&mut scanner, file);
    assert_eq!(counted.notification(&mut throttle, 1_050), None);
    let skipped = drive(&mut scanner, Event::Entry { path: "/r/x".to_string(), info: Ok(FileInfo::Other) });
    assert_eq!(skipped.notification(&mut throttle, 5_000), None);
    let finished = drive(&mut scanner, Event::EndOfDirectory);
    assert_eq!(
        finished.notification(&mut throttle, 1_051),
        Some(ProgressSnapshot { scanned: 64, total: 64 })
    );
    assert_eq!(throttle.last_emit_ms, 1_000);
}

#[test]
fn progress_after_a_file_passes_when_the_interval_has_gone_by() {
    let info = Ok(FileInfo::Directory { volume_id: 1 });
    let mut scanner = Scanner::start("/r".to_string(), info, 64).unwrap();
    let mut throttle = Throttle::sequential(1_000);
    let file = Event::Entry { path: "/r/a".to_string(), info: Ok(FileInfo::File { size: 8 }) };
    let counted = drive(&mut scanner, file);
    assert_eq!(counted.notification(&mut throttle, 1_099), None);
    assert_eq!(
        counted.notification(&mut throttle, 1_100),
        Some(ProgressSnapshot { scanned: 8, total: 64 })
    );
    assert_eq!(throttle.last_emit_ms, 1_100);
    assert_eq!(counted.notification(&mut throttle, 1_150), None);
}

#[test]
fn snapshots_never_go_down() {
    let (_, _, seen) = scan_sequential("/r", 1, 0, &mixed());
    let counts: Vec<u64> = seen.iter().map(|s| s.scanned).collect();
    assert_eq!(counts, vec![10, 30, 60, 100]);
}

#[test]
fn root_that_is_no_directory_is_refused() {
    let file = Scanner::start("/r/a".to_string(), Ok(FileInfo::File { size: 1 }), 0);
    assert_eq!(file.err(), Some(ScanError::NotADirectory));
    let other = Scanner::start("/r/a".to_string(), Ok(FileInfo::Other), 0);
    assert_eq!(other.err(), Some(ScanError::NotADirectory));
}

#[test]
fn root_that_cannot_be_classified_fails_with_its_error() {
    for error in [ScanError::NotFound, ScanError::AccessDenied, ScanError::IoError] {
        let scan = Scanner::start("/nowhere".to_string(), Err(error), 0);
        assert_eq!(scan.err(), Some(error));
    }
}

#[test]
fn root_that_cannot_be_listed_fails_the_scan() {
    let info = Ok(FileInfo::Directory { volume_id: 1 });
    let mut scanner = Scanner::start("/r".to_string(), info, 0).unwrap();
    let failed = Event::ListingFailed { error: ScanError::AccessDenied };
    match drive(&mut scanner, failed) {
        Action::Failed { error } => assert_eq!(error, ScanError::AccessDenied),
        other => panic!("unexpected action {:?}", other),
    }
    assert!(!scanner.is_active());
    assert!(!scanner.accepts(&Event::EndOfDirectory));
}

#[test]
fn subdirectory_that_cannot_be_listed_is_dropped() {
    let entries = vec![
        Found::Dir("/r/locked", 1, Err(ScanError::AccessDenied)),
        Found::File("/r/a", 3),
    ];
    let (tree, _, _) = scan_sequential("/r", 1, 0, &entries);
    assert_eq!(tree.children().len(), 1);
    assert_eq!(tree.size_bytes(), 3);
}

#[test]
fn scanner_refuses_a_file_that_overflows_the_counter() {
    let info = Ok(FileInfo::Directory { volume_id: 1 });
    let mut scanner = Scanner::start("/r".to_string(), info, 0).unwrap();
    let big = Event::Entry { path: "/r/a".to_string(), info: Ok(FileInfo::File { size: u64::MAX }) };
    drive(&mut scanner, big);
    let one = Event::Entry { path: "/r/b".to_string(), info: Ok(FileInfo::File { size: 1 }) };
    assert!(!scanner.accepts(&one));
    let none = Event::Entry { path: "/r/c".to_string(), info: Ok(FileInfo::File { size: 0 }) };
    assert!(scanner.accepts(&none));
}

#[test]
fn scanner_reports_its_settings() {
    let info = Ok(FileInfo::Directory { volume_id: 42 });
    let scanner = Scanner::start("/r".to_string(), info, 9).unwrap();
    assert_eq!(scanner.root_volume(), 42);
    assert_eq!(scanner.known_total(), 9);
    assert_eq!(scanner.scanned(), 0);
    assert_eq!(scanner.depth(), 1);
    assert!(scanner.is_active());
}

#[test]
fn parallel_scan_builds_the_same_tree() {
    for (root, volume, entries) in [("/data", 7, example()), ("/r", 1, mixed())] {
        let (sequential, _, _) = scan_sequential(root, volume, 0, &entries);
        let parallel = scan_parallel(root, volume, &entries).unwrap();
        assert!(same_tree(&sequential, &parallel));
        assert!(sizes_add_up(&parallel));
    }
}

#[test]
fn task_hands_out_directories_and_counts_files() {
    let mut task = DirectoryTask::new("/r".to_string());
    assert_eq!(
        task.offer("/r/a".to_string(), Ok(FileInfo::File { size: 4 }), 1),
        Offer::Counted { size: 4 }
    );
    assert_eq!(
        task.offer("/r/d".to_string(), Ok(FileInfo::Directory { volume_id: 1 }), 1),
        Offer::Dispatch
    );
    assert_eq!(
        task.offer("/r/m".to_string(), Ok(FileInfo::Directory { volume_id: 2 }), 1),
        Offer::Skipped
    );
    assert_eq!(task.offer("/r/s".to_string(), Ok(FileInfo::Other), 1), Offer::Skipped);
    assert_eq!(task.offer("/r/x".to_string(), Err(ScanError::IoError), 1), Offer::Skipped);
    assert_eq!(
        task.offer("/r/e".to_string(), Ok(FileInfo::Directory { volume_id: 1 }), 1),
        Offer::Dispatch
    );
    assert_eq!(task.offer("/r/b".to_string(), Ok(FileInfo::File { size: 6 }), 1), Offer::Counted { size: 6 });
    assert_eq!(task.pending(), 2);
    let e = DiskItem::directory("/r/e".to_string(), vec![DiskItem::file("/r/e/f".to_string(), 90)]);
    let node = task.join(vec![None, e]).unwrap();
    assert_eq!(node.size_bytes(), 100);
    let names: Vec<&str> = node.children().iter().map(|c| c.name().as_str()).collect();
    assert_eq!(names, vec!["a", "e", "b"]);
}

#[test]
fn join_gives_nothing_when_the_sizes_overflow() {
    let mut task = DirectoryTask::new("/r".to_string());
    task.offer("/r/a".to_string(), Ok(FileInfo::File { size: u64::MAX }), 1);
    task.offer("/r/b".to_string(), Ok(FileInfo::File { size: 1 }), 1);
    assert_eq!(task.pending(), 0);
    assert!(task.join(vec![]).is_none());
}

#[test]
fn worker_count_is_bounded() {
    assert_eq!(MAX_WORKERS, 16);
    assert_eq!(worker_count(0), 1);
    assert_eq!(worker_count(1), 1);
    assert_eq!(worker_count(8), 8);
    assert_eq!(worker_count(16), 16);
    assert_eq!(worker_count(17), 16);
    assert_eq!(worker_count(usize::MAX), 16);
}
