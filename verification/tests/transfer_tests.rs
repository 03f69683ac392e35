use scpsync::catalog::{total_size, PathCatalog};
use scpsync::transfer::{
    chunk_size_for, drain, parse_remote_size, process_file, should_transfer, ProgressCounter,
    SizeProbe, WorkQueue, CHUNK_LIMIT,
};

#[test]
fn equal_size_with_present_root_skips() {
    assert!(!should_transfer(100, SizeProbe::Size(100), false));
}

#[test]
fn mismatched_size_transfers() {
    assert!(should_transfer(100, SizeProbe::Size(80), false));
}

#[test]
fn missing_root_always_transfers() {
    // No probe outcome can cause a skip when the root was just created.
    assert!(should_transfer(100, SizeProbe::Size(100), true));
    assert!(should_transfer(0, SizeProbe::NotFound, true));
}

#[test]
fn absent_file_transfers() {
    assert!(should_transfer(100, SizeProbe::NotFound, false));
}

#[test]
fn failed_probe_transfers_nonempty_file() {
    // Fail-open: an inconclusive probe counts as size zero, so any
    // nonempty file is transferred rather than silently skipped.
    assert!(should_transfer(100, SizeProbe::Failed, false));
}

#[test]
fn failed_probe_on_empty_file_matches_zero_and_skips() {
    // The fail-open size of zero happens to equal an empty file's size, so
    // this one input is skipped even though the probe said nothing.
    assert!(!should_transfer(0, SizeProbe::Failed, false));
}

#[test]
fn chunk_size_is_capped_for_large_files() {
    assert_eq!(chunk_size_for(CHUNK_LIMIT + 1), CHUNK_LIMIT);
    assert_eq!(chunk_size_for(u64::MAX), CHUNK_LIMIT);
}

#[test]
fn chunk_size_matches_small_files() {
    assert_eq!(chunk_size_for(0), 0);
    assert_eq!(chunk_size_for(100), 100);
    assert_eq!(chunk_size_for(CHUNK_LIMIT), CHUNK_LIMIT);
}

#[test]
fn parse_remote_size_reads_padded_number() {
    assert_eq!(parse_remote_size("12345\n"), Some(12345));
    assert_eq!(parse_remote_size("  42 \t\r\n"), Some(42));
    assert_eq!(parse_remote_size("0"), Some(0));
}

#[test]
fn parse_remote_size_rejects_empty_and_garbage() {
    assert_eq!(parse_remote_size(""), None);
    assert_eq!(parse_remote_size("   \n"), None);
    assert_eq!(parse_remote_size("12a4"), None);
    assert_eq!(parse_remote_size("-5"), None);
    assert_eq!(parse_remote_size("4 2"), None);
}

#[test]
fn parse_remote_size_handles_bounds() {
    assert_eq!(
        parse_remote_size("18446744073709551615"),
        Some(u64::MAX)
    );
    assert_eq!(parse_remote_size("18446744073709551616"), None);
}

fn record(name: &str, size: u64) -> (String, u64) {
    (name.to_string(), size)
}

fn seeded_queue(files: &[(String, u64)]) -> WorkQueue {
    let mut catalog = PathCatalog::new();
    for (name, size) in files {
        catalog.record_file(name.clone(), *size, None);
    }
    WorkQueue::new(catalog.files)
}

#[test]
fn queue_hands_each_record_out_exactly_once() {
    // Every cataloged file is popped exactly once: the drained list has
    // the same records, none duplicated, none lost.
    let files = vec![record("a", 1), record("b", 2), record("c", 3)];
    let mut queue = seeded_queue(&files);
    assert_eq!(queue.remaining(), 3);
    let drained = drain(&mut queue);
    assert_eq!(queue.remaining(), 0);
    assert_eq!(drained.len(), 3);
    let mut names: Vec<String> = drained.iter().map(|f| f.file_path.clone()).collect();
    names.sort();
    assert_eq!(names, vec!["a".to_string(), "b".to_string(), "c".to_string()]);
    assert!(queue.pop().is_none());
}

#[test]
fn progress_counter_saturates_instead_of_wrapping() {
    let mut progress = ProgressCounter::new();
    progress.account(u64::MAX - 10);
    progress.account(100);
    assert_eq!(progress.done, u64::MAX);
}

#[test]
fn total_size_sums_catalog() {
    let mut catalog = PathCatalog::new();
    catalog.record_file("a.txt".to_string(), 100, Some(1_700_000_000));
    catalog.record_file("sub/b.txt".to_string(), 50, None);
    assert_eq!(total_size(&catalog.files), 150);
}

#[test]
fn fresh_root_transfers_everything() {
    // Scenario: local tree {a.txt (100B), sub/b.txt (50B)}, destination
    // root absent. Both files are transferred unconditionally and the
    // progress counter reaches the full 150 bytes.
    let files = vec![record("/src/a.txt", 100), record("/src/sub/b.txt", 50)];
    let mut queue = seeded_queue(&files);
    let mut progress = ProgressCounter::new();
    let mut transferred: u64 = 0;
    while let Some(file) = queue.pop() {
        if process_file(&file, SizeProbe::Failed, true, &mut progress) {
            transferred += file.size;
        }
    }
    assert_eq!(progress.done, 150);
    assert_eq!(transferred, 150);
}

#[test]
fn unchanged_remote_skips_everything() {
    // Scenario: the remote already holds a.txt at 100B and sub/b.txt at
    // 50B and the root is present: both are skipped, yet the progress
    // counter still reaches 150 with nothing written.
    let mut progress = ProgressCounter::new();
    let mut written: u64 = 0;
    let files = vec![record("/src/a.txt", 100), record("/src/sub/b.txt", 50)];
    let mut queue = seeded_queue(&files);
    while let Some(file) = queue.pop() {
        let probe = SizeProbe::Size(file.size);
        if process_file(&file, probe, false, &mut progress) {
            written += file.size;
        }
    }
    assert_eq!(progress.done, 150);
    assert_eq!(written, 0);
}

#[test]
fn stale_file_is_retransferred_fresh_file_skipped() {
    // Scenario: the remote holds a.txt at 80B (stale) and sub/b.txt at
    // 50B (fresh): only a.txt is transferred.
    let mut progress = ProgressCounter::new();
    let a = record("/src/a.txt", 100);
    let b = record("/src/sub/b.txt", 50);
    let mut queue = seeded_queue(&[a, b]);
    let mut transferred: Vec<String> = Vec::new();
    while let Some(file) = queue.pop() {
        let probe = if file.file_path == "/src/a.txt" {
            SizeProbe::Size(80)
        } else {
            SizeProbe::Size(50)
        };
        if process_file(&file, probe, false, &mut progress) {
            transferred.push(file.file_path.clone());
        }
    }
    assert_eq!(transferred, vec!["/src/a.txt".to_string()]);
    assert_eq!(progress.done, 150);
}
