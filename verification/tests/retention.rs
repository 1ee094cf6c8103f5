use chrono::{Duration, Local};
use log_retention::codec::decode;
use log_retention::instant::Instant;
use log_retention::retention::{
    evict, get_all_logs, log_file_name, rotate_logs, DeletionFailure, DirEntry, EntryKind,
    LogFileRecord, MAX_LOG_FILES,
};

const CHRONO_FORMAT: &str = "%Y-%m-%d_%H-%M-%S";

fn entry(name: &str) -> DirEntry {
    let stem = match name.rfind('.') {
        Some(0) | None => name,
        Some(dot) => &name[..dot],
    };
    DirEntry { path: format!("/logs/{}", name), stem: Some(stem.to_string()) }
}

fn record(path: &str, token: &str) -> LogFileRecord {
    LogFileRecord { path: path.to_string(), timestamp: decode(token).unwrap() }
}

fn paths(records: &[LogFileRecord]) -> Vec<String> {
    records.iter().map(|r| r.path.clone()).collect()
}

#[test]
fn sort_log_files() {
    let mut test_logs = vec![];

    for file in vec![
        Local::now()
            .naive_local()
            .checked_add_signed(Duration::seconds(60))
            .unwrap()
            .format(CHRONO_FORMAT),
        Local::now()
            .naive_local()
            .checked_add_signed(Duration::seconds(160))
            .unwrap()
            .format(CHRONO_FORMAT),
        Local::now()
            .naive_local()
            .checked_add_signed(Duration::seconds(260))
            .unwrap()
            .format(CHRONO_FORMAT),
    ] {
        test_logs.push(file.to_string());
    }

    let mut logs = vec![];

    for file in test_logs {
        let time = if let Ok(v) = decode(file.as_str()) {
            v
        } else {
            continue;
        };

        logs.push(LogFileRecord { path: file, timestamp: time });
    }

    assert_eq!(logs.len(), 3);

    log_retention::retention::sort_log_files(&mut logs);

    assert!(logs[0].timestamp > logs[1].timestamp);
    assert!(logs[1].timestamp > logs[2].timestamp);
}

#[test]
fn sort_orders_newest_first() {
    let mut logs = vec![
        record("b", "2024-01-02_00-00-00"),
        record("d", "2024-01-04_00-00-00"),
        record("a", "2024-01-01_00-00-00"),
        record("e", "2024-01-05_00-00-00"),
        record("c", "2024-01-03_00-00-00"),
    ];
    log_retention::retention::sort_log_files(&mut logs);
    assert_eq!(paths(&logs), vec!["e", "d", "c", "b", "a"]);
}

#[test]
fn sort_keeps_the_order_of_equal_instants() {
    let mut logs = vec![
        record("first", "2024-01-02_00-00-00"),
        record("older", "2023-01-02_00-00-00"),
        record("second", "2024-01-02_00-00-00"),
        record("newer", "2025-01-02_00-00-00"),
        record("third", "2024-01-02_00-00-00"),
    ];
    log_retention::retention::sort_log_files(&mut logs);
    assert_eq!(paths(&logs), vec!["newer", "first", "second", "third", "older"]);
}

#[test]
fn sort_of_nothing_and_of_one() {
    let mut none: Vec<LogFileRecord> = vec![];
    log_retention::retention::sort_log_files(&mut none);
    assert!(none.is_empty());
    let mut one = vec![record("only", "2024-01-02_00-00-00")];
    log_retention::retention::sort_log_files(&mut one);
    assert_eq!(paths(&one), vec!["only"]);
}

#[test]
fn entries_are_classified_by_their_stem() {
    let t = Instant::new(2024, 1, 2, 3, 4, 5).unwrap();
    assert_eq!(entry("2024-01-02_03-04-05.log").classify(), EntryKind::LogFile(t));
    assert_eq!(entry("2024-01-02_03-04-05.txt").classify(), EntryKind::LogFile(t));
    assert_eq!(entry("2024-01-02_03-04-05").classify(), EntryKind::LogFile(t));
    assert_eq!(entry("notes.txt").classify(), EntryKind::Foreign);
    assert_eq!(entry("2024-1-2_3-4-5.log").classify(), EntryKind::Foreign);
    assert_eq!(entry("2024-02-30_03-04-05.log").classify(), EntryKind::Foreign);
    let empty = DirEntry { path: "/logs/odd".to_string(), stem: Some(String::new()) };
    assert_eq!(empty.classify(), EntryKind::Foreign);
    let unnamed = DirEntry { path: "/logs/..".to_string(), stem: None };
    assert_eq!(unnamed.classify(), EntryKind::Unnamed);
}

#[test]
fn scan_parts_log_files_from_foreign_entries() {
    let entries = vec![
        entry("2024-01-02_00-00-00.log"),
        entry("notes.txt"),
        DirEntry { path: "/logs/..".to_string(), stem: None },
        entry("2024-01-04_00-00-00.log"),
        entry("core"),
        entry("2024-01-03_00-00-00.log"),
    ];
    let found = get_all_logs(&entries);
    assert_eq!(found.foreign, vec!["/logs/notes.txt", "/logs/core"]);
    assert_eq!(
        paths(&found.records),
        vec![
            "/logs/2024-01-04_00-00-00.log",
            "/logs/2024-01-03_00-00-00.log",
            "/logs/2024-01-02_00-00-00.log",
        ]
    );
    assert_eq!(found.records[0].timestamp, Instant::new(2024, 1, 4, 0, 0, 0).unwrap());
}

#[test]
fn scan_of_an_empty_directory() {
    let found = get_all_logs(&vec![]);
    assert!(found.records.is_empty());
    assert!(found.foreign.is_empty());
}

fn five_sorted() -> Vec<LogFileRecord> {
    vec![
        record("t1", "2024-01-05_00-00-00"),
        record("t2", "2024-01-04_00-00-00"),
        record("t3", "2024-01-03_00-00-00"),
        record("t4", "2024-01-02_00-00-00"),
        record("t5", "2024-01-01_00-00-00"),
    ]
}

#[test]
fn evict_leaves_fewer_than_the_limit() {
    for (limit, left, gone) in
        [(1usize, 0usize, 5usize), (2, 1, 4), (3, 2, 3), (5, 4, 1), (6, 5, 0), (9, 5, 0)]
    {
        let mut logs = five_sorted();
        let evicted = evict(&mut logs, limit);
        assert_eq!(logs.len(), left);
        assert_eq!(evicted.len(), gone);
        assert_eq!(gone, (5 + 1usize).saturating_sub(limit));
        assert_eq!(left, if limit > 5 { 5 } else { limit - 1 });
    }
}

#[test]
fn evict_takes_the_oldest_first() {
    let mut logs = five_sorted();
    let evicted = evict(&mut logs, 3);
    assert_eq!(paths(&logs), vec!["t1", "t2"]);
    assert_eq!(paths(&evicted), vec!["t5", "t4", "t3"]);
}

#[test]
fn evict_of_nothing() {
    let mut logs: Vec<LogFileRecord> = vec![];
    let evicted = evict(&mut logs, 1);
    assert!(logs.is_empty());
    assert!(evicted.is_empty());
}

#[test]
fn rotation_of_a_full_directory_with_a_foreign_file() {
    let entries = vec![
        entry("2024-05-03_10-00-00.log"),
        entry("notes.txt"),
        entry("2024-05-01_10-00-00.log"),
        entry("2024-05-05_10-00-00.log"),
        entry("2024-05-02_10-00-00.log"),
        entry("2024-05-04_10-00-00.log"),
    ];
    let plan = rotate_logs(&entries, usize::from(MAX_LOG_FILES));
    assert_eq!(MAX_LOG_FILES, 5);
    assert_eq!(plan.foreign, vec!["/logs/notes.txt"]);
    assert_eq!(paths(&plan.evicted), vec!["/logs/2024-05-01_10-00-00.log"]);
    assert_eq!(
        paths(&plan.kept),
        vec![
            "/logs/2024-05-05_10-00-00.log",
            "/logs/2024-05-04_10-00-00.log",
            "/logs/2024-05-03_10-00-00.log",
            "/logs/2024-05-02_10-00-00.log",
        ]
    );
}

#[test]
fn rotation_run_twice_settles() {
    let mut names: Vec<String> = vec![
        "2024-05-01_10-00-00.log".to_string(),
        "2024-05-02_10-00-00.log".to_string(),
        "2024-05-03_10-00-00.log".to_string(),
        "2024-05-04_10-00-00.log".to_string(),
        "2024-05-05_10-00-00.log".to_string(),
        "notes.txt".to_string(),
    ];
    for now in [
        Instant::new(2024, 5, 6, 10, 0, 0).unwrap(),
        Instant::new(2024, 5, 7, 10, 0, 0).unwrap(),
    ] {
        let entries: Vec<DirEntry> = names.iter().map(|n| entry(n)).collect();
        let plan = rotate_logs(&entries, 5);
        assert_eq!(plan.kept.len(), 4);
        names = plan.kept.iter().map(|r| r.path["/logs/".len()..].to_string()).collect();
        names.push(log_file_name(&now));
        assert_eq!(names.len(), 5);
    }
    names.sort();
    assert_eq!(
        names,
        vec![
            "2024-05-03_10-00-00.log",
            "2024-05-04_10-00-00.log",
            "2024-05-05_10-00-00.log",
            "2024-05-06_10-00-00.log",
            "2024-05-07_10-00-00.log",
        ]
    );
}

#[test]
fn rotation_below_the_limit_evicts_nothing() {
    let entries = vec![entry("2024-05-01_10-00-00.log"), entry("2024-05-02_10-00-00.log")];
    let plan = rotate_logs(&entries, 5);
    assert!(plan.foreign.is_empty());
    assert!(plan.evicted.is_empty());
    assert_eq!(plan.kept.len(), 2);
}

#[test]
fn log_file_name_is_the_token_with_the_extension() {
    let now = Instant::new(2024, 5, 6, 7, 8, 9).unwrap();
    assert_eq!(log_file_name(&now), "2024-05-06_07-08-09.log");
}

#[test]
fn deletions_come_foreign_first_then_oldest_first() {
    let entries = vec![
        entry("2024-05-03_10-00-00.log"),
        entry("notes.txt"),
        entry("2024-05-01_10-00-00.log"),
        entry("2024-05-02_10-00-00.log"),
        entry("core"),
    ];
    let plan = rotate_logs(&entries, 2);
    let mut seen = vec![];
    let mut k = 0;
    while let Some(d) = plan.deletion(k) {
        seen.push((d.path, d.on_failure));
        k += 1;
    }
    assert_eq!(
        seen,
        vec![
            ("/logs/notes.txt".to_string(), DeletionFailure::CorruptEntryCleanupFailed),
            ("/logs/core".to_string(), DeletionFailure::CorruptEntryCleanupFailed),
            ("/logs/2024-05-01_10-00-00.log".to_string(), DeletionFailure::EvictionFailed),
            ("/logs/2024-05-02_10-00-00.log".to_string(), DeletionFailure::EvictionFailed),
        ]
    );
    assert!(plan.deletion(4).is_none());
    assert!(plan.deletion(usize::MAX).is_none());
    assert_eq!(paths(&plan.kept), vec!["/logs/2024-05-03_10-00-00.log"]);
}

#[test]
fn a_plan_with_nothing_to_delete() {
    let plan = rotate_logs(&vec![entry("2024-05-03_10-00-00.log")], 5);
    assert!(plan.deletion(0).is_none());
}
