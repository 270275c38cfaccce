use freshness::cache_info::cache_keys;
use freshness::cache_info::default_file_names;
use freshness::cache_info::newest;
use freshness::cache_info::CacheCommit;
use freshness::cache_info::CacheInfo;
use freshness::cache_info::CacheInfoWire;
use freshness::cache_info::CacheKey;
use freshness::cache_info::Observation;
use freshness::cache_info::Probe;
use freshness::cache_info::Timestamp;

fn at(seconds: i64, nanoseconds: u32) -> Timestamp {
    Timestamp { seconds, nanoseconds }
}

fn commit(id: &str) -> CacheCommit {
    CacheCommit { id: id.to_string() }
}

#[test]
fn from_timestamp_knows_the_timestamp_and_no_commit() {
    let info = CacheInfo::from_timestamp(at(1_700_000_000, 5));
    assert_eq!(info.timestamp(), Some(at(1_700_000_000, 5)));
    assert_eq!(info.commit(), None);
    assert!(!info.is_empty());
}

#[test]
fn snapshot_without_observations_is_empty() {
    let info = CacheInfo::from_directory(Vec::new());
    assert!(info.is_empty());
    assert_eq!(info.timestamp(), None);
    assert_eq!(info.commit(), None);
}

#[test]
fn directory_with_none_of_the_default_files_is_empty() {
    let info = CacheInfo::from_directory(vec![
        Observation::Modified(None),
        Observation::Modified(None),
        Observation::Modified(None),
    ]);
    assert!(info.is_empty());
}

#[test]
fn snapshot_keeps_the_newest_timestamp() {
    let info = CacheInfo::from_directory(vec![
        Observation::Modified(Some(at(10, 0))),
        Observation::Modified(None),
        Observation::Modified(Some(at(30, 7))),
        Observation::Modified(Some(at(30, 6))),
        Observation::Modified(Some(at(20, 999))),
    ]);
    assert_eq!(info.timestamp(), Some(at(30, 7)));
    assert_eq!(info.commit(), None);
    assert!(!info.is_empty());
}

#[test]
fn missing_file_does_not_reset_the_timestamp() {
    let info = CacheInfo::from_directory(vec![
        Observation::Modified(Some(at(10, 0))),
        Observation::Modified(None),
    ]);
    assert_eq!(info.timestamp(), Some(at(10, 0)));
}

#[test]
fn snapshot_keeps_the_commit_last_found() {
    let info = CacheInfo::from_directory(vec![
        Observation::Commit(Some(commit("abc"))),
        Observation::Commit(None),
        Observation::Commit(Some(commit("def"))),
        Observation::Commit(None),
    ]);
    assert_eq!(info.commit(), Some(&commit("def")));
    assert_eq!(info.timestamp(), None);
    assert!(!info.is_empty());
}

#[test]
fn failed_commit_lookup_leaves_the_commit_absent() {
    let info = CacheInfo::from_directory(vec![
        Observation::Modified(Some(at(3, 3))),
        Observation::Commit(None),
    ]);
    assert_eq!(info.commit(), None);
    assert_eq!(info.timestamp(), Some(at(3, 3)));
}

#[test]
fn touching_a_watched_file_advances_the_snapshot() {
    let before = CacheInfo::from_directory(vec![
        Observation::Modified(Some(at(100, 0))),
        Observation::Modified(Some(at(200, 0))),
        Observation::Modified(None),
    ]);
    let after = CacheInfo::from_directory(vec![
        Observation::Modified(Some(at(300, 0))),
        Observation::Modified(Some(at(200, 0))),
        Observation::Modified(None),
    ]);
    assert_eq!(before.timestamp(), Some(at(200, 0)));
    assert_eq!(after.timestamp(), Some(at(300, 0)));
    assert!(before.timestamp() < after.timestamp());
    assert_ne!(before, after);
}

#[test]
fn absent_timestamp_is_older_than_any_present_one() {
    assert_eq!(newest(None, Some(at(i64::MIN, 0))), Some(at(i64::MIN, 0)));
    assert_eq!(newest(Some(at(i64::MIN, 0)), None), Some(at(i64::MIN, 0)));
    assert_eq!(newest(None, None), None);
    assert!(None < Some(at(i64::MIN, 0)));
}

#[test]
fn newest_orders_by_seconds_then_nanoseconds() {
    assert_eq!(newest(Some(at(1, 999_999_999)), Some(at(2, 0))), Some(at(2, 0)));
    assert_eq!(newest(Some(at(2, 0)), Some(at(1, 999_999_999))), Some(at(2, 0)));
    assert_eq!(newest(Some(at(2, 1)), Some(at(2, 2))), Some(at(2, 2)));
    assert_eq!(newest(Some(at(-1, 0)), Some(at(-2, 5))), Some(at(-1, 0)));
    assert!(at(2, 1).is_before(&at(2, 2)));
    assert!(!at(2, 2).is_before(&at(2, 2)));
    assert!(at(1, 5).is_before(&at(2, 0)));
}

#[test]
fn bare_timestamp_reads_back_as_from_timestamp() {
    let read = CacheInfo::from_wire(CacheInfoWire::Timestamp(at(42, 1)));
    assert_eq!(read, CacheInfo::from_timestamp(at(42, 1)));
}

#[test]
fn stored_snapshot_reads_back_unchanged() {
    let info = CacheInfo::from_directory(vec![
        Observation::Modified(Some(at(77, 9))),
        Observation::Commit(Some(commit("0123abcd"))),
    ]);
    let wire = info.clone().into_wire();
    assert_eq!(
        wire,
        CacheInfoWire::TimestampCommit {
            timestamp: Some(at(77, 9)),
            commit: Some(commit("0123abcd")),
        }
    );
    assert_eq!(CacheInfo::from_wire(wire), info);
}

#[test]
fn structured_form_may_leave_both_fields_out() {
    let read = CacheInfo::from_wire(CacheInfoWire::TimestampCommit { timestamp: None, commit: None });
    assert!(read.is_empty());
    assert_eq!(read, CacheInfo::from_directory(Vec::new()));
}

#[test]
fn path_and_file_keys_ask_for_the_change_time() {
    assert_eq!(
        CacheKey::Path("Cargo.lock".to_string()).probe(),
        Probe::Modified("Cargo.lock".to_string())
    );
    assert_eq!(
        CacheKey::File { file: "requirements.txt".to_string() }.probe(),
        Probe::Modified("requirements.txt".to_string())
    );
}

#[test]
fn git_key_asks_for_the_commit_only_when_true() {
    assert_eq!(CacheKey::Git { git: true }.probe(), Probe::Commit);
    assert_eq!(CacheKey::Git { git: false }.probe(), Probe::Nothing);
}

#[test]
fn default_files_are_the_three_project_files() {
    assert_eq!(
        default_file_names(),
        vec!["pyproject.toml".to_string(), "setup.py".to_string(), "setup.cfg".to_string()]
    );
}

#[test]
fn declared_keys_replace_the_defaults() {
    let declared = vec![CacheKey::Git { git: true }, CacheKey::File { file: "a".to_string() }];
    let keys = cache_keys(Some(declared.clone()), vec!["d/pyproject.toml".to_string()]);
    assert_eq!(keys, declared);
    let none: Vec<CacheKey> = Vec::new();
    assert_eq!(cache_keys(Some(Vec::new()), vec!["d/setup.py".to_string()]), none);
}

#[test]
fn undeclared_keys_fall_back_to_the_default_paths() {
    let keys = cache_keys(
        None,
        vec!["d/pyproject.toml".to_string(), "d/setup.py".to_string(), "d/setup.cfg".to_string()],
    );
    assert_eq!(
        keys,
        vec![
            CacheKey::Path("d/pyproject.toml".to_string()),
            CacheKey::Path("d/setup.py".to_string()),
            CacheKey::Path("d/setup.cfg".to_string()),
        ]
    );
}

#[test]
fn default_snapshot_is_empty() {
    let info = CacheInfo::default();
    assert!(info.is_empty());
    assert_eq!(info, CacheInfo::from_directory(Vec::new()));
}

#[test]
fn snapshot_of_a_file_is_its_change_time_alone() {
    let info = CacheInfo::from_file(at(1_700_000_123, 456));
    assert_eq!(info.timestamp(), Some(at(1_700_000_123, 456)));
    assert_eq!(info.commit(), None);
    assert_eq!(info, CacheInfo::from_timestamp(at(1_700_000_123, 456)));
}
