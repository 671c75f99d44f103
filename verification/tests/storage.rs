use agit_selfhost::space::{
    check_directory, check_write, check_write_at, cleanup, cleanup_cutoff, cleanup_directories,
    cleanup_due, evaluate, inventory, status, status_at, Categories, Entry, EntryKind, Policy,
    PolicyUpdate, TempEntry, UploadBudget, UploadCopy, MIB,
};
use agit_selfhost::state::{DataDirectory, State};

#[test]
fn thresholds_and_partial_updates_preserve_the_other_limits() {
    let policy = Policy {
        quota_mib: 10,
        min_free_mib: 2,
        warn_percent: 75,
        ..Policy::default()
    };
    assert_eq!(evaluate(&policy, 7 * MIB, 4 * MIB, Categories::new()).state, "ok");
    assert_eq!(evaluate(&policy, 8 * MIB, 4 * MIB, Categories::new()).state, "warning");
    assert!(evaluate(&policy, 10 * MIB, 4 * MIB, Categories::new()).uploads_paused);
    assert_eq!(evaluate(&policy, 0, MIB, Categories::new()).state, "disk_low");
    let update = PolicyUpdate::from_json(
        &serde_json::from_str::<serde_json::Value>(r#"{"warn_percent":90}"#).unwrap(),
    )
    .unwrap();
    let changed = update.apply(&policy).unwrap();
    assert_eq!(
        (changed.quota_mib, changed.warn_percent, changed.min_free_mib),
        (10, 90, 2)
    );
    assert!(PolicyUpdate { warn_percent: Some(0), ..Default::default() }.apply(&policy).is_err());
}

fn file(first: &str, size: u64) -> Entry {
    Entry { kind: EntryKind::File, path: format!("/data/{first}"), first: first.to_owned(), size }
}

fn temp(name: &str, size: u64, modified: i128, legacy_lfs: bool) -> TempEntry {
    TempEntry {
        path: format!("tmp/{name}"),
        name: name.to_owned(),
        is_file: true,
        is_symlink: false,
        modified,
        size,
        legacy_lfs,
    }
}

fn small() -> Policy {
    Policy { quota_mib: 10, min_free_mib: 2, warn_percent: 75, ..Policy::default() }
}

#[test]
fn every_file_is_counted_in_its_category() {
    let entries = vec![
        file("repos", 10),
        file("lfs", 20),
        file("tmp", 5),
        file("hub.sqlite3", 7),
        file("hub.sqlite3-wal", 3),
        file("config.json", 1),
        Entry { kind: EntryKind::Directory, path: String::new(), first: "repos".to_owned(), size: 99 },
    ];
    let counted = inventory(&entries).unwrap();
    assert_eq!(counted.git, Some(10));
    assert_eq!(counted.lfs, Some(20));
    assert_eq!(counted.temporary, Some(5));
    assert_eq!(counted.database, Some(10));
    assert_eq!(counted.other, Some(1));
    assert_eq!(counted.sum(), Some(46));
    let link = vec![Entry {
        kind: EntryKind::Symlink,
        path: "/data/link".to_owned(),
        first: "link".to_owned(),
        size: 0,
    }];
    assert_eq!(
        inventory(&link).err().unwrap().message(),
        "Hub storage must not contain symlinks: /data/link"
    );
    let huge = vec![file("repos", u64::MAX), file("repos", 1)];
    assert_eq!(inventory(&huge).err().unwrap().message(), "Storage size overflow");
    let spread = vec![file("repos", u64::MAX), file("lfs", 1)];
    assert_eq!(
        status_at(&spread, &small(), MIB).err().unwrap().message(),
        "Storage size overflow"
    );
}

#[test]
fn status_tells_usage_and_warns() {
    let ok = status_at(&vec![file("repos", 7 * MIB)], &small(), 4 * MIB).unwrap();
    assert_eq!(ok.warning, None);
    let json = ok.to_json();
    assert_eq!(json["used_bytes"], 7 * MIB);
    assert_eq!(json["quota_bytes"], 10 * MIB);
    assert_eq!(json["available_bytes"], 4 * MIB);
    assert_eq!(json["categories"]["git"], 7 * MIB);
    assert_eq!(json["state"], "ok");
    assert_eq!(json["uploads_paused"], false);
    assert_eq!(json["policy"]["warn_percent"], 75);
    assert!(json["warning"].is_null());
    let edge = evaluate(&small(), 15 * MIB / 2, 4 * MIB, Categories::new());
    assert_eq!(edge.state, "warning");
    assert_eq!(
        edge.warning.unwrap(),
        "Hub storage warning: 7864320 of 10485760 bytes used; configured warning threshold is 75%"
    );
    let full = evaluate(&small(), 10 * MIB, 4 * MIB, Categories::new());
    assert_eq!(full.state, "quota_exceeded");
    assert_eq!(
        full.headers(),
        vec![
            ("X-AgentGit-Storage-State".to_owned(), "quota_exceeded".to_owned()),
            (
                "X-AgentGit-Storage-Warning".to_owned(),
                "Uploads paused: Hub uses 10485760 of 10485760 quota bytes; review storage or increase quota_mib".to_owned(),
            ),
        ]
    );
    let low = evaluate(&small(), 0, 2 * MIB - 1, Categories::new());
    assert_eq!(
        low.warning.unwrap(),
        "Uploads paused: filesystem has 2097151 bytes free, below the 2 MiB reserve"
    );
    assert!(low.uploads_paused);
    assert_eq!(evaluate(&small(), 0, 2 * MIB, Categories::new()).state, "ok");
}

#[test]
fn writes_keep_the_quota_and_the_reserve() {
    let entries = vec![file("repos", 9 * MIB)];
    assert!(check_write_at(&entries, &small(), 100 * MIB, MIB).is_ok());
    assert_eq!(
        check_write_at(&entries, &small(), 100 * MIB, MIB + 1).err().unwrap().message(),
        "Upload needs 1048577 bytes but only 1048576 bytes remain within the Hub quota and disk reserve"
    );
    assert!(check_write_at(&entries, &small(), 2 * MIB + 5, 6).is_err());
    assert!(check_write_at(&entries, &small(), 2 * MIB + 5, 5).is_ok());
    assert!(check_write_at(&entries, &small(), MIB, 0).is_err());
    let larger = Policy { quota_mib: 11, ..small() };
    assert!(check_write_at(&entries, &larger, 100 * MIB, MIB + 1).is_ok());
}

#[test]
fn an_upload_is_stopped_before_it_leaves_its_budget() {
    let entries = vec![file("repos", 9 * MIB)];
    assert!(UploadBudget::new(&entries, &small(), 100 * MIB, Some(2 * MIB as usize)).is_err());
    let budget = UploadBudget::new(&entries, &small(), 100 * MIB, None).unwrap();
    assert_eq!(budget.remaining, MIB);
    assert_eq!(budget.reserve, 2 * MIB);
    let mut copy = UploadCopy::new(budget);
    assert!(copy.copy_upload(MIB as usize - 1, 100 * MIB).is_ok());
    assert_eq!(
        copy.copy_upload(2, 100 * MIB).err().unwrap().message(),
        "Upload stopped before writing: Hub quota or filesystem reserve would be exceeded"
    );
    assert!(copy.copy_upload(1, 2 * MIB).is_err());
    assert!(copy.copy_upload(1, 2 * MIB + 1).is_ok());
    assert_eq!(copy.total, MIB);
    assert_eq!(copy.budget.remaining, 0);
}

#[test]
fn each_setting_has_its_range() {
    let good = Policy::default();
    assert!(good.validate().is_ok());
    assert_eq!(good.quota_mib, 5120);
    assert_eq!(good.warn_percent, 80);
    assert_eq!(good.min_free_mib, 3072);
    assert_eq!(good.temp_max_age_hours, 168);
    assert_eq!(good.cleanup_interval_hours, 24);
    let cases = [
        (Policy { quota_mib: 0, ..good }, "quota_mib must be positive and fit in bytes"),
        (
            Policy { quota_mib: u64::MAX / MIB + 1, ..good },
            "quota_mib must be positive and fit in bytes",
        ),
        (Policy { warn_percent: 0, ..good }, "warn_percent must be between 1 and 100"),
        (Policy { warn_percent: 101, ..good }, "warn_percent must be between 1 and 100"),
        (Policy { min_free_mib: u64::MAX / MIB + 1, ..good }, "min_free_mib is too large"),
        (
            Policy { temp_max_age_hours: 876001, ..good },
            "temp_max_age_hours must be between 1 and 876000",
        ),
        (
            Policy { cleanup_interval_hours: 8761, ..good },
            "cleanup_interval_hours must be between 1 and 8760",
        ),
    ];
    for (policy, message) in cases {
        assert_eq!(policy.validate().err().unwrap().message(), message);
    }
    assert!(Policy { min_free_mib: 0, quota_mib: u64::MAX / MIB, ..good }.validate().is_ok());
}

#[test]
fn partial_objects_change_named_settings_only() {
    let read = |s: &str| {
        PolicyUpdate::from_json(&serde_json::from_str::<serde_json::Value>(s).unwrap())
    };
    let update = read(r#"{"quota_mib":10240,"warn_percent":null}"#).unwrap();
    assert_eq!(update.quota_mib, Some(10240));
    assert_eq!(update.warn_percent, None);
    assert!(read("{}").unwrap().apply(&small()).is_ok());
    assert!(read(r#"{"unknown":1}"#).is_none());
    assert!(read(r#"{"quota_mib":"1"}"#).is_none());
    assert!(read(r#"{"quota_mib":-1}"#).is_none());
    assert!(read(r#"{"quota_mib":1.5}"#).is_none());
    assert!(read(r#"{"warn_percent":256}"#).is_none());
    assert!(read("[]").is_none());
}

#[test]
fn cleanup_lists_expired_temporary_files_alone() {
    let policy = Policy { temp_max_age_hours: 1, ..Policy::default() };
    let hour: i128 = 3600 * 1_000_000_000;
    let cutoff = cleanup_cutoff(&policy, 10 * hour).unwrap();
    assert_eq!(cutoff, 9 * hour);
    assert!(cleanup_cutoff(&policy, i128::MIN).is_err());
    let files = vec![
        temp("abandoned", 4, cutoff, false),
        temp("recent", 8, cutoff + 1, false),
        temp(".tmpAbc", 16, 0, true),
        temp("0123abcd", 32, 0, true),
        TempEntry { is_symlink: true, ..temp("link", 64, 0, false) },
        TempEntry { is_file: false, ..temp("directory", 128, 0, false) },
    ];
    let preview = cleanup(&files, cutoff, false).unwrap();
    assert_eq!(preview.files, ["tmp/abandoned", "tmp/.tmpAbc"]);
    assert_eq!((preview.candidate_files, preview.candidate_bytes), (2, 20));
    assert_eq!((preview.removed_files, preview.removed_bytes), (0, 0));
    let applied = cleanup(&files, cutoff, true).unwrap();
    assert_eq!((applied.removed_files, applied.removed_bytes), (2, 20));
    let json = applied.to_json();
    assert_eq!(json["applied"], true);
    assert_eq!(json["files"][1], "tmp/.tmpAbc");
    let huge = vec![temp("a", u64::MAX, 0, false), temp("b", 1, 0, false)];
    assert!(cleanup(&huge, cutoff, false).is_err());
    assert!(check_directory(true, false).is_ok());
    assert_eq!(
        check_directory(true, true).err().unwrap().message(),
        "Temporary directory must be a real directory"
    );
}

#[test]
fn cleanup_is_due_at_the_start_and_after_each_interval() {
    let policy = Policy { cleanup_interval_hours: 2, ..Policy::default() };
    assert!(cleanup_due(&policy, None, 0));
    assert!(!cleanup_due(&policy, Some(100), 100 + 7199));
    assert!(cleanup_due(&policy, Some(100), 100 + 7200));
    assert!(!cleanup_due(&policy, Some(100), 50));
}

#[test]
fn cleanup_looks_into_the_directories_of_the_hub() {
    let mut state = State::initialize(
        "/data",
        "ada".to_owned(),
        &None,
        "https://h.example",
        64,
        256,
        small(),
        DataDirectory { initialized: false, occupied: false },
    )
    .unwrap();
    let none = serde_json::Value::Array(vec![]);
    state.create_repo_at("b", &None, &none, "id-b".to_owned(), 0).unwrap();
    state.create_repo_at("a", &None, &none, "id-a".to_owned(), 0).unwrap();
    assert_eq!(
        cleanup_directories(&state),
        vec![
            ("tmp".to_owned(), false),
            ("lfs/id-a".to_owned(), true),
            ("lfs/id-b".to_owned(), true),
        ]
    );
    assert_eq!(status(&state, &vec![], 4 * MIB).unwrap().state, "ok");
    assert!(check_write(&state, &vec![], 4 * MIB, 2 * MIB).is_ok());
    assert!(check_write(&state, &vec![], 4 * MIB, 2 * MIB + 1).is_err());
}
