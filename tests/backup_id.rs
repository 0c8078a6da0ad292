use cryophile::backup_id::{
    canonical_prefix, compose_delimited, compose_key, compose_path, pick_ulid, BackupId,
};
use cryophile::path::canonical_relative_path;
use cryophile::spool::{
    freeze_event_action, queue_dir_decision, CreateOutcome, Queue, QueueDir, SpoolPathComponents,
    WatchAction,
};

fn nil_uuid() -> u128 {
    uuid::Uuid::nil().as_u128()
}

fn nil_ulid() -> u128 {
    ulid::Ulid::nil().0
}

#[test]
fn basic_backup_id() {
    let backup_id = BackupId::new(nil_uuid(), None, nil_ulid());
    let backup_id_path = backup_id.to_path_buf();
    assert_eq!(
        backup_id_path,
        String::from("00000000-0000-0000-0000-000000000000/00000000000000000000000000")
    );
    let backup_id_string = backup_id.to_string();
    assert_eq!(
        backup_id_string,
        String::from("00000000-0000-0000-0000-000000000000/00000000000000000000000000")
    );
    let vault_key = backup_id.to_vault_key('/');
    assert_eq!(vault_key, String::from("00000000000000000000000000"));

    let prefix = String::from("some/prefix");
    let backup_id = backup_id.with_prefix(&prefix);
    let backup_id_path = backup_id.to_path_buf();
    assert_eq!(
        backup_id_path,
        String::from("00000000-0000-0000-0000-000000000000/some/prefix/00000000000000000000000000")
    );
    let backup_id_string = backup_id.to_string();
    assert_eq!(
        backup_id_string,
        String::from("00000000-0000-0000-0000-000000000000/some/prefix/00000000000000000000000000")
    );
    let backup_id_string = backup_id.to_delimited_string('+');
    assert_eq!(
        backup_id_string,
        String::from("00000000-0000-0000-0000-000000000000+some/prefix+00000000000000000000000000")
    );
    let vault_key = backup_id.to_vault_key('+');
    assert_eq!(
        vault_key,
        String::from("some/prefix+00000000000000000000000000")
    );

    let mut prefix = String::new();
    prefix.push('a');
    let backup_id = backup_id
        .with_vault(uuid::Uuid::max().as_u128())
        .with_prefix(&prefix)
        .with_ulid(ulid::Ulid::from_parts(u64::MAX, u128::MAX).0);
    let backup_id_path = backup_id.to_path_buf();
    assert_eq!(
        backup_id_path,
        String::from("ffffffff-ffff-ffff-ffff-ffffffffffff/a/7ZZZZZZZZZZZZZZZZZZZZZZZZZ")
    );
    let vault_key = backup_id.to_vault_key('+');
    assert_eq!(vault_key, String::from("a+7ZZZZZZZZZZZZZZZZZZZZZZZZZ"));
}

#[test]
fn weird_prefix_backup_id() {
    let prefix = String::from("/..//some/../prefix/");
    let backup_id = BackupId::new(nil_uuid(), Some(&prefix), nil_ulid());
    let backup_id_path = backup_id.to_path_buf();
    assert_eq!(
        backup_id_path,
        String::from("00000000-0000-0000-0000-000000000000/prefix/00000000000000000000000000")
    );
    let backup_id_string = backup_id.to_string();
    assert_eq!(
        backup_id_string,
        String::from("00000000-0000-0000-0000-000000000000/prefix/00000000000000000000000000")
    );
    let backup_id_string = backup_id.to_delimited_string('+');
    assert_eq!(
        backup_id_string,
        String::from("00000000-0000-0000-0000-000000000000+prefix+00000000000000000000000000")
    );
    let vault_key = backup_id.to_vault_key('+');
    assert_eq!(vault_key, String::from("prefix+00000000000000000000000000"));

    let backup_id = BackupId::from_prefix(nil_uuid(), &prefix);
    let backup_id_path = backup_id.to_path_buf();
    assert_eq!(
        backup_id_path,
        String::from("00000000-0000-0000-0000-000000000000/prefix")
    );
    let backup_id_string = backup_id.to_string();
    assert_eq!(
        backup_id_string,
        String::from("00000000-0000-0000-0000-000000000000/prefix")
    );
    let backup_id_string = backup_id.to_delimited_string('+');
    assert_eq!(
        backup_id_string,
        String::from("00000000-0000-0000-0000-000000000000+prefix")
    );
    let vault_key = backup_id.to_vault_key('+');
    assert_eq!(vault_key, String::from("prefix"));
}

#[test]
fn basic_spool_path_components() {
    let backup_id = BackupId::new(nil_uuid(), None, nil_ulid());
    let snc = SpoolPathComponents::new(String::from("/"), backup_id.clone());
    let queue_path = snc.to_queue_path(Queue::Backup);
    assert_eq!(
        queue_path,
        String::from("/backup/00000000-0000-0000-0000-000000000000/00000000000000000000000000")
    );

    let prefix = String::from("some/prefix");
    let backup_id = backup_id.with_prefix(&prefix);
    let queue_path = snc.with_backup_id(backup_id).to_queue_path(Queue::Restore);
    assert_eq!(
        queue_path,
        String::from(
            "/restore/00000000-0000-0000-0000-000000000000/some/prefix/00000000000000000000000000"
        )
    );
}

#[test]
fn spool_paths_without_backup_and_uri() {
    let snc = SpoolPathComponents::from_spool(String::from("/var/spool/cryophile"));
    assert_eq!(snc.to_queue_path(Queue::Freeze), "/var/spool/cryophile/freeze");
    assert_eq!(snc.to_queue_path(Queue::Thaw), "/var/spool/cryophile/thaw");
    assert_eq!(snc.uri(), None);
    let id = BackupId::new(nil_uuid(), Some("p"), nil_ulid());
    let snc = snc.with_backup_id(id);
    assert_eq!(
        snc.uri(),
        Some(String::from(
            "s3://00000000-0000-0000-0000-000000000000/p/00000000000000000000000000"
        ))
    );
    assert_eq!(Queue::default(), Queue::Backup);
    assert_eq!(Queue::Restore.dir_name(), "restore");
}

#[test]
fn canonical_relative_path_examples() {
    assert_eq!(canonical_relative_path("/..//some/../prefix/"), "prefix");
    assert_eq!(canonical_relative_path("a/./b/../c"), "a/c");
    assert_eq!(canonical_relative_path("../../x"), "x");
    assert_eq!(canonical_relative_path("/"), "");
    assert_eq!(canonical_relative_path(""), "");
    assert_eq!(canonical_relative_path("a/b/../.."), "");
    assert_eq!(canonical_prefix("./x//y/"), "x/y");
}

#[test]
fn canonical_relative_path_is_idempotent_and_relative() {
    for p in ["/..//some/../prefix/", "a/./b/../c", "/abs/path", "../..", "x/../../y/z/."] {
        let once = canonical_relative_path(p);
        let twice = canonical_relative_path(&once);
        assert_eq!(once, twice);
        assert!(!once.starts_with('/'));
        assert!(once.split('/').all(|s| s != ".." && s != "."));
    }
}

#[test]
fn empty_canonical_prefix_is_left_out() {
    let id = BackupId::new(nil_uuid(), Some("/"), nil_ulid());
    assert_eq!(
        id.to_path_buf(),
        "00000000-0000-0000-0000-000000000000/00000000000000000000000000"
    );
    assert_eq!(id.to_vault_key('+'), "00000000000000000000000000");
    assert_eq!(
        id.to_delimited_string('+'),
        "00000000-0000-0000-0000-000000000000+00000000000000000000000000"
    );
    assert_eq!(
        id.to_string(),
        "00000000-0000-0000-0000-000000000000/00000000000000000000000000"
    );
    let bare = BackupId::from_prefix(nil_uuid(), "..");
    assert_eq!(bare.to_string(), "00000000-0000-0000-0000-000000000000");
    assert_eq!(bare.to_vault_key('+'), "");
}

#[test]
fn ulid_choice_and_queue_dir_decision() {
    assert_eq!(pick_ulid(Some(1), Some(2), 3), 1);
    assert_eq!(pick_ulid(None, Some(2), 3), 2);
    assert_eq!(pick_ulid(None, None, 3), 3);
    assert_eq!(queue_dir_decision(CreateOutcome::Created, false), QueueDir::Fresh);
    assert_eq!(queue_dir_decision(CreateOutcome::AlreadyExists, true), QueueDir::Reuse);
    assert_eq!(queue_dir_decision(CreateOutcome::AlreadyExists, false), QueueDir::Fail);
    assert_eq!(queue_dir_decision(CreateOutcome::Failed, true), QueueDir::Fail);
}

#[test]
fn compose_from_texts() {
    assert_eq!(compose_path("v", Some("./a//b/"), Some("U")), "v/a/b/U");
    assert_eq!(compose_path("v", Some(".."), None), "v");
    assert_eq!(compose_key(Some("/"), Some("U"), '+'), "U");
    assert_eq!(compose_delimited("v", Some(".."), None, '+'), "v");
    assert_eq!(compose_delimited("v", Some(".."), Some("U"), '+'), "v+U");
    assert_eq!(compose_path("v", None, None), "v");
    assert_eq!(compose_key(Some("a/../b"), Some("U"), '+'), "b+U");
    assert_eq!(compose_key(None, Some("U"), '+'), "U");
    assert_eq!(compose_key(None, None, '+'), "");
    assert_eq!(compose_delimited("v", Some("p"), Some("U"), '+'), "v+p+U");
    assert_eq!(compose_delimited("v", None, None, '+'), "v");
}

#[test]
fn same_backup_id_claims_same_directory() {
    let spool = String::from("/var/spool/cryophile");
    let first = SpoolPathComponents::new(spool.clone(), BackupId::new(nil_uuid(), Some("p"), 7));
    let second = SpoolPathComponents::new(spool.clone(), BackupId::new(nil_uuid(), Some("./p/"), 7));
    let other = SpoolPathComponents::new(spool, BackupId::new(nil_uuid(), Some("p"), 8));
    assert_eq!(first.to_queue_path(Queue::Backup), second.to_queue_path(Queue::Backup));
    assert_ne!(first.to_queue_path(Queue::Backup), other.to_queue_path(Queue::Backup));
    assert_eq!(
        queue_dir_decision(CreateOutcome::AlreadyExists, true),
        QueueDir::Reuse
    );
}

#[test]
fn freeze_watch_stops_on_shutdown_file() {
    assert_eq!(freeze_event_action(Some("/tmp/x"), "/tmp/x"), WatchAction::Stop);
    assert_eq!(freeze_event_action(Some("/spool/freeze"), "/tmp/x"), WatchAction::Ignore);
    assert_eq!(freeze_event_action(None, "/tmp/x"), WatchAction::Ignore);
}
