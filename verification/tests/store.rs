//! The `.smith` file format's decisions: the header check, the schema
//! version, pending migrations and backup rotation.

use smith::store::{
    backup_plan, check_header, parse_schema_version, pending_migrations, registry, BackupStep, HeaderError,
    SchemaVersionError, APPLICATION_ID, BACKUP_COUNT, HEADER_LEN,
};

const SQLITE_MAGIC: &[u8; 16] = b"SQLite format 3\0";

/// A 72-byte header: the SQLite magic (or not) and an application id.
fn header(magic: &[u8; 16], app_id: u32) -> Vec<u8> {
    let mut h = vec![0u8; 72];
    h[0..16].copy_from_slice(magic);
    h[68..72].copy_from_slice(&app_id.to_be_bytes());
    h
}

#[test]
fn application_id_magic_written_and_verified() {
    assert_eq!(APPLICATION_ID, 0x534D_5448);
    assert_eq!(&(APPLICATION_ID as u32).to_be_bytes(), b"SMTH");
    let h = header(SQLITE_MAGIC, APPLICATION_ID as u32);
    assert_eq!(check_header(4096, &h), Ok(true));
    assert_eq!(HEADER_LEN, 72);
    assert_eq!(smith::current_schema_version(), 1, "a fresh file migrates to V001");
}

#[test]
fn non_smith_sqlite_rejected_with_clear_error() {
    let plain = header(SQLITE_MAGIC, 0);
    assert_eq!(check_header(8192, &plain), Err(HeaderError::NotASmithFile));

    let garbage = b"this is not a database at all, but it is long enough to hold a header.....".to_vec();
    assert!(garbage.len() >= 72);
    assert_eq!(check_header(garbage.len() as u64, &garbage), Err(HeaderError::NotASqliteDatabase));
}

#[test]
fn short_or_empty_files_are_judged_by_length() {
    assert_eq!(check_header(0, &[]), Ok(false), "a zero-byte file is a new file");
    assert_eq!(check_header(29, b"this is not a database at all"), Err(HeaderError::NotASqliteDatabase));
    assert_eq!(check_header(71, &[0u8; 71]), Err(HeaderError::NotASqliteDatabase));
    let mut almost = header(SQLITE_MAGIC, APPLICATION_ID as u32);
    almost[15] = b'!';
    assert_eq!(check_header(100, &almost), Err(HeaderError::NotASqliteDatabase));
    let other_app = header(SQLITE_MAGIC, APPLICATION_ID as u32 + 1);
    assert_eq!(check_header(100, &other_app), Err(HeaderError::NotASmithFile));
}

#[test]
fn migration_runner_applies_pending_in_transaction_and_bumps_version() {
    let pending = pending_migrations(0).unwrap();
    assert_eq!(pending.len(), 1);
    assert_eq!(pending[0].version, 1);
    assert_eq!(pending[0].name, "initial schema");
    assert!(pending[0].sql.contains("CREATE TABLE elements"));
    assert!(pending[0].sql.contains("CREATE TABLE relationships"));

    assert_eq!(parse_schema_version(Some("0")), Ok(0));
    assert_eq!(parse_schema_version(Some("1")), Ok(1));
    assert!(pending_migrations(1).unwrap().is_empty(), "nothing pending at the latest version");
}

#[test]
fn corrupt_schema_version_aborts_open_with_clear_error() {
    assert_eq!(
        parse_schema_version(Some("not-a-number")),
        Err(SchemaVersionError::Corrupt {
            detail: "'not-a-number' is not an integer".to_string()
        })
    );
    assert_eq!(
        parse_schema_version(Some("-1")),
        Err(SchemaVersionError::Corrupt {
            detail: "'-1' is not an integer".to_string()
        })
    );
    assert_eq!(parse_schema_version(None), Ok(0), "a missing row is version 0");
    assert_eq!(parse_schema_version(Some("+2")), Ok(2));

    match pending_migrations(7) {
        Err(SchemaVersionError::Corrupt { detail }) => {
            assert!(detail.contains("schema_version 7"), "{detail}");
            assert!(detail.contains("newer than the latest migration (1)"), "{detail}");
        }
        other => panic!("unexpected {other:?}"),
    }
}

#[test]
fn migration_registry_is_append_only() {
    let registry = registry();
    assert!(!registry.is_empty(), "V001 must ship");

    for (i, migration) in registry.iter().enumerate() {
        let expected = u32::try_from(i).unwrap() + 1;
        assert_eq!(migration.version, expected, "versions are dense, 1-based, in order");
    }
    let has_down = registry.iter().any(|m| m.sql.to_lowercase().contains("drop "));
    assert!(!has_down, "append-only: no migration drops schema objects");
    assert_eq!(smith::current_schema_version(), u32::try_from(registry.len()).unwrap());
}

/// Replay a plan on backup slots `1..=3` (index 0 unused) plus the staged
/// snapshot, returning the generation each slot holds afterwards.
fn rotate(slots: &mut [Option<u32>; 4], staged: u32) {
    let exists = [slots[1].is_some(), slots[2].is_some(), slots[3].is_some()];
    for step in backup_plan(&exists) {
        match step {
            BackupStep::Remove(n) => slots[n] = None,
            BackupStep::Rename { from, to } => {
                slots[to] = slots[from].take();
            }
            BackupStep::PromoteStaging => slots[1] = Some(staged),
        }
    }
}

#[test]
fn open_rotates_smith_bak_keeping_last_three() {
    assert_eq!(BACKUP_COUNT, 3);
    let mut slots: [Option<u32>; 4] = [None; 4];
    // Opens 2..=5 each back up the state the previous open left.
    for generation in 2..=5u32 {
        rotate(&mut slots, generation - 1);
    }
    assert_eq!(slots[1], Some(4), "bak.1 is the newest backup");
    assert_eq!(slots[2], Some(3));
    assert_eq!(slots[3], Some(2));
}

#[test]
fn backup_plan_only_moves_what_exists() {
    assert_eq!(backup_plan(&[false, false, false]), vec![BackupStep::PromoteStaging]);
    assert_eq!(
        backup_plan(&[true, false, false]),
        vec![BackupStep::Rename { from: 1, to: 2 }, BackupStep::PromoteStaging]
    );
    assert_eq!(
        backup_plan(&[true, true, true]),
        vec![
            BackupStep::Remove(3),
            BackupStep::Rename { from: 2, to: 3 },
            BackupStep::Rename { from: 1, to: 2 },
            BackupStep::PromoteStaging
        ]
    );
    assert_eq!(
        backup_plan(&[false, true, false]),
        vec![BackupStep::Rename { from: 2, to: 3 }, BackupStep::PromoteStaging]
    );
}

#[test]
fn schema_v001_declares_all_tables_and_indexes() {
    let sql = registry()[0].sql;
    for table in [
        "elements",
        "ownership_closure",
        "relationships",
        "applied_stereotypes",
        "comments",
        "diagrams",
        "shape_views",
        "edge_views",
        "ui_state",
    ] {
        assert!(sql.contains(&format!("CREATE TABLE {table} (")), "missing table {table}");
    }
    assert!(sql.contains("CREATE VIRTUAL TABLE elements_fts USING fts5"), "missing table elements_fts");
    for index in [
        "idx_elements_owner",
        "idx_elements_kind",
        "idx_closure_anc",
        "idx_closure_dec",
        "idx_rel_source",
        "idx_rel_target",
        "idx_rel_kind",
        "idx_stereo_element",
        "idx_comments_owner",
        "idx_shape_diagram",
        "idx_shape_element",
        "idx_edge_diagram",
    ] {
        assert!(sql.contains(&format!("CREATE INDEX {index} ON")), "missing index {index}");
    }
}
