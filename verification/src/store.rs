//! The `.smith` file format's decisions: the header that marks a Smith file,
//! the recorded schema version, which forward migrations an open applies,
//! and how the backups of earlier versions rotate. Reading and writing the
//! file itself lies outside the library.

use vstd::prelude::*;

use crate::numeral::{decimal, decimal_text, push_decimal, u32_text};
use crate::text::chars_of;

verus! {

/// Smith's `PRAGMA application_id` magic: the ASCII bytes `SMTH` read
/// big-endian, at byte 68 of the SQLite header.
pub const APPLICATION_ID: i64 = 0x534D_5448;

/// The number of rotated `.bak.N` backups kept.
pub const BACKUP_COUNT: usize = 3;

/// The length of the header prefix the file check reads: the SQLite magic
/// and the application id field.
pub const HEADER_LEN: usize = 72;

/// The forward DDL of the first schema version.
pub const V001_INITIAL_SCHEMA: &'static str = "CREATE TABLE elements (id TEXT PRIMARY KEY, kind TEXT NOT NULL, owner_id TEXT REFERENCES elements(id), name TEXT, visibility TEXT NOT NULL DEFAULT 'public', data TEXT NOT NULL DEFAULT '{}' CHECK (json_valid(data)), created_at TEXT NOT NULL, updated_at TEXT NOT NULL); CREATE INDEX idx_elements_owner ON elements(owner_id); CREATE INDEX idx_elements_kind ON elements(kind); CREATE TABLE ownership_closure (ancestor_id TEXT NOT NULL REFERENCES elements(id) ON DELETE CASCADE, descendant_id TEXT NOT NULL REFERENCES elements(id) ON DELETE CASCADE, depth INTEGER NOT NULL, PRIMARY KEY (ancestor_id, descendant_id)); CREATE INDEX idx_closure_anc ON ownership_closure(ancestor_id); CREATE INDEX idx_closure_dec ON ownership_closure(descendant_id); CREATE TABLE relationships (id TEXT PRIMARY KEY, kind TEXT NOT NULL, source_id TEXT NOT NULL REFERENCES elements(id), target_id TEXT NOT NULL REFERENCES elements(id), owner_id TEXT NOT NULL REFERENCES elements(id), data TEXT NOT NULL DEFAULT '{}' CHECK (json_valid(data)), created_at TEXT NOT NULL, updated_at TEXT NOT NULL); CREATE INDEX idx_rel_source ON relationships(source_id); CREATE INDEX idx_rel_target ON relationships(target_id); CREATE INDEX idx_rel_kind ON relationships(kind); CREATE TABLE applied_stereotypes (element_id TEXT NOT NULL REFERENCES elements(id) ON DELETE CASCADE, stereotype_id TEXT NOT NULL, tag_values TEXT NOT NULL DEFAULT '{}' CHECK (json_valid(tag_values)), PRIMARY KEY (element_id, stereotype_id)); CREATE INDEX idx_stereo_element ON applied_stereotypes(element_id); CREATE TABLE comments (id TEXT PRIMARY KEY, owner_id TEXT NOT NULL REFERENCES elements(id) ON DELETE CASCADE, body TEXT NOT NULL CHECK (length(trim(body)) > 0), annotated TEXT NOT NULL DEFAULT '[]' CHECK (json_valid(annotated))); CREATE INDEX idx_comments_owner ON comments(owner_id); CREATE TABLE diagrams (id TEXT PRIMARY KEY, name TEXT, kind TEXT NOT NULL, owner_id TEXT REFERENCES elements(id), canvas_state TEXT NOT NULL DEFAULT '{}' CHECK (json_valid(canvas_state))); CREATE TABLE shape_views (id TEXT PRIMARY KEY, diagram_id TEXT NOT NULL REFERENCES diagrams(id) ON DELETE CASCADE, model_element_id TEXT NOT NULL REFERENCES elements(id) ON DELETE CASCADE, bounds TEXT); CREATE INDEX idx_shape_diagram ON shape_views(diagram_id); CREATE INDEX idx_shape_element ON shape_views(model_element_id); CREATE TABLE edge_views (id TEXT PRIMARY KEY, diagram_id TEXT NOT NULL REFERENCES diagrams(id) ON DELETE CASCADE, relationship_id TEXT NOT NULL REFERENCES relationships(id) ON DELETE CASCADE, waypoints TEXT); CREATE INDEX idx_edge_diagram ON edge_views(diagram_id); CREATE VIRTUAL TABLE elements_fts USING fts5(id UNINDEXED, name); CREATE TABLE ui_state (key TEXT PRIMARY KEY, value TEXT NOT NULL);";

/// One forward migration: the version it brings the schema to, a name for
/// messages, and its DDL. There is no way back.
#[derive(Debug, Clone, Copy)]
pub struct Migration {
    /// Target schema version (1-based, dense).
    pub version: u32,
    /// Human-readable name used in error messages.
    pub name: &'static str,
    /// The forward DDL.
    pub sql: &'static str,
}

/// The shipped migrations, in version order: versions are dense and
/// 1-based, and the list only ever grows at its tail.
pub open spec fn shipped() -> Seq<Migration> {
    seq![Migration { version: 1, name: "initial schema", sql: V001_INITIAL_SCHEMA }]
}

/// The number of shipped migrations; version `i + 1` is the `i`-th.
pub open spec fn migration_count() -> nat {
    shipped().len()
}

/// Every shipped migration, in version order.
pub fn registry() -> (r: Vec<Migration>)
    ensures
        r@ == shipped(),
        forall|i: int| 0 <= i < r@.len() ==> #[trigger] r@[i].version == i + 1,
{
    let mut r = Vec::new();
    r.push(Migration { version: 1, name: "initial schema", sql: V001_INITIAL_SCHEMA });
    assert(r@ =~= shipped());
    r
}

/// The schema version of a fully migrated file: the version of the last
/// registered migration.
pub fn current_schema_version() -> (v: u32)
    ensures
        v == migration_count(),
{
    let r = registry();
    match r.last() {
        Some(m) => m.version,
        None => 0,
    }
}

/// Why an existing file cannot be opened as a Smith file.
#[derive(Debug, Clone, Copy, PartialEq, Eq, Structural)]
pub enum HeaderError {
    /// The file is not a SQLite database at all.
    NotASqliteDatabase,
    /// A SQLite database, but not with Smith's application id.
    NotASmithFile,
}

/// The SQLite file header magic: the first 16 bytes of every database.
pub open spec fn sqlite_magic() -> Seq<u8> {
    seq![83u8, 81, 76, 105, 116, 101, 32, 102, 111, 114, 109, 97, 116, 32, 51, 0]
}

/// The big-endian 32-bit application id field at bytes 68..72, unsigned.
pub open spec fn header_app_id(h: Seq<u8>) -> int {
    h[68] * 0x100_0000 + h[69] * 0x1_0000 + h[70] * 0x100 + h[71]
}

/// What the first bytes of a file of length `len` say: a zero-byte file is
/// new (not yet a Smith file); a shorter file, or one without the SQLite
/// magic, is no SQLite database; one whose application id is not Smith's is
/// no Smith file; otherwise it is an existing Smith file.
pub open spec fn header_verdict(len: nat, h: Seq<u8>) -> Result<bool, HeaderError> {
    if len == 0 {
        Ok(false)
    } else if len < 72 {
        Err(HeaderError::NotASqliteDatabase)
    } else if h.take(16) != sqlite_magic() {
        Err(HeaderError::NotASqliteDatabase)
    } else if header_app_id(h) != APPLICATION_ID {
        Err(HeaderError::NotASmithFile)
    } else {
        Ok(true)
    }
}

/// Decide whether a file is an existing Smith file from its length and its
/// first bytes (at least [`HEADER_LEN`] of them when the file is that long).
pub fn check_header(len: u64, header: &[u8]) -> (r: Result<bool, HeaderError>)
    requires
        len >= 72 ==> header@.len() >= 72,
    ensures
        r == header_verdict(len as nat, header@),
{
    if len == 0 {
        return Ok(false);
    }
    if len < 72 {
        return Err(HeaderError::NotASqliteDatabase);
    }
    let magic: [u8; 16] = [83u8, 81, 76, 105, 116, 101, 32, 102, 111, 114, 109, 97, 116, 32, 51, 0];
    let mut i: usize = 0;
    while i < 16
        invariant
            i <= 16,
            len >= 72,
            header@.len() >= 72,
            magic@ == sqlite_magic(),
            forall|j: int| 0 <= j < i ==> header@[j] == sqlite_magic()[j],
        decreases 16 - i,
    {
        if header[i] != magic[i] {
            proof {
                assert(magic@[i as int] == sqlite_magic()[i as int]);
                assert(header@.take(16)[i as int] != sqlite_magic()[i as int]);
                assert(header@.take(16) != sqlite_magic());
            }
            return Err(HeaderError::NotASqliteDatabase);
        }
        i = i + 1;
    }
    assert(header@.take(16) =~= sqlite_magic());
    let id: u32 = (header[68] as u32) * 0x100_0000 + (header[69] as u32) * 0x1_0000 + (header[70] as u32) * 0x100
        + header[71] as u32;
    if id != 0x534D_5448u32 {
        return Err(HeaderError::NotASmithFile);
    }
    Ok(true)
}

/// Why the recorded schema version cannot be used.
#[derive(Debug, Clone, PartialEq, Eq)]
pub enum SchemaVersionError {
    /// The recorded version is not a number, or is newer than this library.
    Corrupt {
        /// Why the version is unusable.
        detail: String,
    },
}

/// The recorded `schema_version` value: a missing row is version 0; a value
/// is read as `u32::from_str` reads it, and anything else is corrupt, with
/// the detail `'<value>' is not an integer`.
pub fn parse_schema_version(raw: Option<&str>) -> (r: Result<u32, SchemaVersionError>)
    ensures
        raw is None ==> r == Ok::<u32, SchemaVersionError>(0),
        raw matches Some(s) ==> match u32_text(s@) {
            Some(v) => r == Ok::<u32, SchemaVersionError>(v),
            None => r matches Err(SchemaVersionError::Corrupt { detail }) && detail@ == seq!['\''] + s@ + "' is not an integer"@,
        },
{
    match raw {
        None => Ok(0),
        Some(s) => {
            let cs = chars_of(s);
            let n = cs.len();
            assert(cs@.subrange(0, n as int) =~= s@);
            match crate::numeral::parse_u32_chars(&cs, 0, n) {
                Some(v) => Ok(v),
                None => {
                    let detail = String::from_str("'").concat(s).concat("' is not an integer");
                    proof {
                        reveal_strlit("'");
                        assert(detail@ =~= seq!['\''] + s@ + "' is not an integer"@);
                    }
                    Err(SchemaVersionError::Corrupt { detail })
                },
            }
        },
    }
}

/// The migrations an open applies to a file at `version`: every registered
/// migration newer than it, in order. A version newer than the registry's
/// latest is corrupt (the file was written by a newer Smith).
pub fn pending_migrations(version: u32) -> (r: Result<Vec<Migration>, SchemaVersionError>)
    ensures
        version > migration_count() ==> (r matches Err(SchemaVersionError::Corrupt { detail })
            && detail@ == "schema_version "@ + decimal(version as nat) + " is newer than the latest migration ("@
                + decimal(migration_count()) + "); this file was written by a newer Smith"@),
        version <= migration_count() ==> (r matches Ok(p) && p@ == shipped().subrange(version as int, migration_count() as int)
            && forall|i: int| 0 <= i < p@.len() ==> #[trigger] p@[i].version == version + i + 1),
{
    let latest = current_schema_version();
    if version > latest {
        let mut detail = String::from_str("schema_version ");
        push_decimal(&mut detail, version);
        detail.append(" is newer than the latest migration (");
        push_decimal(&mut detail, latest);
        detail.append("); this file was written by a newer Smith");
        return Err(SchemaVersionError::Corrupt { detail });
    }
    let all = registry();
    let mut pending: Vec<Migration> = Vec::new();
    let mut i: usize = version as usize;
    while i < all.len()
        invariant
            version <= i <= all@.len(),
            all@ == shipped(),
            forall|k: int| 0 <= k < all@.len() ==> #[trigger] all@[k].version == k + 1,
            pending@ == shipped().subrange(version as int, i as int),
            forall|k: int| 0 <= k < pending@.len() ==> #[trigger] pending@[k].version == version + k + 1,
        decreases all@.len() - i,
    {
        pending.push(all[i]);
        assert(shipped().subrange(version as int, i + 1) =~= shipped().subrange(version as int, i as int).push(all@[i as int]));
        i = i + 1;
    }
    Ok(pending)
}

/// One step of rotating a staged snapshot into the `.bak.N` series.
#[derive(Debug, Clone, Copy, PartialEq, Eq, Structural)]
pub enum BackupStep {
    /// Remove `.bak.N`.
    Remove(usize),
    /// Rename `.bak.from` to `.bak.to`.
    Rename {
        /// The slot renamed.
        from: usize,
        /// The slot it moves to.
        to: usize,
    },
    /// Rename the staged snapshot to `.bak.1`.
    PromoteStaging,
}

/// The steps that rotate the staged snapshot in, given which of `.bak.1`,
/// `.bak.2`, `.bak.3` exist: drop `.bak.3`, shift `.bak.2` and `.bak.1` up one
/// slot (each only if present), then the snapshot becomes `.bak.1`.
pub open spec fn backup_steps(exists1: bool, exists2: bool, exists3: bool) -> Seq<BackupStep> {
    (if exists3 { seq![BackupStep::Remove(3)] } else { Seq::empty() })
        + (if exists2 { seq![BackupStep::Rename { from: 2, to: 3 }] } else { Seq::empty() })
        + (if exists1 { seq![BackupStep::Rename { from: 1, to: 2 }] } else { Seq::empty() })
        + seq![BackupStep::PromoteStaging]
}

/// Plan the rotation of a staged snapshot into the backups, keeping the last
/// [`BACKUP_COUNT`]: `exists[n - 1]` tells whether `.bak.n` exists.
pub fn backup_plan(exists: &[bool; 3]) -> (steps: Vec<BackupStep>)
    ensures
        steps@ == backup_steps(exists@[0], exists@[1], exists@[2]),
{
    let mut steps: Vec<BackupStep> = Vec::new();
    if exists[2] {
        steps.push(BackupStep::Remove(BACKUP_COUNT));
    }
    let mut slot: usize = BACKUP_COUNT - 1;
    let ghost first = steps@;
    while slot >= 1
        invariant
            0 <= slot <= 2,
            first == (if exists@[2] { seq![BackupStep::Remove(3)] } else { Seq::<BackupStep>::empty() }),
            slot == 2 ==> steps@ == first,
            slot == 1 ==> steps@ == first + (if exists@[1] { seq![BackupStep::Rename { from: 2, to: 3 }] } else { Seq::<BackupStep>::empty() }),
            slot == 0 ==> steps@ == first + (if exists@[1] { seq![BackupStep::Rename { from: 2, to: 3 }] } else { Seq::<BackupStep>::empty() })
                + (if exists@[0] { seq![BackupStep::Rename { from: 1, to: 2 }] } else { Seq::<BackupStep>::empty() }),
        decreases slot,
    {
        let ghost before = steps@;
        if exists[slot - 1] {
            steps.push(BackupStep::Rename { from: slot, to: slot + 1 });
        }
        proof {
            if slot == 2 {
                assert(steps@ =~= first + (if exists@[1] { seq![BackupStep::Rename { from: 2, to: 3 }] } else { Seq::<BackupStep>::empty() }));
            } else {
                assert(steps@ =~= first + (if exists@[1] { seq![BackupStep::Rename { from: 2, to: 3 }] } else { Seq::<BackupStep>::empty() })
                    + (if exists@[0] { seq![BackupStep::Rename { from: 1, to: 2 }] } else { Seq::<BackupStep>::empty() }));
            }
        }
        slot = slot - 1;
    }
    steps.push(BackupStep::PromoteStaging);
    assert(steps@ =~= backup_steps(exists@[0], exists@[1], exists@[2]));
    steps
}

/// What the backup slots `.bak.1`, `.bak.2`, `.bak.3` hold (by the version
/// each was taken from) after carrying out `steps`, with `staged` the
/// version in the staging file.
pub open spec fn after_steps(slots: Seq<Option<int>>, steps: Seq<BackupStep>, staged: int) -> Seq<Option<int>>
    decreases steps.len(),
{
    if steps.len() == 0 {
        slots
    } else {
        let next = match steps[0] {
            BackupStep::Remove(n) => if 1 <= n <= 3 { slots.update(n - 1, None) } else { slots },
            BackupStep::Rename { from, to } => if 1 <= from <= 3 && 1 <= to <= 3 {
                slots.update(to - 1, slots[from - 1]).update(from - 1, None)
            } else {
                slots
            },
            BackupStep::PromoteStaging => slots.update(0, Some(staged)),
        };
        after_steps(next, steps.drop_first(), staged)
    }
}

/// Rotating a staged snapshot in keeps the last three versions: the
/// snapshot becomes `.bak.1`, each older backup moves one slot up, and what
/// was in `.bak.3` is dropped.
pub proof fn lemma_rotation_keeps_last_three(slots: Seq<Option<int>>, staged: int)
    requires
        slots.len() == 3,
    ensures
        after_steps(slots, backup_steps(slots[0] is Some, slots[1] is Some, slots[2] is Some), staged)
            == seq![Some(staged), slots[0], slots[1]],
{
    let steps = backup_steps(slots[0] is Some, slots[1] is Some, slots[2] is Some);
    reveal_with_fuel(after_steps, 5);
    let s1 = if slots[2] is Some { slots.update(2, None) } else { slots };
    let s2 = if slots[1] is Some { s1.update(2, s1[1]).update(1, None) } else { s1 };
    let s3 = if slots[0] is Some { s2.update(1, s2[0]).update(0, None) } else { s2 };
    let s4 = s3.update(0, Some(staged));
    let t1 = if slots[2] is Some { steps.drop_first() } else { steps };
    let t2 = if slots[1] is Some { t1.drop_first() } else { t1 };
    let t3 = if slots[0] is Some { t2.drop_first() } else { t2 };
    assert(t1 =~= (if slots[1] is Some { seq![BackupStep::Rename { from: 2, to: 3 }] } else { Seq::empty() })
        + (if slots[0] is Some { seq![BackupStep::Rename { from: 1, to: 2 }] } else { Seq::empty() })
        + seq![BackupStep::PromoteStaging]);
    assert(t2 =~= (if slots[0] is Some { seq![BackupStep::Rename { from: 1, to: 2 }] } else { Seq::empty() })
        + seq![BackupStep::PromoteStaging]);
    assert(t3 =~= seq![BackupStep::PromoteStaging]);
    assert(after_steps(slots, steps, staged) == after_steps(s1, t1, staged));
    assert(after_steps(s1, t1, staged) == after_steps(s2, t2, staged));
    assert(after_steps(s2, t2, staged) == after_steps(s3, t3, staged));
    assert(t3.drop_first() =~= Seq::<BackupStep>::empty());
    assert(after_steps(s3, t3, staged) == after_steps(s4, t3.drop_first(), staged));
    assert(s4 =~= seq![Some(staged), slots[0], slots[1]]);
}

} // verus!
