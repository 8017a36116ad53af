//! The stored form of the model: each table row as the text its columns
//! hold, and how a row reads back into a view. A row that does not read
//! back (an unparseable id, an unknown kind) is corruption and is reported,
//! never replaced by a made-up value.

use vstd::prelude::*;

use std::collections::HashSet;

use crate::error::Error;
use crate::id::ElementId;
use crate::keyed::{unique_keys, Keyed};
use crate::metaclass::{kind_of_name, MetaclassKind};
use crate::model::{CommentView, ElementView, RelationshipView};
use crate::text::clone_opt_string;
use crate::visibility::{visibility_from_store, visibility_of_text};

verus! {

/// An element row: `id, kind, owner_id, name, visibility`, and whether its
/// data blob marks it as the root package (`isModel`).
#[derive(Debug)]
pub struct ElementRow {
    /// The id, as a UUID string.
    pub id: String,
    /// The stable metaclass identifier.
    pub kind: String,
    /// The owner's id, as a UUID string (`None` for a root).
    pub owner: Option<String>,
    /// The name.
    pub name: Option<String>,
    /// The stable visibility identifier.
    pub visibility: String,
    /// The data blob carries `isModel = true`.
    pub is_model: bool,
}

/// A relationship row: `id, kind, source_id, target_id, owner_id`.
#[derive(Debug)]
pub struct RelationshipRow {
    /// The id, as a UUID string.
    pub id: String,
    /// The relationship kind string.
    pub kind: String,
    /// The source element's id.
    pub source: String,
    /// The target element's id.
    pub target: String,
    /// The owning element's id.
    pub owner: String,
}

/// A comment row: `id, owner_id, body`.
#[derive(Debug)]
pub struct CommentRow {
    /// The id, as a UUID string.
    pub id: String,
    /// The owning element's id.
    pub owner: String,
    /// The body text.
    pub body: String,
}

/// Everything read from a store: its schema version and the rows of its
/// element, relationship and comment tables.
#[derive(Debug)]
pub struct StoreRows {
    /// The schema version the store was migrated to.
    pub schema_version: u32,
    /// The element rows.
    pub elements: Vec<ElementRow>,
    /// The relationship rows.
    pub relationships: Vec<RelationshipRow>,
    /// The comment rows.
    pub comments: Vec<CommentRow>,
}

/// The 128-bit value a UUID string spells, in any of the forms the `uuid`
/// crate reads (simple, hyphenated, braced, URN), or `None` for text that is
/// no UUID.
pub uninterp spec fn uuid_text_value(s: Seq<char>) -> Option<u128>;

/// Calls `uuid::Uuid::parse_str` and reads a parsed UUID back with
/// `Uuid::as_u128`. What text the crate accepts is not written out here; the
/// result is a function of the text alone, named `uuid_text_value`.
#[verifier::external_body]
fn parse_uuid_value(s: &str) -> (r: Option<u128>)
    ensures
        r == uuid_text_value(s@),
{
    uuid::Uuid::parse_str(s).ok().map(|u| u.as_u128())
}

/// Formats the text with `std::format!` and `{:?}`: the text quoted and
/// escaped as Rust's `Debug` writes it. Nothing is stated of the result.
#[verifier::external_body]
fn debug_quoted(s: &str) -> String {
    format!("{s:?}")
}

/// The identity a stored id spells, if it is a UUID.
pub open spec fn id_of_text(s: Seq<char>) -> Option<ElementId> {
    match uuid_text_value(s) {
        Some(v) => Some(ElementId::from_value(v)),
        None => None,
    }
}

/// A `CorruptStore` error about the given column.
pub open spec fn corrupt_in(r: Error, field: Seq<char>) -> bool {
    r matches Error::CorruptStore { field: f, .. } && f@ == field
}

/// Parse a stored UUID string into an [`ElementId`]; text that is not a
/// UUID is reported as a corrupt `id`, never replaced by a fresh id.
pub fn parse_id(s: &str) -> (r: Result<ElementId, Error>)
    ensures
        id_of_text(s@) matches Some(id) ==> r == Ok::<ElementId, Error>(id),
        id_of_text(s@) is None ==> r is Err && corrupt_in(r->Err_0, "id"@),
{
    match parse_uuid_value(s) {
        Some(v) => Ok(ElementId::from_u128(v)),
        None => {
            let detail = String::from_str("not a valid UUID: ").concat(debug_quoted(s).as_str());
            proof {
                reveal_strlit("id");
            }
            Err(Error::CorruptStore { field: "id", detail })
        },
    }
}

/// Resolve a stored metaclass identifier; an unknown kind is reported as a
/// corrupt `kind`, never defaulted.
pub fn kind_from_store(s: &str) -> (r: Result<MetaclassKind, Error>)
    ensures
        kind_of_name(s@) matches Some(k) ==> r == Ok::<MetaclassKind, Error>(k),
        kind_of_name(s@) is None ==> r is Err && corrupt_in(r->Err_0, "kind"@),
{
    match MetaclassKind::from_id(s) {
        Some(k) => Ok(k),
        None => {
            let detail = String::from_str("unknown metaclass kind: ").concat(debug_quoted(s).as_str());
            proof {
                reveal_strlit("kind");
            }
            Err(Error::CorruptStore { field: "kind", detail })
        },
    }
}

/// The element a row reads back as, if every column reads back.
pub open spec fn row_element(row: ElementRow) -> Option<ElementView> {
    if kind_of_name(row.kind@) is Some && id_of_text(row.id@) is Some && (row.owner matches Some(o) ==> id_of_text(
        o@,
    ) is Some) {
        Some(
            ElementView {
                id: id_of_text(row.id@)->0,
                kind: kind_of_name(row.kind@)->0,
                owner: match row.owner {
                    Some(o) => Some(id_of_text(o@)->0),
                    None => None,
                },
                name: row.name,
                visibility: visibility_of_text(row.visibility@),
            },
        )
    } else {
        None
    }
}

/// Read an element row back; the kind is checked first, then the id, then
/// the owner's id.
pub fn element_from_row(row: &ElementRow) -> (r: Result<ElementView, Error>)
    ensures
        row_element(*row) matches Some(v) ==> r == Ok::<ElementView, Error>(v),
        row_element(*row) is None ==> r is Err && (corrupt_in(r->Err_0, "kind"@) || corrupt_in(r->Err_0, "id"@)),
        kind_of_name(row.kind@) is None ==> r is Err && corrupt_in(r->Err_0, "kind"@),
        kind_of_name(row.kind@) is Some && row_element(*row) is None ==> r is Err && corrupt_in(r->Err_0, "id"@),
{
    let kind = kind_from_store(row.kind.as_str())?;
    let id = parse_id(row.id.as_str())?;
    let owner = match &row.owner {
        Some(o) => Some(parse_id(o.as_str())?),
        None => None,
    };
    Ok(ElementView {
        id,
        kind,
        owner,
        name: clone_opt_string(&row.name),
        visibility: visibility_from_store(row.visibility.as_str()),
    })
}

/// The relationship a row reads back as, if every id reads back.
pub open spec fn row_relationship(row: RelationshipRow) -> Option<RelationshipView> {
    if id_of_text(row.id@) is Some && id_of_text(row.source@) is Some && id_of_text(row.target@) is Some
        && id_of_text(row.owner@) is Some {
        Some(
            RelationshipView {
                id: id_of_text(row.id@)->0,
                kind: row.kind,
                source: id_of_text(row.source@)->0,
                target: id_of_text(row.target@)->0,
                owner: id_of_text(row.owner@)->0,
            },
        )
    } else {
        None
    }
}

/// Read a relationship row back.
pub fn relationship_from_row(row: &RelationshipRow) -> (r: Result<RelationshipView, Error>)
    ensures
        row_relationship(*row) matches Some(v) ==> r == Ok::<RelationshipView, Error>(v),
        row_relationship(*row) is None ==> r is Err && corrupt_in(r->Err_0, "id"@),
{
    let id = parse_id(row.id.as_str())?;
    let source = parse_id(row.source.as_str())?;
    let target = parse_id(row.target.as_str())?;
    let owner = parse_id(row.owner.as_str())?;
    Ok(RelationshipView { id, kind: row.kind.clone(), source, target, owner })
}

/// The comment a row reads back as, if its ids read back.
pub open spec fn row_comment(row: CommentRow) -> Option<CommentView> {
    if id_of_text(row.id@) is Some && id_of_text(row.owner@) is Some {
        Some(CommentView { id: id_of_text(row.id@)->0, owner: id_of_text(row.owner@)->0, body: row.body })
    } else {
        None
    }
}

/// Read a comment row back.
pub fn comment_from_row(row: &CommentRow) -> (r: Result<CommentView, Error>)
    ensures
        row_comment(*row) matches Some(v) ==> r == Ok::<CommentView, Error>(v),
        row_comment(*row) is None ==> r is Err && corrupt_in(r->Err_0, "id"@),
{
    let id = parse_id(row.id.as_str())?;
    let owner = parse_id(row.owner.as_str())?;
    Ok(CommentView { id, owner, body: row.body.clone() })
}

broadcast use vstd::std_specs::hash::group_hash_axioms;

/// Whether no two records share a key.
pub fn keys_unique<T: Keyed>(v: &Vec<T>) -> (b: bool)
    ensures
        b == unique_keys(v@),
{
    let mut seen: HashSet<u128> = HashSet::new();
    let n = v.len();
    let mut i: usize = 0;
    while i < n
        invariant
            n == v@.len(),
            i <= n,
            unique_keys(v@.take(i as int)),
            forall|k: u128| #[trigger] seen@.contains(k) <==> exists|j: int| 0 <= j < i && (#[trigger] v@[j]).key().value() == k,
        decreases n - i,
    {
        let key = v[i].key_of();
        if !seen.insert(key.as_u128()) {
            proof {
                let j = choose|j: int| 0 <= j < i && (#[trigger] v@[j]).key().value() == key.value();
                ElementId::lemma_value_injective(v@[j].key(), key);
                assert(v@[j].key() == v@[i as int].key());
            }
            return false;
        }
        proof {
            assert forall|a: int, b: int| 0 <= a < i + 1 && 0 <= b < i + 1 && a != b
                implies #[trigger] v@.take(i + 1)[a].key() != #[trigger] v@.take(i + 1)[b].key() by {
                if a < i && b < i {
                    assert(v@.take(i as int)[a] == v@[a] && v@.take(i as int)[b] == v@[b]);
                } else if a == i {
                    if v@[b].key() == key {
                        assert(seen@.contains(key.value()) || b == i);
                    }
                } else {
                    if v@[a].key() == key {
                        assert(seen@.contains(key.value()) || a == i);
                    }
                }
            }
            assert forall|k: u128| #[trigger] seen@.contains(k) <==> exists|j: int| 0 <= j < i + 1 && (#[trigger] v@[j]).key().value() == k by {
                if k == key.value() {
                    assert(v@[i as int].key().value() == k);
                }
            }
        }
        i = i + 1;
    }
    assert(v@.take(n as int) =~= v@);
    true
}

/// Every element row reads back.
pub open spec fn element_rows_read(rows: Seq<ElementRow>) -> bool {
    forall|i: int| 0 <= i < rows.len() ==> #[trigger] row_element(rows[i]) is Some
}

/// The elements the rows read back as.
pub open spec fn elements_of_rows(rows: Seq<ElementRow>) -> Seq<ElementView> {
    Seq::new(rows.len(), |i: int| row_element(rows[i])->0)
}

/// Every relationship row reads back.
pub open spec fn relationship_rows_read(rows: Seq<RelationshipRow>) -> bool {
    forall|i: int| 0 <= i < rows.len() ==> #[trigger] row_relationship(rows[i]) is Some
}

/// The relationships the rows read back as.
pub open spec fn relationships_of_rows(rows: Seq<RelationshipRow>) -> Seq<RelationshipView> {
    Seq::new(rows.len(), |i: int| row_relationship(rows[i])->0)
}

/// Every comment row reads back.
pub open spec fn comment_rows_read(rows: Seq<CommentRow>) -> bool {
    forall|i: int| 0 <= i < rows.len() ==> #[trigger] row_comment(rows[i]) is Some
}

/// The comments the rows read back as.
pub open spec fn comments_of_rows(rows: Seq<CommentRow>) -> Seq<CommentView> {
    Seq::new(rows.len(), |i: int| row_comment(rows[i])->0)
}

/// A `CorruptStore` error naming a duplicated id.
fn duplicate_id() -> (e: Error)
    ensures
        corrupt_in(e, "id"@),
{
    proof {
        reveal_strlit("id");
    }
    Error::CorruptStore { field: "id", detail: String::from_str("duplicate id") }
}

/// Read every element row back, in order; fails on the first row that does
/// not read back, and on two rows with one id.
pub fn read_element_rows(rows: &Vec<ElementRow>) -> (r: Result<Vec<ElementView>, Error>)
    ensures
        r is Ok <==> element_rows_read(rows@) && unique_keys(elements_of_rows(rows@)),
        r matches Ok(v) ==> v@ == elements_of_rows(rows@),
        r matches Err(e) ==> corrupt_in(e, "kind"@) || corrupt_in(e, "id"@),
        (forall|j: int| 0 <= j < rows@.len() ==> #[trigger] kind_of_name(rows@[j].kind@) is Some)
            ==> (r matches Err(e) ==> corrupt_in(e, "id"@)),
{
    let n = rows.len();
    let mut out: Vec<ElementView> = Vec::new();
    let mut i: usize = 0;
    while i < n
        invariant
            n == rows@.len(),
            i <= n,
            out@.len() == i,
            forall|j: int| 0 <= j < i ==> #[trigger] row_element(rows@[j]) is Some && out@[j] == row_element(rows@[j])->0,
        decreases n - i,
    {
        let v = element_from_row(&rows[i])?;
        out.push(v);
        i = i + 1;
    }
    assert(out@ =~= elements_of_rows(rows@));
    if !keys_unique(&out) {
        return Err(duplicate_id());
    }
    Ok(out)
}

/// Read every relationship row back, in order; fails on the first row that
/// does not read back, and on two rows with one id.
pub fn read_relationship_rows(rows: &Vec<RelationshipRow>) -> (r: Result<Vec<RelationshipView>, Error>)
    ensures
        r is Ok <==> relationship_rows_read(rows@) && unique_keys(relationships_of_rows(rows@)),
        r matches Ok(v) ==> v@ == relationships_of_rows(rows@),
        r matches Err(e) ==> corrupt_in(e, "id"@),
{
    let n = rows.len();
    let mut out: Vec<RelationshipView> = Vec::new();
    let mut i: usize = 0;
    while i < n
        invariant
            n == rows@.len(),
            i <= n,
            out@.len() == i,
            forall|j: int| 0 <= j < i ==> #[trigger] row_relationship(rows@[j]) is Some && out@[j] == row_relationship(rows@[j])->0,
        decreases n - i,
    {
        let v = relationship_from_row(&rows[i])?;
        out.push(v);
        i = i + 1;
    }
    assert(out@ =~= relationships_of_rows(rows@));
    if !keys_unique(&out) {
        return Err(duplicate_id());
    }
    Ok(out)
}

/// Read every comment row back, in order; fails on the first row that does
/// not read back, and on two rows with one id.
pub fn read_comment_rows(rows: &Vec<CommentRow>) -> (r: Result<Vec<CommentView>, Error>)
    ensures
        r is Ok <==> comment_rows_read(rows@) && unique_keys(comments_of_rows(rows@)),
        r matches Ok(v) ==> v@ == comments_of_rows(rows@),
        r matches Err(e) ==> corrupt_in(e, "id"@),
{
    let n = rows.len();
    let mut out: Vec<CommentView> = Vec::new();
    let mut i: usize = 0;
    while i < n
        invariant
            n == rows@.len(),
            i <= n,
            out@.len() == i,
            forall|j: int| 0 <= j < i ==> #[trigger] row_comment(rows@[j]) is Some && out@[j] == row_comment(rows@[j])->0,
        decreases n - i,
    {
        let v = comment_from_row(&rows[i])?;
        out.push(v);
        i = i + 1;
    }
    assert(out@ =~= comments_of_rows(rows@));
    if !keys_unique(&out) {
        return Err(duplicate_id());
    }
    Ok(out)
}

} // verus!
