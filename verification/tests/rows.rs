//! Reading stored rows back: ids, kinds, visibility, and whole tables.

use smith::rows::{
    comment_from_row, element_from_row, kind_from_store, parse_id, read_element_rows, relationship_from_row,
    CommentRow, ElementRow, RelationshipRow,
};
use smith::{ElementId, Error, MetaclassKind, Visibility};

const TEXT: &str = "01234567-89ab-cdef-0011-223344556677";
const VALUE: u128 = 0x0123_4567_89ab_cdef_0011_2233_4455_6677;

#[test]
fn parse_id_reads_every_uuid_form() {
    let id = ElementId::from_u128(VALUE);
    assert_eq!(parse_id(TEXT), Ok(id));
    assert_eq!(parse_id("0123456789abcdef0011223344556677"), Ok(id));
    assert_eq!(parse_id("{01234567-89ab-cdef-0011-223344556677}"), Ok(id));
    assert_eq!(parse_id("urn:uuid:01234567-89AB-CDEF-0011-223344556677"), Ok(id));
    let fresh = ElementId::new();
    assert_eq!(parse_id(&fresh.as_uuid().to_string()), Ok(fresh));
}

#[test]
fn parse_id_reports_a_corrupt_id_never_a_fresh_one() {
    assert_eq!(
        parse_id("e1"),
        Err(Error::CorruptStore {
            field: "id",
            detail: "not a valid UUID: \"e1\"".to_string()
        })
    );
    assert!(matches!(parse_id(""), Err(Error::CorruptStore { field: "id", .. })));
}

#[test]
fn kind_from_store_rejects_unknown_kinds() {
    assert_eq!(kind_from_store("Class"), Ok(MetaclassKind::Class));
    assert_eq!(
        kind_from_store("Gadget"),
        Err(Error::CorruptStore {
            field: "kind",
            detail: "unknown metaclass kind: \"Gadget\"".to_string()
        })
    );
}

#[test]
fn element_rows_read_back_field_by_field() {
    let owner = ElementId::new();
    let row = ElementRow {
        id: TEXT.to_string(),
        kind: "Interface".to_string(),
        owner: Some(owner.as_uuid().to_string()),
        name: Some("Shape".to_string()),
        visibility: "protected".to_string(),
        is_model: false,
    };
    let v = element_from_row(&row).unwrap();
    assert_eq!(v.id, ElementId::from_u128(VALUE));
    assert_eq!(v.kind, MetaclassKind::Interface);
    assert_eq!(v.owner, Some(owner));
    assert_eq!(v.name.as_deref(), Some("Shape"));
    assert_eq!(v.visibility, Visibility::Protected);

    let bad_owner = ElementRow {
        owner: Some("nope".to_string()),
        ..row
    };
    assert!(matches!(element_from_row(&bad_owner), Err(Error::CorruptStore { field: "id", .. })));
}

#[test]
fn relationship_and_comment_rows_read_back() {
    let a = ElementId::new();
    let b = ElementId::new();
    let r = relationship_from_row(&RelationshipRow {
        id: TEXT.to_string(),
        kind: "Dependency".to_string(),
        source: a.as_uuid().to_string(),
        target: b.as_uuid().to_string(),
        owner: a.as_uuid().to_string(),
    })
    .unwrap();
    assert_eq!(r.id, ElementId::from_u128(VALUE));
    assert_eq!(r.kind, "Dependency");
    assert_eq!((r.source, r.target, r.owner), (a, b, a));

    let c = comment_from_row(&CommentRow {
        id: TEXT.to_string(),
        owner: b.as_uuid().to_string(),
        body: "why".to_string(),
    })
    .unwrap();
    assert_eq!(c.owner, b);
    assert_eq!(c.body, "why");
}

#[test]
fn element_tables_reject_repeated_ids() {
    let row = || ElementRow {
        id: TEXT.to_string(),
        kind: "Package".to_string(),
        owner: None,
        name: None,
        visibility: "public".to_string(),
        is_model: true,
    };
    assert_eq!(read_element_rows(&vec![row()]).unwrap().len(), 1);
    assert!(matches!(read_element_rows(&vec![row(), row()]), Err(Error::CorruptStore { .. })));
}
