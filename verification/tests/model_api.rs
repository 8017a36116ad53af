//! The model API: ownership-tree invariants, derived qualified names, the
//! project root, comments, relationships, and rejected mutations that leave
//! the model unchanged.

use smith::{CreateElement, CreateRelationship, ElementId, Error, MetaclassKind, Model, Visibility};

fn fresh_model() -> Model {
    Model::new(smith::current_schema_version())
}

fn new_id() -> ElementId {
    ElementId::new()
}

fn create_root(model: &mut Model, name: &str) -> ElementId {
    let id = new_id();
    model.create_root(id, Some(name.to_string())).unwrap();
    id
}

fn create_of(model: &mut Model, kind: MetaclassKind, owner: ElementId, name: &str) -> ElementId {
    let id = new_id();
    model
        .create_element(&CreateElement {
            id,
            kind,
            name: Some(name.to_string()),
            owner: Some(owner),
            visibility: Visibility::Public,
        })
        .unwrap();
    id
}

fn create_pkg(model: &mut Model, owner: ElementId, name: &str) -> ElementId {
    create_of(model, MetaclassKind::Package, owner, name)
}

fn create_class(model: &mut Model, owner: ElementId, name: &str) -> ElementId {
    create_of(model, MetaclassKind::Class, owner, name)
}

fn ancestor_ids(model: &Model, id: ElementId) -> Vec<ElementId> {
    model.ancestors(id).into_iter().map(|r| r.id).collect()
}

#[test]
fn owner_tree_is_acyclic_and_connected_after_mutations() {
    let mut model = fresh_model();
    let root = create_root(&mut model, "root");
    let a = create_pkg(&mut model, root, "a");
    let b = create_pkg(&mut model, a, "b");
    let c = create_pkg(&mut model, b, "c");

    assert_eq!(model.subtree(root).len(), 4);

    let root_view = model.get_element(root).unwrap();
    assert!(root_view.owner.is_none(), "root must have no owner");
    for id in [a, b, c] {
        let view = model.get_element(id).unwrap();
        assert!(view.owner.is_some(), "element {id:?} must have an owner");
    }

    model.reparent_element(b, Some(root)).unwrap();
    assert_eq!(model.get_element(b).unwrap().owner, Some(root));
    assert_eq!(model.get_element(c).unwrap().owner, Some(b));

    assert!(ancestor_ids(&model, c).contains(&root), "root must be an ancestor of c after reparent");
    assert!(model.projection().ownership_is_acyclic());
    assert!(model.projection().ownership_is_connected());
}

#[test]
fn reparent_into_own_subtree_is_rejected() {
    let mut model = fresh_model();
    let root = create_root(&mut model, "root");
    let a = create_pkg(&mut model, root, "a");
    let b = create_pkg(&mut model, a, "b");
    let c = create_pkg(&mut model, b, "c");

    let err = model.reparent_element(a, Some(c)).err().expect("reparent into own subtree should fail");
    assert!(
        matches!(err, Error::ReparentIntoOwnSubtree { element, new_owner } if element == a && new_owner == c),
        "expected ReparentIntoOwnSubtree, got {err:?}"
    );

    let err = model.reparent_element(a, Some(b)).err();
    assert!(matches!(err, Some(Error::ReparentIntoOwnSubtree { .. })), "reparent into own child should fail");

    let err = model.reparent_element(a, Some(a)).err();
    assert!(matches!(err, Some(Error::ReparentIntoOwnSubtree { .. })), "reparent into self should fail");

    assert_eq!(model.get_element(a).unwrap().owner, Some(root));
}

#[test]
fn reparent_to_a_missing_owner_or_of_a_missing_element_is_rejected() {
    let mut model = fresh_model();
    let root = create_root(&mut model, "root");
    let a = create_pkg(&mut model, root, "a");
    let ghost = new_id();
    assert_eq!(model.reparent_element(a, Some(ghost)), Err(Error::ElementNotFound { id: ghost }));
    assert_eq!(model.reparent_element(ghost, Some(a)), Err(Error::ElementNotFound { id: ghost }));
    assert_eq!(model.get_element(a).unwrap().owner, Some(root));
}

#[test]
fn qualified_name_is_derived_never_stored() {
    let mut model = fresh_model();
    let root = create_root(&mut model, "root");
    let a = create_pkg(&mut model, root, "a");
    let b = create_class(&mut model, a, "b");

    assert_eq!(model.qualified_name(b).unwrap(), "root/a/b");

    model.rename_element(a, Some("alpha")).unwrap();
    assert_eq!(model.qualified_name(b).unwrap(), "root/alpha/b");

    model.reparent_element(b, Some(root)).unwrap();
    assert_eq!(model.qualified_name(b).unwrap(), "root/b");
}

#[test]
fn qualified_name_of_unnamed_segment_is_empty() {
    let mut model = fresh_model();
    let root = create_root(&mut model, "root");
    let id = new_id();
    model
        .create_element(&CreateElement {
            id,
            kind: MetaclassKind::Package,
            name: None,
            owner: Some(root),
            visibility: Visibility::Public,
        })
        .unwrap();
    let c = create_class(&mut model, id, "c");
    assert_eq!(model.qualified_name(c).unwrap(), "root//c");
    let ghost = new_id();
    assert_eq!(model.qualified_name(ghost), Err(Error::ElementNotFound { id: ghost }));
}

#[test]
fn namespace_add_and_remove_set_and_unset_owner() {
    let mut model = fresh_model();
    let root = create_root(&mut model, "root");
    let a = create_pkg(&mut model, root, "a");

    assert_eq!(model.get_element(a).unwrap().owner, Some(root));

    let cls = create_class(&mut model, a, "cls");
    assert_eq!(model.get_element(cls).unwrap().owner, Some(a));

    model.delete_element(cls).unwrap();

    let err = model.get_element(cls).err();
    assert!(matches!(err, Some(Error::ElementNotFound { id }) if id == cls), "deleted element should be not found");
}

#[test]
fn project_root_is_model_package_exactly_one() {
    let mut model = fresh_model();

    assert!(model.root().is_none(), "no root before create");

    let root_id = new_id();
    let view = model.create_root(root_id, Some("model".to_string())).unwrap();
    assert_eq!(view.kind, MetaclassKind::Package);
    assert!(view.owner.is_none(), "root has no owner");
    assert!(model.is_model_package(root_id), "the root is the model package");

    let second = new_id();
    let err = model.create_root(second, Some("second".to_string())).err();
    assert!(matches!(err, Some(Error::RootAlreadyExists { existing }) if existing == root_id), "second root should be rejected");

    assert_eq!(model.root().map(|r| r.id), Some(root_id));
    let roots = model.subtree(root_id).len();
    assert_eq!(roots, 1);
}

#[test]
fn create_element_rejects_sub_element_kinds_and_reused_ids() {
    let mut model = fresh_model();
    let root = create_root(&mut model, "root");
    let port = CreateElement {
        id: new_id(),
        kind: MetaclassKind::Port,
        name: None,
        owner: Some(root),
        visibility: Visibility::Public,
    };
    assert_eq!(model.create_element(&port), Err(Error::NotTopLevelKind { kind: "Port".to_string() }));

    let dup = CreateElement {
        id: root,
        kind: MetaclassKind::Class,
        name: None,
        owner: Some(root),
        visibility: Visibility::Private,
    };
    assert_eq!(model.create_element(&dup), Err(Error::IdAlreadyExists { id: root }));

    let ghost = new_id();
    let orphan = CreateElement {
        id: new_id(),
        kind: MetaclassKind::Class,
        name: None,
        owner: Some(ghost),
        visibility: Visibility::Public,
    };
    assert_eq!(model.create_element(&orphan), Err(Error::ElementNotFound { id: ghost }));

    let second_root = CreateElement {
        id: new_id(),
        kind: MetaclassKind::Package,
        name: None,
        owner: None,
        visibility: Visibility::Public,
    };
    assert_eq!(model.create_element(&second_root), Err(Error::RootAlreadyExists { existing: root }));
}

#[test]
fn packages_nest_to_arbitrary_depth() {
    let mut model = fresh_model();
    let root = create_root(&mut model, "root");

    let mut current = root;
    let mut names = vec!["root".to_string()];
    for i in 1..=10 {
        let name = format!("p{i}");
        current = create_pkg(&mut model, current, &name);
        names.push(name);
    }

    assert_eq!(model.qualified_name(current).unwrap(), names.join("/"));

    let ancestors = model.ancestors(current);
    assert_eq!(ancestors.len(), 11);
    let root_depth = ancestors.iter().find(|r| r.id == root).map(|r| r.depth).expect("root not in ancestor chain");
    assert_eq!(root_depth, 10);
    assert_eq!(model.depth(root, current), Some(10));
    assert_eq!(model.depth(current, root), None);
}

#[test]
fn comment_requires_body_and_dies_with_owner() {
    let mut model = fresh_model();
    let root = create_root(&mut model, "root");
    let cls = create_class(&mut model, root, "cls");

    let cid = new_id();
    let err = model.create_comment(cid, cls, "   ").err();
    assert!(matches!(err, Some(Error::EmptyCommentBody)), "empty body should be rejected");

    let cid2 = new_id();
    let view = model.create_comment(cid2, cls, "a note").unwrap();
    assert_eq!(view.body, "a note");
    assert_eq!(view.owner, cls);
    assert_eq!(model.get_comment(cid2).unwrap().body, "a note");

    model.delete_element(cls).unwrap();

    let err = model.get_comment(cid2).err();
    assert!(matches!(err, Some(Error::ElementNotFound { id }) if id == cid2), "comment should be deleted with its owner");
}

#[test]
fn relationship_endpoints_must_exist() {
    let mut model = fresh_model();
    let root = create_root(&mut model, "root");
    let a = create_class(&mut model, root, "a");
    let ghost = new_id();

    let rid = new_id();
    let err = model
        .create_relationship(&CreateRelationship {
            id: rid,
            kind: "Association".to_string(),
            source: ghost,
            target: a,
            owner: root,
        })
        .err();
    assert!(
        matches!(err, Some(Error::RelationshipEndpointNotFound { endpoint, .. }) if endpoint == ghost),
        "non-existent source should be rejected"
    );

    let err = model
        .create_relationship(&CreateRelationship {
            id: new_id(),
            kind: "Association".to_string(),
            source: a,
            target: ghost,
            owner: root,
        })
        .err();
    assert!(
        matches!(err, Some(Error::RelationshipEndpointNotFound { endpoint, .. }) if endpoint == ghost),
        "non-existent target should be rejected"
    );

    let rid2 = new_id();
    let view = model
        .create_relationship(&CreateRelationship {
            id: rid2,
            kind: "Association".to_string(),
            source: a,
            target: a,
            owner: root,
        })
        .unwrap();
    assert_eq!(view.source, a);
    assert_eq!(view.target, a);
    assert_eq!(model.get_relationship(rid2).unwrap(), view);
    assert_eq!(model.get_relationship(rid), Err(Error::RelationshipNotFound { id: rid }));
}

#[test]
fn qualified_name_derivation_terminates() {
    let mut model = fresh_model();
    let root = create_root(&mut model, "root");
    let a = create_pkg(&mut model, root, "a");
    let b = create_pkg(&mut model, a, "b");

    assert_eq!(model.qualified_name(b).unwrap(), "root/a/b");

    model.reparent_element(b, Some(root)).unwrap();
    assert_eq!(model.qualified_name(b).unwrap(), "root/b");

    assert_eq!(model.qualified_name(root).unwrap(), "root");
}

#[test]
fn failed_transaction_leaves_store_and_state_unchanged() {
    let mut model = fresh_model();
    let root = create_root(&mut model, "root");
    let a = create_pkg(&mut model, root, "a");
    let b = create_class(&mut model, a, "b");

    assert!(model.reparent_element(a, Some(b)).is_err(), "cyclic reparent must fail");

    assert_eq!(model.get_element(a).unwrap().owner, Some(root));
    assert_eq!(model.get_element(b).unwrap().owner, Some(a));

    assert_eq!(ancestor_ids(&model, a), vec![a, root]);

    let ghost = new_id();
    assert!(model
        .create_relationship(&CreateRelationship {
            id: new_id(),
            kind: "Association".to_string(),
            source: ghost,
            target: b,
            owner: root,
        })
        .is_err());
    assert_eq!(model.projection().edge_count(), 2, "only the two ownership edges remain");
}

#[test]
fn delete_element_referenced_by_relationship_is_rejected() {
    let mut model = fresh_model();
    let root = create_root(&mut model, "root");
    let a = create_class(&mut model, root, "a");
    let b = create_class(&mut model, root, "b");

    let rid = new_id();
    model
        .create_relationship(&CreateRelationship {
            id: rid,
            kind: "Association".to_string(),
            source: a,
            target: b,
            owner: root,
        })
        .unwrap();

    let err = model.delete_element(a).err();
    assert!(
        matches!(err, Some(Error::ElementReferencedByRelationship { element, relationship }) if element == a && relationship == rid),
        "deleting referenced element should be rejected, got {err:?}"
    );

    let err = model.delete_element(b).err();
    assert!(matches!(err, Some(Error::ElementReferencedByRelationship { .. })), "deleting target element should be rejected");

    assert!(model.get_element(a).is_ok());
    assert!(model.get_element(b).is_ok());

    model.delete_relationship(rid).unwrap();
    model.delete_element(b).unwrap();
    model.delete_element(a).unwrap();
    model.delete_element(root).unwrap();
    assert!(model.root().is_none());
}

#[test]
fn delete_element_with_children_is_rejected() {
    let mut model = fresh_model();
    let root = create_root(&mut model, "root");
    let a = create_pkg(&mut model, root, "a");
    let b = create_class(&mut model, a, "b");

    let err = model.delete_element(a).err();
    assert!(
        matches!(err, Some(Error::ElementHasChildren { element, count }) if element == a && count == 1),
        "deleting element with children should be rejected, got {err:?}"
    );

    model.delete_element(b).unwrap();
    model.delete_element(a).unwrap();
}

#[test]
fn delete_of_a_missing_element_or_relationship_is_not_found() {
    let mut model = fresh_model();
    let ghost = new_id();
    assert_eq!(model.delete_element(ghost), Err(Error::ElementNotFound { id: ghost }));
    assert_eq!(model.delete_relationship(ghost), Err(Error::RelationshipNotFound { id: ghost }));
    assert_eq!(model.rename_element(ghost, Some("x")), Err(Error::ElementNotFound { id: ghost }));
}

#[test]
fn schema_version_is_the_one_the_model_was_opened_at() {
    let model = Model::new(7);
    assert_eq!(model.schema_version(), 7);
}
