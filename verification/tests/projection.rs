//! The graph projection: write-through on every mutation, rebuildable from
//! the stored rows, and a model saved as rows and opened again keeps its
//! ownership tree and relationships.

use std::collections::BTreeSet;

use smith::rows::{CommentRow, ElementRow, RelationshipRow, StoreRows};
use smith::visibility::visibility_str;
use smith::{
    CreateElement, CreateRelationship, EdgeKind, ElementId, Error, MetaclassKind, Model, Projection,
    ProjectionEdge, Visibility,
};

fn fresh_model() -> Model {
    Model::new(smith::current_schema_version())
}

fn new_id() -> ElementId {
    ElementId::new()
}

fn create_root(model: &mut Model, name: &str) -> ElementId {
    let id = new_id();
    model.create_root(id, Some(name.to_string())).unwrap();
    id
}

fn create_of(model: &mut Model, kind: MetaclassKind, owner: ElementId, name: &str) -> ElementId {
    let id = new_id();
    model
        .create_element(&CreateElement {
            id,
            kind,
            name: Some(name.to_string()),
            owner: Some(owner),
            visibility: Visibility::Public,
        })
        .unwrap();
    id
}

fn create_pkg(model: &mut Model, owner: ElementId, name: &str) -> ElementId {
    create_of(model, MetaclassKind::Package, owner, name)
}

fn create_class(model: &mut Model, owner: ElementId, name: &str) -> ElementId {
    create_of(model, MetaclassKind::Class, owner, name)
}

/// root ─┬─ models ─┬─ Animal
///       │          └─ Dog
///       └─ views ──── DogView
/// plus Generalization Dog → Animal and Association Dog → DogView, both
/// owned by root.
fn build_three_class_hierarchy(model: &mut Model) -> (ElementId, ElementId, ElementId, ElementId, ElementId, ElementId) {
    let root = create_root(model, "root");
    let models = create_pkg(model, root, "models");
    let animal = create_class(model, models, "Animal");
    let dog = create_class(model, models, "Dog");
    let views = create_pkg(model, root, "views");
    let dog_view = create_class(model, views, "DogView");

    model
        .create_relationship(&CreateRelationship {
            id: new_id(),
            kind: "Generalization".to_string(),
            source: dog,
            target: animal,
            owner: root,
        })
        .unwrap();
    model
        .create_relationship(&CreateRelationship {
            id: new_id(),
            kind: "Association".to_string(),
            source: dog,
            target: dog_view,
            owner: root,
        })
        .unwrap();

    (root, models, animal, dog, views, dog_view)
}

fn projection_element_ids(proj: &Projection) -> BTreeSet<String> {
    proj.elements_sorted().iter().map(|n| n.id.as_uuid().to_string()).collect()
}

fn projection_edge_set(proj: &Projection) -> BTreeSet<(String, String, String)> {
    proj.edges_sorted()
        .iter()
        .map(|e| {
            let kind_str = match &e.kind {
                EdgeKind::Ownership => "ownership".to_string(),
                EdgeKind::Relationship { id, kind } => format!("rel:{kind}:{id:?}"),
            };
            (e.source.as_uuid().to_string(), e.target.as_uuid().to_string(), kind_str)
        })
        .collect()
}

fn element_rows(model: &Model) -> Vec<ElementRow> {
    model
        .projection()
        .elements_sorted()
        .into_iter()
        .map(|n| ElementRow {
            id: n.id.as_uuid().to_string(),
            kind: n.kind.as_str().to_string(),
            owner: n.owner.map(|o| o.as_uuid().to_string()),
            name: n.name.clone(),
            visibility: visibility_str(n.visibility).to_string(),
            is_model: model.is_model_package(n.id),
        })
        .collect()
}

fn relationship_rows(model: &Model) -> Vec<RelationshipRow> {
    model
        .projection()
        .edges_sorted()
        .into_iter()
        .filter_map(|e| match e.kind {
            EdgeKind::Ownership => None,
            EdgeKind::Relationship { id, kind } => Some(RelationshipRow {
                id: id.as_uuid().to_string(),
                kind,
                source: e.source.as_uuid().to_string(),
                target: e.target.as_uuid().to_string(),
                owner: model.get_relationship(id).unwrap().owner.as_uuid().to_string(),
            }),
        })
        .collect()
}

/// What a store of this model holds, as rows.
fn saved(model: &Model) -> StoreRows {
    StoreRows {
        schema_version: model.schema_version(),
        elements: element_rows(model),
        relationships: relationship_rows(model),
        comments: Vec::new(),
    }
}

#[test]
fn projection_rebuilds_from_sqlite_and_sqlite_wins_on_divergence() {
    let mut model = fresh_model();
    let (root, models, animal, dog, _views, dog_view) = build_three_class_hierarchy(&mut model);

    let before_ids = projection_element_ids(model.projection());
    let before_edges = projection_edge_set(model.projection());
    assert_eq!(before_ids.len(), 6, "6 elements in the projection");
    assert_eq!(before_edges.len(), 7, "7 edges in the projection");

    model.rebuild_projection().unwrap();

    assert_eq!(before_ids, projection_element_ids(model.projection()), "element ids must match after rebuild");
    assert_eq!(before_edges, projection_edge_set(model.projection()), "edges must match after rebuild");

    let proj = model.projection();
    assert!(proj.node(root).is_some(), "root must be in projection");
    assert!(proj.node(dog).is_some(), "dog must be in projection");
    assert!(proj.node(dog_view).is_some(), "dog_view must be in projection");
    assert_eq!(proj.node_count(), 6, "6 nodes after rebuild");
    assert_eq!(proj.edge_count(), 7, "7 edges after rebuild");

    assert_eq!(proj.node(models).map(|n| n.owner), Some(Some(root)), "models owned by root");
    assert_eq!(proj.node(animal).map(|n| n.owner), Some(Some(models)), "animal owned by models");
}

#[test]
fn stored_rows_win_over_a_diverged_projection() {
    let mut model = fresh_model();
    let (root, models, _animal, _dog, _views, _dog_view) = build_three_class_hierarchy(&mut model);
    let rows = saved(&model);

    let mut stale = Projection::hydrate(&Vec::new(), &Vec::new()).unwrap();
    assert_eq!(stale.node_count(), 0);
    stale.rebuild(&rows.elements, &rows.relationships).unwrap();
    assert_eq!(projection_edge_set(&stale), projection_edge_set(model.projection()));
    assert_eq!(stale.node(models).map(|n| n.owner), Some(Some(root)));

    let bad = vec![ElementRow {
        id: "not-a-uuid".to_string(),
        kind: "Package".to_string(),
        owner: None,
        name: None,
        visibility: "public".to_string(),
        is_model: false,
    }];
    let before = projection_edge_set(&stale);
    assert!(matches!(stale.rebuild(&bad, &Vec::new()), Err(Error::CorruptStore { field: "id", .. })));
    assert_eq!(projection_edge_set(&stale), before, "a failed rebuild leaves the projection as it was");
}

#[test]
fn projection_decoupled_from_store_rebuild_preserves_model() {
    let rows = {
        let mut model = fresh_model();
        build_three_class_hierarchy(&mut model);
        saved(&model)
    };
    let root = smith::rows::parse_id(&rows.elements.iter().find(|r| r.owner.is_none()).unwrap().id).unwrap();

    let mut model2 = Model::open(&rows).unwrap();
    assert!(model2.projection().node_count() > 0, "projection must have nodes after fresh open");

    let before = projection_edge_set(model2.projection());
    model2.rebuild_projection().unwrap();
    let after = projection_edge_set(model2.projection());
    assert_eq!(before, after, "rebuild from fresh connection must preserve the model");

    assert!(model2.projection().node(root).is_some(), "root must survive rebuild from fresh connection");
}

#[test]
fn round_trip_three_class_hierarchy_survives_close_reopen() {
    let (root, models, animal, dog, views, dog_view, before_ids, before_edges, rows) = {
        let mut model = fresh_model();
        let (r, m, ani, dg, vw, dvw) = build_three_class_hierarchy(&mut model);
        let ids = projection_element_ids(model.projection());
        let edges = projection_edge_set(model.projection());
        assert!(model.projection().ownership_is_acyclic(), "ownership tree must be acyclic");
        assert!(model.projection().ownership_is_connected(), "ownership tree must be connected");
        (r, m, ani, dg, vw, dvw, ids, edges, saved(&model))
    };

    let model2 = Model::open(&rows).unwrap();
    assert_eq!(before_ids, projection_element_ids(model2.projection()), "element ids must match after close + reopen");
    assert_eq!(before_edges, projection_edge_set(model2.projection()), "edges must match after close + reopen");

    assert!(model2.projection().ownership_is_acyclic(), "ownership tree must be acyclic after reopen");
    assert!(model2.projection().ownership_is_connected(), "ownership tree must be connected after reopen");
    assert!(model2.is_model_package(root));

    let proj = model2.projection();
    for id in [root, models, animal, dog, views, dog_view] {
        assert!(proj.node(id).is_some(), "{id:?} must survive reopen");
    }

    assert_eq!(proj.node(models).map(|n| n.owner), Some(Some(root)), "models owned by root");
    assert_eq!(proj.node(animal).map(|n| n.owner), Some(Some(models)), "animal owned by models");
    assert_eq!(proj.node(dog).map(|n| n.owner), Some(Some(models)), "dog owned by models");
    assert_eq!(proj.node(views).map(|n| n.owner), Some(Some(root)), "views owned by root");
    assert_eq!(proj.node(dog_view).map(|n| n.owner), Some(Some(views)), "dog_view owned by views");

    let edges = proj.edges_sorted();
    assert!(
        edges.iter().any(|e| e.source == dog
            && e.target == animal
            && matches!(&e.kind, EdgeKind::Relationship { kind, .. } if kind == "Generalization")),
        "Generalization edge (dog → animal) must exist"
    );
    assert!(
        edges.iter().any(|e| e.source == dog
            && e.target == dog_view
            && matches!(&e.kind, EdgeKind::Relationship { kind, .. } if kind == "Association")),
        "Association edge (dog → dog_view) must exist"
    );
    assert_eq!(model2.qualified_name(dog_view).unwrap(), "root/views/DogView");
}

#[test]
fn hydration_of_100k_elements_under_one_second() {
    let root = new_id();
    let mut elements = vec![ElementRow {
        id: root.as_uuid().to_string(),
        kind: "Package".to_string(),
        owner: None,
        name: Some("root".to_string()),
        visibility: "public".to_string(),
        is_model: true,
    }];
    for i in 0..100_000 {
        elements.push(ElementRow {
            id: ElementId::new().as_uuid().to_string(),
            kind: "Package".to_string(),
            owner: Some(root.as_uuid().to_string()),
            name: Some(format!("pkg{i}")),
            visibility: "public".to_string(),
            is_model: false,
        });
    }
    let rows = StoreRows {
        schema_version: 1,
        elements,
        relationships: Vec::new(),
        comments: Vec::new(),
    };

    let start = std::time::Instant::now();
    let model = Model::open(&rows).unwrap();
    let elapsed = start.elapsed();
    assert!(elapsed.as_secs_f64() < 1.0, "cold hydration of 100k elements took {elapsed:?}, must be < 1s");

    assert_eq!(model.projection().node_count(), 100_001, "100k elements + 1 root = 100,001 nodes");
    let ownership_count = model
        .projection()
        .edges_sorted()
        .iter()
        .filter(|e| matches!(e.kind, EdgeKind::Ownership))
        .count();
    assert_eq!(ownership_count, 100_000, "100,000 ownership edges expected");
    assert!(model.projection().ownership_is_acyclic(), "ownership tree must be acyclic after bulk hydrate");
    assert!(model.projection().ownership_is_connected(), "ownership tree must be connected after bulk hydrate");
}

#[test]
fn write_through_projection_matches_sqlite_after_mutations() {
    let mut model = fresh_model();
    let root = create_root(&mut model, "root");
    let a = create_pkg(&mut model, root, "a");
    let b = create_class(&mut model, a, "b");

    {
        let proj = model.projection();
        assert_eq!(proj.node_count(), 3, "3 nodes after 3 creates");
        assert_eq!(proj.edge_count(), 2, "2 ownership edges");

        let proj_b = proj.node(b).expect("b missing from projection");
        let stored_b = model.get_element(b).unwrap();
        assert_eq!(proj_b.id, stored_b.id);
        assert_eq!(proj_b.kind, stored_b.kind);
        assert_eq!(proj_b.owner, stored_b.owner);
        assert_eq!(proj_b.name, stored_b.name);
        assert_eq!(proj_b.visibility, stored_b.visibility);
    }

    model.rename_element(b, Some("renamed")).unwrap();
    assert_eq!(model.projection().node(b).unwrap().name.as_deref(), Some("renamed"));

    model.reparent_element(b, Some(root)).unwrap();
    assert_eq!(model.projection().node(b).unwrap().owner, Some(root), "b's owner must be root after reparent");
    assert!(model.projection().edges_sorted().contains(&ProjectionEdge {
        source: root,
        target: b,
        kind: EdgeKind::Ownership
    }));
    assert!(!model.projection().edges_sorted().contains(&ProjectionEdge {
        source: a,
        target: b,
        kind: EdgeKind::Ownership
    }));

    let rel_id = new_id();
    model
        .create_relationship(&CreateRelationship {
            id: rel_id,
            kind: "Association".to_string(),
            source: b,
            target: a,
            owner: root,
        })
        .unwrap();
    assert!(
        model.projection().edges_sorted().iter().any(|e| e.source == b
            && e.target == a
            && matches!(&e.kind, EdgeKind::Relationship { id, .. } if *id == rel_id)),
        "relationship edge must be in projection"
    );

    model.delete_relationship(rel_id).unwrap();
    assert!(
        !model
            .projection()
            .edges_sorted()
            .iter()
            .any(|e| matches!(&e.kind, EdgeKind::Relationship { id, .. } if *id == rel_id)),
        "relationship edge must be gone after delete"
    );

    model.delete_element(b).unwrap();
    assert!(model.projection().node(b).is_none(), "b must be gone from projection");
    assert_eq!(model.projection().node_count(), 2, "2 nodes after deleting b");
}

#[test]
fn ownership_invariant_acyclic_and_connected_holds() {
    let mut model = fresh_model();
    let root = create_root(&mut model, "root");
    let a = create_pkg(&mut model, root, "a");
    let _b = create_pkg(&mut model, a, "b");
    let c = create_pkg(&mut model, a, "c");

    assert!(model.projection().ownership_is_acyclic(), "ownership tree must be acyclic");
    assert!(model.projection().ownership_is_connected(), "ownership tree must be connected");

    model.reparent_element(c, Some(root)).unwrap();
    assert!(model.projection().ownership_is_acyclic(), "must be acyclic after reparent");
    assert!(model.projection().ownership_is_connected(), "must be connected after reparent");
}

#[test]
fn a_second_root_with_children_disconnects_ownership() {
    let mut model = fresh_model();
    let root = create_root(&mut model, "root");
    let _a = create_pkg(&mut model, root, "a");
    let c = create_pkg(&mut model, root, "c");
    let _d = create_pkg(&mut model, c, "d");
    assert!(model.projection().ownership_is_connected());

    model.reparent_element(c, None).unwrap();
    assert!(model.projection().ownership_is_acyclic());
    assert!(
        !model.projection().ownership_is_connected(),
        "two unowned owners (root and c) leave the ownership edges disconnected"
    );

    model.reparent_element(c, Some(root)).unwrap();
    assert!(model.projection().ownership_is_connected());
}

#[test]
fn two_roots_are_not_connected() {
    let r1 = new_id();
    let r2 = new_id();
    let row = |id: ElementId| ElementRow {
        id: id.as_uuid().to_string(),
        kind: "Package".to_string(),
        owner: None,
        name: None,
        visibility: "public".to_string(),
        is_model: false,
    };
    let proj = Projection::hydrate(&vec![row(r1), row(r2)], &Vec::new()).unwrap();
    assert!(proj.ownership_is_acyclic());
    assert!(!proj.ownership_is_connected());
    let empty = Projection::hydrate(&Vec::new(), &Vec::new()).unwrap();
    assert!(empty.ownership_is_connected());
}

#[test]
fn sorted_views_are_ordered_by_id() {
    let mut model = fresh_model();
    let (root, _m, _a, dog, _v, _dv) = build_three_class_hierarchy(&mut model);
    let nodes = model.projection().elements_sorted();
    assert_eq!(nodes.len(), 6);
    for w in nodes.windows(2) {
        assert!(w[0].id < w[1].id);
    }
    let edges = model.projection().edges_sorted();
    assert_eq!(edges.len(), 7);
    for w in edges.windows(2) {
        assert!((w[0].source, w[0].target) <= (w[1].source, w[1].target));
    }
    let from_dog: Vec<&ProjectionEdge> = edges.iter().filter(|e| e.source == dog).collect();
    assert_eq!(from_dog.len(), 2);
    assert!(edges.iter().filter(|e| e.source == root).all(|e| matches!(e.kind, EdgeKind::Ownership)));
}

#[test]
fn open_rejects_rows_that_do_not_form_a_model() {
    let a = new_id();
    let b = new_id();
    let elem = |id: ElementId, owner: Option<ElementId>| ElementRow {
        id: id.as_uuid().to_string(),
        kind: "Package".to_string(),
        owner: owner.map(|o| o.as_uuid().to_string()),
        name: None,
        visibility: "public".to_string(),
        is_model: false,
    };
    let cyclic = StoreRows {
        schema_version: 1,
        elements: vec![elem(a, Some(b)), elem(b, Some(a))],
        relationships: Vec::new(),
        comments: Vec::new(),
    };
    assert!(Model::open(&cyclic).is_err());

    let dangling = StoreRows {
        schema_version: 1,
        elements: vec![elem(a, None)],
        relationships: vec![RelationshipRow {
            id: new_id().as_uuid().to_string(),
            kind: "Association".to_string(),
            source: a.as_uuid().to_string(),
            target: b.as_uuid().to_string(),
            owner: a.as_uuid().to_string(),
        }],
        comments: Vec::new(),
    };
    assert!(Model::open(&dangling).is_err());

    let bad_kind = StoreRows {
        schema_version: 1,
        elements: vec![ElementRow {
            kind: "Gadget".to_string(),
            ..elem(a, None)
        }],
        relationships: Vec::new(),
        comments: Vec::new(),
    };
    assert!(matches!(Model::open(&bad_kind), Err(Error::CorruptStore { field: "kind", .. })));

    let duplicate = StoreRows {
        schema_version: 1,
        elements: vec![elem(a, None), elem(a, None)],
        relationships: Vec::new(),
        comments: Vec::new(),
    };
    assert!(matches!(Model::open(&duplicate), Err(Error::CorruptStore { .. })));

    let with_comment = StoreRows {
        schema_version: 3,
        elements: vec![elem(a, None)],
        relationships: Vec::new(),
        comments: vec![CommentRow {
            id: b.as_uuid().to_string(),
            owner: a.as_uuid().to_string(),
            body: "note".to_string(),
        }],
    };
    let model = Model::open(&with_comment).unwrap();
    assert_eq!(model.get_comment(b).unwrap().body, "note");
    assert_eq!(model.schema_version(), 3);
    assert!(!model.is_model_package(a));
}

#[test]
fn single_mutation_end_to_end_under_10ms() {
    let mut model = fresh_model();
    let root = create_root(&mut model, "root");
    let _pkg = create_pkg(&mut model, root, "warmup");

    let id = new_id();
    let start = std::time::Instant::now();
    model
        .create_element(&CreateElement {
            id,
            kind: MetaclassKind::Class,
            name: Some("bench".to_string()),
            owner: Some(root),
            visibility: Visibility::Public,
        })
        .unwrap();
    let elapsed = start.elapsed();

    assert!(elapsed.as_secs_f64() < 0.010, "single mutation took {elapsed:?}, must be < 10ms");
    assert!(model.projection().node(id).is_some(), "mutated element must be in the projection");
}
