//! Ownership closure reads: ancestor chains, subtrees and depths follow
//! every create, reparent and delete.

use smith::closure::ClosureRow;
use smith::{CreateElement, ElementId, MetaclassKind, Model, Visibility};

fn fresh_model() -> Model {
    Model::new(1)
}

fn pkg(model: &mut Model, owner: ElementId) -> ElementId {
    let id = ElementId::new();
    model
        .create_element(&CreateElement {
            id,
            kind: MetaclassKind::Package,
            name: None,
            owner: Some(owner),
            visibility: Visibility::Public,
        })
        .unwrap();
    id
}

fn root(model: &mut Model) -> ElementId {
    let id = ElementId::new();
    model.create_root(id, None).unwrap();
    id
}

fn pairs(rows: Vec<ClosureRow>) -> Vec<(ElementId, usize)> {
    rows.into_iter().map(|r| (r.id, r.depth)).collect()
}

#[test]
fn closure_create_inserts_ancestor_chain_and_self_row() {
    let mut model = fresh_model();
    let r = root(&mut model);
    let a = pkg(&mut model, r);
    let b = pkg(&mut model, a);
    let c = pkg(&mut model, b);

    assert_eq!(pairs(model.ancestors(c)), vec![(c, 0), (b, 1), (a, 2), (r, 3)]);
    assert_eq!(pairs(model.subtree(r)), vec![(r, 0), (a, 1), (b, 2), (c, 3)]);

    assert_eq!(model.depth(r, c), Some(3));
    assert_eq!(model.depth(a, c), Some(2));
    assert_eq!(model.depth(c, c), Some(0));
    assert_eq!(model.depth(c, r), None);

    let rows: usize = [r, a, b, c].iter().map(|&x| model.subtree(x).len()).sum();
    assert_eq!(rows, 10, "the full triangle for four nodes, self rows included");
}

#[test]
fn closure_reparent_moves_subtree_rows_via_cross_product() {
    let mut model = fresh_model();
    let root1 = root(&mut model);
    let a = pkg(&mut model, root1);
    let b = pkg(&mut model, a);
    let root2 = pkg(&mut model, root1);
    model.reparent_element(root2, None).unwrap();

    model.reparent_element(a, Some(root2)).unwrap();

    assert_eq!(pairs(model.ancestors(a)), vec![(a, 0), (root2, 1)]);
    assert_eq!(pairs(model.ancestors(b)), vec![(b, 0), (a, 1), (root2, 2)]);
    assert_eq!(pairs(model.subtree(root1)), vec![(root1, 0)]);
    assert_eq!(pairs(model.subtree(root2)), vec![(root2, 0), (a, 1), (b, 2)]);
    assert_eq!(model.depth(root1, a), None);
    assert_eq!(model.depth(root1, b), None);
}

#[test]
fn closure_reparent_deep_subtree_keeps_internal_rows_intact() {
    let mut model = fresh_model();
    let r = root(&mut model);
    let left = pkg(&mut model, r);
    let right = pkg(&mut model, r);
    let x = pkg(&mut model, left);
    let y = pkg(&mut model, x);
    let z = pkg(&mut model, x);
    let w = pkg(&mut model, y);

    let before = pairs(model.subtree(x));
    model.reparent_element(x, Some(right)).unwrap();
    assert_eq!(pairs(model.subtree(x)), before, "internal subtree rows unchanged by the move");
    assert_eq!(model.depth(r, w), Some(4));
    assert_eq!(model.depth(right, z), Some(2));
    assert_eq!(model.depth(left, y), None);
}

#[test]
fn closure_delete_cascades_rows_for_subtree() {
    let mut model = fresh_model();
    let r = root(&mut model);
    let a = pkg(&mut model, r);
    let b = pkg(&mut model, a);
    let c = pkg(&mut model, b);

    model.delete_element(c).unwrap();
    model.delete_element(b).unwrap();
    model.delete_element(a).unwrap();

    for gone in [a, b, c] {
        assert!(model.ancestors(gone).is_empty());
        assert!(model.subtree(gone).is_empty());
        assert_eq!(model.depth(r, gone), None);
    }
    assert_eq!(pairs(model.subtree(r)), vec![(r, 0)]);
}

#[test]
fn closure_maintenance_is_atomic_with_owner_mutation() {
    let mut model = fresh_model();
    let r = root(&mut model);
    let a = pkg(&mut model, r);
    let b = pkg(&mut model, a);
    assert!(model.reparent_element(a, Some(b)).is_err());
    assert_eq!(pairs(model.ancestors(b)), vec![(b, 0), (a, 1), (r, 2)]);
    assert_eq!(pairs(model.subtree(a)), vec![(a, 0), (b, 1)]);
}
