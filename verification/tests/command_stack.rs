//! The undo/redo command stack: deltas replayed through the model API,
//! bounded depth, actor tags, batches.

use smith::command::{
    Actor, BatchCommand, Command, CommandStack, CreateElementCommand, CreateRelationshipCommand,
    DeleteElementCommand, DeleteRelationshipCommand, RenameElementCommand, ReparentElementCommand,
};
use smith::{CreateElement, CreateRelationship, ElementId, Error, MetaclassKind, Model, Visibility};

fn fresh_model() -> Model {
    Model::new(smith::current_schema_version())
}

fn new_id() -> ElementId {
    ElementId::new()
}

fn create_root(model: &mut Model, name: &str) -> ElementId {
    let id = new_id();
    model.create_root(id, Some(name.to_string())).unwrap();
    id
}

fn class_req(id: ElementId, owner: ElementId, name: &str) -> CreateElement {
    CreateElement {
        id,
        kind: MetaclassKind::Class,
        name: Some(name.to_string()),
        owner: Some(owner),
        visibility: Visibility::Public,
    }
}

fn pkg_req(id: ElementId, owner: ElementId, name: &str) -> CreateElement {
    CreateElement {
        id,
        kind: MetaclassKind::Package,
        name: Some(name.to_string()),
        owner: Some(owner),
        visibility: Visibility::Public,
    }
}

#[test]
fn command_records_do_and_undo_deltas_and_undo_reverses() {
    let mut model = fresh_model();
    let root = create_root(&mut model, "root");
    let mut stack = CommandStack::new();

    let a = new_id();
    stack
        .execute(&mut model, Box::new(CreateElementCommand::new(class_req(a, root, "a"))))
        .unwrap();
    let view = model.get_element(a).unwrap();
    assert_eq!(view.name.as_deref(), Some("a"));
    assert_eq!(view.owner, Some(root));

    stack.undo(&mut model).unwrap();
    assert!(model.get_element(a).is_err(), "undo of create must delete the element");

    stack.redo(&mut model).unwrap();
    let view = model.get_element(a).unwrap();
    assert_eq!(view.name.as_deref(), Some("a"));
    assert_eq!(view.owner, Some(root));

    stack
        .execute(&mut model, Box::new(RenameElementCommand::new(a, Some("renamed".to_string()))))
        .unwrap();
    assert_eq!(model.get_element(a).unwrap().name.as_deref(), Some("renamed"));

    stack.undo(&mut model).unwrap();
    assert_eq!(model.get_element(a).unwrap().name.as_deref(), Some("a"));

    stack.redo(&mut model).unwrap();
    assert_eq!(model.get_element(a).unwrap().name.as_deref(), Some("renamed"));

    let b = new_id();
    stack
        .execute(&mut model, Box::new(CreateElementCommand::new(pkg_req(b, root, "b"))))
        .unwrap();
    stack.execute(&mut model, Box::new(ReparentElementCommand::new(a, Some(b)))).unwrap();
    assert_eq!(model.get_element(a).unwrap().owner, Some(b));

    stack.undo(&mut model).unwrap();
    assert_eq!(model.get_element(a).unwrap().owner, Some(root));

    stack.redo(&mut model).unwrap();
    assert_eq!(model.get_element(a).unwrap().owner, Some(b));

    stack.execute(&mut model, Box::new(ReparentElementCommand::new(a, Some(root)))).unwrap();
    stack.execute(&mut model, Box::new(DeleteElementCommand::new(b))).unwrap();

    stack.execute(&mut model, Box::new(DeleteElementCommand::new(a))).unwrap();
    assert!(model.get_element(a).is_err(), "delete must remove the element");

    stack.undo(&mut model).unwrap();
    let view = model.get_element(a).unwrap();
    assert_eq!(view.name.as_deref(), Some("renamed"));
    assert_eq!(view.kind, MetaclassKind::Class);
    assert_eq!(view.owner, Some(root));
    assert_eq!(view.visibility, Visibility::Public);
}

#[test]
fn stack_evicts_oldest_beyond_depth_200() {
    let mut model = fresh_model();
    let root = create_root(&mut model, "root");
    let mut stack = CommandStack::new();

    let first = new_id();
    stack
        .execute(&mut model, Box::new(CreateElementCommand::new(class_req(first, root, "first"))))
        .unwrap();

    for _ in 0..200 {
        let id = new_id();
        stack
            .execute(&mut model, Box::new(CreateElementCommand::new(class_req(id, root, "x"))))
            .unwrap();
    }

    assert_eq!(stack.len(), 200, "stack must cap at depth 200");

    for _ in 0..200 {
        stack.undo(&mut model).unwrap();
    }
    assert!(!stack.can_undo(), "undo stack must be empty after 200 undos");

    assert!(
        model.get_element(first).is_ok(),
        "evicted command's undo is gone; the first element must still exist"
    );
}

#[test]
fn custom_depth_bounds_the_stack() {
    let mut model = fresh_model();
    let root = create_root(&mut model, "root");
    let mut stack = CommandStack::with_depth(2);
    for _ in 0..5 {
        let id = new_id();
        stack
            .execute(&mut model, Box::new(CreateElementCommand::new(class_req(id, root, "x"))))
            .unwrap();
    }
    assert_eq!(stack.len(), 2);
    assert!(!stack.is_empty());
    stack.undo(&mut model).unwrap();
    stack.undo(&mut model).unwrap();
    assert!(stack.is_empty());
    assert_eq!(stack.undo(&mut model), Err(Error::UndoStackEmpty));
}

#[test]
fn zero_depth_stack_executes_and_keeps_nothing() {
    let mut model = fresh_model();
    let root = create_root(&mut model, "root");
    let mut stack = CommandStack::with_depth(0);
    let a = new_id();
    assert_eq!(
        stack.execute(&mut model, Box::new(CreateElementCommand::new(class_req(a, root, "a")))),
        Ok(())
    );
    assert!(model.get_element(a).is_ok(), "the forward delta still runs");
    assert_eq!(stack.len(), 0, "a stack of depth 0 keeps no entry");
    assert!(!stack.can_undo());
    assert!(!stack.can_redo());
    assert_eq!(stack.undo(&mut model), Err(Error::UndoStackEmpty));
}

#[test]
fn commands_are_tagged_with_actor() {
    let mut model = fresh_model();
    let root = create_root(&mut model, "root");
    let mut stack = CommandStack::new();

    let id_ui = new_id();
    stack
        .execute(
            &mut model,
            Box::new(CreateElementCommand::with_actor(class_req(id_ui, root, "ui-created"), Actor::Ui)),
        )
        .unwrap();

    let id_sess = new_id();
    stack
        .execute(
            &mut model,
            Box::new(CreateElementCommand::with_actor(
                class_req(id_sess, root, "session-created"),
                Actor::Session("s1".to_string()),
            )),
        )
        .unwrap();

    let actors = stack.undo_actors();
    assert_eq!(actors.len(), 2);
    assert_eq!(actors[0], Actor::Ui);
    assert_eq!(actors[1], Actor::Session("s1".to_string()));

    stack.undo(&mut model).unwrap();
    let redo_actors = stack.redo_actors();
    assert_eq!(redo_actors.len(), 1);
    assert_eq!(redo_actors[0], Actor::Session("s1".to_string()));
}

#[test]
fn actor_text_names_ui_or_session() {
    assert_eq!(Actor::Ui.as_str(), "ui");
    assert_eq!(Actor::Session("abc".to_string()).as_str(), "session:abc");
}

#[test]
fn batch_command_undoes_as_one_unit() {
    let mut model = fresh_model();
    let root = create_root(&mut model, "root");
    let mut stack = CommandStack::new();

    let ids: Vec<ElementId> = (0..3).map(|_| new_id()).collect();
    let sub_commands: Vec<Box<dyn Command>> = ids
        .iter()
        .map(|&id| Box::new(CreateElementCommand::new(class_req(id, root, "batched"))) as Box<dyn Command>)
        .collect();

    stack.execute(&mut model, Box::new(BatchCommand::new(sub_commands, Actor::Ui))).unwrap();

    for &id in &ids {
        assert!(model.get_element(id).is_ok(), "batched element must exist");
    }

    assert_eq!(stack.len(), 1, "batch must be one undo unit");

    stack.undo(&mut model).unwrap();
    assert!(!stack.can_undo(), "undo stack empty after batch undo");

    for &id in &ids {
        assert!(model.get_element(id).is_err(), "all batched elements must be gone after one undo");
    }

    stack.redo(&mut model).unwrap();
    for &id in &ids {
        assert!(model.get_element(id).is_ok(), "all batched elements re-created after redo");
    }
}

#[test]
fn undo_revalidates_invariants_and_rejects_violation_with_error() {
    let mut model = fresh_model();
    let root = create_root(&mut model, "root");
    let mut stack = CommandStack::new();

    let a = new_id();
    stack
        .execute(&mut model, Box::new(CreateElementCommand::new(class_req(a, root, "a"))))
        .unwrap();

    let b = new_id();
    model.create_element(&class_req(b, a, "b")).unwrap();

    let err = stack.undo(&mut model).err().expect("undo should have failed");
    assert!(
        matches!(err, Error::ElementHasChildren { element, count } if element == a && count == 1),
        "undo should reject with ElementHasChildren, got {err:?}"
    );

    assert_eq!(stack.len(), 1, "command stays on undo stack after rejection");

    assert!(model.get_element(a).is_ok(), "element must still exist after rejected undo");
}

#[test]
fn redo_replays_forward_delta() {
    let mut model = fresh_model();
    let root = create_root(&mut model, "root");
    let mut stack = CommandStack::new();

    let a = new_id();
    stack
        .execute(&mut model, Box::new(CreateElementCommand::new(class_req(a, root, "a"))))
        .unwrap();
    assert!(model.get_element(a).is_ok());

    stack.undo(&mut model).unwrap();
    assert!(model.get_element(a).is_err(), "undo must remove the element");
    assert!(!stack.can_undo());
    assert!(stack.can_redo());

    stack.redo(&mut model).unwrap();
    assert!(model.get_element(a).is_ok(), "redo must re-create the element");
    assert!(stack.can_undo());
    assert!(!stack.can_redo());

    let view = model.get_element(a).unwrap();
    assert_eq!(view.name.as_deref(), Some("a"));
    assert_eq!(view.owner, Some(root));
    assert_eq!(view.kind, MetaclassKind::Class);
    assert_eq!(view.visibility, Visibility::Public);
}

#[test]
fn redo_with_nothing_undone_is_an_error() {
    let mut model = fresh_model();
    let mut stack = CommandStack::new();
    assert_eq!(stack.redo(&mut model), Err(Error::RedoStackEmpty));
}

#[test]
fn rename_unnamed_element_undo_restores_none() {
    let mut model = fresh_model();
    let root = create_root(&mut model, "root");
    let mut stack = CommandStack::new();

    let a = new_id();
    let mut req = class_req(a, root, "a");
    req.name = None;
    stack.execute(&mut model, Box::new(CreateElementCommand::new(req))).unwrap();
    assert_eq!(model.get_element(a).unwrap().name.as_deref(), None::<&str>);

    stack
        .execute(&mut model, Box::new(RenameElementCommand::new(a, Some("x".to_string()))))
        .unwrap();
    assert_eq!(model.get_element(a).unwrap().name.as_deref(), Some("x"));

    stack.undo(&mut model).unwrap();
    assert_eq!(
        model.get_element(a).unwrap().name.as_deref(),
        None::<&str>,
        "undo of a rename on an unnamed element must restore name to None"
    );

    stack.redo(&mut model).unwrap();
    assert_eq!(model.get_element(a).unwrap().name.as_deref(), Some("x"));
}

#[test]
fn undo_before_do_is_rejected() {
    let mut model = fresh_model();
    let root = create_root(&mut model, "root");
    let mut rename = RenameElementCommand::new(root, Some("x".to_string()));
    assert!(matches!(rename.undo(&mut model), Err(Error::CannotUndoRedoBeforeDo { .. })));
    let mut delete = DeleteElementCommand::new(root);
    assert!(matches!(delete.undo(&mut model), Err(Error::CannotUndoRedoBeforeDo { .. })));
    let mut delete_rel = DeleteRelationshipCommand::new(root);
    assert!(matches!(delete_rel.undo(&mut model), Err(Error::CannotUndoRedoBeforeDo { .. })));
    assert_eq!(model.get_element(root).unwrap().name.as_deref(), Some("root"));
}

#[test]
fn relationship_commands_undo_and_redo() {
    let mut model = fresh_model();
    let root = create_root(&mut model, "root");
    let a = new_id();
    let b = new_id();
    model.create_element(&class_req(a, root, "a")).unwrap();
    model.create_element(&class_req(b, root, "b")).unwrap();
    let mut stack = CommandStack::new();

    let r = new_id();
    let req = CreateRelationship {
        id: r,
        kind: "Association".to_string(),
        source: a,
        target: b,
        owner: root,
    };
    stack.execute(&mut model, Box::new(CreateRelationshipCommand::new(req))).unwrap();
    assert_eq!(model.get_relationship(r).unwrap().source, a);

    stack.undo(&mut model).unwrap();
    assert!(model.get_relationship(r).is_err());
    stack.redo(&mut model).unwrap();
    assert!(model.get_relationship(r).is_ok());

    stack.execute(&mut model, Box::new(DeleteRelationshipCommand::new(r))).unwrap();
    assert!(model.get_relationship(r).is_err());
    stack.undo(&mut model).unwrap();
    let back = model.get_relationship(r).unwrap();
    assert_eq!(back.kind, "Association");
    assert_eq!(back.source, a);
    assert_eq!(back.target, b);
    assert_eq!(back.owner, root);
}

#[test]
fn command_labels_name_the_operation() {
    let id = new_id();
    assert_eq!(DeleteElementCommand::new(id).label(), "delete element");
    assert_eq!(RenameElementCommand::new(id, None).label(), "rename element");
    assert_eq!(ReparentElementCommand::new(id, None).label(), "reparent element");
    assert_eq!(DeleteElementCommand::with_actor(id, Actor::Session("m".to_string())).actor(), Actor::Session("m".to_string()));
}

struct FailingRedoCommand {
    actor: Actor,
}

impl Command for FailingRedoCommand {
    fn spec_actor(&self) -> Actor {
        self.actor.clone()
    }

    fn redo_gives(&self, _before: Model, _after: Model, _r: Result<(), Error>) -> bool {
        true
    }

    fn undo_gives(&self, _before: Model, _after: Model, _r: Result<(), Error>) -> bool {
        true
    }

    fn undoable_from(&self, _before: Model) -> bool {
        false
    }

    fn redoable_from(&self, _before: Model) -> bool {
        false
    }

    fn redo(&mut self, _model: &mut Model) -> Result<(), Error> {
        Err(Error::ElementNotFound { id: ElementId::new() })
    }

    fn undo(&mut self, _model: &mut Model) -> Result<(), Error> {
        Ok(())
    }

    fn label(&self) -> &'static str {
        "failing redo"
    }

    fn actor(&self) -> Actor {
        self.actor.clone()
    }
}

struct FailingUndoCommand {
    id: ElementId,
    owner: ElementId,
    actor: Actor,
}

impl Command for FailingUndoCommand {
    fn spec_actor(&self) -> Actor {
        self.actor.clone()
    }

    fn redo_gives(&self, _before: Model, _after: Model, _r: Result<(), Error>) -> bool {
        true
    }

    fn undo_gives(&self, _before: Model, _after: Model, _r: Result<(), Error>) -> bool {
        true
    }

    fn undoable_from(&self, _before: Model) -> bool {
        false
    }

    fn redoable_from(&self, _before: Model) -> bool {
        false
    }

    fn redo(&mut self, model: &mut Model) -> Result<(), Error> {
        model.create_element(&class_req(self.id, self.owner, "sabotage"))?;
        Ok(())
    }

    fn undo(&mut self, _model: &mut Model) -> Result<(), Error> {
        Err(Error::ElementNotFound { id: ElementId::new() })
    }

    fn label(&self) -> &'static str {
        "failing undo"
    }

    fn actor(&self) -> Actor {
        self.actor.clone()
    }
}

#[test]
fn batch_mid_failure_rolls_back_in_reverse_and_is_not_pushed() {
    let mut model = fresh_model();
    let root = create_root(&mut model, "root");
    let mut stack = CommandStack::new();

    let a = new_id();
    let b = new_id();
    let ghost = new_id();
    let sub_commands: Vec<Box<dyn Command>> = vec![
        Box::new(CreateElementCommand::new(class_req(a, root, "a"))),
        Box::new(CreateElementCommand::new(class_req(b, a, "b"))),
        Box::new(DeleteElementCommand::new(ghost)),
    ];

    let err = stack
        .execute(&mut model, Box::new(BatchCommand::new(sub_commands, Actor::Ui)))
        .err()
        .expect("batch execute should have failed");
    assert!(
        matches!(err, Error::ElementNotFound { id } if id == ghost),
        "batch should fail with ElementNotFound for the ghost, got {err:?}"
    );

    assert_eq!(stack.len(), 0, "failed batch must not be on the undo stack");

    assert!(model.get_element(b).is_err(), "rollback must delete B (created second) before A");
    assert!(model.get_element(a).is_err(), "rollback must delete A after B");
}

#[test]
fn batch_rollback_failure_surfaces_batch_rollback_failed() {
    let mut model = fresh_model();
    let root = create_root(&mut model, "root");
    let mut stack = CommandStack::new();

    let x = new_id();
    let sub_commands: Vec<Box<dyn Command>> = vec![
        Box::new(FailingUndoCommand {
            id: x,
            owner: root,
            actor: Actor::Ui,
        }),
        Box::new(FailingRedoCommand { actor: Actor::Ui }),
    ];

    let err = stack
        .execute(&mut model, Box::new(BatchCommand::new(sub_commands, Actor::Ui)))
        .err()
        .expect("batch execute should have failed");
    assert!(
        matches!(err, Error::BatchRollbackFailed { .. }),
        "batch should surface BatchRollbackFailed when rollback fails, got {err:?}"
    );
    if let Error::BatchRollbackFailed { reason } = &err {
        assert!(reason.starts_with("batch redo failed at index 1 ("), "{reason}");
        assert!(
            reason.ends_with(") and rollback of index 0 also failed; model may be inconsistent"),
            "{reason}"
        );
    }

    assert_eq!(stack.len(), 0, "failed batch must not be on the undo stack");

    assert!(
        model.get_element(x).is_ok(),
        "X created by the failing-undo command survives a failed rollback"
    );
}

#[test]
fn delete_root_undo_restores_is_model_true() {
    let mut model = fresh_model();
    let root = create_root(&mut model, "root");
    let mut stack = CommandStack::new();

    assert!(model.is_model_package(root), "root must be the model package before delete");

    stack.execute(&mut model, Box::new(DeleteElementCommand::new(root))).unwrap();
    assert!(model.get_element(root).is_err(), "delete must remove the root");
    assert!(!model.is_model_package(root));

    stack.undo(&mut model).unwrap();
    let view = model.get_element(root).unwrap();
    assert_eq!(view.owner, None::<ElementId>, "restored root must have no owner");
    assert_eq!(view.kind, MetaclassKind::Package);

    assert!(model.is_model_package(root), "undo must restore the model-package marker");
}

/// A sub-command whose forward delta succeeds the first time only; its
/// inverse delta always succeeds and changes nothing.
struct OnceRedoCommand {
    runs: u32,
    actor: Actor,
}

impl Command for OnceRedoCommand {
    fn spec_actor(&self) -> Actor {
        self.actor.clone()
    }

    fn redo_gives(&self, _before: Model, _after: Model, _r: Result<(), Error>) -> bool {
        true
    }

    fn undo_gives(&self, _before: Model, _after: Model, _r: Result<(), Error>) -> bool {
        true
    }

    fn undoable_from(&self, _before: Model) -> bool {
        false
    }

    fn redoable_from(&self, _before: Model) -> bool {
        false
    }

    fn redo(&mut self, _model: &mut Model) -> Result<(), Error> {
        self.runs += 1;
        if self.runs > 1 {
            Err(Error::RedoStackEmpty)
        } else {
            Ok(())
        }
    }

    fn undo(&mut self, _model: &mut Model) -> Result<(), Error> {
        Ok(())
    }

    fn label(&self) -> &'static str {
        "once"
    }

    fn actor(&self) -> Actor {
        self.actor.clone()
    }
}

#[test]
fn batch_undo_failure_reapplies_the_undone_sub_commands() {
    let mut model = fresh_model();
    let root = create_root(&mut model, "root");
    let mut stack = CommandStack::new();

    let x = new_id();
    let a = new_id();
    let b = new_id();
    let sub_commands: Vec<Box<dyn Command>> = vec![
        Box::new(FailingUndoCommand {
            id: x,
            owner: root,
            actor: Actor::Ui,
        }),
        Box::new(CreateElementCommand::new(class_req(a, root, "a"))),
        Box::new(CreateElementCommand::new(class_req(b, a, "b"))),
    ];
    stack
        .execute(&mut model, Box::new(BatchCommand::new(sub_commands, Actor::Ui)))
        .unwrap();
    assert_eq!(stack.len(), 1);

    let err = stack.undo(&mut model).err().expect("batch undo should have failed");
    assert!(
        matches!(err, Error::ElementNotFound { .. }),
        "the failing sub-command's error comes back, got {err:?}"
    );
    assert!(model.get_element(x).is_ok(), "X was never undone");
    assert!(model.get_element(a).is_ok(), "A is re-applied after its undo");
    assert_eq!(model.get_element(b).unwrap().owner, Some(a), "B is re-applied under A");
    assert_eq!(stack.len(), 1, "the batch stays on the undo stack");
    assert!(!stack.can_redo());
}

#[test]
fn batch_undo_roll_forward_failure_surfaces_batch_rollback_failed() {
    let mut model = fresh_model();
    let root = create_root(&mut model, "root");
    let mut stack = CommandStack::new();

    let x = new_id();
    let sub_commands: Vec<Box<dyn Command>> = vec![
        Box::new(FailingUndoCommand {
            id: x,
            owner: root,
            actor: Actor::Ui,
        }),
        Box::new(OnceRedoCommand { runs: 0, actor: Actor::Ui }),
    ];
    stack
        .execute(&mut model, Box::new(BatchCommand::new(sub_commands, Actor::Ui)))
        .unwrap();

    let err = stack.undo(&mut model).err().expect("batch undo should have failed");
    assert!(
        matches!(err, Error::BatchRollbackFailed { .. }),
        "a failed roll-forward replaces the error, got {err:?}"
    );
    if let Error::BatchRollbackFailed { reason } = &err {
        assert!(reason.starts_with("batch undo failed at index 0 ("), "{reason}");
        assert!(
            reason.ends_with(") and re-applying index 1 also failed; model may be inconsistent"),
            "{reason}"
        );
    }
    assert!(model.get_element(x).is_ok());
    assert_eq!(stack.len(), 1);
}
