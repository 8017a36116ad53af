//! The undo/redo command stack.
//!
//! Each command records a forward delta (`redo`) and an inverse delta
//! (`undo`), both replayed through the model API so the model's invariants
//! are checked again on every replay: an undo that would break one is
//! rejected with an error and leaves the model unchanged. The stack is
//! bounded (default depth 200, oldest evicted), project-wide, and every entry
//! is tagged with the [`Actor`] that issued it. A [`BatchCommand`] groups
//! sub-commands that undo and redo as one unit.

use vstd::prelude::*;

use crate::error::Error;
use crate::id::ElementId;
use crate::model::{
    create_element_allowed, create_relationship_allowed, delete_allowed, deleted,
    references, renamed, reowned, reparent_allowed, requested_relationship, requested_view,
    root_view, CreateElement, CreateRelationship, ElementView, Model, RelationshipView,
};
use crate::metaclass::{kind_scope, MetaclassKind, MetaclassScope};
use crate::numeral::{decimal, push_index};
use crate::text::clone_opt_string;
use crate::tree::{ancestor_at, has_root, is_ancestor, lemma_chain_frame};
use crate::visibility::Visibility;

verus! {

/// The default bounded depth of the undo/redo stack.
pub const DEFAULT_DEPTH: usize = 200;

/// Who initiated a command: a UI action, or an MCP session by its id.
#[derive(Debug, PartialEq, Eq)]
pub enum Actor {
    /// A UI action (Cmd/Ctrl+Z).
    Ui,
    /// An MCP session, identified by its session id.
    Session(String),
}

impl Clone for Actor {
    fn clone(&self) -> (r: Self)
        ensures
            r == *self,
    {
        match self {
            Actor::Ui => Actor::Ui,
            Actor::Session(id) => Actor::Session(id.clone()),
        }
    }
}

/// The stable string form of an actor: `ui` or `session:<id>`.
pub open spec fn actor_text(a: Actor) -> Seq<char> {
    match a {
        Actor::Ui => "ui"@,
        Actor::Session(id) => "session:"@ + id@,
    }
}

impl Actor {
    /// The stable string form (`"ui"` or `"session:<id>"`).
    pub fn as_str(&self) -> (s: String)
        ensures
            s@ == actor_text(*self),
    {
        match self {
            Actor::Ui => String::from_str("ui"),
            Actor::Session(id) => String::from_str("session:").concat(id.as_str()),
        }
    }
}

/// `m` shows what `n` shows: the same elements, relationships, comments, root
/// marker and schema version.
pub open spec fn same_view(m: Model, n: Model) -> bool {
    &&& m.elements() == n.elements()
    &&& m.relationships() == n.relationships()
    &&& m.comments() == n.comments()
    &&& m.model_package() == n.model_package()
    &&& m.spec_schema_version() == n.spec_schema_version()
}

/// No comment of `m` sits on `id`.
pub open spec fn no_comment_on(m: Model, id: ElementId) -> bool {
    forall|c: ElementId| #[trigger] m.comments().contains_key(c) ==> m.comments()[c].owner != id
}

/// A single undoable/redoable command.
///
/// Both deltas are replayed through the [`Model`] API. Neither panics: an
/// invariant violation or a missing element comes back as an [`Error`].
pub trait Command {
    /// The actor recorded on this command.
    spec fn spec_actor(&self) -> Actor;

    /// What the forward delta of this command, run on `before`, may give:
    /// the model `after` and the result `r`.
    spec fn redo_gives(&self, before: Model, after: Model, r: Result<(), Error>) -> bool;

    /// What the inverse delta of this command, run on `before`, may give:
    /// the model `after` and the result `r`.
    spec fn undo_gives(&self, before: Model, after: Model, r: Result<(), Error>) -> bool;

    /// The models from which the forward delta can be undone exactly: run on
    /// such a model, it leaves a command whose inverse delta gives back what
    /// the model showed.
    spec fn undoable_from(&self, before: Model) -> bool;

    /// The models from which the inverse delta can be redone exactly: run on
    /// such a model, it leaves a command whose forward delta gives back what
    /// the model showed.
    spec fn redoable_from(&self, before: Model) -> bool;

    /// Apply the forward delta (re-played on redo). When it succeeds from a
    /// model it can be undone from, the command it leaves undoes it: its
    /// inverse delta, run on what the forward delta gave (or on any model
    /// showing the same), succeeds and gives back what the model showed, and
    /// what that leaves can be redone.
    fn redo(&mut self, model: &mut Model) -> (r: Result<(), Error>)
        requires
            old(model).wf(),
        ensures
            final(model).wf(),
            final(self).spec_actor() == old(self).spec_actor(),
            old(self).redo_gives(*old(model), *final(model), r),
            r is Ok && old(self).undoable_from(*old(model)) ==> {
                &&& forall|b: Model| same_view(b, *final(model)) ==> #[trigger] final(self).redoable_from(b)
                &&& forall|b: Model, m: Model, u: Result<(), Error>|
                    same_view(b, *final(model)) && #[trigger] final(self).undo_gives(b, m, u)
                    ==> u is Ok && same_view(m, *old(model))
            },
    ;

    /// Apply the inverse delta (re-played on undo). When it succeeds from a
    /// model it can be redone from, the command it leaves redoes it: its
    /// forward delta, run on what the inverse delta gave (or on any model
    /// showing the same), succeeds and gives back what the model showed.
    fn undo(&mut self, model: &mut Model) -> (r: Result<(), Error>)
        requires
            old(model).wf(),
        ensures
            final(model).wf(),
            final(self).spec_actor() == old(self).spec_actor(),
            old(self).undo_gives(*old(model), *final(model), r),
            r is Ok && old(self).redoable_from(*old(model)) ==> {
                &&& forall|b: Model| same_view(b, *final(model)) ==> #[trigger] final(self).undoable_from(b)
                &&& forall|b: Model, m: Model, u: Result<(), Error>|
                    same_view(b, *final(model)) && #[trigger] final(self).redo_gives(b, m, u)
                    ==> u is Ok && same_view(m, *old(model))
            },
    ;

    /// A short, human-readable label.
    fn label(&self) -> (s: &'static str);

    /// The actor who initiated this command.
    fn actor(&self) -> (a: Actor)
        ensures
            a == self.spec_actor(),
    ;
}

/// What creating from `req` adds: the root package for a request without
/// owner, otherwise the requested element.
pub open spec fn created_view(req: CreateElement) -> ElementView {
    if req.owner is None {
        root_view(req.id, req.name)
    } else {
        requested_view(req)
    }
}

/// Whether creating from `req` succeeds on `m`: a request without owner needs
/// the model to have no root yet; any other passes `create_element`'s checks.
pub open spec fn create_command_allowed(m: &Model, req: CreateElement) -> bool {
    if req.owner is None {
        !has_root(m.elements())
    } else {
        create_element_allowed(m, req)
    }
}

/// Create an element; undo deletes it. A request without owner creates the
/// project root.
pub struct CreateElementCommand {
    req: CreateElement,
    actor: Actor,
}

impl CreateElementCommand {
    /// The creation request.
    pub closed spec fn request(&self) -> CreateElement {
        self.req
    }

    /// Create a command tagged `Actor::Ui`.
    pub fn new(req: CreateElement) -> (c: Self)
        ensures
            c.request() == req,
            c.spec_actor() == Actor::Ui,
    {
        CreateElementCommand { req, actor: Actor::Ui }
    }

    /// Create a command with an explicit actor tag.
    pub fn with_actor(req: CreateElement, actor: Actor) -> (c: Self)
        ensures
            c.request() == req,
            c.spec_actor() == actor,
    {
        CreateElementCommand { req, actor }
    }
}

impl Command for CreateElementCommand {
    closed spec fn spec_actor(&self) -> Actor {
        self.actor
    }

    open spec fn redo_gives(&self, before: Model, after: Model, r: Result<(), Error>) -> bool {
        (r is Ok <==> create_command_allowed(&before, self.request()))
        && (r is Ok ==> {
            &&& after.elements() == before.elements().insert(self.request().id, created_view(self.request()))
            &&& after.same_but_elements(&before)
            &&& after.model_package() == if self.request().owner is None {
                Some(self.request().id)
            } else {
                before.model_package()
            }
        })
        && (r is Err ==> after == before)
    }

    open spec fn undo_gives(&self, before: Model, after: Model, r: Result<(), Error>) -> bool {
        (r is Ok <==> delete_allowed(&before, self.request().id))
        && (r is Ok ==> deleted(&before, &after, self.request().id))
        && (r is Err ==> after == before)
    }

    open spec fn undoable_from(&self, before: Model) -> bool {
        true
    }

    open spec fn redoable_from(&self, before: Model) -> bool {
        let id = self.request().id;
        before.elements().contains_key(id) ==> {
            &&& before.elements()[id] == created_view(self.request())
            &&& no_comment_on(before, id)
            &&& if self.request().owner is None {
                &&& before.model_package() == Some(id)
                &&& forall|x: ElementId| #[trigger] before.elements().contains_key(x) && x != id
                    ==> before.elements()[x].owner is Some
            } else {
                &&& kind_scope(self.request().kind) == MetaclassScope::TopLevel
                &&& before.model_package() != Some(id)
            }
        }
    }

    fn redo(&mut self, model: &mut Model) -> (r: Result<(), Error>)
        ensures
            final(self).request() == old(self).request(),
            r is Ok <==> create_command_allowed(old(model), old(self).request()),
            r is Ok ==> {
                &&& final(model).elements() == old(model).elements().insert(
                    old(self).request().id,
                    created_view(old(self).request()),
                )
                &&& final(model).same_but_elements(old(model))
                &&& final(model).model_package() == if old(self).request().owner is None {
                    Some(old(self).request().id)
                } else {
                    old(model).model_package()
                }
            },
            r is Err ==> *final(model) == *old(model),
    {
        let ghost m0 = *model;
        let view = if self.req.owner.is_none() {
            model.create_root(self.req.id, clone_opt_string(&self.req.name))?
        } else {
            model.create_element(&self.req)?
        };
        self.req.name = view.name;
        proof {
            lemma_create_redo_undoable(*self, m0, *model);
        }
        Ok(())
    }

    fn undo(&mut self, model: &mut Model) -> (r: Result<(), Error>)
        ensures
            final(self).request() == old(self).request(),
            r is Ok <==> delete_allowed(old(model), old(self).request().id),
            r is Ok ==> deleted(old(model), final(model), old(self).request().id),
            r is Err ==> *final(model) == *old(model),
    {
        let ghost m1 = *model;
        let res = model.delete_element(self.req.id);
        proof {
            if res is Ok && self.redoable_from(m1) {
                lemma_create_undo_redoable(*self, m1, *model);
            }
        }
        res
    }

    fn label(&self) -> (s: &'static str)
        ensures
            s@ == "create element"@,
    {
        "create element"
    }

    fn actor(&self) -> (a: Actor) {
        self.actor.clone()
    }
}

/// The creation request that re-creates an element exactly as `v` shows it.
pub open spec fn request_for(v: ElementView) -> CreateElement {
    CreateElement { id: v.id, kind: v.kind, name: v.name, owner: v.owner, visibility: v.visibility }
}

/// Delete an element; undo re-creates it (same id, kind, owner, name and
/// visibility; a root comes back through `create_root`, as the project root).
pub struct DeleteElementCommand {
    id: ElementId,
    snapshot: Option<ElementView>,
    actor: Actor,
}

impl DeleteElementCommand {
    /// The element this command deletes.
    pub closed spec fn target(&self) -> ElementId {
        self.id
    }

    /// The element as it was before the forward delta deleted it, once that
    /// delta has run.
    pub closed spec fn snapshot(&self) -> Option<ElementView> {
        self.snapshot
    }

    /// Create a command tagged `Actor::Ui`.
    pub fn new(id: ElementId) -> (c: Self)
        ensures
            c.target() == id,
            c.snapshot() is None,
            c.spec_actor() == Actor::Ui,
    {
        DeleteElementCommand { id, snapshot: None, actor: Actor::Ui }
    }

    /// Create a command with an explicit actor tag.
    pub fn with_actor(id: ElementId, actor: Actor) -> (c: Self)
        ensures
            c.target() == id,
            c.snapshot() is None,
            c.spec_actor() == actor,
    {
        DeleteElementCommand { id, snapshot: None, actor }
    }
}

impl Command for DeleteElementCommand {
    closed spec fn spec_actor(&self) -> Actor {
        self.actor
    }

    open spec fn redo_gives(&self, before: Model, after: Model, r: Result<(), Error>) -> bool {
        (r is Ok <==> delete_allowed(&before, self.target()))
        && (r is Ok ==> deleted(&before, &after, self.target()))
        && (r is Err ==> after == before)
    }

    open spec fn undo_gives(&self, before: Model, after: Model, r: Result<(), Error>) -> bool {
        (self.snapshot() is None ==> r is Err)
        && (self.snapshot() matches Some(v) ==> {
            &&& (r is Ok <==> create_command_allowed(&before, request_for(v)))
            &&& (r is Ok ==> after.elements() == before.elements().insert(v.id, created_view(request_for(v)))
                && after.same_but_elements(&before)
                && after.model_package() == if v.owner is None { Some(v.id) } else { before.model_package() })
        })
        && (r is Err ==> after == before)
    }

    open spec fn undoable_from(&self, before: Model) -> bool {
        let id = self.target();
        before.elements().contains_key(id) ==> {
            let v = before.elements()[id];
            &&& no_comment_on(before, id)
            &&& if v.owner is None {
                &&& v == root_view(id, v.name)
                &&& before.model_package() == Some(id)
                &&& forall|x: ElementId| #[trigger] before.elements().contains_key(x) && x != id
                    ==> before.elements()[x].owner is Some
            } else {
                &&& kind_scope(v.kind) == MetaclassScope::TopLevel
                &&& before.model_package() != Some(id)
            }
        }
    }

    open spec fn redoable_from(&self, before: Model) -> bool {
        self.snapshot() matches Some(v) ==> v.id == self.target()
    }

    fn redo(&mut self, model: &mut Model) -> (r: Result<(), Error>)
        ensures
            final(self).target() == old(self).target(),
            old(model).elements().contains_key(old(self).target()) ==> final(self).snapshot() == Some(
                old(model).elements()[old(self).target()],
            ),
            !old(model).elements().contains_key(old(self).target()) ==> final(self).snapshot() == old(self).snapshot(),
            r is Ok <==> delete_allowed(old(model), old(self).target()),
            r is Ok ==> deleted(old(model), final(model), old(self).target()),
            r is Err ==> *final(model) == *old(model),
    {
        let ghost m0 = *model;
        self.snapshot = Some(model.get_element(self.id)?);
        let res = model.delete_element(self.id);
        proof {
            if res is Ok && self.undoable_from(m0) {
                lemma_delete_redo_undoable(*self, m0, *model);
            }
        }
        res
    }

    fn undo(&mut self, model: &mut Model) -> (r: Result<(), Error>)
        ensures
            final(self).target() == old(self).target(),
            final(self).snapshot() == old(self).snapshot(),
            old(self).snapshot() is None ==> r is Err && *final(model) == *old(model),
            old(self).snapshot() matches Some(v) ==> {
                &&& (r is Ok <==> create_command_allowed(old(model), request_for(v)))
                &&& (r is Ok ==> final(model).elements() == old(model).elements().insert(
                    v.id,
                    created_view(request_for(v)),
                ) && final(model).same_but_elements(old(model)))
                &&& (r is Ok ==> final(model).model_package() == if v.owner is None {
                    Some(v.id)
                } else {
                    old(model).model_package()
                })
            },
            r is Err ==> *final(model) == *old(model),
    {
        let view = match &self.snapshot {
            Some(v) => v.clone(),
            None => {
                return Err(
                    Error::CannotUndoRedoBeforeDo {
                        reason: "delete command has no snapshot; redo was never run",
                    },
                );
            },
        };
        let ghost m1 = *model;
        let ghost v = view;
        if view.owner.is_none() {
            model.create_root(view.id, view.name)?;
        } else {
            let req = CreateElement {
                id: view.id,
                kind: view.kind,
                name: view.name,
                owner: view.owner,
                visibility: view.visibility,
            };
            model.create_element(&req)?;
        }
        proof {
            if self.redoable_from(m1) {
                lemma_delete_undo_redoable(*self, v, m1, *model);
            }
        }
        Ok(())
    }

    fn label(&self) -> (s: &'static str)
        ensures
            s@ == "delete element"@,
    {
        "delete element"
    }

    fn actor(&self) -> (a: Actor) {
        self.actor.clone()
    }
}

/// Rename an element; undo restores the prior name.
pub struct RenameElementCommand {
    id: ElementId,
    new_name: Option<String>,
    prior_name: Option<Option<String>>,
    actor: Actor,
}

impl RenameElementCommand {
    /// The element this command renames.
    pub closed spec fn target(&self) -> ElementId {
        self.id
    }

    /// The name the forward delta gives.
    pub closed spec fn new_name(&self) -> Option<String> {
        self.new_name
    }

    /// The name before the forward delta, once that delta has run.
    pub closed spec fn prior_name(&self) -> Option<Option<String>> {
        self.prior_name
    }

    /// Create a command tagged `Actor::Ui`.
    pub fn new(id: ElementId, new_name: Option<String>) -> (c: Self)
        ensures
            c.target() == id,
            c.new_name() == new_name,
            c.prior_name() is None,
            c.spec_actor() == Actor::Ui,
    {
        RenameElementCommand { id, new_name, prior_name: None, actor: Actor::Ui }
    }

    /// Create a command with an explicit actor tag.
    pub fn with_actor(id: ElementId, new_name: Option<String>, actor: Actor) -> (c: Self)
        ensures
            c.target() == id,
            c.new_name() == new_name,
            c.prior_name() is None,
            c.spec_actor() == actor,
    {
        RenameElementCommand { id, new_name, prior_name: None, actor }
    }
}

impl Command for RenameElementCommand {
    closed spec fn spec_actor(&self) -> Actor {
        self.actor
    }

    open spec fn redo_gives(&self, before: Model, after: Model, r: Result<(), Error>) -> bool {
        (r is Ok <==> before.elements().contains_key(self.target()))
        && (r is Ok ==> {
            &&& after.elements() == before.elements().insert(
                self.target(),
                renamed(before.elements()[self.target()], self.new_name()),
            )
            &&& after.model_package() == before.model_package()
            &&& after.same_but_elements(&before)
        })
        && (r is Err ==> after == before)
    }

    open spec fn undo_gives(&self, before: Model, after: Model, r: Result<(), Error>) -> bool {
        (self.prior_name() is None ==> r is Err)
        && (self.prior_name() matches Some(p) ==> {
            &&& (r is Ok <==> before.elements().contains_key(self.target()))
            &&& (r is Ok ==> after.elements() == before.elements().insert(
                self.target(),
                renamed(before.elements()[self.target()], p),
            ) && after.model_package() == before.model_package() && after.same_but_elements(&before))
        })
        && (r is Err ==> after == before)
    }

    open spec fn undoable_from(&self, before: Model) -> bool {
        true
    }

    open spec fn redoable_from(&self, before: Model) -> bool {
        before.elements().contains_key(self.target()) ==> before.elements()[self.target()].name == self.new_name()
    }

    fn redo(&mut self, model: &mut Model) -> (r: Result<(), Error>)
        ensures
            final(self).target() == old(self).target(),
            final(self).new_name() == old(self).new_name(),
            r is Ok <==> old(model).elements().contains_key(old(self).target()),
            r is Ok ==> {
                let id = old(self).target();
                &&& final(self).prior_name() == Some(old(model).elements()[id].name)
                &&& final(model).elements() == old(model).elements().insert(
                    id,
                    renamed(old(model).elements()[id], old(self).new_name()),
                )
                &&& final(model).model_package() == old(model).model_package()
                &&& final(model).same_but_elements(old(model))
            },
            r is Err ==> *final(model) == *old(model),
    {
        let ghost m0 = *model;
        self.prior_name = Some(model.get_element(self.id)?.name);
        model.set_name(self.id, clone_opt_string(&self.new_name))?;
        proof {
            lemma_rename_redo_undoable(*self, m0, *model);
        }
        Ok(())
    }

    fn undo(&mut self, model: &mut Model) -> (r: Result<(), Error>)
        ensures
            final(self).target() == old(self).target(),
            final(self).new_name() == old(self).new_name(),
            final(self).prior_name() == old(self).prior_name(),
            old(self).prior_name() is None ==> r is Err,
            old(self).prior_name() matches Some(p) ==> {
                let id = old(self).target();
                &&& (r is Ok <==> old(model).elements().contains_key(id))
                &&& (r is Ok ==> final(model).elements() == old(model).elements().insert(
                    id,
                    renamed(old(model).elements()[id], p),
                ) && final(model).model_package() == old(model).model_package()
                    && final(model).same_but_elements(old(model)))
            },
            r is Err ==> *final(model) == *old(model),
    {
        let prior = match &self.prior_name {
            Some(p) => clone_opt_string(p),
            None => {
                return Err(
                    Error::CannotUndoRedoBeforeDo {
                        reason: "rename command has no prior name; redo was never run",
                    },
                );
            },
        };
        let ghost m1 = *model;
        model.set_name(self.id, prior)?;
        proof {
            if self.redoable_from(m1) {
                lemma_rename_undo_redoable(*self, m1, *model);
            }
        }
        Ok(())
    }

    fn label(&self) -> (s: &'static str)
        ensures
            s@ == "rename element"@,
    {
        "rename element"
    }

    fn actor(&self) -> (a: Actor) {
        self.actor.clone()
    }
}

/// Reparent an element; undo restores the prior owner.
pub struct ReparentElementCommand {
    id: ElementId,
    new_owner: Option<ElementId>,
    prior_owner: Option<ElementId>,
    actor: Actor,
}

impl ReparentElementCommand {
    /// The element this command moves.
    pub closed spec fn target(&self) -> ElementId {
        self.id
    }

    /// The owner the forward delta gives.
    pub closed spec fn new_owner(&self) -> Option<ElementId> {
        self.new_owner
    }

    /// The owner recorded by the last forward delta (`None` before any).
    pub closed spec fn prior_owner(&self) -> Option<ElementId> {
        self.prior_owner
    }

    /// Create a command tagged `Actor::Ui`.
    pub fn new(id: ElementId, new_owner: Option<ElementId>) -> (c: Self)
        ensures
            c.target() == id,
            c.new_owner() == new_owner,
            c.prior_owner() is None,
            c.spec_actor() == Actor::Ui,
    {
        ReparentElementCommand { id, new_owner, prior_owner: None, actor: Actor::Ui }
    }

    /// Create a command with an explicit actor tag.
    pub fn with_actor(id: ElementId, new_owner: Option<ElementId>, actor: Actor) -> (c: Self)
        ensures
            c.target() == id,
            c.new_owner() == new_owner,
            c.prior_owner() is None,
            c.spec_actor() == actor,
    {
        ReparentElementCommand { id, new_owner, prior_owner: None, actor }
    }
}

impl Command for ReparentElementCommand {
    closed spec fn spec_actor(&self) -> Actor {
        self.actor
    }

    open spec fn redo_gives(&self, before: Model, after: Model, r: Result<(), Error>) -> bool {
        (r is Ok <==> reparent_allowed(&before, self.target(), self.new_owner()))
        && (r is Ok ==> {
            &&& after.elements() == before.elements().insert(
                self.target(),
                reowned(before.elements()[self.target()], self.new_owner()),
            )
            &&& after.model_package() == before.model_package()
            &&& after.same_but_elements(&before)
        })
        && (r is Err ==> after == before)
    }

    open spec fn undo_gives(&self, before: Model, after: Model, r: Result<(), Error>) -> bool {
        (r is Ok <==> reparent_allowed(&before, self.target(), self.prior_owner()))
        && (r is Ok ==> {
            &&& after.elements() == before.elements().insert(
                self.target(),
                reowned(before.elements()[self.target()], self.prior_owner()),
            )
            &&& after.model_package() == before.model_package()
            &&& after.same_but_elements(&before)
        })
        && (r is Err ==> after == before)
    }

    open spec fn undoable_from(&self, before: Model) -> bool {
        true
    }

    open spec fn redoable_from(&self, before: Model) -> bool {
        before.elements().contains_key(self.target()) ==> before.elements()[self.target()].owner == self.new_owner()
    }

    fn redo(&mut self, model: &mut Model) -> (r: Result<(), Error>)
        ensures
            final(self).target() == old(self).target(),
            final(self).new_owner() == old(self).new_owner(),
            old(model).elements().contains_key(old(self).target()) ==> final(self).prior_owner()
                == old(model).elements()[old(self).target()].owner,
            r is Ok <==> reparent_allowed(old(model), old(self).target(), old(self).new_owner()),
            r is Ok ==> {
                let id = old(self).target();
                &&& final(model).elements() == old(model).elements().insert(
                    id,
                    reowned(old(model).elements()[id], old(self).new_owner()),
                )
                &&& final(model).model_package() == old(model).model_package()
                &&& final(model).same_but_elements(old(model))
            },
            r is Err ==> *final(model) == *old(model),
    {
        let ghost m0 = *model;
        self.prior_owner = model.get_element(self.id)?.owner;
        model.reparent_element(self.id, self.new_owner)?;
        proof {
            lemma_reparent_redo_undoable(*self, m0, *model);
        }
        Ok(())
    }

    fn undo(&mut self, model: &mut Model) -> (r: Result<(), Error>)
        ensures
            final(self).target() == old(self).target(),
            final(self).new_owner() == old(self).new_owner(),
            final(self).prior_owner() == old(self).prior_owner(),
            r is Ok <==> reparent_allowed(old(model), old(self).target(), old(self).prior_owner()),
            r is Ok ==> {
                let id = old(self).target();
                &&& final(model).elements() == old(model).elements().insert(
                    id,
                    reowned(old(model).elements()[id], old(self).prior_owner()),
                )
                &&& final(model).model_package() == old(model).model_package()
                &&& final(model).same_but_elements(old(model))
            },
            r is Err ==> *final(model) == *old(model),
    {
        let ghost m1 = *model;
        model.reparent_element(self.id, self.prior_owner)?;
        proof {
            if self.redoable_from(m1) {
                lemma_reparent_undo_redoable(*self, m1, *model);
            }
        }
        Ok(())
    }

    fn label(&self) -> (s: &'static str)
        ensures
            s@ == "reparent element"@,
    {
        "reparent element"
    }

    fn actor(&self) -> (a: Actor) {
        self.actor.clone()
    }
}

/// Create a relationship; undo deletes it.
pub struct CreateRelationshipCommand {
    req: CreateRelationship,
    actor: Actor,
}

impl CreateRelationshipCommand {
    /// The creation request.
    pub closed spec fn request(&self) -> CreateRelationship {
        self.req
    }

    /// Create a command tagged `Actor::Ui`.
    pub fn new(req: CreateRelationship) -> (c: Self)
        ensures
            c.request() == req,
            c.spec_actor() == Actor::Ui,
    {
        CreateRelationshipCommand { req, actor: Actor::Ui }
    }

    /// Create a command with an explicit actor tag.
    pub fn with_actor(req: CreateRelationship, actor: Actor) -> (c: Self)
        ensures
            c.request() == req,
            c.spec_actor() == actor,
    {
        CreateRelationshipCommand { req, actor }
    }
}

impl Command for CreateRelationshipCommand {
    closed spec fn spec_actor(&self) -> Actor {
        self.actor
    }

    open spec fn redo_gives(&self, before: Model, after: Model, r: Result<(), Error>) -> bool {
        (r is Ok <==> create_relationship_allowed(&before, self.request()))
        && (r is Ok ==> {
            &&& after.relationships() == before.relationships().insert(
                self.request().id,
                requested_relationship(self.request()),
            )
            &&& after.elements() == before.elements()
            &&& after.comments() == before.comments()
            &&& after.model_package() == before.model_package()
            &&& after.spec_schema_version() == before.spec_schema_version()
        })
        && (r is Err ==> after == before)
    }

    open spec fn undo_gives(&self, before: Model, after: Model, r: Result<(), Error>) -> bool {
        (r is Ok <==> before.relationships().contains_key(self.request().id))
        && (r is Ok ==> {
            &&& after.relationships() == before.relationships().remove(self.request().id)
            &&& after.elements() == before.elements()
            &&& after.comments() == before.comments()
            &&& after.model_package() == before.model_package()
            &&& after.spec_schema_version() == before.spec_schema_version()
        })
        && (r is Err ==> after == before)
    }

    open spec fn undoable_from(&self, before: Model) -> bool {
        true
    }

    open spec fn redoable_from(&self, before: Model) -> bool {
        before.relationships().contains_key(self.request().id)
            ==> before.relationships()[self.request().id] == requested_relationship(self.request())
    }

    fn redo(&mut self, model: &mut Model) -> (r: Result<(), Error>)
        ensures
            final(self).request() == old(self).request(),
            r is Ok <==> create_relationship_allowed(old(model), old(self).request()),
            r is Ok ==> {
                &&& final(model).relationships() == old(model).relationships().insert(
                    old(self).request().id,
                    requested_relationship(old(self).request()),
                )
                &&& final(model).elements() == old(model).elements()
                &&& final(model).comments() == old(model).comments()
                &&& final(model).model_package() == old(model).model_package()
                &&& final(model).spec_schema_version() == old(model).spec_schema_version()
            },
            r is Err ==> *final(model) == *old(model),
    {
        let ghost m0 = *model;
        let view: RelationshipView = model.create_relationship(&self.req)?;
        self.req.kind = view.kind;
        proof {
            lemma_create_relationship_redo_undoable(*self, m0, *model);
        }
        Ok(())
    }

    fn undo(&mut self, model: &mut Model) -> (r: Result<(), Error>)
        ensures
            final(self).request() == old(self).request(),
            r is Ok <==> old(model).relationships().contains_key(old(self).request().id),
            r is Ok ==> {
                &&& final(model).relationships() == old(model).relationships().remove(old(self).request().id)
                &&& final(model).elements() == old(model).elements()
                &&& final(model).comments() == old(model).comments()
                &&& final(model).model_package() == old(model).model_package()
                &&& final(model).spec_schema_version() == old(model).spec_schema_version()
            },
            r is Err ==> *final(model) == *old(model),
    {
        let ghost m1 = *model;
        let res = model.delete_relationship(self.req.id);
        proof {
            if res is Ok && self.redoable_from(m1) {
                lemma_create_relationship_undo_redoable(*self, m1, *model);
            }
        }
        res
    }

    fn label(&self) -> (s: &'static str)
        ensures
            s@ == "create relationship"@,
    {
        "create relationship"
    }

    fn actor(&self) -> (a: Actor) {
        self.actor.clone()
    }
}

/// The creation request that re-creates a relationship exactly as `v` shows
/// it.
pub open spec fn relationship_request_for(v: RelationshipView) -> CreateRelationship {
    CreateRelationship { id: v.id, kind: v.kind, source: v.source, target: v.target, owner: v.owner }
}

/// Delete a relationship; undo re-creates it (same id, kind, endpoints,
/// owner).
pub struct DeleteRelationshipCommand {
    id: ElementId,
    snapshot: Option<RelationshipView>,
    actor: Actor,
}

impl DeleteRelationshipCommand {
    /// The relationship this command deletes.
    pub closed spec fn target(&self) -> ElementId {
        self.id
    }

    /// The relationship as it was before the forward delta deleted it.
    pub closed spec fn snapshot(&self) -> Option<RelationshipView> {
        self.snapshot
    }

    /// Create a command tagged `Actor::Ui`.
    pub fn new(id: ElementId) -> (c: Self)
        ensures
            c.target() == id,
            c.snapshot() is None,
            c.spec_actor() == Actor::Ui,
    {
        DeleteRelationshipCommand { id, snapshot: None, actor: Actor::Ui }
    }

    /// Create a command with an explicit actor tag.
    pub fn with_actor(id: ElementId, actor: Actor) -> (c: Self)
        ensures
            c.target() == id,
            c.snapshot() is None,
            c.spec_actor() == actor,
    {
        DeleteRelationshipCommand { id, snapshot: None, actor }
    }
}

impl Command for DeleteRelationshipCommand {
    closed spec fn spec_actor(&self) -> Actor {
        self.actor
    }

    open spec fn redo_gives(&self, before: Model, after: Model, r: Result<(), Error>) -> bool {
        (r is Ok <==> before.relationships().contains_key(self.target()))
        && (r is Ok ==> {
            &&& after.relationships() == before.relationships().remove(self.target())
            &&& after.elements() == before.elements()
            &&& after.comments() == before.comments()
            &&& after.model_package() == before.model_package()
            &&& after.spec_schema_version() == before.spec_schema_version()
        })
        && (r is Err ==> after == before)
    }

    open spec fn undo_gives(&self, before: Model, after: Model, r: Result<(), Error>) -> bool {
        (self.snapshot() is None ==> r is Err)
        && (self.snapshot() matches Some(v) ==> {
            &&& (r is Ok <==> create_relationship_allowed(&before, relationship_request_for(v)))
            &&& (r is Ok ==> after.relationships() == before.relationships().insert(v.id, v)
                && after.elements() == before.elements() && after.comments() == before.comments()
                && after.model_package() == before.model_package()
                && after.spec_schema_version() == before.spec_schema_version())
        })
        && (r is Err ==> after == before)
    }

    open spec fn undoable_from(&self, before: Model) -> bool {
        true
    }

    open spec fn redoable_from(&self, before: Model) -> bool {
        self.snapshot() matches Some(v) ==> v.id == self.target()
    }

    fn redo(&mut self, model: &mut Model) -> (r: Result<(), Error>)
        ensures
            final(self).target() == old(self).target(),
            r is Ok <==> old(model).relationships().contains_key(old(self).target()),
            r is Ok ==> {
                &&& final(self).snapshot() == Some(old(model).relationships()[old(self).target()])
                &&& final(model).relationships() == old(model).relationships().remove(old(self).target())
                &&& final(model).elements() == old(model).elements()
                &&& final(model).comments() == old(model).comments()
                &&& final(model).model_package() == old(model).model_package()
                &&& final(model).spec_schema_version() == old(model).spec_schema_version()
            },
            r is Err ==> *final(model) == *old(model) && final(self).snapshot() == old(self).snapshot(),
    {
        let ghost m0 = *model;
        self.snapshot = Some(model.get_relationship(self.id)?);
        let res = model.delete_relationship(self.id);
        proof {
            if res is Ok {
                lemma_delete_relationship_redo_undoable(*self, m0, *model);
            }
        }
        res
    }

    fn undo(&mut self, model: &mut Model) -> (r: Result<(), Error>)
        ensures
            final(self).target() == old(self).target(),
            final(self).snapshot() == old(self).snapshot(),
            old(self).snapshot() is None ==> r is Err,
            old(self).snapshot() matches Some(v) ==> {
                &&& (r is Ok <==> create_relationship_allowed(old(model), relationship_request_for(v)))
                &&& (r is Ok ==> final(model).relationships() == old(model).relationships().insert(v.id, v)
                    && final(model).elements() == old(model).elements()
                    && final(model).comments() == old(model).comments()
                    && final(model).model_package() == old(model).model_package()
                    && final(model).spec_schema_version() == old(model).spec_schema_version())
            },
            r is Err ==> *final(model) == *old(model),
    {
        let view = match &self.snapshot {
            Some(v) => v.clone(),
            None => {
                return Err(
                    Error::CannotUndoRedoBeforeDo {
                        reason: "delete-relationship command has no snapshot; redo was never run",
                    },
                );
            },
        };
        let req = CreateRelationship {
            id: view.id,
            kind: view.kind,
            source: view.source,
            target: view.target,
            owner: view.owner,
        };
        let ghost m1 = *model;
        let ghost v = view;
        model.create_relationship(&req)?;
        proof {
            if self.redoable_from(m1) {
                lemma_delete_relationship_undo_redoable(*self, v, m1, *model);
            }
        }
        Ok(())
    }

    fn label(&self) -> (s: &'static str)
        ensures
            s@ == "delete relationship"@,
    {
        "delete relationship"
    }

    fn actor(&self) -> (a: Actor) {
        self.actor.clone()
    }
}

/// Right after creating an element, deleting it gives back the model, and
/// what that leaves can be re-created.
proof fn lemma_create_redo_undoable(c: CreateElementCommand, m0: Model, m1: Model)
    requires
        m0.wf(),
        m1.wf(),
        create_command_allowed(&m0, c.request()),
        m1.elements() == m0.elements().insert(c.request().id, created_view(c.request())),
        m1.same_but_elements(&m0),
        m1.model_package() == if c.request().owner is None { Some(c.request().id) } else { m0.model_package() },
    ensures
        forall|b: Model| same_view(b, m1) ==> #[trigger] c.redoable_from(b),
        forall|b: Model, m: Model, u: Result<(), Error>|
            same_view(b, m1) && #[trigger] c.undo_gives(b, m, u) ==> u is Ok && same_view(m, m0),
{
    let req = c.request();
    let id = req.id;
    lemma_create_element_undo_restores(m0, m1, m1, req);
    m0.lemma_invariant();
    m1.lemma_invariant();
    assert(!m0.elements().contains_key(id)) by {
        if req.owner is None {
            assert(m0.elements() == Map::<ElementId, ElementView>::empty());
        }
    }
    assert forall|b: Model| same_view(b, m1) implies #[trigger] c.redoable_from(b) by {
        assert forall|k: ElementId| #[trigger] b.comments().contains_key(k) implies b.comments()[k].owner != id by {
            assert(m0.comments().contains_key(k));
        }
        if req.owner is None {
            assert forall|x: ElementId| #[trigger] b.elements().contains_key(x) && x != id implies b.elements()[x].owner is Some by {
                assert(m0.elements().contains_key(x));
            }
        }
    }
    assert forall|b: Model, m: Model, u: Result<(), Error>|
        same_view(b, m1) && #[trigger] c.undo_gives(b, m, u) implies u is Ok && same_view(m, m0) by {
        b.lemma_child_count_is(id);
        m1.lemma_child_count_is(id);
        assert(b.elements().dom().filter(|z: ElementId| b.elements()[z].owner == Some(id)) == m1.elements().dom().filter(|z: ElementId| m1.elements()[z].owner == Some(id)));
        assert(b.child_count(id) == m1.child_count(id));
        assert(delete_allowed(&b, id));
        assert(deleted(&m1, &m, id));
        lemma_create_element_undo_restores(m0, m1, m, req);
    }
}

/// Right after deleting a created element, creating it again gives back the
/// model.
proof fn lemma_create_undo_redoable(c: CreateElementCommand, m1: Model, m2: Model)
    requires
        m1.wf(),
        m2.wf(),
        c.redoable_from(m1),
        delete_allowed(&m1, c.request().id),
        deleted(&m1, &m2, c.request().id),
    ensures
        forall|b: Model| same_view(b, m2) ==> #[trigger] c.undoable_from(b),
        forall|b: Model, m: Model, u: Result<(), Error>|
            same_view(b, m2) && #[trigger] c.redo_gives(b, m, u) ==> u is Ok && same_view(m, m1),
{
    let req = c.request();
    let id = req.id;
    m1.lemma_invariant();
    assert(m1.elements()[id] == created_view(req));
    assert(create_command_allowed(&m2, req)) by {
        if req.owner is None {
            if has_root(m2.elements()) {
                let r = choose|r: ElementId| #[trigger] m2.elements().contains_key(r) && m2.elements()[r].owner is None;
                assert(m1.elements().contains_key(r) && r != id);
            }
        } else {
            assert(m1.elements()[id].owner == req.owner);
            assert(m1.elements().contains_key(req.owner->0));
        }
    }
    assert forall|b: Model, m: Model, u: Result<(), Error>|
        same_view(b, m2) && #[trigger] c.redo_gives(b, m, u) implies u is Ok && same_view(m, m1) by {
        assert(create_command_allowed(&b, req));
        assert(m.elements() =~= m1.elements());
        assert(m.comments() =~= m1.comments());
    }
}

/// Right after deleting an element that can be re-created as it was,
/// re-creating it gives back the model.
proof fn lemma_delete_redo_undoable(c: DeleteElementCommand, m0: Model, m1: Model)
    requires
        m0.wf(),
        m1.wf(),
        m0.elements().contains_key(c.target()),
        c.snapshot() == Some(m0.elements()[c.target()]),
        c.undoable_from(m0),
        delete_allowed(&m0, c.target()),
        deleted(&m0, &m1, c.target()),
    ensures
        forall|b: Model| same_view(b, m1) ==> #[trigger] c.redoable_from(b),
        forall|b: Model, m: Model, u: Result<(), Error>|
            same_view(b, m1) && #[trigger] c.undo_gives(b, m, u) ==> u is Ok && same_view(m, m0),
{
    let id = c.target();
    let v = m0.elements()[id];
    m0.lemma_invariant();
    assert(v.id == id);
    if v.owner is None {
        lemma_delete_root_undo_restores(m0, m1, m1, id);
    } else {
        lemma_delete_element_undo_restores(m0, m1, m1, id);
    }
    assert forall|b: Model, m: Model, u: Result<(), Error>|
        same_view(b, m1) && #[trigger] c.undo_gives(b, m, u) implies u is Ok && same_view(m, m0) by {
        assert(create_command_allowed(&b, request_for(v)));
        if v.owner is None {
            lemma_delete_root_undo_restores(m0, m1, m, id);
        } else {
            lemma_delete_element_undo_restores(m0, m1, m, id);
        }
        assert(m.comments() =~= m0.comments());
    }
}

/// Right after re-creating a deleted element, deleting it again gives back
/// the model.
proof fn lemma_delete_undo_redoable(c: DeleteElementCommand, v: ElementView, m1: Model, m2: Model)
    requires
        m1.wf(),
        m2.wf(),
        c.snapshot() == Some(v),
        v.id == c.target(),
        create_command_allowed(&m1, request_for(v)),
        m2.elements() == m1.elements().insert(v.id, created_view(request_for(v))),
        m2.same_but_elements(&m1),
        m2.model_package() == if v.owner is None { Some(v.id) } else { m1.model_package() },
    ensures
        forall|b: Model| same_view(b, m2) ==> #[trigger] c.undoable_from(b),
        forall|b: Model, m: Model, u: Result<(), Error>|
            same_view(b, m2) && #[trigger] c.redo_gives(b, m, u) ==> u is Ok && same_view(m, m1),
{
    let id = v.id;
    m1.lemma_invariant();
    m2.lemma_invariant();
    assert(!m1.elements().contains_key(id)) by {
        if v.owner is None {
            assert(m1.elements() == Map::<ElementId, ElementView>::empty());
        }
    }
    assert(m1.model_package() != Some(id));
    assert(v.owner is None ==> m1.model_package() is None) by {
        if v.owner is None {
            assert(m1.elements() == Map::<ElementId, ElementView>::empty());
        }
    }
    assert forall|k: ElementId| #[trigger] m2.comments().contains_key(k) implies m2.comments()[k].owner != id by {
        assert(m1.comments().contains_key(k));
    }
    assert forall|b: Model| same_view(b, m2) implies #[trigger] c.undoable_from(b) by {
        if v.owner is None {
            assert forall|x: ElementId| #[trigger] b.elements().contains_key(x) && x != id implies b.elements()[x].owner is Some by {
                assert(m1.elements().contains_key(x));
            }
        }
    }
    assert(m2.child_count(id) == 0) by {
        assert forall|z: ElementId| #[trigger] m2.elements().contains_key(z) implies m2.elements()[z].owner != Some(id) by {
            if z != id {
                assert(m1.elements().contains_key(z));
                if m1.elements()[z].owner is Some {
                    assert(m1.elements().contains_key(m1.elements()[z].owner->0));
                }
            }
        }
    }
    assert forall|rid: ElementId| #[trigger] m2.relationships().contains_key(rid) implies !references(m2.relationships()[rid], id) by {
        assert(m1.relationships().contains_key(rid));
    }
    assert forall|b: Model, m: Model, u: Result<(), Error>|
        same_view(b, m2) && #[trigger] c.redo_gives(b, m, u) implies u is Ok && same_view(m, m1) by {
        b.lemma_child_count_is(id);
        m2.lemma_child_count_is(id);
        assert(b.elements().dom().filter(|z: ElementId| b.elements()[z].owner == Some(id)) == m2.elements().dom().filter(|z: ElementId| m2.elements()[z].owner == Some(id)));
        assert(b.child_count(id) == m2.child_count(id));
        assert(delete_allowed(&b, id));
        assert(m.elements() =~= m1.elements());
        assert(m.comments() =~= m1.comments());
    }
}

/// Right after a rename, renaming back gives back the model.
proof fn lemma_rename_redo_undoable(c: RenameElementCommand, m0: Model, m1: Model)
    requires
        m0.elements().contains_key(c.target()),
        c.prior_name() == Some(m0.elements()[c.target()].name),
        m1.elements() == m0.elements().insert(c.target(), renamed(m0.elements()[c.target()], c.new_name())),
        m1.model_package() == m0.model_package(),
        m1.same_but_elements(&m0),
    ensures
        forall|b: Model| same_view(b, m1) ==> #[trigger] c.redoable_from(b),
        forall|b: Model, m: Model, u: Result<(), Error>|
            same_view(b, m1) && #[trigger] c.undo_gives(b, m, u) ==> u is Ok && same_view(m, m0),
{
    assert forall|b: Model, m: Model, u: Result<(), Error>|
        same_view(b, m1) && #[trigger] c.undo_gives(b, m, u) implies u is Ok && same_view(m, m0) by {
        assert(m.elements() =~= m0.elements());
    }
}

/// Right after renaming back, renaming again gives back the model.
proof fn lemma_rename_undo_redoable(c: RenameElementCommand, m1: Model, m2: Model)
    requires
        c.redoable_from(m1),
        m1.elements().contains_key(c.target()),
        c.prior_name() is Some,
        m2.elements() == m1.elements().insert(c.target(), renamed(m1.elements()[c.target()], c.prior_name()->0)),
        m2.model_package() == m1.model_package(),
        m2.same_but_elements(&m1),
    ensures
        forall|b: Model| same_view(b, m2) ==> #[trigger] c.undoable_from(b),
        forall|b: Model, m: Model, u: Result<(), Error>|
            same_view(b, m2) && #[trigger] c.redo_gives(b, m, u) ==> u is Ok && same_view(m, m1),
{
    assert forall|b: Model, m: Model, u: Result<(), Error>|
        same_view(b, m2) && #[trigger] c.redo_gives(b, m, u) implies u is Ok && same_view(m, m1) by {
        assert(m.elements() =~= m1.elements());
    }
}

/// Right after a reparent, moving back gives back the model.
proof fn lemma_reparent_redo_undoable(c: ReparentElementCommand, m0: Model, m1: Model)
    requires
        m0.wf(),
        reparent_allowed(&m0, c.target(), c.new_owner()),
        c.prior_owner() == m0.elements()[c.target()].owner,
        m1.elements() == m0.elements().insert(c.target(), reowned(m0.elements()[c.target()], c.new_owner())),
        m1.model_package() == m0.model_package(),
        m1.same_but_elements(&m0),
    ensures
        forall|b: Model| same_view(b, m1) ==> #[trigger] c.redoable_from(b),
        forall|b: Model, m: Model, u: Result<(), Error>|
            same_view(b, m1) && #[trigger] c.undo_gives(b, m, u) ==> u is Ok && same_view(m, m0),
{
    let id = c.target();
    lemma_reparent_undo_restores(m0, m1, m1, id, c.new_owner());
    assert forall|b: Model, m: Model, u: Result<(), Error>|
        same_view(b, m1) && #[trigger] c.undo_gives(b, m, u) implies u is Ok && same_view(m, m0) by {
        assert(reparent_allowed(&b, id, c.prior_owner()));
        lemma_reparent_undo_restores(m0, m1, m, id, c.new_owner());
    }
}

/// Right after moving back, moving again gives back the model.
proof fn lemma_reparent_undo_redoable(c: ReparentElementCommand, m1: Model, m2: Model)
    requires
        m1.wf(),
        c.redoable_from(m1),
        reparent_allowed(&m1, c.target(), c.prior_owner()),
        m2.elements() == m1.elements().insert(c.target(), reowned(m1.elements()[c.target()], c.prior_owner())),
        m2.model_package() == m1.model_package(),
        m2.same_but_elements(&m1),
    ensures
        forall|b: Model| same_view(b, m2) ==> #[trigger] c.undoable_from(b),
        forall|b: Model, m: Model, u: Result<(), Error>|
            same_view(b, m2) && #[trigger] c.redo_gives(b, m, u) ==> u is Ok && same_view(m, m1),
{
    let id = c.target();
    lemma_reparent_undo_restores(m1, m2, m2, id, c.prior_owner());
    assert forall|b: Model, m: Model, u: Result<(), Error>|
        same_view(b, m2) && #[trigger] c.redo_gives(b, m, u) implies u is Ok && same_view(m, m1) by {
        assert(reparent_allowed(&b, id, c.new_owner()));
        lemma_reparent_undo_restores(m1, m2, m, id, c.prior_owner());
    }
}

/// Right after creating a relationship, deleting it gives back the model.
proof fn lemma_create_relationship_redo_undoable(c: CreateRelationshipCommand, m0: Model, m1: Model)
    requires
        create_relationship_allowed(&m0, c.request()),
        m1.relationships() == m0.relationships().insert(c.request().id, requested_relationship(c.request())),
        m1.elements() == m0.elements(),
        m1.comments() == m0.comments(),
        m1.model_package() == m0.model_package(),
        m1.spec_schema_version() == m0.spec_schema_version(),
    ensures
        forall|b: Model| same_view(b, m1) ==> #[trigger] c.redoable_from(b),
        forall|b: Model, m: Model, u: Result<(), Error>|
            same_view(b, m1) && #[trigger] c.undo_gives(b, m, u) ==> u is Ok && same_view(m, m0),
{
    assert forall|b: Model, m: Model, u: Result<(), Error>|
        same_view(b, m1) && #[trigger] c.undo_gives(b, m, u) implies u is Ok && same_view(m, m0) by {
        assert(m.relationships() =~= m0.relationships());
    }
}

/// Right after deleting a created relationship, creating it again gives
/// back the model.
proof fn lemma_create_relationship_undo_redoable(c: CreateRelationshipCommand, m1: Model, m2: Model)
    requires
        m1.wf(),
        c.redoable_from(m1),
        m1.relationships().contains_key(c.request().id),
        m2.relationships() == m1.relationships().remove(c.request().id),
        m2.elements() == m1.elements(),
        m2.comments() == m1.comments(),
        m2.model_package() == m1.model_package(),
        m2.spec_schema_version() == m1.spec_schema_version(),
    ensures
        forall|b: Model| same_view(b, m2) ==> #[trigger] c.undoable_from(b),
        forall|b: Model, m: Model, u: Result<(), Error>|
            same_view(b, m2) && #[trigger] c.redo_gives(b, m, u) ==> u is Ok && same_view(m, m1),
{
    m1.lemma_invariant();
    let rid = c.request().id;
    assert(m1.relationships().contains_key(rid));
    assert forall|b: Model, m: Model, u: Result<(), Error>|
        same_view(b, m2) && #[trigger] c.redo_gives(b, m, u) implies u is Ok && same_view(m, m1) by {
        assert(create_relationship_allowed(&b, c.request()));
        assert(m.relationships() =~= m1.relationships());
    }
}

/// Right after deleting a relationship, re-creating it gives back the model.
proof fn lemma_delete_relationship_redo_undoable(c: DeleteRelationshipCommand, m0: Model, m1: Model)
    requires
        m0.wf(),
        m0.relationships().contains_key(c.target()),
        c.snapshot() == Some(m0.relationships()[c.target()]),
        m1.relationships() == m0.relationships().remove(c.target()),
        m1.elements() == m0.elements(),
        m1.comments() == m0.comments(),
        m1.model_package() == m0.model_package(),
        m1.spec_schema_version() == m0.spec_schema_version(),
    ensures
        forall|b: Model| same_view(b, m1) ==> #[trigger] c.redoable_from(b),
        forall|b: Model, m: Model, u: Result<(), Error>|
            same_view(b, m1) && #[trigger] c.undo_gives(b, m, u) ==> u is Ok && same_view(m, m0),
{
    m0.lemma_invariant();
    let rid = c.target();
    let v = m0.relationships()[rid];
    assert(v.id == rid);
    assert forall|b: Model, m: Model, u: Result<(), Error>|
        same_view(b, m1) && #[trigger] c.undo_gives(b, m, u) implies u is Ok && same_view(m, m0) by {
        assert(create_relationship_allowed(&b, relationship_request_for(v)));
        assert(m.relationships() =~= m0.relationships());
    }
}

/// Right after re-creating a deleted relationship, deleting it again gives
/// back the model.
proof fn lemma_delete_relationship_undo_redoable(c: DeleteRelationshipCommand, v: RelationshipView, m1: Model, m2: Model)
    requires
        c.snapshot() == Some(v),
        c.redoable_from(m1),
        create_relationship_allowed(&m1, relationship_request_for(v)),
        m2.relationships() == m1.relationships().insert(v.id, v),
        m2.elements() == m1.elements(),
        m2.comments() == m1.comments(),
        m2.model_package() == m1.model_package(),
        m2.spec_schema_version() == m1.spec_schema_version(),
    ensures
        forall|b: Model| same_view(b, m2) ==> #[trigger] c.undoable_from(b),
        forall|b: Model, m: Model, u: Result<(), Error>|
            same_view(b, m2) && #[trigger] c.redo_gives(b, m, u) ==> u is Ok && same_view(m, m1),
{
    assert forall|b: Model, m: Model, u: Result<(), Error>|
        same_view(b, m2) && #[trigger] c.redo_gives(b, m, u) implies u is Ok && same_view(m, m1) by {
        assert(m.relationships() =~= m1.relationships());
    }
}

/// Renders an error in its `Debug` form with `std::format!`. Nothing is
/// stated of the text.
#[verifier::external_body]
fn error_debug_text(err: &Error) -> String {
    format!("{err:?}")
}

/// The message of a failed batch step whose recovery failed too: which
/// delta of the batch failed and at which index, its error's text, and at
/// which index the recovery failed.
pub open spec fn batch_failure_text(
    delta: Seq<char>,
    failed_at: nat,
    err: Seq<char>,
    recovery: Seq<char>,
    recovered_at: nat,
) -> Seq<char> {
    "batch "@ + delta + " failed at index "@ + decimal(failed_at) + " ("@ + err + ") and "@ + recovery
        + " index "@ + decimal(recovered_at) + " also failed; model may be inconsistent"@
}

/// Build the message of a failed batch step whose recovery failed too.
fn batch_failure_reason(delta: &str, failed_at: usize, err: &Error, recovery: &str, recovered_at: usize) -> (s: String)
    ensures
        exists|t: Seq<char>| s@ == #[trigger] batch_failure_text(delta@, failed_at as nat, t, recovery@, recovered_at as nat),
{
    let err_text = error_debug_text(err);
    let mut s = String::from_str("batch ");
    s.append(delta);
    s.append(" failed at index ");
    push_index(&mut s, failed_at);
    s.append(" (");
    s.append(err_text.as_str());
    s.append(") and ");
    s.append(recovery);
    s.append(" index ");
    push_index(&mut s, recovered_at);
    s.append(" also failed; model may be inconsistent");
    proof {
        reveal_strlit("batch ");
        reveal_strlit(" failed at index ");
        reveal_strlit(" (");
        reveal_strlit(") and ");
        reveal_strlit(" index ");
        reveal_strlit(" also failed; model may be inconsistent");
        assert(s@ =~= batch_failure_text(delta@, failed_at as nat, err_text@, recovery@, recovered_at as nat));
    }
    s
}

/// The message of a failed batch redo whose rollback failed too.
fn rollback_failure_reason(failed_at: usize, err: &Error, rolled_back: usize) -> (s: String)
    ensures
        exists|t: Seq<char>| s@ == #[trigger] batch_failure_text("redo"@, failed_at as nat, t, "rollback of"@, rolled_back as nat),
{
    batch_failure_reason("redo", failed_at, err, "rollback of", rolled_back)
}

/// The message of a failed batch undo whose roll-forward failed too.
fn rollforward_failure_reason(failed_at: usize, err: &Error, reapplied: usize) -> (s: String)
    ensures
        exists|t: Seq<char>| s@ == #[trigger] batch_failure_text("undo"@, failed_at as nat, t, "re-applying"@, reapplied as nat),
{
    batch_failure_reason("undo", failed_at, err, "re-applying", reapplied)
}

/// `ms` runs through the models that the forward deltas of `subs` lead
/// to, in order, each of them succeeding.
pub open spec fn redo_chain(subs: Seq<Box<dyn Command>>, ms: Seq<Model>) -> bool {
    &&& ms.len() == subs.len() + 1
    &&& forall|k: int| 0 <= k < subs.len() ==> #[trigger] subs[k].redo_gives(ms[k], ms[k + 1], Ok(()))
}

/// `ms` runs through the models that the inverse deltas of `subs` lead to,
/// last sub-command first, each of them succeeding.
pub open spec fn undo_chain(subs: Seq<Box<dyn Command>>, ms: Seq<Model>) -> bool {
    &&& ms.len() == subs.len() + 1
    &&& forall|k: int| 0 <= k < subs.len() ==> #[trigger] subs[subs.len() - 1 - k].undo_gives(ms[k], ms[k + 1], Ok(()))
}

/// The forward deltas of `subs` succeed in order up to the `k`-th, which
/// fails with `e`: `ms` runs through the models before each of them, and
/// the failing one leaves `mid`.
pub open spec fn redo_fails_at(subs: Seq<Box<dyn Command>>, k: int, ms: Seq<Model>, mid: Model, e: Error) -> bool {
    &&& 0 <= k < subs.len()
    &&& redo_chain(subs.take(k), ms)
    &&& subs[k].redo_gives(ms.last(), mid, Err(e))
}

/// The inverse deltas of `subs` succeed from the last down to the one after
/// the `k`-th, through the models `ms`; the `k`-th, run on the last of them,
/// gives `after` and the result `r`.
pub open spec fn undo_stops_at(subs: Seq<Box<dyn Command>>, k: int, ms: Seq<Model>, after: Model, r: Result<(), Error>) -> bool {
    &&& 0 <= k < subs.len()
    &&& undo_chain(subs.subrange(k + 1, subs.len() as int), ms)
    &&& subs[k].undo_gives(ms.last(), after, r)
}

/// The `i`-th of `cs` undoes a step from `to` to `from`: its inverse delta,
/// run on any model showing what `from` shows, succeeds and gives back what
/// `to` showed, and the step can be redone from there.
pub open spec fn undoes_at(cs: Seq<Box<dyn Command>>, i: int, from: Model, to: Model) -> bool {
    &&& forall|b: Model| same_view(b, from) ==> #[trigger] cs[i].redoable_from(b)
    &&& forall|b: Model, m: Model, u: Result<(), Error>|
        same_view(b, from) && #[trigger] cs[i].undo_gives(b, m, u) ==> u is Ok && same_view(m, to)
}

/// The `i`-th of `cs` redoes a step from `to` to `from`: its forward delta,
/// run on any model showing what `from` shows, succeeds and gives back what
/// `to` showed, and the step can be undone again from there.
pub open spec fn redoes_at(cs: Seq<Box<dyn Command>>, i: int, from: Model, to: Model) -> bool {
    &&& forall|b: Model| same_view(b, from) ==> #[trigger] cs[i].undoable_from(b)
    &&& forall|b: Model, m: Model, u: Result<(), Error>|
        same_view(b, from) && #[trigger] cs[i].redo_gives(b, m, u) ==> u is Ok && same_view(m, to)
}

/// A rollback: the inverse deltas of `cs` run from the last down, through
/// the models `rs` from `mid`. With `stopped` empty every one succeeds and
/// the last model is `after`; with `stopped == Some((j, e2))` they succeed
/// down to the one after index `j`, and the one at `j` fails with `e2`,
/// leaving `after`.
pub open spec fn rolled_back(cs: Seq<Box<dyn Command>>, rs: Seq<Model>, mid: Model, after: Model, stopped: Option<(int, Error)>) -> bool {
    &&& rs.len() >= 1
    &&& rs[0] == mid
    &&& match stopped {
        None => undo_chain(cs, rs) && rs.last() == after,
        Some((j, e2)) => undo_stops_at(cs, j, rs, after, Err(e2)),
    }
}

/// A roll-forward: the forward deltas of `cs` run in order, through the
/// models `fs` from `mid`. With `stopped` empty every one succeeds and the
/// last model is `after`; with `stopped == Some((j, e2))` they succeed up
/// to the one before index `j`, and the one at `j` fails with `e2`, leaving
/// `after`.
pub open spec fn rolled_forward(cs: Seq<Box<dyn Command>>, fs: Seq<Model>, mid: Model, after: Model, stopped: Option<(int, Error)>) -> bool {
    &&& fs.len() >= 1
    &&& fs[0] == mid
    &&& match stopped {
        None => redo_chain(cs, fs) && fs.last() == after,
        Some((j, e2)) => redo_fails_at(cs, j, fs, after, e2),
    }
}

/// A batch redo that failed and answered `x`: from `before`, the forward
/// deltas of `subs` succeed through `ms` up to the `k`-th, which fails with
/// `e` and leaves `mid`. The `k` sub-commands applied, as their forward
/// deltas left them (`cs`, each with the actor of its original), are then
/// rolled back from `mid` to `after`, last first. The answer is `e` when the
/// rollback completed and `BatchRollbackFailed` when it stopped. Each of
/// `cs` undoes its step where that step can be undone exactly; when every
/// applied step can, and the failing one left the model as it found it, the
/// rollback completes, the answer is `e`, and the model shows what it showed
/// before the batch.
pub open spec fn batch_redo_failed(
    subs: Seq<Box<dyn Command>>,
    before: Model,
    after: Model,
    x: Error,
    k: int,
    ms: Seq<Model>,
    mid: Model,
    e: Error,
    cs: Seq<Box<dyn Command>>,
    rs: Seq<Model>,
    stopped: Option<(int, Error)>,
) -> bool {
    &&& redo_fails_at(subs, k, ms, mid, e)
    &&& ms[0] == before
    &&& cs.len() == k
    &&& forall|i: int| 0 <= i < k ==> #[trigger] cs[i].spec_actor() == subs[i].spec_actor()
    &&& forall|i: int| 0 <= i < k && #[trigger] subs[i].undoable_from(ms[i]) ==> undoes_at(cs, i, ms[i + 1], ms[i])
    &&& (forall|i: int| 0 <= i < k ==> #[trigger] subs[i].undoable_from(ms[i])) && same_view(mid, ms[k])
        ==> stopped is None && x == e && same_view(after, before)
    &&& rolled_back(cs, rs, mid, after, stopped)
    &&& stopped is None ==> x == e
    &&& stopped matches Some((j, e2)) ==> x is BatchRollbackFailed && exists|t: Seq<char>|
        x->BatchRollbackFailed_reason@ == #[trigger] batch_failure_text("redo"@, k as nat, t, "rollback of"@, j as nat)
}

/// A batch undo that failed and answered `x`: from `before`, the inverse
/// deltas of `subs` succeed through `ms` from the last down to the one
/// after the `k`-th, which fails with `e` and leaves `mid`. The sub-commands
/// undone, as their inverse deltas left them (`cs`, in index order, each
/// with the actor of its original), are then re-applied in order from `mid`
/// to `after`. The answer is `e` when that roll-forward completed and
/// `BatchRollbackFailed` when it stopped. Each of `cs` redoes its step where
/// that step can be redone exactly; when every undone step can, and the
/// failing one left the model as it found it, the roll-forward completes,
/// the answer is `e`, and the model shows what it showed before the batch.
pub open spec fn batch_undo_failed(
    subs: Seq<Box<dyn Command>>,
    before: Model,
    after: Model,
    x: Error,
    k: int,
    ms: Seq<Model>,
    mid: Model,
    e: Error,
    cs: Seq<Box<dyn Command>>,
    fs: Seq<Model>,
    stopped: Option<(int, Error)>,
) -> bool {
    &&& undo_stops_at(subs, k, ms, mid, Err(e))
    &&& ms[0] == before
    &&& cs.len() == subs.len() - 1 - k
    &&& forall|i: int| 0 <= i < cs.len() ==> #[trigger] cs[i].spec_actor() == subs[k + 1 + i].spec_actor()
    &&& forall|i: int| 0 <= i < cs.len() && #[trigger] subs[k + 1 + i].redoable_from(ms[ms.len() - 2 - i])
        ==> redoes_at(cs, i, ms[ms.len() - 1 - i], ms[ms.len() - 2 - i])
    &&& (forall|i: int| 0 <= i < cs.len() ==> #[trigger] subs[k + 1 + i].redoable_from(ms[ms.len() - 2 - i]))
        && same_view(mid, ms.last()) ==> stopped is None && x == e && same_view(after, before)
    &&& rolled_forward(cs, fs, mid, after, stopped)
    &&& stopped is None ==> x == e
    &&& stopped matches Some((j, e2)) ==> x is BatchRollbackFailed && exists|t: Seq<char>|
        x->BatchRollbackFailed_reason@ == #[trigger] batch_failure_text("undo"@, k as nat, t, "re-applying"@, (k + 1 + j) as nat)
}

/// What the forward delta of a batch of `subs`, run on `before`, may give.
pub open spec fn batch_redo_gives(subs: Seq<Box<dyn Command>>, before: Model, after: Model, r: Result<(), Error>) -> bool {
    &&& subs.len() == 0 ==> r is Ok && after == before
    &&& r is Ok ==> exists|ms: Seq<Model>| #[trigger] redo_chain(subs, ms) && ms[0] == before && ms.last() == after
    &&& r matches Err(x) ==> exists|
        k: int,
        ms: Seq<Model>,
        mid: Model,
        e: Error,
        cs: Seq<Box<dyn Command>>,
        rs: Seq<Model>,
        stopped: Option<(int, Error)>,
    | #[trigger] batch_redo_failed(subs, before, after, x, k, ms, mid, e, cs, rs, stopped)
}

/// What the inverse delta of a batch of `subs`, run on `before`, may give.
pub open spec fn batch_undo_gives(subs: Seq<Box<dyn Command>>, before: Model, after: Model, r: Result<(), Error>) -> bool {
    &&& subs.len() == 0 ==> r is Ok && after == before
    &&& r is Ok ==> exists|ms: Seq<Model>| #[trigger] undo_chain(subs, ms) && ms[0] == before && ms.last() == after
    &&& r matches Err(x) ==> exists|
        k: int,
        ms: Seq<Model>,
        mid: Model,
        e: Error,
        cs: Seq<Box<dyn Command>>,
        fs: Seq<Model>,
        stopped: Option<(int, Error)>,
    | #[trigger] batch_undo_failed(subs, before, after, x, k, ms, mid, e, cs, fs, stopped)
}

/// A batch of `subs` can be undone exactly from `before`: along every run of
/// its forward deltas from `before`, each step can be undone exactly.
pub open spec fn subs_undoable_from(subs: Seq<Box<dyn Command>>, before: Model) -> bool {
    forall|ms: Seq<Model>| #[trigger] redo_chain(subs, ms) && ms[0] == before
        ==> forall|i: int| 0 <= i < subs.len() ==> #[trigger] subs[i].undoable_from(ms[i])
}

/// A batch of `subs` can be redone exactly from `before`: along every run of
/// its inverse deltas from `before`, each step can be redone exactly.
pub open spec fn subs_redoable_from(subs: Seq<Box<dyn Command>>, before: Model) -> bool {
    forall|ms: Seq<Model>| #[trigger] undo_chain(subs, ms) && ms[0] == before
        ==> forall|i: int| 0 <= i < subs.len() ==> #[trigger] subs[i].redoable_from(ms[subs.len() - 1 - i])
}

/// A run of inverse deltas of `cs` (from index `p` up, last first) that starts
/// on a model showing what `ms` ends with follows `ms` backwards, when each of
/// `cs` undoes its step of `ms`.
proof fn lemma_undo_chain_tracks(cs: Seq<Box<dyn Command>>, ms: Seq<Model>, p: int, ws: Seq<Model>, t: int)
    requires
        ms.len() == cs.len() + 1,
        0 <= p <= cs.len(),
        forall|i: int| 0 <= i < cs.len() ==> #[trigger] undoes_at(cs, i, ms[i + 1], ms[i]),
        undo_chain(cs.subrange(p, cs.len() as int), ws),
        same_view(ws[0], ms[cs.len() as int]),
        0 <= t < ws.len(),
    ensures
        same_view(ws[t], ms[cs.len() - t]),
    decreases t,
{
    if t > 0 {
        lemma_undo_chain_tracks(cs, ms, p, ws, t - 1);
        let s = cs.subrange(p, cs.len() as int);
        let n = cs.len() as int;
        let k = t - 1;
        assert(0 <= k < s.len());
        assert(s[s.len() - 1 - k].undo_gives(ws[k], ws[k + 1], Ok(())));
        assert(s[s.len() - 1 - k] == cs[n - t]);
        assert(undoes_at(cs, n - t, ms[n - t + 1], ms[n - t]));
    }
}

/// A run of forward deltas of `ds` (up to index `p`, in order) that starts on
/// a model showing what `ms` ends with follows `ms` backwards, when each of
/// `ds` redoes its step of `ms` (`ds[i]` was undone from `ms[n - 1 - i]`).
proof fn lemma_redo_chain_tracks(ds: Seq<Box<dyn Command>>, ms: Seq<Model>, p: int, ws: Seq<Model>, t: int)
    requires
        ms.len() == ds.len() + 1,
        0 <= p <= ds.len(),
        forall|i: int| 0 <= i < ds.len() ==> #[trigger] redoes_at(ds, i, ms[ds.len() - i], ms[ds.len() - 1 - i]),
        redo_chain(ds.take(p), ws),
        same_view(ws[0], ms[ds.len() as int]),
        0 <= t < ws.len(),
    ensures
        same_view(ws[t], ms[ds.len() - t]),
    decreases t,
{
    if t > 0 {
        lemma_redo_chain_tracks(ds, ms, p, ws, t - 1);
        let n = ds.len() as int;
        let k = t - 1;
        assert(0 <= k < ds.take(p).len());
        assert(ds.take(p)[k].redo_gives(ws[k], ws[k + 1], Ok(())));
        assert(ds.take(p)[k] == ds[t - 1]);
        assert(redoes_at(ds, t - 1, ms[n - (t - 1)], ms[n - 1 - (t - 1)]));
    }
}

/// After a run of forward deltas of a batch along `ms`, where each of the
/// commands they left (`cs`) undoes its step, the batch of `cs` undoes the
/// whole run: its inverse delta, from any model showing what the run gave,
/// succeeds and gives back what it started from, and can be redone.
proof fn lemma_batch_redo_undoable(cs: Seq<Box<dyn Command>>, ms: Seq<Model>)
    requires
        ms.len() == cs.len() + 1,
        forall|i: int| 0 <= i < cs.len() ==> #[trigger] undoes_at(cs, i, ms[i + 1], ms[i]),
    ensures
        forall|b: Model| same_view(b, ms.last()) ==> #[trigger] subs_redoable_from(cs, b),
        forall|b: Model, m: Model, u: Result<(), Error>|
            same_view(b, ms.last()) && #[trigger] batch_undo_gives(cs, b, m, u) ==> u is Ok && same_view(m, ms[0]),
{
    let n = cs.len() as int;
    assert(cs.subrange(0, n) == cs);
    assert forall|b: Model| same_view(b, ms.last()) implies #[trigger] subs_redoable_from(cs, b) by {
        assert forall|ws: Seq<Model>| #[trigger] undo_chain(cs, ws) && ws[0] == b
            implies forall|i: int| 0 <= i < cs.len() ==> #[trigger] cs[i].redoable_from(ws[cs.len() - 1 - i]) by {
            assert forall|i: int| 0 <= i < cs.len() implies #[trigger] cs[i].redoable_from(ws[cs.len() - 1 - i]) by {
                lemma_undo_chain_tracks(cs, ms, 0, ws, n - 1 - i);
                assert(undoes_at(cs, i, ms[i + 1], ms[i]));
            }
        }
    }
    assert forall|b: Model, m: Model, u: Result<(), Error>|
        same_view(b, ms.last()) && #[trigger] batch_undo_gives(cs, b, m, u) implies u is Ok && same_view(m, ms[0]) by {
        if n == 0 {
        } else if u is Ok {
            let ws = choose|ws: Seq<Model>| #[trigger] undo_chain(cs, ws) && ws[0] == b && ws.last() == m;
            lemma_undo_chain_tracks(cs, ms, 0, ws, n);
        } else {
            let x = u->Err_0;
            let (k, ws, mid, e, fc, fs, stopped) = choose|
                k: int,
                ws: Seq<Model>,
                mid: Model,
                e: Error,
                fc: Seq<Box<dyn Command>>,
                fs: Seq<Model>,
                stopped: Option<(int, Error)>,
            | #[trigger] batch_undo_failed(cs, b, m, x, k, ws, mid, e, fc, fs, stopped);
            lemma_undo_chain_tracks(cs, ms, k + 1, ws, ws.len() - 1);
            assert(undoes_at(cs, k, ms[k + 1], ms[k]));
            assert(cs[k].undo_gives(ws.last(), mid, Err(e)));
        }
    }
}

/// After a run of inverse deltas of a batch along `ms`, where each of the
/// commands they left (`ds`) redoes its step, the batch of `ds` redoes the
/// whole run.
proof fn lemma_batch_undo_redoable(ds: Seq<Box<dyn Command>>, ms: Seq<Model>)
    requires
        ms.len() == ds.len() + 1,
        forall|i: int| 0 <= i < ds.len() ==> #[trigger] redoes_at(ds, i, ms[ds.len() - i], ms[ds.len() - 1 - i]),
    ensures
        forall|b: Model| same_view(b, ms.last()) ==> #[trigger] subs_undoable_from(ds, b),
        forall|b: Model, m: Model, u: Result<(), Error>|
            same_view(b, ms.last()) && #[trigger] batch_redo_gives(ds, b, m, u) ==> u is Ok && same_view(m, ms[0]),
{
    let n = ds.len() as int;
    assert(ds.take(n) == ds);
    assert forall|b: Model| same_view(b, ms.last()) implies #[trigger] subs_undoable_from(ds, b) by {
        assert forall|ws: Seq<Model>| #[trigger] redo_chain(ds, ws) && ws[0] == b
            implies forall|i: int| 0 <= i < ds.len() ==> #[trigger] ds[i].undoable_from(ws[i]) by {
            assert forall|i: int| 0 <= i < ds.len() implies #[trigger] ds[i].undoable_from(ws[i]) by {
                lemma_redo_chain_tracks(ds, ms, n, ws, i);
                assert(redoes_at(ds, i, ms[n - i], ms[n - 1 - i]));
            }
        }
    }
    assert forall|b: Model, m: Model, u: Result<(), Error>|
        same_view(b, ms.last()) && #[trigger] batch_redo_gives(ds, b, m, u) implies u is Ok && same_view(m, ms[0]) by {
        if n == 0 {
        } else if u is Ok {
            let ws = choose|ws: Seq<Model>| #[trigger] redo_chain(ds, ws) && ws[0] == b && ws.last() == m;
            lemma_redo_chain_tracks(ds, ms, n, ws, n);
        } else {
            let x = u->Err_0;
            let (k, ws, mid, e, fc, rs, stopped) = choose|
                k: int,
                ws: Seq<Model>,
                mid: Model,
                e: Error,
                fc: Seq<Box<dyn Command>>,
                rs: Seq<Model>,
                stopped: Option<(int, Error)>,
            | #[trigger] batch_redo_failed(ds, b, m, x, k, ws, mid, e, fc, rs, stopped);
            lemma_redo_chain_tracks(ds, ms, k, ws, k);
            assert(redoes_at(ds, k, ms[n - k], ms[n - 1 - k]));
            assert(ds[k].redo_gives(ws.last(), mid, Err(e)));
        }
    }
}

/// A batch wraps sub-commands so they undo and redo as one unit.
///
/// `redo` applies the sub-commands in order; if one fails, those already
/// applied are undone in reverse order before the error is returned (if that
/// rollback fails too, `BatchRollbackFailed` replaces the error). `undo`
/// reverses the sub-commands in reverse order; if one fails, those already
/// undone are re-applied in order before the error is returned (if that
/// roll-forward fails too, `BatchRollbackFailed` replaces the error).
pub struct BatchCommand {
    sub: Vec<Box<dyn Command>>,
    actor: Actor,
}

impl BatchCommand {
    /// The sub-commands, in order.
    pub closed spec fn subs(&self) -> Seq<Box<dyn Command>> {
        self.sub@
    }

    /// The number of sub-commands.
    pub open spec fn size(&self) -> nat {
        self.subs().len()
    }

    /// Create a batch from sub-commands, all tagged with `actor`.
    pub fn new(sub: Vec<Box<dyn Command>>, actor: Actor) -> (c: Self)
        ensures
            c.subs() == sub@,
            c.spec_actor() == actor,
    {
        BatchCommand { sub, actor }
    }
}

impl Command for BatchCommand {
    closed spec fn spec_actor(&self) -> Actor {
        self.actor
    }

    open spec fn redo_gives(&self, before: Model, after: Model, r: Result<(), Error>) -> bool {
        batch_redo_gives(self.subs(), before, after, r)
    }

    open spec fn undo_gives(&self, before: Model, after: Model, r: Result<(), Error>) -> bool {
        batch_undo_gives(self.subs(), before, after, r)
    }

    open spec fn undoable_from(&self, before: Model) -> bool {
        subs_undoable_from(self.subs(), before)
    }

    open spec fn redoable_from(&self, before: Model) -> bool {
        subs_redoable_from(self.subs(), before)
    }

    fn redo(&mut self, model: &mut Model) -> (r: Result<(), Error>)
        ensures
            final(self).size() == old(self).size(),
            old(self).size() == 0 ==> r is Ok && *final(model) == *old(model),
    {
        let n = self.sub.len();
        let mut i: usize = 0;
        let ghost mut ms: Seq<Model> = seq![*model];
        proof {
            assert(redo_chain(old(self).sub@.take(0), ms));
        }
        while i < n
            invariant
                model.wf(),
                n == self.sub@.len(),
                n == old(self).sub@.len(),
                i <= n,
                self.actor == old(self).actor,
                n == 0 ==> *model == *old(model),
                forall|k: int| i <= k < n ==> self.sub@[k] == old(self).sub@[k],
                forall|k: int| 0 <= k < i ==> #[trigger] self.sub@[k].spec_actor() == old(self).sub@[k].spec_actor(),
                forall|k: int| 0 <= k < i && #[trigger] old(self).sub@[k].undoable_from(ms[k])
                    ==> undoes_at(self.sub@, k, ms[k + 1], ms[k]),
                redo_chain(old(self).sub@.take(i as int), ms),
                ms[0] == *old(model),
                ms.last() == *model,
            decreases n - i,
        {
            let ghost m_before = *model;
            let ghost c = self.sub@[i as int];
            let ghost subs_before = self.sub@;
            let res = self.sub[i].redo(model);
            proof {
                assert forall|k: int| 0 <= k < i + 1 implies #[trigger] self.sub@[k].spec_actor() == old(self).sub@[k].spec_actor() by {
                    if k < i {
                        assert(self.sub@[k] == subs_before[k]);
                    }
                }
                assert forall|k: int| 0 <= k < i && #[trigger] old(self).sub@[k].undoable_from(ms[k])
                    implies undoes_at(self.sub@, k, ms[k + 1], ms[k]) by {
                    assert(self.sub@[k] == subs_before[k]);
                    assert(undoes_at(subs_before, k, ms[k + 1], ms[k]));
                }
                if res is Ok {
                    assert(c.redo_gives(m_before, *model, res));
                    let u: () = res->Ok_0;
                    assert(u == ());
                    assert(res == Ok::<(), Error>(()));
                    let ms2 = ms.push(*model);
                    if c.undoable_from(m_before) {
                        assert(undoes_at(self.sub@, i as int, *model, m_before));
                    }
                    assert forall|k: int| 0 <= k < i + 1 && #[trigger] old(self).sub@[k].undoable_from(ms2[k])
                        implies undoes_at(self.sub@, k, ms2[k + 1], ms2[k]) by {
                        if k < i {
                            assert(ms2[k] == ms[k] && ms2[k + 1] == ms[k + 1]);
                        } else {
                            assert(ms2[k] == m_before && ms2[k + 1] == *model);
                        }
                    }
                    let t = old(self).sub@.take(i + 1);
                    assert forall|k: int| 0 <= k < t.len() implies #[trigger] t[k].redo_gives(ms2[k], ms2[k + 1], Ok(())) by {
                        if k < i {
                            assert(old(self).sub@.take(i as int)[k] == t[k]);
                            assert(ms2[k] == ms[k] && ms2[k + 1] == ms[k + 1]);
                        } else {
                            assert(t[k] == old(self).sub@[i as int]);
                            assert(ms2[k] == m_before && ms2[k + 1] == *model);
                        }
                    }
                    ms = ms2;
                }
            }
            if let Err(err) = res {
                let ghost mid = *model;
                let ghost cs = self.sub@.take(i as int);
                let ghost mut rs: Seq<Model> = seq![*model];
                let ghost allg = (forall|t: int| 0 <= t < i ==> #[trigger] old(self).sub@[t].undoable_from(ms[t]))
                    && same_view(mid, ms[i as int]);
                proof {
                    assert forall|k: int| 0 <= k < i && #[trigger] old(self).sub@[k].undoable_from(ms[k])
                        implies undoes_at(cs, k, ms[k + 1], ms[k]) by {
                        assert(cs[k] == self.sub@[k]);
                        assert(undoes_at(self.sub@, k, ms[k + 1], ms[k]));
                    }
                    assert(c == old(self).sub@[i as int]);
                    assert(redo_fails_at(old(self).sub@, i as int, ms, mid, err));
                    assert(undo_chain(cs.subrange(i as int, i as int), rs));
                    assert forall|k: int| 0 <= k < i implies #[trigger] cs[k].spec_actor() == old(self).sub@[k].spec_actor() by {
                        assert(cs[k] == self.sub@[k]);
                    }
                }
                let mut j = i;
                while j > 0
                    invariant
                        model.wf(),
                        n == self.sub@.len(),
                        n == old(self).sub@.len(),
                        j <= i,
                        i < n,
                        cs.len() == i,
                        forall|k: int| 0 <= k < i ==> #[trigger] cs[k].spec_actor() == old(self).sub@[k].spec_actor(),
                        forall|k: int| 0 <= k < i && #[trigger] old(self).sub@[k].undoable_from(ms[k])
                            ==> undoes_at(cs, k, ms[k + 1], ms[k]),
                        allg == ((forall|t: int| 0 <= t < i ==> #[trigger] old(self).sub@[t].undoable_from(ms[t]))
                            && same_view(mid, ms[i as int])),
                        allg ==> same_view(*model, ms[j as int]),
                        ms.len() == i + 1,
                        self.actor == old(self).actor,
                        forall|k: int| 0 <= k < j ==> self.sub@[k] == cs[k],
                        redo_fails_at(old(self).sub@, i as int, ms, mid, err),
                        ms[0] == *old(model),
                        rs.len() >= 1,
                        rs[0] == mid,
                        undo_chain(cs.subrange(j as int, i as int), rs),
                        rs.last() == *model,
                    decreases j,
                {
                    j = j - 1;
                    let ghost m_before_undo = *model;
                    let ghost cj = self.sub@[j as int];
                    let ures = self.sub[j].undo(model);
                    proof {
                        assert(cj == cs[j as int]);
                        assert(cj.undo_gives(m_before_undo, *model, ures));
                        if allg {
                            assert(old(self).sub@[j as int].undoable_from(ms[j as int]));
                            assert(undoes_at(cs, j as int, ms[j + 1], ms[j as int]));
                        }
                    }
                    if let Err(e2) = ures {
                        proof {
                            assert(cs.subrange(j + 1, i as int) == cs.subrange(j + 1, cs.len() as int));
                            assert(undo_stops_at(cs, j as int, rs, *model, Err(e2)));
                            assert(rolled_back(cs, rs, mid, *model, Some((j as int, e2))));
                        }
                        let reason = rollback_failure_reason(i, &err, j);
                        let x = Error::BatchRollbackFailed { reason };
                        proof {
                            let tx = choose|tx: Seq<char>| reason@ == #[trigger] batch_failure_text("redo"@, i as nat, tx, "rollback of"@, j as nat);
                            assert(x->BatchRollbackFailed_reason@ == batch_failure_text("redo"@, i as nat, tx, "rollback of"@, j as nat));
                            let ki: int = i as int;
                            let ji: int = j as int;
                            assert(x->BatchRollbackFailed_reason@ == batch_failure_text("redo"@, ki as nat, tx, "rollback of"@, ji as nat));
                            assert(batch_redo_failed(old(self).subs(), *old(model), *model, x, i as int, ms, mid, err, cs, rs, Some((j as int, e2))));
                        }
                        return Err(x);
                    }
                    proof {
                        let u: () = ures->Ok_0;
                        assert(u == ());
                        assert(ures == Ok::<(), Error>(()));
                        let rs2 = rs.push(*model);
                        let t = cs.subrange(j as int, i as int);
                        let t0 = cs.subrange(j + 1, i as int);
                        assert forall|k: int| 0 <= k < t.len() implies #[trigger] t[t.len() - 1 - k].undo_gives(rs2[k], rs2[k + 1], Ok(())) by {
                            if k < t0.len() {
                                assert(t0[t0.len() - 1 - k] == t[t.len() - 1 - k]);
                            } else {
                                assert(t[t.len() - 1 - k] == cs[j as int]);
                                assert(rs2[k] == m_before_undo && rs2[k + 1] == *model);
                            }
                        }
                        rs = rs2;
                    }
                }
                proof {
                    assert(cs.subrange(0, i as int) =~= cs);
                    assert(rolled_back(cs, rs, mid, *model, None));
                    assert(batch_redo_failed(old(self).subs(), *old(model), *model, err, i as int, ms, mid, err, cs, rs, None));
                }
                return Err(err);
            }
            i = i + 1;
        }
        proof {
            assert(old(self).sub@.take(n as int) =~= old(self).sub@);
            assert(redo_chain(old(self).subs(), ms));
            if old(self).undoable_from(*old(model)) {
                assert(forall|k: int| 0 <= k < n ==> #[trigger] old(self).sub@[k].undoable_from(ms[k]));
                assert forall|k: int| 0 <= k < n implies #[trigger] undoes_at(self.sub@, k, ms[k + 1], ms[k]) by {
                    assert(old(self).sub@[k].undoable_from(ms[k]));
                }
                lemma_batch_redo_undoable(self.sub@, ms);
            }
        }
        Ok(())
    }

    fn undo(&mut self, model: &mut Model) -> (r: Result<(), Error>)
        ensures
            final(self).size() == old(self).size(),
            old(self).size() == 0 ==> r is Ok && *final(model) == *old(model),
    {
        let n = self.sub.len();
        let mut j = n;
        let ghost mut ms: Seq<Model> = seq![*model];
        proof {
            assert(undo_chain(old(self).sub@.subrange(n as int, n as int), ms));
        }
        while j > 0
            invariant
                model.wf(),
                n == self.sub@.len(),
                n == old(self).sub@.len(),
                j <= n,
                self.actor == old(self).actor,
                n == 0 ==> *model == *old(model),
                forall|k: int| 0 <= k < j ==> self.sub@[k] == old(self).sub@[k],
                forall|k: int| j <= k < n ==> #[trigger] self.sub@[k].spec_actor() == old(self).sub@[k].spec_actor(),
                forall|k: int| j <= k < n && #[trigger] old(self).sub@[k].redoable_from(ms[n - 1 - k])
                    ==> redoes_at(self.sub@, k, ms[n - k], ms[n - 1 - k]),
                undo_chain(old(self).sub@.subrange(j as int, n as int), ms),
                ms[0] == *old(model),
                ms.last() == *model,
            decreases j,
        {
            j = j - 1;
            let ghost m_before = *model;
            let ghost c = self.sub@[j as int];
            let ghost subs_before = self.sub@;
            let res = self.sub[j].undo(model);
            proof {
                assert forall|k: int| j <= k < n implies #[trigger] self.sub@[k].spec_actor() == old(self).sub@[k].spec_actor() by {
                    if k > j {
                        assert(self.sub@[k] == subs_before[k]);
                    }
                }
                assert forall|k: int| j < k < n && #[trigger] old(self).sub@[k].redoable_from(ms[n - 1 - k])
                    implies redoes_at(self.sub@, k, ms[n - k], ms[n - 1 - k]) by {
                    assert(self.sub@[k] == subs_before[k]);
                    assert(redoes_at(subs_before, k, ms[n - k], ms[n - 1 - k]));
                }
            }
            if let Err(err) = res {
                let ghost mid = *model;
                let ghost cs = self.sub@.subrange(j + 1, n as int);
                let ghost mut fs: Seq<Model> = seq![*model];
                let ghost allg = (forall|i: int| 0 <= i < n - j - 1
                    ==> #[trigger] old(self).sub@[j + 1 + i].redoable_from(ms[ms.len() - 2 - i]))
                    && same_view(mid, ms.last());
                proof {
                    assert(ms.len() == n - j);
                    assert forall|i: int| 0 <= i < cs.len() && #[trigger] old(self).sub@[j + 1 + i].redoable_from(ms[ms.len() - 2 - i])
                        implies redoes_at(cs, i, ms[ms.len() - 1 - i], ms[ms.len() - 2 - i]) by {
                        assert(cs[i] == self.sub@[j + 1 + i]);
                        assert(old(self).sub@[j + 1 + i].redoable_from(ms[n - 1 - (j + 1 + i)]));
                        assert(redoes_at(self.sub@, j + 1 + i, ms[n - (j + 1 + i)], ms[n - 1 - (j + 1 + i)]));
                    }
                    assert(c == old(self).sub@[j as int]);
                    assert(old(self).sub@.subrange(j + 1, n as int) == old(self).sub@.subrange(j + 1, old(self).sub@.len() as int));
                    assert(undo_stops_at(old(self).sub@, j as int, ms, mid, Err(err)));
                    assert(redo_chain(cs.take(0), fs));
                    assert forall|k: int| 0 <= k < cs.len() implies #[trigger] cs[k].spec_actor() == old(self).sub@[j + 1 + k].spec_actor() by {
                        assert(cs[k] == self.sub@[j + 1 + k]);
                    }
                }
                let mut t = j + 1;
                while t < n
                    invariant
                        model.wf(),
                        n == self.sub@.len(),
                        n == old(self).sub@.len(),
                        j < t <= n,
                        cs.len() == n - j - 1,
                        forall|k: int| 0 <= k < cs.len() ==> #[trigger] cs[k].spec_actor() == old(self).sub@[j + 1 + k].spec_actor(),
                        ms.len() == n - j,
                        forall|i: int| 0 <= i < cs.len() && #[trigger] old(self).sub@[j + 1 + i].redoable_from(ms[ms.len() - 2 - i])
                            ==> redoes_at(cs, i, ms[ms.len() - 1 - i], ms[ms.len() - 2 - i]),
                        allg == ((forall|i: int| 0 <= i < n - j - 1
                            ==> #[trigger] old(self).sub@[j + 1 + i].redoable_from(ms[ms.len() - 2 - i]))
                            && same_view(mid, ms.last())),
                        allg ==> same_view(*model, ms[n - t]),
                        self.actor == old(self).actor,
                        forall|k: int| t <= k < n ==> self.sub@[k] == cs[k - j - 1],
                        undo_stops_at(old(self).sub@, j as int, ms, mid, Err(err)),
                        ms[0] == *old(model),
                        fs.len() >= 1,
                        fs[0] == mid,
                        redo_chain(cs.take(t - j - 1), fs),
                        fs.last() == *model,
                    decreases n - t,
                {
                    let ghost m_before_redo = *model;
                    let ghost ct = self.sub@[t as int];
                    let fres = self.sub[t].redo(model);
                    proof {
                        assert(ct == cs[t - j - 1]);
                        assert(ct.redo_gives(m_before_redo, *model, fres));
                        if allg {
                            let i = t - j - 1;
                            assert(old(self).sub@[j + 1 + i].redoable_from(ms[ms.len() - 2 - i]));
                            assert(redoes_at(cs, i, ms[ms.len() - 1 - i], ms[ms.len() - 2 - i]));
                            assert(ms.len() - 1 - i == n - t);
                        }
                    }
                    if let Err(e2) = fres {
                        proof {
                            assert(redo_fails_at(cs, t - j - 1, fs, *model, e2));
                            assert(rolled_forward(cs, fs, mid, *model, Some((t - j - 1, e2))));
                        }
                        let reason = rollforward_failure_reason(j, &err, t);
                        let x = Error::BatchRollbackFailed { reason };
                        proof {
                            let tx = choose|tx: Seq<char>| reason@ == #[trigger] batch_failure_text("undo"@, j as nat, tx, "re-applying"@, t as nat);
                            let kj: int = j as int;
                            let sj: int = t - j - 1;
                            assert(x->BatchRollbackFailed_reason@ == batch_failure_text("undo"@, kj as nat, tx, "re-applying"@, (kj + 1 + sj) as nat));
                            assert(batch_undo_failed(old(self).subs(), *old(model), *model, x, j as int, ms, mid, err, cs, fs, Some((t - j - 1, e2))));
                        }
                        return Err(x);
                    }
                    proof {
                        let u: () = fres->Ok_0;
                        assert(u == ());
                        assert(fres == Ok::<(), Error>(()));
                        let fs2 = fs.push(*model);
                        let q = cs.take(t - j);
                        assert forall|k: int| 0 <= k < q.len() implies #[trigger] q[k].redo_gives(fs2[k], fs2[k + 1], Ok(())) by {
                            if k < t - j - 1 {
                                assert(cs.take(t - j - 1)[k] == q[k]);
                                assert(fs2[k] == fs[k] && fs2[k + 1] == fs[k + 1]);
                            } else {
                                assert(q[k] == cs[t - j - 1]);
                                assert(fs2[k] == m_before_redo && fs2[k + 1] == *model);
                            }
                        }
                        fs = fs2;
                    }
                    t = t + 1;
                }
                proof {
                    assert(cs.take(n - j - 1) =~= cs);
                    assert(rolled_forward(cs, fs, mid, *model, None));
                    assert(batch_undo_failed(old(self).subs(), *old(model), *model, err, j as int, ms, mid, err, cs, fs, None));
                }
                return Err(err);
            }
            proof {
                let u: () = res->Ok_0;
                assert(u == ());
                assert(res == Ok::<(), Error>(()));
                assert(c.undo_gives(m_before, *model, Ok(())));
                let ms2 = ms.push(*model);
                if c.redoable_from(m_before) {
                    assert(redoes_at(self.sub@, j as int, *model, m_before));
                }
                assert forall|k: int| j <= k < n && #[trigger] old(self).sub@[k].redoable_from(ms2[n - 1 - k])
                    implies redoes_at(self.sub@, k, ms2[n - k], ms2[n - 1 - k]) by {
                    if k > j {
                        assert(ms2[n - 1 - k] == ms[n - 1 - k] && ms2[n - k] == ms[n - k]);
                    } else {
                        assert(ms2[n - 1 - k] == m_before && ms2[n - k] == *model);
                    }
                }
                let t = old(self).sub@.subrange(j as int, n as int);
                let t0 = old(self).sub@.subrange(j + 1, n as int);
                assert forall|k: int| 0 <= k < t.len() implies #[trigger] t[t.len() - 1 - k].undo_gives(ms2[k], ms2[k + 1], Ok(())) by {
                    if k < t0.len() {
                        assert(t0[t0.len() - 1 - k] == t[t.len() - 1 - k]);
                    } else {
                        assert(t[t.len() - 1 - k] == old(self).sub@[j as int]);
                        assert(ms2[k] == m_before && ms2[k + 1] == *model);
                    }
                }
                ms = ms2;
            }
        }
        proof {
            assert(old(self).sub@.subrange(0, n as int) =~= old(self).sub@);
            assert(undo_chain(old(self).subs(), ms));
            if old(self).redoable_from(*old(model)) {
                assert(forall|k: int| 0 <= k < n ==> #[trigger] old(self).sub@[k].redoable_from(ms[n - 1 - k]));
                assert forall|k: int| 0 <= k < n implies #[trigger] redoes_at(self.sub@, k, ms[n - k], ms[n - 1 - k]) by {
                    assert(old(self).sub@[k].redoable_from(ms[n - 1 - k]));
                }
                lemma_batch_undo_redoable(self.sub@, ms);
            }
        }
        Ok(())
    }

    fn label(&self) -> (s: &'static str)
        ensures
            s@ == "batch"@,
    {
        "batch"
    }

    fn actor(&self) -> (a: Actor) {
        self.actor.clone()
    }
}

/// One entry of the stack: a command and the actor recorded for it.
struct Entry<C: ?Sized> {
    actor: Actor,
    cmd: Box<C>,
}

/// The actor tags of a sequence of entries.
spec fn tags_of(s: Seq<Entry<dyn Command>>) -> Seq<Actor> {
    Seq::new(s.len(), |i: int| s[i].actor)
}

/// The commands of a sequence of entries.
spec fn cmds_of(s: Seq<Entry<dyn Command>>) -> Seq<Box<dyn Command>> {
    Seq::new(s.len(), |i: int| s[i].cmd)
}

/// The undo stack after pushing onto it: the oldest entry is evicted first
/// when the stack is at its depth; a stack of depth 0 keeps nothing.
pub open spec fn pushed_bounded(s: Seq<Actor>, depth: nat, a: Actor) -> Seq<Actor> {
    if depth == 0 {
        Seq::empty()
    } else if s.len() >= depth {
        s.drop_first().push(a)
    } else {
        s.push(a)
    }
}

/// The bounded undo/redo command stack: project-wide, shared by UI and MCP
/// callers, at most `depth` entries deep (the oldest is evicted when full),
/// every entry tagged with its actor.
pub struct CommandStack {
    undo: Vec<Entry<dyn Command>>,
    redo: Vec<Entry<dyn Command>>,
    depth: usize,
}

impl CommandStack {
    /// The actor tags of the undo stack, oldest first.
    pub closed spec fn undo_tags(&self) -> Seq<Actor> {
        tags_of(self.undo@)
    }

    /// The actor tags of the redo stack, in push order (the next redo last).
    pub closed spec fn redo_tags(&self) -> Seq<Actor> {
        tags_of(self.redo@)
    }

    /// The commands on the undo stack, oldest first (the next undo last).
    pub closed spec fn undo_commands(&self) -> Seq<Box<dyn Command>> {
        cmds_of(self.undo@)
    }

    /// The commands on the redo stack, in push order (the next redo last).
    pub closed spec fn redo_commands(&self) -> Seq<Box<dyn Command>> {
        cmds_of(self.redo@)
    }

    /// The bounded depth.
    pub closed spec fn max_depth(&self) -> nat {
        self.depth as nat
    }

    /// The stack holds no more entries than its depth.
    pub open spec fn wf(&self) -> bool {
        self.undo_tags().len() <= self.max_depth()
    }

    /// Create a stack with the default depth (200).
    pub fn new() -> (s: Self)
        ensures
            s.wf(),
            s.undo_tags() == Seq::<Actor>::empty(),
            s.redo_tags() == Seq::<Actor>::empty(),
            s.max_depth() == DEFAULT_DEPTH,
    {
        Self::with_depth(DEFAULT_DEPTH)
    }

    /// Create a stack with a custom depth.
    pub fn with_depth(depth: usize) -> (s: Self)
        ensures
            s.wf(),
            s.undo_tags() == Seq::<Actor>::empty(),
            s.redo_tags() == Seq::<Actor>::empty(),
            s.max_depth() == depth,
    {
        let s = CommandStack { undo: Vec::new(), redo: Vec::new(), depth };
        assert(s.undo_tags() =~= Seq::<Actor>::empty());
        assert(s.redo_tags() =~= Seq::<Actor>::empty());
        s
    }

    /// Number of commands on the undo stack.
    pub fn len(&self) -> (n: usize)
        ensures
            n == self.undo_tags().len(),
    {
        self.undo.len()
    }

    /// Whether the undo stack is empty.
    pub fn is_empty(&self) -> (b: bool)
        ensures
            b == (self.undo_tags().len() == 0),
    {
        self.undo.len() == 0
    }

    /// Whether an undo is available.
    pub fn can_undo(&self) -> (b: bool)
        ensures
            b == (self.undo_tags().len() > 0),
    {
        self.undo.len() > 0
    }

    /// Whether a redo is available.
    pub fn can_redo(&self) -> (b: bool)
        ensures
            b == (self.redo_tags().len() > 0),
    {
        self.redo.len() > 0
    }

    /// The actor tags on the undo stack, in push order (oldest first).
    pub fn undo_actors(&self) -> (v: Vec<Actor>)
        ensures
            v@ == self.undo_tags(),
    {
        let n = self.undo.len();
        let mut v: Vec<Actor> = Vec::new();
        let mut i: usize = 0;
        while i < n
            invariant
                n == self.undo@.len(),
                i <= n,
                v@ =~= self.undo_tags().take(i as int),
            decreases n - i,
        {
            v.push(self.undo[i].actor.clone());
            i = i + 1;
        }
        v
    }

    /// The actor tags on the redo stack, next redo first.
    pub fn redo_actors(&self) -> (v: Vec<Actor>)
        ensures
            v@ == self.redo_tags().reverse(),
    {
        let n = self.redo.len();
        let mut v: Vec<Actor> = Vec::new();
        let mut i: usize = n;
        while i > 0
            invariant
                n == self.redo@.len(),
                i <= n,
                v@ =~= self.redo_tags().reverse().take((n - i) as int),
            decreases i,
        {
            i = i - 1;
            v.push(self.redo[i].actor.clone());
        }
        v
    }

    /// Push onto the undo stack, evicting the oldest entry when full.
    fn push_undo(&mut self, e: Entry<dyn Command>)
        requires
            old(self).wf(),
        ensures
            final(self).wf(),
            final(self).depth == old(self).depth,
            final(self).redo@ == old(self).redo@,
            final(self).undo_tags() == pushed_bounded(old(self).undo_tags(), old(self).max_depth(), e.actor),
            old(self).max_depth() > 0 ==> final(self).undo_commands().len() > 0
                && final(self).undo_commands().last() == e.cmd,
    {
        let ghost before = self.undo@;
        if self.depth == 0 {
            assert(self.undo@ =~= Seq::<Entry<dyn Command>>::empty());
            assert(tags_of(self.undo@) =~= Seq::<Actor>::empty());
            return;
        }
        if self.undo.len() >= self.depth {
            self.undo.remove(0);
            assert(self.undo@ =~= before.drop_first());
            assert(tags_of(before.drop_first()) =~= tags_of(before).drop_first());
        }
        let ghost mid = self.undo@;
        let ghost ec = e.cmd;
        self.undo.push(e);
        assert(tags_of(mid.push(e)) =~= tags_of(mid).push(e.actor));
        assert(cmds_of(self.undo@).last() == ec);
    }

    /// Execute a command (its forward delta) and push it onto the undo
    /// stack. A new command clears the redo stack; when the stack is full the
    /// oldest command is evicted. When the forward delta fails the command is
    /// not pushed and both stacks are unchanged.
    pub fn execute(&mut self, model: &mut Model, cmd: Box<dyn Command>) -> (r: Result<(), Error>)
        requires
            old(self).wf(),
            old(model).wf(),
        ensures
            final(self).wf(),
            final(model).wf(),
            final(self).max_depth() == old(self).max_depth(),
            r is Ok ==> final(self).undo_tags() == pushed_bounded(old(self).undo_tags(), old(self).max_depth(), cmd.spec_actor())
                && final(self).redo_tags() == Seq::<Actor>::empty(),
            r is Err ==> final(self).undo_tags() == old(self).undo_tags() && final(self).redo_tags() == old(self).redo_tags(),
            cmd.redo_gives(*old(model), *final(model), r),
            r is Ok ==> final(self).redo_commands() == Seq::<Box<dyn Command>>::empty(),
            r is Ok && cmd.undoable_from(*old(model)) && old(self).max_depth() > 0 ==> {
                &&& final(self).undo_commands().len() > 0
                &&& (forall|b: Model| same_view(b, *final(model)) ==> #[trigger] final(self).undo_commands().last().redoable_from(b))
                &&& (forall|b: Model, m: Model, u: Result<(), Error>|
                    same_view(b, *final(model)) && #[trigger] final(self).undo_commands().last().undo_gives(b, m, u) ==> u is Ok && same_view(m, *old(model)))
            },
            r is Err ==> final(self).undo_commands() == old(self).undo_commands()
                && final(self).redo_commands() == old(self).redo_commands(),
    {
        let ghost m0 = *model;
        let ghost c0 = cmd;
        let actor = cmd.actor();
        let mut e = Entry { actor, cmd };
        assert(e.cmd == c0);
        let res = e.cmd.redo(model);
        if res.is_err() {
            return res;
        }
        let ghost c1 = e.cmd;
        self.redo.clear();
        self.push_undo(e);
        assert(self.redo_tags() =~= Seq::<Actor>::empty());
        assert(self.max_depth() > 0 ==> self.undo_commands().last() == c1);
        res
    }

    /// Undo the most recent command (replay its inverse delta); it moves to
    /// the redo stack. If the inverse delta is rejected the command stays on
    /// the undo stack and the error is returned.
    pub fn undo(&mut self, model: &mut Model) -> (r: Result<(), Error>)
        requires
            old(self).wf(),
            old(model).wf(),
        ensures
            final(self).wf(),
            final(model).wf(),
            final(self).max_depth() == old(self).max_depth(),
            old(self).undo_tags().len() == 0 ==> r == Err::<(), Error>(Error::UndoStackEmpty)
                && *final(model) == *old(model),
            r is Ok ==> old(self).undo_tags().len() > 0
                && final(self).undo_tags() == old(self).undo_tags().drop_last()
                && final(self).redo_tags() == old(self).redo_tags().push(old(self).undo_tags().last()),
            r is Err ==> final(self).undo_tags() == old(self).undo_tags() && final(self).redo_tags() == old(self).redo_tags(),
            old(self).undo_tags().len() > 0 ==> old(self).undo_commands().last().undo_gives(*old(model), *final(model), r),
            r is Ok && old(self).undo_commands().last().redoable_from(*old(model)) ==> {
                &&& final(self).redo_commands().len() > 0
                &&& (forall|b: Model| same_view(b, *final(model)) ==> #[trigger] final(self).redo_commands().last().undoable_from(b))
                &&& (forall|b: Model, m: Model, u: Result<(), Error>|
                    same_view(b, *final(model)) && #[trigger] final(self).redo_commands().last().redo_gives(b, m, u) ==> u is Ok && same_view(m, *old(model)))
            },
            r is Ok ==> final(self).undo_commands() == old(self).undo_commands().drop_last()
                && final(self).redo_commands().drop_last() == old(self).redo_commands(),
            r is Err ==> final(self).redo_commands() == old(self).redo_commands()
                && final(self).undo_commands().len() == old(self).undo_commands().len()
                && final(self).undo_commands().drop_last() == old(self).undo_commands().drop_last(),
    {
        let ghost before_undo = self.undo@;
        let ghost before_redo = self.redo@;
        let mut e = match self.undo.pop() {
            Some(e) => e,
            None => {
                return Err(Error::UndoStackEmpty);
            },
        };
        assert(tags_of(before_undo.drop_last()) =~= tags_of(before_undo).drop_last());
        let ghost tag = e.actor;
        assert(tag == tags_of(before_undo).last());
        let ghost c = e.cmd;
        assert(c == cmds_of(before_undo).last());
        assert(cmds_of(before_undo.drop_last()) =~= cmds_of(before_undo).drop_last());
        let ghost m0 = *model;
        let res = e.cmd.undo(model);
        assert(c.undo_gives(m0, *model, res));
        proof {
            if res is Ok && c.redoable_from(m0) {
            }
        }
        if res.is_ok() {
            let ghost c1 = e.cmd;
            self.redo.push(e);
            assert(tags_of(self.redo@) =~= tags_of(before_redo).push(tag));
            assert(cmds_of(self.redo@).last() == c1);
        } else {
            self.undo.push(e);
            assert(tags_of(self.undo@) =~= tags_of(before_undo));
        }
        res
    }

    /// Redo the most recently undone command (replay its forward delta); it
    /// moves back to the undo stack (evicting the oldest when full). If the
    /// forward delta is rejected the command stays on the redo stack.
    pub fn redo(&mut self, model: &mut Model) -> (r: Result<(), Error>)
        requires
            old(self).wf(),
            old(model).wf(),
        ensures
            final(self).wf(),
            final(model).wf(),
            final(self).max_depth() == old(self).max_depth(),
            old(self).redo_tags().len() == 0 ==> r == Err::<(), Error>(Error::RedoStackEmpty)
                && *final(model) == *old(model),
            r is Ok ==> old(self).redo_tags().len() > 0
                && final(self).redo_tags() == old(self).redo_tags().drop_last()
                && final(self).undo_tags() == pushed_bounded(old(self).undo_tags(), old(self).max_depth(), old(self).redo_tags().last()),
            r is Err ==> final(self).undo_tags() == old(self).undo_tags() && final(self).redo_tags() == old(self).redo_tags(),
            old(self).redo_tags().len() > 0 ==> old(self).redo_commands().last().redo_gives(*old(model), *final(model), r),
            r is Ok && old(self).redo_commands().last().undoable_from(*old(model)) && old(self).max_depth() > 0 ==> {
                &&& final(self).undo_commands().len() > 0
                &&& (forall|b: Model| same_view(b, *final(model)) ==> #[trigger] final(self).undo_commands().last().redoable_from(b))
                &&& (forall|b: Model, m: Model, u: Result<(), Error>|
                    same_view(b, *final(model)) && #[trigger] final(self).undo_commands().last().undo_gives(b, m, u) ==> u is Ok && same_view(m, *old(model)))
            },
            r is Ok ==> final(self).redo_commands() == old(self).redo_commands().drop_last(),
            r is Err ==> final(self).undo_commands() == old(self).undo_commands()
                && final(self).redo_commands().len() == old(self).redo_commands().len()
                && final(self).redo_commands().drop_last() == old(self).redo_commands().drop_last(),
    {
        let ghost before_redo = self.redo@;
        let mut e = match self.redo.pop() {
            Some(e) => e,
            None => {
                return Err(Error::RedoStackEmpty);
            },
        };
        assert(tags_of(before_redo.drop_last()) =~= tags_of(before_redo).drop_last());
        let ghost tag = e.actor;
        assert(tag == tags_of(before_redo).last());
        let ghost c = e.cmd;
        assert(c == cmds_of(before_redo).last());
        assert(cmds_of(before_redo.drop_last()) =~= cmds_of(before_redo).drop_last());
        let ghost m0 = *model;
        let res = e.cmd.redo(model);
        assert(c.redo_gives(m0, *model, res));
        proof {
            if res is Ok && c.undoable_from(m0) {
            }
        }
        if res.is_ok() {
            let ghost c1 = e.cmd;
            self.push_undo(e);
            assert(self.max_depth() > 0 ==> self.undo_commands().last() == c1);
        } else {
            self.redo.push(e);
            assert(tags_of(self.redo@) =~= tags_of(before_redo));
        }
        res
    }
}

impl Default for CommandStack {
    /// A stack with the default depth.
    fn default() -> (s: Self)
        ensures
            s.wf(),
            s.undo_tags() == Seq::<Actor>::empty(),
            s.redo_tags() == Seq::<Actor>::empty(),
            s.max_depth() == DEFAULT_DEPTH,
    {
        Self::new()
    }
}


/// Undoing a created element gives back the model it was created in: the
/// inverse delta of a successful [`CreateElementCommand`] is always allowed,
/// and it restores the elements, relationships, comments and root marker.
pub proof fn lemma_create_element_undo_restores(m0: Model, m1: Model, m2: Model, req: CreateElement)
    requires
        m0.wf(),
        create_command_allowed(&m0, req),
        m1.elements() == m0.elements().insert(req.id, created_view(req)),
        m1.same_but_elements(&m0),
        m1.model_package() == if req.owner is None { Some(req.id) } else { m0.model_package() },
        m1.wf(),
    ensures
        delete_allowed(&m1, req.id),
        deleted(&m1, &m2, req.id) ==> {
            &&& m2.elements() == m0.elements()
            &&& m2.relationships() == m0.relationships()
            &&& m2.comments() == m0.comments()
            &&& m2.model_package() == m0.model_package()
        },
{
    m0.lemma_invariant();
    m1.lemma_invariant();
    let id = req.id;
    assert(!m0.elements().contains_key(id)) by {
        if req.owner is None {
            assert(m0.elements() == Map::<ElementId, ElementView>::empty());
        }
    }
    assert forall|z: ElementId| #[trigger] m1.elements().contains_key(z) implies m1.elements()[z].owner != Some(id) by {
        if z != id {
            assert(m0.elements().contains_key(z));
        } else if let Some(o) = req.owner {
            assert(m0.elements().contains_key(o));
        }
    }
    assert forall|rid: ElementId| #[trigger] m1.relationships().contains_key(rid) implies !references(m1.relationships()[rid], id) by {
        assert(m0.relationships().contains_key(rid));
    }
    if deleted(&m1, &m2, id) {
        assert(m2.elements() =~= m0.elements());
        assert(m2.comments() =~= m0.comments()) by {
            assert forall|c: ElementId| #[trigger] m0.comments().contains_key(c) implies m0.comments()[c].owner != id by {}
        }
        if req.owner is None {
            assert(m0.model_package() is None);
        }
    }
}

/// Undoing the deletion of an owned element of a top-level kind gives back
/// its elements and relationships: the inverse delta is always allowed and
/// re-creates the element exactly as it was.
pub proof fn lemma_delete_element_undo_restores(m0: Model, m1: Model, m2: Model, id: ElementId)
    requires
        m0.wf(),
        delete_allowed(&m0, id),
        m0.elements()[id].owner is Some,
        kind_scope(m0.elements()[id].kind) == MetaclassScope::TopLevel,
        deleted(&m0, &m1, id),
    ensures
        create_command_allowed(&m1, request_for(m0.elements()[id])),
        m2.elements() == m1.elements().insert(id, created_view(request_for(m0.elements()[id])))
            && m2.same_but_elements(&m1) ==> {
            &&& m2.elements() == m0.elements()
            &&& m2.relationships() == m0.relationships()
        },
{
    m0.lemma_invariant();
    let v = m0.elements()[id];
    assert(m0.elements().contains_key(id) && m0.elements()[id].owner is Some);
    assert(m0.elements().contains_key(v.owner->0));
    assert(v.owner->0 != id);
    assert(m1.elements().contains_key(v.owner->0));
    assert(create_element_allowed(&m1, request_for(v)));
    if m2.elements() == m1.elements().insert(id, created_view(request_for(v))) {
        assert(created_view(request_for(v)) == v);
        assert(m2.elements() =~= m0.elements());
    }
}

/// Undoing the deletion of the project root gives it back as the root
/// package, marked as the model package again: re-creating it is allowed
/// since no other element is a root.
pub proof fn lemma_delete_root_undo_restores(m0: Model, m1: Model, m2: Model, id: ElementId)
    requires
        m0.wf(),
        delete_allowed(&m0, id),
        m0.elements()[id] == root_view(id, m0.elements()[id].name),
        forall|x: ElementId| #[trigger] m0.elements().contains_key(x) && x != id ==> m0.elements()[x].owner is Some,
        deleted(&m0, &m1, id),
    ensures
        create_command_allowed(&m1, request_for(m0.elements()[id])),
        m2.elements() == m1.elements().insert(id, created_view(request_for(m0.elements()[id])))
            ==> m2.elements() == m0.elements(),
{
    let v = m0.elements()[id];
    assert(!has_root(m1.elements())) by {
        if has_root(m1.elements()) {
            let r = choose|r: ElementId| #[trigger] m1.elements().contains_key(r) && m1.elements()[r].owner is None;
            assert(m0.elements().contains_key(r) && r != id);
        }
    }
    if m2.elements() == m1.elements().insert(id, created_view(request_for(v))) {
        assert(created_view(request_for(v)) == v);
        assert(m2.elements() =~= m0.elements());
    }
}

/// Undoing a rename gives back the elements as they were.
pub proof fn lemma_rename_undo_restores(m0: Model, m1: Model, m2: Model, id: ElementId, name: Option<String>)
    requires
        m0.elements().contains_key(id),
        m1.elements() == m0.elements().insert(id, renamed(m0.elements()[id], name)),
    ensures
        m1.elements().contains_key(id),
        m2.elements() == m1.elements().insert(id, renamed(m1.elements()[id], m0.elements()[id].name))
            ==> m2.elements() == m0.elements(),
{
    if m2.elements() == m1.elements().insert(id, renamed(m1.elements()[id], m0.elements()[id].name)) {
        assert(m2.elements() =~= m0.elements());
    }
}

/// Undoing a reparent gives back the elements as they were: moving the
/// element back under its prior owner is always allowed.
pub proof fn lemma_reparent_undo_restores(m0: Model, m1: Model, m2: Model, id: ElementId, new_owner: Option<ElementId>)
    requires
        m0.wf(),
        reparent_allowed(&m0, id, new_owner),
        m1.elements() == m0.elements().insert(id, reowned(m0.elements()[id], new_owner)),
    ensures
        reparent_allowed(&m1, id, m0.elements()[id].owner),
        m2.elements() == m1.elements().insert(id, reowned(m1.elements()[id], m0.elements()[id].owner))
            ==> m2.elements() == m0.elements(),
{
    m0.lemma_invariant();
    let v = m0.elements()[id];
    if let Some(o) = v.owner {
        assert(!is_ancestor(m0.elements(), id, o));
        assert(!is_ancestor(m1.elements(), id, o)) by {
            if is_ancestor(m1.elements(), id, o) {
                let k = choose|k: nat| #[trigger] ancestor_at(m1.elements(), o, k) == Some(id);
                lemma_chain_frame(m0.elements(), id, reowned(v, new_owner), o, k);
            }
        }
    }
    if m2.elements() == m1.elements().insert(id, reowned(m1.elements()[id], v.owner)) {
        assert(m2.elements() =~= m0.elements());
    }
}

/// Undoing a created relationship gives back the relationships as they were.
pub proof fn lemma_create_relationship_undo_restores(m0: Model, m1: Model, m2: Model, req: CreateRelationship)
    requires
        create_relationship_allowed(&m0, req),
        m1.relationships() == m0.relationships().insert(req.id, requested_relationship(req)),
    ensures
        m1.relationships().contains_key(req.id),
        m2.relationships() == m1.relationships().remove(req.id) ==> m2.relationships() == m0.relationships(),
{
    if m2.relationships() == m1.relationships().remove(req.id) {
        assert(m2.relationships() =~= m0.relationships());
    }
}

/// Undoing the deletion of a relationship gives back the relationships as
/// they were: re-creating it is always allowed.
pub proof fn lemma_delete_relationship_undo_restores(m0: Model, m1: Model, m2: Model, id: ElementId)
    requires
        m0.wf(),
        m0.relationships().contains_key(id),
        m1.relationships() == m0.relationships().remove(id),
        m1.elements() == m0.elements(),
    ensures
        create_relationship_allowed(&m1, relationship_request_for(m0.relationships()[id])),
        m2.relationships() == m1.relationships().insert(id, m0.relationships()[id])
            ==> m2.relationships() == m0.relationships(),
{
    m0.lemma_invariant();
    let v = m0.relationships()[id];
    assert(m0.elements().contains_key(v.source) && m0.elements().contains_key(v.target) && m0.elements().contains_key(v.owner));
    assert(!m1.relationships().contains_key(v.id));
    if m2.relationships() == m1.relationships().insert(id, m0.relationships()[id]) {
        assert(m2.relationships() =~= m0.relationships());
    }
}

/// An undo followed by a redo leaves both stacks' actor tags as they were:
/// the undone entry moves to the redo stack and back, and since the undo
/// stack was within its depth nothing is evicted on the way back.
pub proof fn lemma_undo_redo_restores_tags(undo: Seq<Actor>, redo: Seq<Actor>, depth: nat)
    requires
        undo.len() > 0,
        undo.len() <= depth,
    ensures
        redo.push(undo.last()).drop_last() == redo,
        pushed_bounded(undo.drop_last(), depth, redo.push(undo.last()).last()) == undo,
{
    assert(redo.push(undo.last()).drop_last() =~= redo);
    assert(undo.drop_last().push(undo.last()) =~= undo);
}

} // verus!
