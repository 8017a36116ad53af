//! The model API: create, read, update and delete over elements,
//! relationships and comments, with the ownership-tree invariants enforced.
//!
//! The model holds every table in memory. Each mutation either applies
//! completely or, when it returns an error, leaves the model exactly as it
//! was.

use vstd::prelude::*;

use std::collections::HashSet;

use crate::closure::{insert_sorted, rows_sorted, ClosureRow};
use crate::error::Error;
use crate::id::ElementId;
use crate::keyed::{
    find_key, has_key, keep, key_index, keyed_map, lemma_keep_take, lemma_keyed_index, lemma_keyed_keep,
    lemma_keyed_keep_len, lemma_keyed_len, lemma_keyed_push, lemma_keyed_remove, lemma_keyed_update,
    restrict_where, unique_keys, Keyed,
};
use crate::metaclass::{kind_name, kind_scope, MetaclassKind, MetaclassScope};
use crate::projection::{
    expected_edges, expected_nodes, lemma_expected_add_relationship, lemma_expected_insert, lemma_expected_remove,
    lemma_expected_remove_relationship, lemma_expected_rename, lemma_expected_reparent, references_present,
    ElementNode, EdgeKind, Projection, ProjectionEdge, lemma_depth_rules_out_cycle, node_of, ownership_connected_ix,
    ownership_cycle, ownership_edge,
};
use crate::rows::{
    comment_rows_read, comments_of_rows, element_rows_read, elements_of_rows, read_comment_rows, read_element_rows,
    read_relationship_rows, relationship_rows_read, relationships_of_rows, StoreRows,
};
use crate::text::{blank, clone_opt_string, is_blank, join_strings, opt_text, seq_join};
use crate::tree::{
    ancestor_at, forest, has_root, is_ancestor, is_root, lemma_ancestor_depth, lemma_ancestor_step,
    lemma_chain_ends_at_root, lemma_chain_past_root, lemma_chain_prefix, lemma_depth_below_size, lemma_forest_insert, lemma_forest_remove,
    lemma_forest_reparent, lemma_forest_same_owner, lemma_nonempty_has_root, owner_fits,
    reparented_depth,
};
use crate::visibility::Visibility;

verus! {

broadcast use vstd::std_specs::hash::group_hash_axioms;

/// A snapshot of an element, for reads.
#[derive(Debug, PartialEq, Eq)]
pub struct ElementView {
    /// Immutable identity.
    pub id: ElementId,
    /// Metaclass kind.
    pub kind: MetaclassKind,
    /// Owning namespace id (`None` only for a root).
    pub owner: Option<ElementId>,
    /// Human-readable name (optional, not unique).
    pub name: Option<String>,
    /// UML visibility.
    pub visibility: Visibility,
}

/// A snapshot of a relationship, for reads.
#[derive(Debug, PartialEq, Eq)]
pub struct RelationshipView {
    /// Edge identity.
    pub id: ElementId,
    /// Relationship kind string.
    pub kind: String,
    /// Source element id.
    pub source: ElementId,
    /// Target element id.
    pub target: ElementId,
    /// Owning namespace id.
    pub owner: ElementId,
}

/// A snapshot of a comment, for reads.
#[derive(Debug, PartialEq, Eq)]
pub struct CommentView {
    /// Comment identity.
    pub id: ElementId,
    /// Owning element id.
    pub owner: ElementId,
    /// Non-empty comment body.
    pub body: String,
}

/// A request to create an element (the kind-agnostic common fields).
#[derive(Debug)]
pub struct CreateElement {
    /// Fresh identity minted by the caller.
    pub id: ElementId,
    /// Metaclass (must be a top-level ownable kind).
    pub kind: MetaclassKind,
    /// Optional name.
    pub name: Option<String>,
    /// Owning namespace (`None` only for the project root).
    pub owner: Option<ElementId>,
    /// UML visibility.
    pub visibility: Visibility,
}

/// A request to create a relationship.
#[derive(Debug)]
pub struct CreateRelationship {
    /// Fresh identity minted by the caller.
    pub id: ElementId,
    /// Relationship kind string (e.g. `"Association"`).
    pub kind: String,
    /// Source element (must exist).
    pub source: ElementId,
    /// Target element (must exist).
    pub target: ElementId,
    /// Owning namespace (must exist).
    pub owner: ElementId,
}

impl Clone for ElementView {
    fn clone(&self) -> (r: Self)
        ensures
            r == *self,
    {
        ElementView {
            id: self.id,
            kind: self.kind,
            owner: self.owner,
            name: clone_opt_string(&self.name),
            visibility: self.visibility,
        }
    }
}

impl Clone for RelationshipView {
    fn clone(&self) -> (r: Self)
        ensures
            r == *self,
    {
        RelationshipView {
            id: self.id,
            kind: self.kind.clone(),
            source: self.source,
            target: self.target,
            owner: self.owner,
        }
    }
}

impl Clone for CommentView {
    fn clone(&self) -> (r: Self)
        ensures
            r == *self,
    {
        CommentView { id: self.id, owner: self.owner, body: self.body.clone() }
    }
}

impl Clone for CreateElement {
    fn clone(&self) -> (r: Self)
        ensures
            r == *self,
    {
        CreateElement {
            id: self.id,
            kind: self.kind,
            name: clone_opt_string(&self.name),
            owner: self.owner,
            visibility: self.visibility,
        }
    }
}

impl Clone for CreateRelationship {
    fn clone(&self) -> (r: Self)
        ensures
            r == *self,
    {
        CreateRelationship {
            id: self.id,
            kind: self.kind.clone(),
            source: self.source,
            target: self.target,
            owner: self.owner,
        }
    }
}

impl Keyed for ElementView {
    open spec fn key(&self) -> ElementId {
        self.id
    }

    fn key_of(&self) -> (k: ElementId) {
        self.id
    }
}

impl Keyed for RelationshipView {
    open spec fn key(&self) -> ElementId {
        self.id
    }

    fn key_of(&self) -> (k: ElementId) {
        self.id
    }
}

impl Keyed for CommentView {
    open spec fn key(&self) -> ElementId {
        self.id
    }

    fn key_of(&self) -> (k: ElementId) {
        self.id
    }
}

/// The element a creation request describes.
pub open spec fn requested_view(req: CreateElement) -> ElementView {
    ElementView { id: req.id, kind: req.kind, owner: req.owner, name: req.name, visibility: req.visibility }
}

/// The relationship a creation request describes.
pub open spec fn requested_relationship(req: CreateRelationship) -> RelationshipView {
    RelationshipView { id: req.id, kind: req.kind, source: req.source, target: req.target, owner: req.owner }
}

/// `e` is `v` with another name.
pub open spec fn renamed(v: ElementView, name: Option<String>) -> ElementView {
    ElementView { name, ..v }
}

/// `e` is `v` with another owner.
pub open spec fn reowned(v: ElementView, owner: Option<ElementId>) -> ElementView {
    ElementView { owner, ..v }
}

/// The relationship references the element as source, target or owner.
pub open spec fn references(r: RelationshipView, id: ElementId) -> bool {
    r.source == id || r.target == id || r.owner == id
}

/// The `.smith` project model: elements in an ownership tree, relationships
/// between them, comments on them, and the graph projection of all of it.
pub struct Model {
    elements: Vec<ElementView>,
    relationships: Vec<RelationshipView>,
    comments: Vec<CommentView>,
    model_package: Option<ElementId>,
    schema_version: u32,
    depth: Ghost<Map<ElementId, nat>>,
    projection: Projection,
}

impl Model {
    /// The elements, by id.
    pub closed spec fn elements(&self) -> Map<ElementId, ElementView> {
        keyed_map(self.elements@)
    }

    /// The elements in the order the model holds them.
    pub closed spec fn element_list(&self) -> Seq<ElementView> {
        self.elements@
    }

    /// The graph projection the model holds.
    pub closed spec fn projection_view(&self) -> Projection {
        self.projection
    }

    /// The relationships, by id.
    pub closed spec fn relationships(&self) -> Map<ElementId, RelationshipView> {
        keyed_map(self.relationships@)
    }

    /// The comments, by id.
    pub closed spec fn comments(&self) -> Map<ElementId, CommentView> {
        keyed_map(self.comments@)
    }

    /// The element created as the project root (its data carries
    /// `isModel = true`), while it exists.
    pub closed spec fn model_package(&self) -> Option<ElementId> {
        self.model_package
    }

    /// The schema version the model's store is at.
    pub closed spec fn spec_schema_version(&self) -> u32 {
        self.schema_version
    }

    /// The number of elements that `id` owns directly.
    pub closed spec fn child_count(&self, id: ElementId) -> nat {
        self.elements().dom().filter(|z: ElementId| self.elements()[z].owner == Some(id)).len()
    }

    /// The number of elements directly owned by `id`: the size of the set of
    /// elements whose owner is `id`.
    pub proof fn lemma_child_count_is(&self, id: ElementId)
        ensures
            self.child_count(id) == self.elements().dom().filter(|z: ElementId| self.elements()[z].owner == Some(id)).len(),
    {
    }

    /// The model's internal invariant: the tables are consistent, and the
    /// graph projection holds exactly one node per element and one edge per
    /// ownership link and per relationship.
    pub closed spec fn wf(&self) -> bool {
        &&& self.tables_wf()
        &&& self.projection_synced()
    }

    /// The projection holds exactly one node per element and one edge per
    /// ownership link and per relationship.
    #[verifier::opaque]
    pub closed spec fn projection_synced(&self) -> bool {
        &&& self.projection.wf()
        &&& self.projection.node_view() == expected_nodes(self.elements())
        &&& self.projection.edge_view() == expected_edges(self.elements(), self.relationships())
    }

    /// The projection stays in sync when neither it nor the elements and
    /// relationships change.
    proof fn lemma_synced_frame(old: &Model, new: &Model)
        requires
            old.projection_synced(),
            new.projection == old.projection,
            new.elements() == old.elements(),
            new.relationships() == old.relationships(),
        ensures
            new.projection_synced(),
    {
        reveal(Model::projection_synced);
    }

    /// The tables' invariant: ids are unique per table, the owner relation is
    /// a forest, relationships and comments reference existing elements, and
    /// the root package marker names an existing element.
    pub closed spec fn tables_wf(&self) -> bool {
        &&& unique_keys(self.elements@)
        &&& unique_keys(self.relationships@)
        &&& unique_keys(self.comments@)
        &&& forest(self.elements(), self.depth@)
        &&& forall|r: ElementId| #[trigger] self.relationships().contains_key(r) ==> {
            let rel = self.relationships()[r];
            &&& self.elements().contains_key(rel.source)
            &&& self.elements().contains_key(rel.target)
            &&& self.elements().contains_key(rel.owner)
        }
        &&& forall|c: ElementId| #[trigger] self.comments().contains_key(c)
            ==> self.elements().contains_key(self.comments()[c].owner)
        &&& self.model_package matches Some(p) ==> self.elements().contains_key(p)
    }

    /// Everything but the elements and the root marker is as in `old`.
    pub open spec fn same_but_elements(&self, old: &Model) -> bool {
        &&& self.relationships() == old.relationships()
        &&& self.comments() == old.comments()
        &&& self.spec_schema_version() == old.spec_schema_version()
    }

    /// An empty model at the given schema version.
    pub fn new(schema_version: u32) -> (m: Model)
        ensures
            m.wf(),
            m.elements() == Map::<ElementId, ElementView>::empty(),
            m.relationships() == Map::<ElementId, RelationshipView>::empty(),
            m.comments() == Map::<ElementId, CommentView>::empty(),
            m.model_package() is None,
            m.spec_schema_version() == schema_version,
    {
        let m = Model {
            elements: Vec::new(),
            relationships: Vec::new(),
            comments: Vec::new(),
            model_package: None,
            schema_version,
            depth: Ghost(Map::empty()),
            projection: Projection::new(),
        };
        assert(expected_nodes(m.elements()) =~= Map::<ElementId, ElementNode>::empty());
        assert(expected_edges(m.elements(), m.relationships()) =~= Set::<ProjectionEdge>::empty());
        reveal(Model::projection_synced);
        assert(m.elements() =~= Map::<ElementId, ElementView>::empty());
        assert(m.relationships() =~= Map::<ElementId, RelationshipView>::empty());
        assert(m.comments() =~= Map::<ElementId, CommentView>::empty());
        m
    }

    /// The graph projection of the model: one node per element, one edge
    /// per ownership link and per relationship.
    pub fn projection(&self) -> (p: &Projection)
        requires
            self.wf(),
        ensures
            *p == self.projection_view(),
            p.wf(),
            p.node_view() == expected_nodes(self.elements()),
            p.edge_view() == expected_edges(self.elements(), self.relationships()),
            p.nodes().len() == self.elements().dom().len(),
    {
        proof {
            reveal(Model::projection_synced);
            self.projection.lemma_node_count();
            assert(expected_nodes(self.elements()).dom() =~= self.elements().dom());
        }
        &self.projection
    }

    /// Rebuild the projection from the tables, discarding the graph held so
    /// far: the tables are the source of truth. The new graph holds a node
    /// per element in the order the model holds its elements.
    pub fn rebuild_projection(&mut self) -> (r: Result<(), Error>)
        requires
            old(self).wf(),
        ensures
            final(self).wf(),
            r is Ok,
            final(self).element_list() == old(self).element_list(),
            final(self).projection_view().nodes() == old(self).element_list().map_values(|v: ElementView| node_of(v)),
            final(self).elements() == old(self).elements(),
            final(self).relationships() == old(self).relationships(),
            final(self).comments() == old(self).comments(),
            final(self).model_package() == old(self).model_package(),
            final(self).spec_schema_version() == old(self).spec_schema_version(),
    {
        let p = Projection::from_tables(&self.elements, &self.relationships);
        self.projection = p;
        proof {
            reveal(Model::projection_synced);
            assert(self.elements() == old(self).elements());
            assert(self.relationships() == old(self).relationships());
            assert(self.comments() == old(self).comments());
            assert(self.tables_wf());
        }
        Ok(())
    }

    /// The ownership edges of a model never close a cycle: no element owns
    /// itself, directly or transitively.
    pub proof fn lemma_ownership_acyclic(&self)
        requires
            self.wf(),
        ensures
            !ownership_cycle(expected_edges(self.elements(), self.relationships())),
    {
        let view = expected_edges(self.elements(), self.relationships());
        assert forall|s: ElementId, t: ElementId| #[trigger] view.contains(ownership_edge(s, t))
            implies self.depth@[t] == self.depth@[s] + 1 by {
            assert(crate::tree::owner_fits(self.elements(), self.depth@, t));
        }
        lemma_depth_rules_out_cycle(view, self.depth@);
    }

    /// A model with at most one element without owner (one project root) has
    /// connected ownership edges: every element taking part in ownership is
    /// reachable from the root, so `ownership_is_connected` on its projection
    /// answers `true`.
    pub proof fn lemma_one_root_connected(&self)
        requires
            self.wf(),
            forall|a: ElementId, b: ElementId|
                #[trigger] is_root(self.elements(), a) && #[trigger] is_root(self.elements(), b) ==> a == b,
        ensures
            ownership_connected_ix(self.projection_view().nodes().len(), self.projection_view().raw_edges()),
    {
        reveal(Model::projection_synced);
        self.projection.lemma_one_root_connected(self.elements(), self.relationships(), self.depth@);
    }

    /// The schema version this model's store was migrated to.
    pub fn schema_version(&self) -> (v: u32)
        ensures
            v == self.spec_schema_version(),
    {
        self.schema_version
    }

    /// The invariant survives a change that only adds to (or edits, keeping
    /// the keys of) the elements, given the new elements form a forest.
    proof fn lemma_wf_grow(old: &Model, new: &Model)
        requires
            old.wf(),
            unique_keys(new.elements@),
            forest(new.elements(), new.depth@),
            new.relationships@ == old.relationships@,
            new.comments@ == old.comments@,
            forall|x: ElementId| #[trigger] old.elements().contains_key(x) ==> new.elements().contains_key(x),
            new.model_package matches Some(p) ==> new.elements().contains_key(p),
        ensures
            new.tables_wf(),
    {
        assert(new.relationships() == old.relationships());
        assert(new.comments() == old.comments());
        assert forall|r: ElementId| #[trigger] new.relationships().contains_key(r) implies {
            let rel = new.relationships()[r];
            &&& new.elements().contains_key(rel.source)
            &&& new.elements().contains_key(rel.target)
            &&& new.elements().contains_key(rel.owner)
        } by {
            assert(old.relationships().contains_key(r));
        }
        assert forall|c: ElementId| #[trigger] new.comments().contains_key(c)
            implies new.elements().contains_key(new.comments()[c].owner) by {
            assert(old.comments().contains_key(c));
        }
    }

    /// Owners and relationship endpoints are present elements.
    proof fn lemma_refs(&self)
        requires
            self.tables_wf(),
        ensures
            references_present(self.elements(), self.relationships()),
    {
        assert forall|x: ElementId| #[trigger] self.elements().contains_key(x) && self.elements()[x].owner is Some
            implies self.elements().contains_key(self.elements()[x].owner->0) by {
            assert(crate::tree::owner_fits(self.elements(), self.depth@, x));
        }
    }

    /// What the model's invariant promises of its tables: owners exist and
    /// differ from the element they own, no element lies in the subtree of
    /// its own owner, relationship endpoints and owners and comment owners
    /// exist, the root marker names an element, a model without root is
    /// empty, and the child count of an element is zero exactly when nothing
    /// names it as owner; and every record sits under its own id.
    pub proof fn lemma_invariant(&self)
        requires
            self.wf(),
        ensures
            forall|k: ElementId| #[trigger] self.elements().contains_key(k) ==> self.elements()[k].id == k,
            forall|k: ElementId| #[trigger] self.relationships().contains_key(k) ==> self.relationships()[k].id == k,
            forall|k: ElementId| #[trigger] self.comments().contains_key(k) ==> self.comments()[k].id == k,
            forall|x: ElementId| #[trigger] self.elements().contains_key(x) && self.elements()[x].owner is Some ==> {
                let o = self.elements()[x].owner->0;
                &&& self.elements().contains_key(o)
                &&& o != x
                &&& !is_ancestor(self.elements(), x, o)
            },
            forall|r: ElementId| #[trigger] self.relationships().contains_key(r) ==> {
                let rel = self.relationships()[r];
                &&& self.elements().contains_key(rel.source)
                &&& self.elements().contains_key(rel.target)
                &&& self.elements().contains_key(rel.owner)
            },
            forall|c: ElementId| #[trigger] self.comments().contains_key(c)
                ==> self.elements().contains_key(self.comments()[c].owner),
            self.model_package() matches Some(p) ==> self.elements().contains_key(p),
            !has_root(self.elements()) ==> self.elements() == Map::<ElementId, ElementView>::empty(),
            forall|id: ElementId| (#[trigger] self.child_count(id) == 0) == (forall|z: ElementId| #[trigger] self.elements().contains_key(z) ==> self.elements()[z].owner != Some(id)),
    {
        assert forall|x: ElementId| #[trigger] self.elements().contains_key(x) && self.elements()[x].owner is Some implies {
            let o = self.elements()[x].owner->0;
            &&& self.elements().contains_key(o)
            &&& o != x
            &&& !is_ancestor(self.elements(), x, o)
        } by {
            assert(crate::tree::owner_fits(self.elements(), self.depth@, x));
            crate::tree::lemma_owner_outside_subtree(self.elements(), self.depth@, x);
        }
        if !has_root(self.elements()) {
            assert forall|x: ElementId| !self.elements().contains_key(x) by {
                if self.elements().contains_key(x) {
                    lemma_nonempty_has_root(self.elements(), self.depth@, x);
                }
            }
            assert(self.elements() =~= Map::<ElementId, ElementView>::empty());
        }
        assert forall|id: ElementId| (#[trigger] self.child_count(id) == 0) == (forall|z: ElementId| #[trigger] self.elements().contains_key(z) ==> self.elements()[z].owner != Some(id)) by {
            self.lemma_child_count(id);
        }
    }

    proof fn lemma_wf_facts(&self)
        requires
            self.wf(),
        ensures
            self.elements().dom().finite(),
            self.elements().dom().len() == self.elements@.len(),
    {
        lemma_keyed_len(self.elements@);
    }

    /// Get an element by id.
    pub fn get_element(&self, id: ElementId) -> (r: Result<ElementView, Error>)
        requires
            self.wf(),
        ensures
            self.elements().contains_key(id) ==> r == Ok::<ElementView, Error>(self.elements()[id]),
            !self.elements().contains_key(id) ==> r == Err::<ElementView, Error>(
                Error::ElementNotFound { id },
            ),
    {
        match find_key(&self.elements, id) {
            Some(i) => {
                proof {
                    lemma_keyed_index(self.elements@, i as int);
                }
                Ok(self.elements[i].clone())
            },
            None => Err(Error::ElementNotFound { id }),
        }
    }

    /// Whether an element with this id exists.
    fn element_exists(&self, id: ElementId) -> (b: bool)
        requires
            self.wf(),
        ensures
            b == self.elements().contains_key(id),
    {
        find_key(&self.elements, id).is_some()
    }

    /// The id of the first element without owner, if there is one.
    fn root_id(&self) -> (r: Option<ElementId>)
        requires
            self.wf(),
        ensures
            r matches Some(x) ==> self.elements().contains_key(x) && self.elements()[x].owner is None,
            r matches Some(x) ==> exists|i: int| #[trigger] first_unowned_at(self.element_list(), i)
                && self.element_list()[i] == self.elements()[x],
            r is None ==> !has_root(self.elements()),
            r is None ==> forall|j: int| 0 <= j < self.element_list().len() ==> (#[trigger] self.element_list()[j]).owner is Some,
    {
        let n = self.elements.len();
        let mut i: usize = 0;
        while i < n
            invariant
                n == self.elements@.len(),
                i <= n,
                self.wf(),
                forall|j: int| 0 <= j < i ==> (#[trigger] self.elements@[j]).owner is Some,
            decreases n - i,
        {
            if self.elements[i].owner.is_none() {
                proof {
                    lemma_keyed_index(self.elements@, i as int);
                    assert(first_unowned_at(self.element_list(), i as int));
                }
                return Some(self.elements[i].id);
            }
            i = i + 1;
        }
        proof {
            if has_root(self.elements()) {
                let x = choose|x: ElementId| #[trigger] self.elements().contains_key(x) && self.elements()[x].owner is None;
                let j = key_index(self.elements@, x);
                lemma_keyed_index(self.elements@, j);
            }
        }
        None
    }

    /// The project root element, if one exists: the first element without
    /// owner in the model's order (the root package, for a model built
    /// through this API; see [`lemma_first_unowned_kept`]).
    pub fn root(&self) -> (r: Option<ElementView>)
        requires
            self.wf(),
        ensures
            r matches Some(v) ==> self.elements().contains_key(v.id) && self.elements()[v.id] == v
                && v.owner is None,
            r matches Some(v) ==> exists|i: int| #[trigger] first_unowned_at(self.element_list(), i)
                && self.element_list()[i] == v,
            r is None ==> !has_root(self.elements()),
            r is None ==> forall|j: int| 0 <= j < self.element_list().len() ==> (#[trigger] self.element_list()[j]).owner is Some,
    {
        match self.root_id() {
            Some(x) => match self.get_element(x) {
                Ok(v) => Some(v),
                Err(_) => None,
            },
            None => None,
        }
    }
}

/// The checks `create_element` makes before it inserts, all passed: a
/// top-level kind; no second root; an existing owner; an unused id.
pub open spec fn create_element_allowed(m: &Model, req: CreateElement) -> bool {
    &&& kind_scope(req.kind) == MetaclassScope::TopLevel
    &&& (req.owner is None ==> !has_root(m.elements()))
    &&& (req.owner matches Some(o) ==> m.elements().contains_key(o))
    &&& !m.elements().contains_key(req.id)
}

impl Model {
    /// Create the project root: a `Package` with `isModel = true` and no
    /// owner. A project has exactly one root; a second is rejected.
    pub fn create_root(&mut self, id: ElementId, name: Option<String>) -> (r: Result<ElementView, Error>)
        requires
            old(self).wf(),
        ensures
            final(self).wf(),
            has_root(old(self).elements()) ==> {
                &&& r matches Err(Error::RootAlreadyExists { existing })
                &&& old(self).elements().contains_key(existing)
                &&& old(self).elements()[existing].owner is None
                &&& *final(self) == *old(self)
            },
            !has_root(old(self).elements()) ==> {
                let v = ElementView {
                    id,
                    kind: MetaclassKind::Package,
                    owner: None,
                    name,
                    visibility: Visibility::Public,
                };
                &&& r == Ok::<ElementView, Error>(v)
                &&& final(self).elements() == old(self).elements().insert(id, v)
                &&& final(self).element_list() == old(self).element_list().push(v)
                &&& final(self).model_package() == Some(id)
                &&& final(self).same_but_elements(old(self))
            },
    {
        if let Some(existing) = self.root_id() {
            return Err(Error::RootAlreadyExists { existing });
        }
        let view = ElementView {
            id,
            kind: MetaclassKind::Package,
            owner: None,
            name,
            visibility: Visibility::Public,
        };
        proof {
            if self.elements().contains_key(id) {
                lemma_nonempty_has_root(self.elements(), self.depth@, id);
            }
        }
        self.insert_element(view.clone(), Ghost(0), true);
        Ok(view)
    }

    /// Create an element; adding it to a namespace sets its owner. The kind
    /// must be a top-level ownable metaclass.
    pub fn create_element(&mut self, req: &CreateElement) -> (r: Result<ElementView, Error>)
        requires
            old(self).wf(),
        ensures
            final(self).wf(),
            kind_scope(req.kind) != MetaclassScope::TopLevel ==> {
                &&& r matches Err(Error::NotTopLevelKind { kind })
                &&& kind@ == kind_name(req.kind)
                &&& *final(self) == *old(self)
            },
            kind_scope(req.kind) == MetaclassScope::TopLevel && req.owner is None && has_root(
                old(self).elements(),
            ) ==> {
                &&& r matches Err(Error::RootAlreadyExists { existing })
                &&& old(self).elements().contains_key(existing)
                &&& old(self).elements()[existing].owner is None
                &&& *final(self) == *old(self)
            },
            kind_scope(req.kind) == MetaclassScope::TopLevel && req.owner is Some
                && !old(self).elements().contains_key(req.owner->0) ==> {
                &&& r == Err::<ElementView, Error>(Error::ElementNotFound { id: req.owner->0 })
                &&& *final(self) == *old(self)
            },
            kind_scope(req.kind) == MetaclassScope::TopLevel && (req.owner is None ==> !has_root(
                old(self).elements(),
            )) && (req.owner matches Some(o) ==> old(self).elements().contains_key(o))
                && old(self).elements().contains_key(req.id) ==> {
                &&& r == Err::<ElementView, Error>(Error::IdAlreadyExists { id: req.id })
                &&& *final(self) == *old(self)
            },
            create_element_allowed(old(self), *req) ==> {
                &&& r == Ok::<ElementView, Error>(requested_view(*req))
                &&& final(self).elements() == old(self).elements().insert(req.id, requested_view(*req))
                &&& final(self).element_list() == old(self).element_list().push(requested_view(*req))
                &&& final(self).model_package() == old(self).model_package()
                &&& final(self).same_but_elements(old(self))
            },
    {
        if req.kind.scope() != MetaclassScope::TopLevel {
            return Err(Error::NotTopLevelKind { kind: String::from_str(req.kind.as_str()) });
        }
        if req.owner.is_none() {
            if let Some(existing) = self.root_id() {
                return Err(Error::RootAlreadyExists { existing });
            }
        }
        if let Some(owner) = req.owner {
            if !self.element_exists(owner) {
                return Err(Error::ElementNotFound { id: owner });
            }
        }
        if self.element_exists(req.id) {
            return Err(Error::IdAlreadyExists { id: req.id });
        }
        let view = req.clone_view();
        let ghost d: nat = match req.owner {
            Some(o) => self.depth@[o] + 1,
            None => 0,
        };
        self.insert_element(view.clone(), Ghost(d), false);
        Ok(view)
    }

    /// Add an element whose id is new and whose owner, if any, is present,
    /// one level below its owner (a root at depth 0); mark it as the root
    /// package when asked.
    fn insert_element(&mut self, view: ElementView, d: Ghost<nat>, model_package: bool)
        requires
            old(self).wf(),
            !old(self).elements().contains_key(view.id),
            match view.owner {
                Some(o) => old(self).elements().contains_key(o) && d@ == old(self).depth@[o] + 1,
                None => d@ == 0,
            },
        ensures
            final(self).wf(),
            final(self).elements() == old(self).elements().insert(view.id, view),
            final(self).element_list() == old(self).element_list().push(view),
            final(self).model_package == if model_package { Some(view.id) } else { old(self).model_package },
            final(self).same_but_elements(old(self)),
    {
        proof {
            reveal(Model::projection_synced);
            assert(!has_key(self.elements@, view.id));
            lemma_keyed_push(self.elements@, view);
            lemma_forest_insert(self.elements(), self.depth@, view, d@);
            old(self).lemma_refs();
            lemma_expected_insert(old(self).elements(), old(self).relationships(), view);
        }
        self.projection.add_element(&view);
        let ghost nd = self.depth@.insert(view.id, d@);
        let id = view.id;
        self.elements.push(view);
        self.depth = Ghost(nd);
        if model_package {
            self.model_package = Some(id);
        }
        proof {
            reveal(Model::projection_synced);
            Model::lemma_wf_grow(old(self), self);
        }
    }
}

/// One step of the walk up from `d`: the next element on the chain is the
/// owner of the current one, one level shallower, and still not `a`.
proof fn lemma_walk_step(
    m: Map<ElementId, ElementView>,
    dep: Map<ElementId, nat>,
    d: ElementId,
    k: nat,
    cur: ElementId,
    a: ElementId,
)
    requires
        forest(m, dep),
        m.contains_key(cur),
        m[cur].owner is Some,
        ancestor_at(m, d, k) == Some(cur),
        cur != a,
        forall|j: nat| j < k ==> #[trigger] ancestor_at(m, d, j) != Some(a),
    ensures
        ancestor_at(m, d, k + 1) == Some(m[cur].owner->0),
        m.contains_key(m[cur].owner->0),
        dep[cur] == dep[m[cur].owner->0] + 1,
        forall|j: nat| j < k + 1 ==> #[trigger] ancestor_at(m, d, j) != Some(a),
{
    assert(owner_fits(m, dep, cur));
    lemma_ancestor_step(m, d, k);
}

/// The walk up from `d` reached a root without meeting `a`: `a` is not an
/// ancestor of `d`.
proof fn lemma_walk_at_root(
    m: Map<ElementId, ElementView>,
    dep: Map<ElementId, nat>,
    d: ElementId,
    k: nat,
    cur: ElementId,
    a: ElementId,
)
    requires
        forest(m, dep),
        m.contains_key(d),
        m.contains_key(cur),
        m[cur].owner is None,
        ancestor_at(m, d, k) == Some(cur),
        k + dep[cur] == dep[d],
        cur != a,
        forall|j: nat| j < k ==> #[trigger] ancestor_at(m, d, j) != Some(a),
    ensures
        !is_ancestor(m, a, d),
{
    assert(owner_fits(m, dep, cur));
    assert forall|j: nat| #[trigger] ancestor_at(m, d, j) != Some(a) by {
        if j > k {
            lemma_chain_past_root(m, dep, d, j);
        }
    }
}

/// The new name `n` holds the text of the requested name `s`.
pub open spec fn name_matches(n: Option<String>, s: Option<&str>) -> bool {
    match (n, s) {
        (Some(a), Some(b)) => a@ == b@,
        (None, None) => true,
        _ => false,
    }
}

/// An owned copy of an optional string slice.
fn to_owned_name(s: Option<&str>) -> (n: Option<String>)
    ensures
        name_matches(n, s),
{
    match s {
        Some(t) => Some(String::from_str(t)),
        None => None,
    }
}

impl Model {
    /// Rename an element (names are mutable and not unique). Its qualified
    /// name follows, since it is derived.
    pub fn rename_element(&mut self, id: ElementId, name: Option<&str>) -> (r: Result<ElementView, Error>)
        requires
            old(self).wf(),
        ensures
            final(self).wf(),
            !old(self).elements().contains_key(id) ==> {
                &&& r == Err::<ElementView, Error>(Error::ElementNotFound { id })
                &&& *final(self) == *old(self)
            },
            old(self).elements().contains_key(id) ==> {
                &&& r matches Ok(v)
                &&& v == renamed(old(self).elements()[id], v.name)
                &&& name_matches(v.name, name)
                &&& final(self).elements() == old(self).elements().insert(id, v)
                &&& exists|k: int| 0 <= k < old(self).element_list().len() && #[trigger] old(self).element_list()[k].id == id
                    && final(self).element_list() == old(self).element_list().update(k, v)
                &&& final(self).model_package() == old(self).model_package()
                &&& final(self).same_but_elements(old(self))
            },
    {
        self.set_name(id, to_owned_name(name))
    }

    /// Give an element the given name (or none).
    pub(crate) fn set_name(&mut self, id: ElementId, name: Option<String>) -> (r: Result<ElementView, Error>)
        requires
            old(self).wf(),
        ensures
            final(self).wf(),
            !old(self).elements().contains_key(id) ==> {
                &&& r == Err::<ElementView, Error>(Error::ElementNotFound { id })
                &&& *final(self) == *old(self)
            },
            old(self).elements().contains_key(id) ==> {
                &&& r == Ok::<ElementView, Error>(renamed(old(self).elements()[id], name))
                &&& final(self).elements() == old(self).elements().insert(id, renamed(old(self).elements()[id], name))
                &&& exists|k: int| 0 <= k < old(self).element_list().len() && #[trigger] old(self).element_list()[k].id == id
                    && final(self).element_list() == old(self).element_list().update(k, renamed(old(self).elements()[id], name))
                &&& final(self).model_package() == old(self).model_package()
                &&& final(self).same_but_elements(old(self))
            },
    {
        match find_key(&self.elements, id) {
            None => Err(Error::ElementNotFound { id }),
            Some(i) => {
                proof {
                    lemma_keyed_index(self.elements@, i as int);
                }
                let old_view = self.elements[i].clone();
                let v = ElementView { name, ..old_view };
                proof {
                    lemma_keyed_update(self.elements@, i as int, v);
                    lemma_forest_same_owner(self.elements(), self.depth@, v);
                    reveal(Model::projection_synced);
                    lemma_expected_rename(old(self).elements(), old(self).relationships(), id, v.name);
                }
                self.projection.rename_element(id, &v.name);
                self.elements.set(i, v.clone());
                proof {
                    reveal(Model::projection_synced);
                    Model::lemma_wf_grow(old(self), self);
                    assert(old(self).element_list()[i as int].id == id);
                    assert(self.element_list() == old(self).element_list().update(i as int, v));
                }
                Ok(v)
            },
        }
    }

    /// The number of owner steps from `descendant` up to `ancestor`
    /// (0 when they are the same element), or `None` when `ancestor` is not
    /// `descendant` or one of its owners.
    pub fn depth(&self, ancestor: ElementId, descendant: ElementId) -> (r: Option<usize>)
        requires
            self.wf(),
        ensures
            r matches Some(k) ==> ancestor_at(self.elements(), descendant, k as nat) == Some(ancestor),
            r is None ==> !is_ancestor(self.elements(), ancestor, descendant),
    {
        let m = Ghost(self.elements());
        let dep = Ghost(self.depth@);
        if !self.element_exists(descendant) {
            proof {
                assert forall|k: nat| #[trigger] ancestor_at(m@, descendant, k) != Some(ancestor) by {}
            }
            return None;
        }
        proof {
            self.lemma_wf_facts();
            lemma_depth_below_size(m@, dep@, descendant);
        }
        let n = self.elements.len();
        let mut cur = descendant;
        let mut k: usize = 0;
        loop
            invariant
                unique_keys(self.elements@),
                m@ == self.elements(),
                forest(m@, dep@),
                m@.contains_key(cur),
                ancestor_at(m@, descendant, k as nat) == Some(cur),
                k + dep@[cur] == dep@[descendant],
                dep@[descendant] < n,
                n == self.elements@.len(),
                forall|j: nat| j < k ==> #[trigger] ancestor_at(m@, descendant, j) != Some(ancestor),
            decreases dep@[cur],
        {
            if cur == ancestor {
                return Some(k);
            }
            let i = match find_key(&self.elements, cur) {
                Some(i) => i,
                None => {
                    proof {
                        assert(has_key(self.elements@, cur));
                    }
                    return None;
                },
            };
            proof {
                lemma_keyed_index(self.elements@, i as int);
                assert(owner_fits(m@, dep@, cur));
            }
            match self.elements[i].owner {
                None => {
                    proof {
                        lemma_walk_at_root(m@, dep@, descendant, k as nat, cur, ancestor);
                    }
                    return None;
                },
                Some(o) => {
                    proof {
                        lemma_walk_step(m@, dep@, descendant, k as nat, cur, ancestor);
                    }
                    cur = o;
                    k = k + 1;
                },
            }
        }
    }

    /// Reparent an element (sets its owner). Moving an element into its own
    /// subtree is rejected, which keeps the ownership tree acyclic; `None`
    /// makes the element a root.
    pub fn reparent_element(&mut self, id: ElementId, new_owner: Option<ElementId>) -> (r: Result<ElementView, Error>)
        requires
            old(self).wf(),
        ensures
            final(self).wf(),
            !old(self).elements().contains_key(id) ==> {
                &&& r == Err::<ElementView, Error>(Error::ElementNotFound { id })
                &&& *final(self) == *old(self)
            },
            old(self).elements().contains_key(id) && new_owner is Some && !old(self).elements().contains_key(
                new_owner->0,
            ) ==> {
                &&& r == Err::<ElementView, Error>(Error::ElementNotFound { id: new_owner->0 })
                &&& *final(self) == *old(self)
            },
            old(self).elements().contains_key(id) && new_owner is Some && old(self).elements().contains_key(
                new_owner->0,
            ) && is_ancestor(old(self).elements(), id, new_owner->0) ==> {
                &&& r == Err::<ElementView, Error>(
                    Error::ReparentIntoOwnSubtree { element: id, new_owner: new_owner->0 },
                )
                &&& *final(self) == *old(self)
            },
            old(self).elements().contains_key(id) && (new_owner matches Some(o) ==> old(
                self,
            ).elements().contains_key(o) && !is_ancestor(old(self).elements(), id, o)) ==> {
                let v = reowned(old(self).elements()[id], new_owner);
                &&& r == Ok::<ElementView, Error>(v)
                &&& final(self).elements() == old(self).elements().insert(id, v)
                &&& exists|k: int| 0 <= k < old(self).element_list().len() && #[trigger] old(self).element_list()[k].id == id
                    && final(self).element_list() == old(self).element_list().update(k, v)
                &&& final(self).model_package() == old(self).model_package()
                &&& final(self).same_but_elements(old(self))
            },
    {
        let i = match find_key(&self.elements, id) {
            None => {
                return Err(Error::ElementNotFound { id });
            },
            Some(i) => i,
        };
        if let Some(o) = new_owner {
            if !self.element_exists(o) {
                return Err(Error::ElementNotFound { id: o });
            }
            if self.depth(id, o).is_some() {
                return Err(Error::ReparentIntoOwnSubtree { element: id, new_owner: o });
            }
        }
        proof {
            lemma_keyed_index(self.elements@, i as int);
        }
        let old_view = self.elements[i].clone();
        let v = ElementView { owner: new_owner, ..old_view };
        let ghost base: nat = match new_owner {
            Some(o) => self.depth@[o] + 1,
            None => 0,
        };
        proof {
            lemma_keyed_update(self.elements@, i as int, v);
            lemma_forest_reparent(self.elements(), self.depth@, id, new_owner, base);
        }
        let ghost new_depth = reparented_depth(self.elements(), self.depth@, id, base);
        proof {
            reveal(Model::projection_synced);
            lemma_expected_reparent(old(self).elements(), old(self).relationships(), id, new_owner);
        }
        self.projection.reparent_element(id, new_owner);
        self.elements.set(i, v.clone());
        self.depth = Ghost(new_depth);
        proof {
            reveal(Model::projection_synced);
            Model::lemma_wf_grow(old(self), self);
            assert(old(self).element_list()[i as int].id == id);
            assert(self.element_list() == old(self).element_list().update(i as int, v));
        }
        Ok(v)
    }
}

/// The element is owned by `id`.
pub open spec fn owned_by(id: ElementId) -> spec_fn(ElementView) -> bool {
    |v: ElementView| v.owner == Some(id)
}

/// The comment is not attached to `id`.
pub open spec fn not_on(id: ElementId) -> spec_fn(CommentView) -> bool {
    |c: CommentView| c.owner != id
}

impl Model {
    /// The number of elements directly owned by `id`.
    fn count_children(&self, id: ElementId) -> (n: usize)
        requires
            self.wf(),
        ensures
            n == self.child_count(id),
    {
        let ghost p = owned_by(id);
        let len = self.elements.len();
        let mut n: usize = 0;
        let mut i: usize = 0;
        while i < len
            invariant
                len == self.elements@.len(),
                i <= len,
                n == keep(self.elements@.take(i as int), p).len(),
                n <= i,
                p == owned_by(id),
            decreases len - i,
        {
            proof {
                lemma_keep_take(self.elements@, p, i as int);
            }
            if self.elements[i].owner == Some(id) {
                n = n + 1;
            }
            i = i + 1;
        }
        proof {
            assert(self.elements@.take(len as int) =~= self.elements@);
            lemma_keyed_keep_len(self.elements@, p);
            assert(self.elements().dom().filter(|k: ElementId| p(self.elements()[k])) =~= self.elements().dom().filter(
                |z: ElementId| self.elements()[z].owner == Some(id),
            ));
        }
        n
    }

    /// Some element is owned by `id` exactly when the child count is positive.
    proof fn lemma_child_count(&self, id: ElementId)
        requires
            self.wf(),
        ensures
            (self.child_count(id) == 0) == (forall|z: ElementId| #[trigger] self.elements().contains_key(z) ==> self.elements()[z].owner != Some(id)),
    {
        let p = owned_by(id);
        lemma_keyed_keep_len(self.elements@, p);
        lemma_keyed_keep(self.elements@, p);
        let f = self.elements().dom().filter(|z: ElementId| self.elements()[z].owner == Some(id));
        assert(self.elements().dom().filter(|k: ElementId| p(self.elements()[k])) =~= f);
        if exists|z: ElementId| #[trigger] self.elements().contains_key(z) && self.elements()[z].owner == Some(id) {
            let z = choose|z: ElementId| #[trigger] self.elements().contains_key(z) && self.elements()[z].owner == Some(id);
            assert(f.contains(z));
            vstd::set_lib::lemma_len_subset(Set::empty().insert(z), f);
        } else {
            assert(f =~= Set::empty());
        }
    }

    /// Some relationship that references `id`, if there is one.
    fn first_reference(&self, id: ElementId) -> (r: Option<ElementId>)
        requires
            self.wf(),
        ensures
            r matches Some(rid) ==> self.relationships().contains_key(rid) && references(self.relationships()[rid], id),
            r is None ==> forall|rid: ElementId| #[trigger] self.relationships().contains_key(rid) ==> !references(self.relationships()[rid], id),
    {
        let n = self.relationships.len();
        let mut i: usize = 0;
        while i < n
            invariant
                n == self.relationships@.len(),
                i <= n,
                self.wf(),
                forall|j: int| 0 <= j < i ==> !references(#[trigger] self.relationships@[j], id),
            decreases n - i,
        {
            let rel = &self.relationships[i];
            if rel.source == id || rel.target == id || rel.owner == id {
                proof {
                    lemma_keyed_index(self.relationships@, i as int);
                }
                return Some(rel.id);
            }
            i = i + 1;
        }
        proof {
            assert forall|rid: ElementId| #[trigger] self.relationships().contains_key(rid) implies !references(self.relationships()[rid], id) by {
                let j = key_index(self.relationships@, rid);
                lemma_keyed_index(self.relationships@, j);
            }
        }
        None
    }

    /// Delete an element (removing it from its namespace). Deleting an element
    /// that owns children, or that a relationship references (as source,
    /// target or owner), is rejected. Its comments are deleted with it.
    pub fn delete_element(&mut self, id: ElementId) -> (r: Result<(), Error>)
        requires
            old(self).wf(),
        ensures
            final(self).wf(),
            !old(self).elements().contains_key(id) ==> {
                &&& r == Err::<(), Error>(Error::ElementNotFound { id })
                &&& *final(self) == *old(self)
            },
            old(self).elements().contains_key(id) && old(self).child_count(id) > 0 ==> {
                &&& r == Err::<(), Error>(Error::ElementHasChildren { element: id, count: old(self).child_count(id) as usize })
                &&& *final(self) == *old(self)
            },
            old(self).elements().contains_key(id) && old(self).child_count(id) == 0 && (exists|rid: ElementId| #[trigger] old(self).relationships().contains_key(rid) && references(old(self).relationships()[rid], id)) ==> {
                &&& r matches Err(Error::ElementReferencedByRelationship { element, relationship })
                &&& element == id
                &&& old(self).relationships().contains_key(relationship)
                &&& references(old(self).relationships()[relationship], id)
                &&& *final(self) == *old(self)
            },
            old(self).elements().contains_key(id) && old(self).child_count(id) == 0 && (forall|rid: ElementId| #[trigger] old(self).relationships().contains_key(rid) ==> !references(old(self).relationships()[rid], id)) ==> {
                &&& r == Ok::<(), Error>(())
                &&& final(self).elements() == old(self).elements().remove(id)
                &&& final(self).comments() == restrict_where(old(self).comments(), not_on(id))
                &&& final(self).relationships() == old(self).relationships()
                &&& final(self).model_package() == if old(self).model_package() == Some(id) { None } else { old(self).model_package() }
                &&& final(self).spec_schema_version() == old(self).spec_schema_version()
            },
            // every element it owned, and every relationship referencing it, is
            // gone with it or blocked the deletion
            r is Ok ==> forall|z: ElementId| #[trigger] final(self).elements().contains_key(z) ==> final(self).elements()[z].owner != Some(id),
    {
        let i = match find_key(&self.elements, id) {
            None => {
                return Err(Error::ElementNotFound { id });
            },
            Some(i) => i,
        };
        let count = self.count_children(id);
        if count > 0 {
            return Err(Error::ElementHasChildren { element: id, count });
        }
        if let Some(rid) = self.first_reference(id) {
            return Err(Error::ElementReferencedByRelationship { element: id, relationship: rid });
        }
        proof {
            self.lemma_child_count(id);
            lemma_keyed_index(self.elements@, i as int);
            lemma_keyed_remove(self.elements@, i as int);
            lemma_forest_remove(self.elements(), self.depth@, id);
        }
        let ghost new_depth = self.depth@.remove(id);
        self.elements.remove(i);
        self.depth = Ghost(new_depth);
        self.remove_comments_of(id);
        if self.model_package == Some(id) {
            self.model_package = None;
        }
        proof {
            reveal(Model::projection_synced);
            let o = old(self);
            o.lemma_refs();
            assert forall|rid: ElementId| #[trigger] o.relationships().contains_key(rid)
                implies o.relationships()[rid].source != id && o.relationships()[rid].target != id by {
                assert(!references(o.relationships()[rid], id));
            }
            lemma_expected_remove(o.elements(), o.relationships(), id);
        }
        self.projection.remove_element(id);
        proof {
            reveal(Model::projection_synced);
            let o = old(self);
            assert(self.relationships() == o.relationships());
            assert forall|rid: ElementId| #[trigger] self.relationships().contains_key(rid) implies {
                let rel = self.relationships()[rid];
                &&& self.elements().contains_key(rel.source)
                &&& self.elements().contains_key(rel.target)
                &&& self.elements().contains_key(rel.owner)
            } by {
                assert(o.relationships().contains_key(rid));
                assert(!references(o.relationships()[rid], id));
            }
            assert forall|c: ElementId| #[trigger] self.comments().contains_key(c)
                implies self.elements().contains_key(self.comments()[c].owner) by {
                assert(o.comments().contains_key(c));
            }
        }
        Ok(())
    }

    /// Drop every comment attached to `id`.
    fn remove_comments_of(&mut self, id: ElementId)
        requires
            unique_keys(old(self).comments@),
        ensures
            unique_keys(final(self).comments@),
            final(self).comments() == restrict_where(old(self).comments(), not_on(id)),
            final(self).elements == old(self).elements,
            final(self).relationships == old(self).relationships,
            final(self).model_package == old(self).model_package,
            final(self).schema_version == old(self).schema_version,
            final(self).depth == old(self).depth,
            final(self).projection == old(self).projection,
    {
        let ghost p = not_on(id);
        let n = self.comments.len();
        let mut kept: Vec<CommentView> = Vec::new();
        let mut i: usize = 0;
        while i < n
            invariant
                n == self.comments@.len(),
                i <= n,
                kept@ == keep(self.comments@.take(i as int), p),
                p == not_on(id),
            decreases n - i,
        {
            proof {
                lemma_keep_take(self.comments@, p, i as int);
            }
            if self.comments[i].owner != id {
                kept.push(self.comments[i].clone());
            }
            i = i + 1;
        }
        proof {
            assert(self.comments@.take(n as int) =~= self.comments@);
            lemma_keyed_keep(self.comments@, p);
        }
        self.comments = kept;
    }
}

impl Model {
    /// Create a relationship; its source, target and owner must exist.
    pub fn create_relationship(&mut self, req: &CreateRelationship) -> (r: Result<RelationshipView, Error>)
        requires
            old(self).wf(),
        ensures
            final(self).wf(),
            !old(self).elements().contains_key(req.source) ==> {
                &&& r == Err::<RelationshipView, Error>(Error::RelationshipEndpointNotFound { kind: req.kind, endpoint: req.source })
                &&& *final(self) == *old(self)
            },
            old(self).elements().contains_key(req.source) && !old(self).elements().contains_key(req.target) ==> {
                &&& r == Err::<RelationshipView, Error>(Error::RelationshipEndpointNotFound { kind: req.kind, endpoint: req.target })
                &&& *final(self) == *old(self)
            },
            old(self).elements().contains_key(req.source) && old(self).elements().contains_key(req.target)
                && !old(self).elements().contains_key(req.owner) ==> {
                &&& r == Err::<RelationshipView, Error>(Error::ElementNotFound { id: req.owner })
                &&& *final(self) == *old(self)
            },
            old(self).elements().contains_key(req.source) && old(self).elements().contains_key(req.target)
                && old(self).elements().contains_key(req.owner) && old(self).relationships().contains_key(req.id) ==> {
                &&& r == Err::<RelationshipView, Error>(Error::IdAlreadyExists { id: req.id })
                &&& *final(self) == *old(self)
            },
            old(self).elements().contains_key(req.source) && old(self).elements().contains_key(req.target)
                && old(self).elements().contains_key(req.owner) && !old(self).relationships().contains_key(req.id) ==> {
                &&& r == Ok::<RelationshipView, Error>(requested_relationship(*req))
                &&& final(self).relationships() == old(self).relationships().insert(req.id, requested_relationship(*req))
                &&& final(self).elements() == old(self).elements()
                &&& final(self).comments() == old(self).comments()
                &&& final(self).model_package() == old(self).model_package()
                &&& final(self).spec_schema_version() == old(self).spec_schema_version()
            },
    {
        if !self.element_exists(req.source) {
            return Err(Error::RelationshipEndpointNotFound { kind: req.kind.clone(), endpoint: req.source });
        }
        if !self.element_exists(req.target) {
            return Err(Error::RelationshipEndpointNotFound { kind: req.kind.clone(), endpoint: req.target });
        }
        if !self.element_exists(req.owner) {
            return Err(Error::ElementNotFound { id: req.owner });
        }
        if find_key(&self.relationships, req.id).is_some() {
            return Err(Error::IdAlreadyExists { id: req.id });
        }
        let view = RelationshipView {
            id: req.id,
            kind: req.kind.clone(),
            source: req.source,
            target: req.target,
            owner: req.owner,
        };
        self.insert_relationship(view.clone());
        Ok(view)
    }

    /// Add a relationship whose endpoints and owner exist, under a fresh id.
    fn insert_relationship(&mut self, view: RelationshipView)
        requires
            old(self).wf(),
            !old(self).relationships().contains_key(view.id),
            old(self).elements().contains_key(view.source),
            old(self).elements().contains_key(view.target),
            old(self).elements().contains_key(view.owner),
        ensures
            final(self).wf(),
            final(self).relationships() == old(self).relationships().insert(view.id, view),
            final(self).elements() == old(self).elements(),
            final(self).comments() == old(self).comments(),
            final(self).model_package() == old(self).model_package(),
            final(self).spec_schema_version() == old(self).spec_schema_version(),
    {
        let id = view.id;
        proof {
            reveal(Model::projection_synced);
            assert(!has_key(self.relationships@, view.id));
            lemma_keyed_push(self.relationships@, view);
            lemma_expected_add_relationship(old(self).elements(), old(self).relationships(), view);
        }
        self.projection.add_relationship(&view);
        self.relationships.push(view);
        proof {
            reveal(Model::projection_synced);
            let o = old(self);
            assert forall|rid: ElementId| #[trigger] self.relationships().contains_key(rid) implies {
                let rel = self.relationships()[rid];
                &&& self.elements().contains_key(rel.source)
                &&& self.elements().contains_key(rel.target)
                &&& self.elements().contains_key(rel.owner)
            } by {
                if rid != id {
                    assert(o.relationships().contains_key(rid));
                }
            }
            assert(self.comments() == o.comments());
        }
    }

    /// Get a relationship by id.
    pub fn get_relationship(&self, id: ElementId) -> (r: Result<RelationshipView, Error>)
        requires
            self.wf(),
        ensures
            self.relationships().contains_key(id) ==> r == Ok::<RelationshipView, Error>(self.relationships()[id]),
            !self.relationships().contains_key(id) ==> r == Err::<RelationshipView, Error>(
                Error::RelationshipNotFound { id },
            ),
    {
        match find_key(&self.relationships, id) {
            Some(i) => {
                proof {
                    lemma_keyed_index(self.relationships@, i as int);
                }
                Ok(self.relationships[i].clone())
            },
            None => Err(Error::RelationshipNotFound { id }),
        }
    }

    /// Delete a relationship.
    pub fn delete_relationship(&mut self, id: ElementId) -> (r: Result<(), Error>)
        requires
            old(self).wf(),
        ensures
            final(self).wf(),
            !old(self).relationships().contains_key(id) ==> {
                &&& r == Err::<(), Error>(Error::RelationshipNotFound { id })
                &&& *final(self) == *old(self)
            },
            old(self).relationships().contains_key(id) ==> {
                &&& r == Ok::<(), Error>(())
                &&& final(self).relationships() == old(self).relationships().remove(id)
                &&& final(self).elements() == old(self).elements()
                &&& final(self).comments() == old(self).comments()
                &&& final(self).model_package() == old(self).model_package()
                &&& final(self).spec_schema_version() == old(self).spec_schema_version()
            },
    {
        match find_key(&self.relationships, id) {
            None => Err(Error::RelationshipNotFound { id }),
            Some(i) => {
                proof {
                    lemma_keyed_index(self.relationships@, i as int);
                    lemma_keyed_remove(self.relationships@, i as int);
                    reveal(Model::projection_synced);
                    lemma_expected_remove_relationship(old(self).elements(), old(self).relationships(), id);
                }
                self.projection.remove_relationship(id);
                self.relationships.remove(i);
                proof {
                    reveal(Model::projection_synced);
                    let o = old(self);
                    assert forall|rid: ElementId| #[trigger] self.relationships().contains_key(rid) implies {
                        let rel = self.relationships()[rid];
                        &&& self.elements().contains_key(rel.source)
                        &&& self.elements().contains_key(rel.target)
                        &&& self.elements().contains_key(rel.owner)
                    } by {
                        assert(o.relationships().contains_key(rid));
                    }
                    assert(self.comments() == o.comments());
                }
                Ok(())
            },
        }
    }

    /// Create a comment on an element; the body must hold more than white
    /// space. Deleting the owning element deletes the comment.
    pub fn create_comment(&mut self, id: ElementId, owner: ElementId, body: &str) -> (r: Result<CommentView, Error>)
        requires
            old(self).wf(),
        ensures
            final(self).wf(),
            blank(body@) ==> {
                &&& r == Err::<CommentView, Error>(Error::EmptyCommentBody)
                &&& *final(self) == *old(self)
            },
            !blank(body@) && !old(self).elements().contains_key(owner) ==> {
                &&& r == Err::<CommentView, Error>(Error::ElementNotFound { id: owner })
                &&& *final(self) == *old(self)
            },
            !blank(body@) && old(self).elements().contains_key(owner) && old(self).comments().contains_key(id) ==> {
                &&& r == Err::<CommentView, Error>(Error::IdAlreadyExists { id })
                &&& *final(self) == *old(self)
            },
            !blank(body@) && old(self).elements().contains_key(owner) && !old(self).comments().contains_key(id) ==> {
                &&& r matches Ok(c)
                &&& c.id == id && c.owner == owner && c.body@ == body@
                &&& final(self).comments() == old(self).comments().insert(id, c)
                &&& final(self).elements() == old(self).elements()
                &&& final(self).relationships() == old(self).relationships()
                &&& final(self).model_package() == old(self).model_package()
                &&& final(self).spec_schema_version() == old(self).spec_schema_version()
            },
    {
        if is_blank(body) {
            return Err(Error::EmptyCommentBody);
        }
        if !self.element_exists(owner) {
            return Err(Error::ElementNotFound { id: owner });
        }
        if find_key(&self.comments, id).is_some() {
            return Err(Error::IdAlreadyExists { id });
        }
        let c = CommentView { id, owner, body: String::from_str(body) };
        self.insert_comment(c.clone());
        Ok(c)
    }

    /// Add a comment whose id is new and whose owner is present.
    fn insert_comment(&mut self, c: CommentView)
        requires
            old(self).wf(),
            !old(self).comments().contains_key(c.id),
            old(self).elements().contains_key(c.owner),
        ensures
            final(self).wf(),
            final(self).comments() == old(self).comments().insert(c.id, c),
            final(self).elements() == old(self).elements(),
            final(self).relationships() == old(self).relationships(),
            final(self).model_package() == old(self).model_package(),
            final(self).spec_schema_version() == old(self).spec_schema_version(),
    {
        let id = c.id;
        proof {
            assert(!has_key(self.comments@, c.id));
            lemma_keyed_push(self.comments@, c);
        }
        self.comments.push(c);
        proof {
            let o = old(self);
            assert forall|cid: ElementId| #[trigger] self.comments().contains_key(cid)
                implies self.elements().contains_key(self.comments()[cid].owner) by {
                if cid != id {
                    assert(o.comments().contains_key(cid));
                }
            }
            assert(self.relationships() == o.relationships());
            Model::lemma_synced_frame(o, self);
        }
    }

    /// Get a comment by id.
    pub fn get_comment(&self, id: ElementId) -> (r: Result<CommentView, Error>)
        requires
            self.wf(),
        ensures
            self.comments().contains_key(id) ==> r == Ok::<CommentView, Error>(self.comments()[id]),
            !self.comments().contains_key(id) ==> r == Err::<CommentView, Error>(Error::ElementNotFound { id }),
    {
        match find_key(&self.comments, id) {
            Some(i) => {
                proof {
                    lemma_keyed_index(self.comments@, i as int);
                }
                Ok(self.comments[i].clone())
            },
            None => Err(Error::ElementNotFound { id }),
        }
    }

    /// Whether `id` is the project root package created by
    /// [`Model::create_root`] (its data carries `isModel = true`).
    pub fn is_model_package(&self, id: ElementId) -> (b: bool)
        ensures
            b == (self.model_package() == Some(id)),
    {
        self.model_package == Some(id)
    }
}

/// The name parts of the ownership path of `id`, root first: the names of
/// the `n + 1` elements from `n` steps above `id` down to `id`.
pub open spec fn path_names(m: Map<ElementId, ElementView>, id: ElementId, n: nat) -> Seq<Seq<char>> {
    Seq::new(n + 1, |i: int| opt_text(m[ancestor_at(m, id, (n - i) as nat)->0].name))
}

impl Model {
    /// The number of owner steps from `id` up to its root.
    pub closed spec fn root_distance(&self, id: ElementId) -> nat {
        self.depth@[id]
    }

    /// The qualified name of `id`: the names on its ownership path from the
    /// root down to `id`, joined by `/` (an unnamed element gives an empty
    /// segment).
    pub closed spec fn qualified_name_text(&self, id: ElementId) -> Seq<char> {
        seq_join(path_names(self.elements(), id, self.depth@[id]), "/"@)
    }

    /// The root distance is where the owner chain of `id` ends at a root.
    pub proof fn lemma_root_distance(&self, id: ElementId)
        requires
            self.wf(),
            self.elements().contains_key(id),
        ensures
            ancestor_at(self.elements(), id, self.root_distance(id)) is Some,
            self.elements()[ancestor_at(self.elements(), id, self.root_distance(id))->0].owner is None,
            ancestor_at(self.elements(), id, self.root_distance(id) + 1) is None,
            self.elements()[id].owner matches Some(o) ==> self.root_distance(id) == self.root_distance(o) + 1,
            self.elements()[id].owner is None ==> self.root_distance(id) == 0,
    {
        lemma_chain_ends_at_root(self.elements(), self.depth@, id);
        lemma_chain_past_root(self.elements(), self.depth@, id, self.depth@[id] + 1);
        assert(owner_fits(self.elements(), self.depth@, id));
    }

    /// A root's qualified name is its own name; any other element's is its
    /// owner's qualified name, `/`, and its own name.
    pub proof fn lemma_qualified_name_shape(&self, id: ElementId)
        requires
            self.wf(),
            self.elements().contains_key(id),
        ensures
            self.elements()[id].owner is None ==> self.qualified_name_text(id) == opt_text(self.elements()[id].name),
            self.elements()[id].owner matches Some(o) ==> self.qualified_name_text(id) == self.qualified_name_text(o)
                + "/"@ + opt_text(self.elements()[id].name),
    {
        let m = self.elements();
        let dep = self.depth@;
        assert(owner_fits(m, dep, id));
        match m[id].owner {
            None => {
                assert(path_names(m, id, 0) =~= seq![opt_text(m[id].name)]);
            },
            Some(o) => {
                let n = dep[o];
                let a = path_names(m, id, n + 1);
                let b = path_names(m, o, n);
                assert forall|i: int| 0 <= i <= n implies #[trigger] a[i] == b[i] by {
                    assert(ancestor_at(m, id, (n + 1 - i) as nat) == ancestor_at(m, o, (n - i) as nat));
                }
                assert(a.drop_last() =~= b);
                assert(a.last() == opt_text(m[id].name));
            },
        }
    }

    /// The ancestors of `id` nearest first, starting with `id` itself at
    /// depth 0 and ending at its root; empty when `id` is not an element.
    #[verifier::spinoff_prover]
    pub fn ancestors(&self, id: ElementId) -> (rows: Vec<ClosureRow>)
        requires
            self.wf(),
        ensures
            forall|k: int| 0 <= k < rows@.len() ==> #[trigger] rows@[k].depth == k
                && ancestor_at(self.elements(), id, k as nat) == Some(rows@[k].id),
            ancestor_at(self.elements(), id, rows@.len()) is None,
    {
        let mut rows: Vec<ClosureRow> = Vec::new();
        let m = Ghost(self.elements());
        let dep = Ghost(self.depth@);
        if !self.element_exists(id) {
            return rows;
        }
        proof {
            self.lemma_wf_facts();
            lemma_depth_below_size(m@, dep@, id);
        }
        let n = self.elements.len();
        let mut cur = id;
        let mut k: usize = 0;
        proof {
            reveal(chain_rows);
        }
        loop
            invariant
                unique_keys(self.elements@),
                m@ == self.elements(),
                forest(m@, dep@),
                m@.contains_key(cur),
                m@.contains_key(id),
                ancestor_at(m@, id, k as nat) == Some(cur),
                k + dep@[cur] == dep@[id],
                dep@[id] < n,
                n == self.elements@.len(),
                rows@.len() == k,
                chain_rows(m@, id, rows@),
            decreases dep@[cur],
        {
            let ghost before = rows@;
            rows.push(ClosureRow { id: cur, depth: k });
            proof {
                lemma_chain_rows_push(m@, id, before, ClosureRow { id: cur, depth: k });
            }
            let i = match find_key(&self.elements, cur) {
                Some(i) => i,
                None => {
                    proof {
                        assert(has_key(self.elements@, cur));
                    }
                    return rows;
                },
            };
            proof {
                lemma_keyed_index(self.elements@, i as int);
                assert(owner_fits(m@, dep@, cur));
                lemma_ancestor_step(m@, id, k as nat);
            }
            match self.elements[i].owner {
                None => {
                    proof {
                        lemma_chain_past_root(m@, dep@, id, (k + 1) as nat);
                        reveal(chain_rows);
                    }
                    return rows;
                },
                Some(o) => {
                    cur = o;
                    k = k + 1;
                },
            }
        }
    }

    /// The descendants of `id` (its subtree, itself included at depth 0),
    /// ordered by depth, then by id; empty when `id` is not an element.
    #[verifier::rlimit(100)]
    #[verifier::spinoff_prover]
    pub fn subtree(&self, id: ElementId) -> (rows: Vec<ClosureRow>)
        requires
            self.wf(),
        ensures
            rows_sorted(rows@),
            forall|i: int| 0 <= i < rows@.len() ==> ancestor_at(self.elements(), #[trigger] rows@[i].id, rows@[i].depth as nat) == Some(id),
            forall|z: ElementId| is_ancestor(self.elements(), id, z) ==> exists|i: int| 0 <= i < rows@.len() && #[trigger] rows@[i].id == z,
            forall|i: int, j: int| 0 <= i < j < rows@.len() ==> #[trigger] rows@[i].id != #[trigger] rows@[j].id,
    {
        let mut rows: Vec<ClosureRow> = Vec::new();
        let n = self.elements.len();
        let mut i: usize = 0;
        while i < n
            invariant
                self.wf(),
                n == self.elements@.len(),
                i <= n,
                rows_sorted(rows@),
                forall|j: int| 0 <= j < rows@.len() ==> ancestor_at(self.elements(), #[trigger] rows@[j].id, rows@[j].depth as nat) == Some(id),
                forall|j: int| 0 <= j < rows@.len() ==> exists|a: int| 0 <= a < i && #[trigger] rows@[j].id == self.elements@[a].id,
                forall|a: int| 0 <= a < i && is_ancestor(self.elements(), id, #[trigger] self.elements@[a].id) ==> exists|j: int| 0 <= j < rows@.len() && #[trigger] rows@[j].id == self.elements@[a].id,
                forall|a: int, b: int| 0 <= a < b < rows@.len() ==> #[trigger] rows@[a].id != #[trigger] rows@[b].id,
            decreases n - i,
        {
            let z = self.elements[i].id;
            if let Some(k) = self.depth(id, z) {
                let ghost before = rows@;
                let row = ClosureRow { id: z, depth: k };
                let p = insert_sorted(&mut rows, row);
                proof {
                    lemma_keyed_index(self.elements@, i as int);
                    assert forall|j: int| 0 <= j < before.len() implies #[trigger] before[j].id != z by {
                        let a = choose|a: int| 0 <= a < i && #[trigger] before[j].id == self.elements@[a].id;
                        assert(self.elements@[a].key() != self.elements@[i as int].key());
                    }
                    assert forall|j: int| 0 <= j < rows@.len() implies ancestor_at(self.elements(), #[trigger] rows@[j].id, rows@[j].depth as nat) == Some(id) by {
                        if j > p {
                            assert(rows@[j] == before[j - 1]);
                        }
                    }
                    assert forall|j: int| 0 <= j < rows@.len() implies exists|a: int| 0 <= a < i + 1 && #[trigger] rows@[j].id == self.elements@[a].id by {
                        if j < p {
                            assert(rows@[j] == before[j]);
                        } else if j > p {
                            assert(rows@[j] == before[j - 1]);
                        } else {
                            assert(rows@[j].id == self.elements@[i as int].id);
                        }
                    }
                    assert forall|a: int| 0 <= a < i + 1 && is_ancestor(self.elements(), id, #[trigger] self.elements@[a].id) implies exists|j: int| 0 <= j < rows@.len() && #[trigger] rows@[j].id == self.elements@[a].id by {
                        if a == i {
                            assert(rows@[p as int].id == z);
                        } else {
                            let j = choose|j: int| 0 <= j < before.len() && #[trigger] before[j].id == self.elements@[a].id;
                            if j < p {
                                assert(rows@[j] == before[j]);
                            } else {
                                assert(rows@[j + 1] == before[j]);
                            }
                        }
                    }
                    assert forall|a: int, b: int| 0 <= a < b < rows@.len() implies #[trigger] rows@[a].id != #[trigger] rows@[b].id by {
                        let a2 = if a < p { a } else { a - 1 };
                        let b2 = if b < p { b } else { b - 1 };
                        if a != p && b != p {
                            assert(rows@[a] == before[a2]);
                            assert(rows@[b] == before[b2]);
                        } else if a == p {
                            assert(rows@[b] == before[b2]);
                        } else {
                            assert(rows@[a] == before[a2]);
                        }
                    }
                }
            } else {
                proof {
                    assert forall|a: int| 0 <= a < i + 1 && is_ancestor(self.elements(), id, #[trigger] self.elements@[a].id) implies exists|j: int| 0 <= j < rows@.len() && #[trigger] rows@[j].id == self.elements@[a].id by {
                        if a == i {
                            assert(false);
                        }
                    }
                }
            }
            i = i + 1;
        }
        proof {
            assert forall|z: ElementId| is_ancestor(self.elements(), id, z) implies exists|j: int| 0 <= j < rows@.len() && #[trigger] rows@[j].id == z by {
                let k = choose|k: nat| #[trigger] ancestor_at(self.elements(), z, k) == Some(id);
                assert(self.elements().contains_key(z));
                let a = key_index(self.elements@, z);
                lemma_keyed_index(self.elements@, a);
            }
        }
        rows
    }

    /// The qualified name of an element, derived on demand from its ownership
    /// chain: the names from the root down to the element, joined by `/`.
    #[verifier::spinoff_prover]
    pub fn qualified_name(&self, id: ElementId) -> (r: Result<String, Error>)
        requires
            self.wf(),
        ensures
            !self.elements().contains_key(id) ==> r == Err::<String, Error>(Error::ElementNotFound { id }),
            self.elements().contains_key(id) ==> (r matches Ok(s) && s@ == self.qualified_name_text(id)),
    {
        if !self.element_exists(id) {
            return Err(Error::ElementNotFound { id });
        }
        let chain = self.ancestors(id);
        let ghost m = self.elements();
        let ghost n = self.depth@[id];
        proof {
            self.lemma_root_distance(id);
            let len = chain@.len();
            if len <= n {
                lemma_chain_prefix(m, id, len as nat, n);
            }
            if len >= n + 2 {
                assert(chain@[n as int + 1].depth == n + 1);
            }
            assert(len == n + 1);
        }
        let len = chain.len();
        let mut names: Vec<String> = Vec::new();
        let mut j: usize = 0;
        while j < len
            invariant
                self.wf(),
                m == self.elements(),
                len == chain@.len(),
                len == n + 1,
                j <= len,
                forall|k: int| 0 <= k < chain@.len() ==> #[trigger] chain@[k].depth == k
                    && ancestor_at(self.elements(), id, k as nat) == Some(chain@[k].id),
                names@.len() == j,
                forall|t: int| 0 <= t < j ==> #[trigger] names@[t]@ == path_names(m, id, n)[t],
            decreases len - j,
        {
            let row = chain[len - 1 - j];
            proof {
                assert(chain@[(len - 1 - j) as int].depth == len - 1 - j);
                lemma_ancestor_depth(m, self.depth@, id, (len - 1 - j) as nat);
                assert(path_names(m, id, n)[j as int] == opt_text(m[row.id].name));
            }
            let text = match self.get_element(row.id) {
                Ok(v) => match v.name {
                    Some(s) => s,
                    None => String::new(),
                },
                Err(_) => String::new(),
            };
            names.push(text);
            j = j + 1;
        }
        let joined = join_strings(&names, "/");
        proof {
            assert(names@.map_values(|p: String| p@) =~= path_names(m, id, n));
        }
        Ok(joined)
    }
}

/// The checks `delete_element` makes, all passed: the element exists, owns
/// nothing, and no relationship references it.
pub open spec fn delete_allowed(m: &Model, id: ElementId) -> bool {
    &&& m.elements().contains_key(id)
    &&& m.child_count(id) == 0
    &&& forall|rid: ElementId| #[trigger] m.relationships().contains_key(rid) ==> !references(m.relationships()[rid], id)
}

/// `new` is `old` after `id` was deleted (its comments go with it).
pub open spec fn deleted(old: &Model, new: &Model, id: ElementId) -> bool {
    &&& new.elements() == old.elements().remove(id)
    &&& new.comments() == restrict_where(old.comments(), not_on(id))
    &&& new.relationships() == old.relationships()
    &&& new.model_package() == if old.model_package() == Some(id) { None } else { old.model_package() }
    &&& new.spec_schema_version() == old.spec_schema_version()
}

/// The checks `reparent_element` makes, all passed: the element and the new
/// owner exist, and the new owner is outside the element's subtree.
pub open spec fn reparent_allowed(m: &Model, id: ElementId, new_owner: Option<ElementId>) -> bool {
    &&& m.elements().contains_key(id)
    &&& (new_owner matches Some(o) ==> m.elements().contains_key(o) && !is_ancestor(m.elements(), id, o))
}

/// The checks `create_relationship` makes, all passed.
pub open spec fn create_relationship_allowed(m: &Model, req: CreateRelationship) -> bool {
    &&& m.elements().contains_key(req.source)
    &&& m.elements().contains_key(req.target)
    &&& m.elements().contains_key(req.owner)
    &&& !m.relationships().contains_key(req.id)
}

/// The root package `create_root` makes.
pub open spec fn root_view(id: ElementId, name: Option<String>) -> ElementView {
    ElementView { id, kind: MetaclassKind::Package, owner: None, name, visibility: Visibility::Public }
}

impl CreateElement {
    /// The element this request describes.
    fn clone_view(&self) -> (v: ElementView)
        ensures
            v == requested_view(*self),
    {
        ElementView {
            id: self.id,
            kind: self.kind,
            owner: self.owner,
            name: clone_opt_string(&self.name),
            visibility: self.visibility,
        }
    }
}

/// The stored rows make a valid model: every row reads back, ids are unique
/// per table, the owners form a forest, relationships join present elements
/// under a present owner, and comments have a present owner and a body that
/// is not blank.
pub open spec fn rows_form_model(rows: StoreRows) -> bool {
    let els = keyed_map(elements_of_rows(rows.elements@));
    let rels = relationships_of_rows(rows.relationships@);
    let cs = comments_of_rows(rows.comments@);
    &&& element_rows_read(rows.elements@)
    &&& unique_keys(elements_of_rows(rows.elements@))
    &&& relationship_rows_read(rows.relationships@)
    &&& unique_keys(rels)
    &&& comment_rows_read(rows.comments@)
    &&& unique_keys(cs)
    &&& exists|d: Map<ElementId, nat>| forest(els, d)
    &&& forall|i: int| 0 <= i < rels.len() ==> fits_elements(els, #[trigger] rels[i])
    &&& forall|i: int| 0 <= i < cs.len() ==> comment_fits(els, #[trigger] cs[i])
}

/// The relationship's source, target and owner are among the elements.
pub open spec fn fits_elements(els: Map<ElementId, ElementView>, r: RelationshipView) -> bool {
    &&& els.contains_key(r.source)
    &&& els.contains_key(r.target)
    &&& els.contains_key(r.owner)
}

/// The comment's owner is among the elements and its body is not blank.
pub open spec fn comment_fits(els: Map<ElementId, ElementView>, c: CommentView) -> bool {
    els.contains_key(c.owner) && !blank(c.body@)
}

/// Following owners from an unplaced element always leads to another
/// unplaced one, which a depth map rules out.
proof fn lemma_stuck_has_no_forest(
    all: Map<ElementId, ElementView>,
    placed: Map<ElementId, ElementView>,
    d: Map<ElementId, nat>,
    x: ElementId,
)
    requires
        all.contains_key(x),
        !placed.contains_key(x),
        forall|y: ElementId| #[trigger] all.contains_key(y) && !placed.contains_key(y) ==> all[y].owner is Some
            && !placed.contains_key(all[y].owner->0),
    ensures
        !forest(all, d),
    decreases d[x],
{
    if forest(all, d) {
        assert(crate::tree::owner_fits(all, d, x));
        let o = all[x].owner->0;
        lemma_stuck_has_no_forest(all, placed, d, o);
    }
}

impl Model {
    /// Open a model from the rows read out of its store: every element,
    /// placed under its owner, then every relationship and comment. Fails
    /// when a row does not read back, an id repeats, the owners do not form
    /// a forest, or a relationship or comment does not fit.
    pub fn open(rows: &StoreRows) -> (r: Result<Model, Error>)
        ensures
            r is Ok <==> rows_form_model(*rows),
            r matches Ok(m) ==> {
                &&& m.wf()
                &&& m.elements() == keyed_map(elements_of_rows(rows.elements@))
                &&& m.relationships() == keyed_map(relationships_of_rows(rows.relationships@))
                &&& m.comments() == keyed_map(comments_of_rows(rows.comments@))
                &&& m.spec_schema_version() == rows.schema_version
                &&& (m.model_package() matches Some(p) ==> exists|i: int| 0 <= i < rows.elements@.len()
                    && (#[trigger] rows.elements@[i]).is_model && elements_of_rows(rows.elements@)[i].id == p)
                &&& (m.model_package() is None ==> forall|i: int| 0 <= i < rows.elements@.len()
                    ==> !(#[trigger] rows.elements@[i]).is_model)
            },
    {
        let els = read_element_rows(&rows.elements)?;
        let rels = read_relationship_rows(&rows.relationships)?;
        let cs = read_comment_rows(&rows.comments)?;
        let ghost all = keyed_map(els@);
        let mut m = Model::new(rows.schema_version);
        let n = els.len();
        let mut pending: Vec<usize> = Vec::new();
        let mut i: usize = 0;
        while i < n
            invariant
                n == els@.len(),
                i <= n,
                pending@ == Seq::new(i as nat, |j: int| j as usize),
            decreases n - i,
        {
            pending.push(i);
            i = i + 1;
            assert(pending@ =~= Seq::new(i as nat, |j: int| j as usize));
        }
        let ghost mut placed: Set<int> = Set::empty();
        let mut present: HashSet<u128> = HashSet::new();
        proof {
            assert(m.elements() =~= Map::<ElementId, ElementView>::empty());
            assert forall|j: int| 0 <= j < n implies placed.contains(j) || pending@.contains(j as usize) by {
                assert(pending@[j] == j as usize);
            }
        }
        while pending.len() > 0
            invariant
                n == els@.len(),
                n == rows.elements@.len(),
                els@ == elements_of_rows(rows.elements@),
                unique_keys(els@),
                all == keyed_map(els@),
                m.wf(),
                forall|id: ElementId| #[trigger] present@.contains(id.value()) == m.elements().contains_key(id),
                m.relationships() == Map::<ElementId, RelationshipView>::empty(),
                m.comments() == Map::<ElementId, CommentView>::empty(),
                m.spec_schema_version() == rows.schema_version,
                pending@.no_duplicates(),
                forall|k: int| 0 <= k < pending@.len() ==> (#[trigger] pending@[k]) < n && !placed.contains(pending@[k] as int),
                forall|j: int| 0 <= j < n ==> placed.contains(j) || pending@.contains(j as usize),
                forall|j: int| #[trigger] placed.contains(j) ==> 0 <= j < n && m.elements().contains_key(els@[j].id)
                    && m.elements()[els@[j].id] == els@[j],
                forall|id: ElementId| #[trigger] m.elements().contains_key(id) ==> exists|j: int| #[trigger] placed.contains(j) && els@[j].id == id,
                m.model_package() matches Some(p) ==> exists|j: int| #[trigger] placed.contains(j) && rows.elements@[j].is_model && els@[j].id == p,
                m.model_package() is None ==> forall|j: int| #[trigger] placed.contains(j) ==> !rows.elements@[j].is_model,
            decreases pending@.len(),
        {
            let mut next: Vec<usize> = Vec::new();
            let mut progressed = false;
            let np = pending.len();
            let mut k: usize = 0;
            let ghost placed0 = placed;
            while k < np
                invariant
                    n == els@.len(),
                    n == rows.elements@.len(),
                    els@ == elements_of_rows(rows.elements@),
                    unique_keys(els@),
                    all == keyed_map(els@),
                    np == pending@.len(),
                    k <= np,
                    m.wf(),
                    forall|id: ElementId| #[trigger] present@.contains(id.value()) == m.elements().contains_key(id),
                    m.relationships() == Map::<ElementId, RelationshipView>::empty(),
                    m.comments() == Map::<ElementId, CommentView>::empty(),
                    m.spec_schema_version() == rows.schema_version,
                    pending@.no_duplicates(),
                    forall|q: int| 0 <= q < pending@.len() ==> (#[trigger] pending@[q]) < n && !placed0.contains(pending@[q] as int),
                    forall|j: int| 0 <= j < n ==> placed0.contains(j) || pending@.contains(j as usize),
                    placed0.subset_of(placed),
                    forall|j: int| #[trigger] placed.contains(j) && !placed0.contains(j) ==> exists|q: int| 0 <= q < k && pending@[q] == j,
                    forall|q: int| 0 <= q < k ==> placed.contains(#[trigger] pending@[q] as int) || next@.contains(pending@[q]),
                    forall|q: int| 0 <= q < next@.len() ==> (#[trigger] next@[q]) < n && !placed.contains(next@[q] as int),
                    next@.no_duplicates(),
                    forall|q: int| 0 <= q < next@.len() ==> exists|p: int| k > p >= 0 && #[trigger] pending@[p] == #[trigger] next@[q],
                    next@.len() <= k,
                    progressed || next@.len() == k,
                    progressed ==> next@.len() < k,
                    !progressed ==> placed == placed0,
                    forall|q: int| 0 <= q < next@.len() ==> els@[#[trigger] next@[q] as int].owner is Some
                        && !m.elements().contains_key(els@[next@[q] as int].owner->0)
                        || progressed,
                    forall|j: int| #[trigger] placed.contains(j) ==> 0 <= j < n && m.elements().contains_key(els@[j].id)
                        && m.elements()[els@[j].id] == els@[j],
                    forall|id: ElementId| #[trigger] m.elements().contains_key(id) ==> exists|j: int| #[trigger] placed.contains(j) && els@[j].id == id,
                    m.model_package() matches Some(p) ==> exists|j: int| #[trigger] placed.contains(j) && rows.elements@[j].is_model && els@[j].id == p,
                    m.model_package() is None ==> forall|j: int| #[trigger] placed.contains(j) ==> !rows.elements@[j].is_model,
                decreases np - k,
            {
                let idx = pending[k];
                let v = &els[idx];
                let ready = match v.owner {
                    Some(o) => present.contains(&o.as_u128()),
                    None => true,
                };
                if ready {
                    proof {
                        if m.elements().contains_key(v.id) {
                            let j = choose|j: int| #[trigger] placed.contains(j) && els@[j].id == v.id;
                            assert(els@[j].key() == els@[idx as int].key());
                            assert(j != idx);
                        }
                    }
                    let ghost d: nat = match v.owner {
                        Some(o) => m.depth@[o] + 1,
                        None => 0,
                    };
                    let ghost before = m.elements();
                    m.insert_element(v.clone(), Ghost(d), rows.elements[idx].is_model);
                    let ghost present0 = present@;
                    present.insert(v.id.as_u128());
                    proof {
                        assert forall|id: ElementId| #[trigger] present@.contains(id.value()) == m.elements().contains_key(id) by {
                            ElementId::lemma_value_injective(id, v.id);
                            assert(present0.contains(id.value()) == before.contains_key(id));
                        }
                    }
                    let ghost placed_before = placed;
                    proof {
                        placed = placed.insert(idx as int);
                        assert forall|j: int| #[trigger] placed.contains(j) implies 0 <= j < n && m.elements().contains_key(els@[j].id)
                            && m.elements()[els@[j].id] == els@[j] by {
                            if j != idx {
                                assert(before.contains_key(els@[j].id));
                                assert(els@[j].key() != els@[idx as int].key());
                            }
                        }
                        assert forall|id: ElementId| #[trigger] m.elements().contains_key(id) implies exists|j: int| #[trigger] placed.contains(j) && els@[j].id == id by {
                            if id != v.id {
                                assert(before.contains_key(id));
                                let j = choose|j: int| #[trigger] placed_before.contains(j) && els@[j].id == id;
                                assert(placed.contains(j));
                            } else {
                                assert(placed.contains(idx as int));
                                assert(els@[idx as int].id == id);
                            }
                        }
                        assert forall|j: int| #[trigger] placed.contains(j) && !placed0.contains(j) implies exists|q: int| 0 <= q < k + 1 && pending@[q] == j by {
                            if j == idx {
                                assert(pending@[k as int] == j);
                            }
                        }
                        assert forall|q: int| 0 <= q < next@.len() implies (#[trigger] next@[q]) < n && !placed.contains(next@[q] as int) by {
                            let p = choose|p: int| k > p >= 0 && #[trigger] pending@[p] == next@[q];
                            assert(pending@[p] != pending@[k as int]);
                        }
                    }
                    progressed = true;
                } else {
                    proof {
                        assert forall|q: int| 0 <= q < next@.len() implies #[trigger] next@[q] != idx by {
                            let p = choose|p: int| k > p >= 0 && #[trigger] pending@[p] == next@[q];
                            assert(pending@[p] != pending@[k as int]);
                        }
                    }
                    let ghost next0 = next@;
                    next.push(idx);
                    proof {
                        assert forall|q: int| 0 <= q < k + 1 implies placed.contains(#[trigger] pending@[q] as int) || next@.contains(pending@[q]) by {
                            if q == k {
                                assert(next@[next@.len() - 1] == idx);
                            } else if !placed.contains(pending@[q] as int) {
                                let t = choose|t: int| 0 <= t < next0.len() && next0[t] == pending@[q];
                                assert(next@[t] == pending@[q]);
                            }
                        }
                        assert forall|q: int| 0 <= q < next@.len() implies exists|p: int| k + 1 > p >= 0 && #[trigger] pending@[p] == #[trigger] next@[q] by {
                            if q == next@.len() - 1 {
                                assert(pending@[k as int] == next@[q]);
                            } else {
                                assert(next@[q] == next0[q]);
                            }
                        }
                    }
                }
                k = k + 1;
            }
            if !progressed && next.len() > 0 {
                proof {
                    if exists|dm: Map<ElementId, nat>| forest(all, dm) {
                        let dm = choose|dm: Map<ElementId, nat>| forest(all, dm);
                        let x0 = els@[next@[0] as int].id;
                        assert(els@[next@[0] as int].key() == x0);
                        crate::keyed::lemma_keyed_index(els@, next@[0] as int);
                        assert forall|y: ElementId| #[trigger] all.contains_key(y) && !m.elements().contains_key(y) implies all[y].owner is Some
                            && !m.elements().contains_key(all[y].owner->0) by {
                            let j = key_index(els@, y);
                            crate::keyed::lemma_keyed_index(els@, j);
                            if placed.contains(j) {
                            } else {
                                assert(pending@.contains(j as usize));
                                let q = choose|q: int| 0 <= q < pending@.len() && pending@[q] == j as usize;
                                assert(next@.contains(pending@[q]));
                                let t = choose|t: int| 0 <= t < next@.len() && next@[t] == pending@[q];
                                assert(els@[next@[t] as int].owner is Some);
                            }
                        }
                        assert(!m.elements().contains_key(x0)) by {
                            if m.elements().contains_key(x0) {
                                let j = choose|j: int| #[trigger] placed.contains(j) && els@[j].id == x0;
                                assert(els@[j].key() == els@[next@[0] as int].key());
                            }
                        }
                        lemma_stuck_has_no_forest(all, m.elements(), dm, x0);
                    }
                }
                return Err(Error::CorruptStore {
                    field: "owner_id",
                    detail: String::from_str("the owners do not form a tree: a cycle or a missing owner"),
                });
            }
            proof {
                assert forall|j: int| 0 <= j < n implies placed.contains(j) || next@.contains(j as usize) by {
                    if !placed.contains(j) {
                        assert(!placed0.contains(j));
                        assert(pending@.contains(j as usize));
                        let q = choose|q: int| 0 <= q < pending@.len() && pending@[q] == j as usize;
                    }
                }
            }
            pending = next;
        }
        proof {
            assert forall|j: int| 0 <= j < n implies #[trigger] placed.contains(j) by {
                if !placed.contains(j) {
                    assert(pending@.contains(j as usize));
                }
            }
            assert forall|id: ElementId| m.elements().contains_key(id) <==> all.contains_key(id) by {
                if all.contains_key(id) {
                    let j = key_index(els@, id);
                    crate::keyed::lemma_keyed_index(els@, j);
                    assert(placed.contains(j));
                }
            }
            assert forall|id: ElementId| #[trigger] m.elements().contains_key(id) implies m.elements()[id] == all[id] by {
                let j = choose|j: int| #[trigger] placed.contains(j) && els@[j].id == id;
                crate::keyed::lemma_keyed_index(els@, j);
            }
            assert(m.elements() =~= all);
            assert(forest(all, m.depth@));
            if let Some(p) = m.model_package() {
                let j = choose|j: int| #[trigger] placed.contains(j) && rows.elements@[j].is_model && els@[j].id == p;
                assert(elements_of_rows(rows.elements@)[j].id == p);
                assert(rows.elements@[j].is_model);
            } else {
                assert forall|i: int| 0 <= i < rows.elements@.len() implies !(#[trigger] rows.elements@[i]).is_model by {
                    assert(placed.contains(i));
                }
            }
        }
        let ghost dm = m.depth@;
        let nr = rels.len();
        let mut j: usize = 0;
        while j < nr
            invariant
                nr == rels@.len(),
                j <= nr,
                unique_keys(rels@),
                rels@ == relationships_of_rows(rows.relationships@),
                m.wf(),
                m.elements() == all,
                all == keyed_map(els@),
                els@ == elements_of_rows(rows.elements@),
                m.relationships() == keyed_map(rels@.take(j as int)),
                m.comments() == Map::<ElementId, CommentView>::empty(),
                forall|id: ElementId| #[trigger] present@.contains(id.value()) == all.contains_key(id),
                m.spec_schema_version() == rows.schema_version,
                forall|q: int| 0 <= q < j ==> fits_elements(all, #[trigger] rels@[q]),
                m.model_package() matches Some(p) ==> exists|i: int| 0 <= i < rows.elements@.len()
                    && (#[trigger] rows.elements@[i]).is_model && elements_of_rows(rows.elements@)[i].id == p,
                m.model_package() is None ==> forall|i: int| 0 <= i < rows.elements@.len() ==> !(#[trigger] rows.elements@[i]).is_model,
            decreases nr - j,
        {
            proof {
                crate::keyed::lemma_keyed_take_step(rels@, j as int);
            }
            let r = &rels[j];
            let fits = present.contains(&r.source.as_u128()) && present.contains(&r.target.as_u128())
                && present.contains(&r.owner.as_u128());
            if !fits {
                proof {
                    assert(relationships_of_rows(rows.relationships@)[j as int] == rels@[j as int]);
                    assert(!fits_elements(all, relationships_of_rows(rows.relationships@)[j as int]));
                    assert(!rows_form_model(*rows));
                }
                let e = if !present.contains(&r.source.as_u128()) {
                    Error::RelationshipEndpointNotFound { kind: r.kind.clone(), endpoint: r.source }
                } else if !present.contains(&r.target.as_u128()) {
                    Error::RelationshipEndpointNotFound { kind: r.kind.clone(), endpoint: r.target }
                } else {
                    Error::ElementNotFound { id: r.owner }
                };
                return Err(e);
            }
            proof {
                assert(!m.relationships().contains_key(rels@[j as int].id));
                assert(fits_elements(all, rels@[j as int]));
            }
            m.insert_relationship(r.clone());
            j = j + 1;
        }
        proof {
            assert(rels@.take(nr as int) =~= rels@);
        }
        let nc = cs.len();
        let mut j: usize = 0;
        while j < nc
            invariant
                nc == cs@.len(),
                j <= nc,
                unique_keys(cs@),
                cs@ == comments_of_rows(rows.comments@),
                m.wf(),
                m.elements() == all,
                all == keyed_map(els@),
                els@ == elements_of_rows(rows.elements@),
                m.relationships() == keyed_map(rels@),
                m.comments() == keyed_map(cs@.take(j as int)),
                forall|id: ElementId| #[trigger] present@.contains(id.value()) == all.contains_key(id),
                m.spec_schema_version() == rows.schema_version,
                forall|q: int| 0 <= q < j ==> comment_fits(all, #[trigger] cs@[q]),
                m.model_package() matches Some(p) ==> exists|i: int| 0 <= i < rows.elements@.len()
                    && (#[trigger] rows.elements@[i]).is_model && elements_of_rows(rows.elements@)[i].id == p,
                m.model_package() is None ==> forall|i: int| 0 <= i < rows.elements@.len() ==> !(#[trigger] rows.elements@[i]).is_model,
            decreases nc - j,
        {
            proof {
                crate::keyed::lemma_keyed_take_step(cs@, j as int);
            }
            let c = &cs[j];
            if is_blank(c.body.as_str()) {
                proof {
                    assert(comments_of_rows(rows.comments@)[j as int] == cs@[j as int]);
                    assert(!comment_fits(all, comments_of_rows(rows.comments@)[j as int]));
                    assert(!rows_form_model(*rows));
                }
                return Err(Error::EmptyCommentBody);
            }
            if !present.contains(&c.owner.as_u128()) {
                proof {
                    assert(comments_of_rows(rows.comments@)[j as int] == cs@[j as int]);
                    assert(!comment_fits(all, comments_of_rows(rows.comments@)[j as int]));
                    assert(!rows_form_model(*rows));
                }
                return Err(Error::ElementNotFound { id: c.owner });
            }
            proof {
                assert(!has_key(cs@.take(j as int), cs@[j as int].key()));
                assert(comment_fits(all, cs@[j as int]));
            }
            m.insert_comment(c.clone());
            j = j + 1;
        }
        proof {
            assert(cs@.take(nc as int) =~= cs@);
            assert(forest(all, dm));
        }
        Ok(m)
    }
}

/// `rows` lists the first ancestors of `id`, nearest first, each with its
/// distance.
#[verifier::opaque]
spec fn chain_rows(m: Map<ElementId, ElementView>, id: ElementId, rows: Seq<ClosureRow>) -> bool {
    forall|j: int| 0 <= j < rows.len() ==> #[trigger] rows[j].depth == j && ancestor_at(m, id, j as nat) == Some(rows[j].id)
}

/// One more ancestor extends the list.
proof fn lemma_chain_rows_push(m: Map<ElementId, ElementView>, id: ElementId, rows: Seq<ClosureRow>, row: ClosureRow)
    requires
        chain_rows(m, id, rows),
        row.depth == rows.len(),
        ancestor_at(m, id, rows.len()) == Some(row.id),
    ensures
        chain_rows(m, id, rows.push(row)),
{
    reveal(chain_rows);
    assert forall|j: int| 0 <= j < rows.len() + 1 implies #[trigger] rows.push(row)[j].depth == j
        && ancestor_at(m, id, j as nat) == Some(rows.push(row)[j].id) by {
        if j < rows.len() {
            assert(rows.push(row)[j] == rows[j]);
        }
    }
}

/// `i` is the position of the first element without owner in `s`.
pub open spec fn first_unowned_at(s: Seq<ElementView>, i: int) -> bool {
    &&& 0 <= i < s.len()
    &&& s[i].owner is None
    &&& forall|j: int| 0 <= j < i ==> (#[trigger] s[j]).owner is Some
}

/// How the model's order keeps its first element without owner, which is
/// what `root` reports: appending an element to a list without any element
/// lacking an owner makes a new root first when it has no owner (as
/// `create_root` does on a model without root); appending (as
/// `create_element` does) or changing one element in place (as
/// `rename_element` and `reparent_element` do) keeps the first element without
/// owner where it was, unless that very element changes, or an element before
/// it loses its owner.
pub proof fn lemma_first_unowned_kept(s0: Seq<ElementView>, i: int, k: int, v: ElementView)
    ensures
        (forall|j: int| 0 <= j < s0.len() ==> (#[trigger] s0[j]).owner is Some) && v.owner is None
            ==> first_unowned_at(s0.push(v), s0.len() as int),
        first_unowned_at(s0, i) ==> first_unowned_at(s0.push(v), i) && s0.push(v)[i] == s0[i],
        first_unowned_at(s0, i) && 0 <= k < s0.len() && k != i && (k > i || v.owner is Some)
            ==> first_unowned_at(s0.update(k, v), i) && s0.update(k, v)[i] == s0[i],
{
    if first_unowned_at(s0, i) {
        assert forall|j: int| 0 <= j < i implies (#[trigger] s0.push(v)[j]).owner is Some by {
            assert(s0.push(v)[j] == s0[j]);
        }
        if 0 <= k < s0.len() && k != i && (k > i || v.owner is Some) {
            assert forall|j: int| 0 <= j < i implies (#[trigger] s0.update(k, v)[j]).owner is Some by {
                if j != k {
                    assert(s0.update(k, v)[j] == s0[j]);
                }
            }
        }
    }
    if (forall|j: int| 0 <= j < s0.len() ==> (#[trigger] s0[j]).owner is Some) && v.owner is None {
        assert forall|j: int| 0 <= j < s0.len() implies (#[trigger] s0.push(v)[j]).owner is Some by {
            assert(s0.push(v)[j] == s0[j]);
        }
    }
}

/// A model without root lists no element without owner.
pub proof fn lemma_rootless_list_owned(m: Model)
    requires
        m.wf(),
        !has_root(m.elements()),
    ensures
        forall|j: int| 0 <= j < m.element_list().len() ==> (#[trigger] m.element_list()[j]).owner is Some,
{
    m.lemma_invariant();
    assert forall|j: int| 0 <= j < m.element_list().len() implies (#[trigger] m.element_list()[j]).owner is Some by {
        lemma_keyed_index(m.elements@, j);
    }
}

} // verus!
