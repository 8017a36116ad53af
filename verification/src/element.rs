//! The base element and relationship shapes of the metamodel.
//!
//! Names are optional and not unique within a namespace; identity (the
//! [`ElementId`]) is the only key. Quantities that need the ownership graph,
//! such as the qualified name, belong to the model, not to these shapes.

use vstd::prelude::*;

use crate::id::ElementId;
use crate::stereotype::AppliedStereotype;
use crate::text::{blank, is_blank};
use crate::visibility::Visibility;

verus! {

/// A named, owned element: the shape every specializable element shares.
///
/// The name is optional and not unique: siblings may share a name, since
/// identity is the id. Constructed with public visibility.
#[derive(Debug, Clone, PartialEq, Eq)]
pub struct NamedElement {
    /// Immutable identity.
    pub id: ElementId,
    /// Owning namespace, or `None` only for the project root.
    pub owner: Option<ElementId>,
    /// Human-readable name; mutable; not unique.
    pub name: Option<String>,
    /// UML visibility (public by default).
    pub visibility: Visibility,
    /// Comments attached to (owned by) this element.
    pub comments: Vec<Comment>,
    /// Stereotype applications on this element.
    pub stereotypes: Vec<AppliedStereotype>,
}

impl NamedElement {
    /// A new element with no owner, no name, public visibility, and no
    /// comments or stereotypes.
    pub fn new(id: ElementId) -> (e: Self)
        ensures
            e.id == id,
            e.owner is None,
            e.name is None,
            e.visibility == Visibility::Public,
            e.comments@.len() == 0,
            e.stereotypes@.len() == 0,
    {
        NamedElement {
            id,
            owner: None,
            name: None,
            visibility: Visibility::default(),
            comments: Vec::new(),
            stereotypes: Vec::new(),
        }
    }

    /// Set the owning namespace.
    pub fn with_owner(self, owner: ElementId) -> (e: Self)
        ensures
            e == (NamedElement { owner: Some(owner), ..self }),
    {
        let mut e = self;
        e.owner = Some(owner);
        e
    }

    /// Set the (optional, not unique) name.
    pub fn with_name(self, name: &str) -> (e: Self)
        ensures
            (e.name matches Some(n) && n@ == name@),
            e.id == self.id,
            e.owner == self.owner,
            e.visibility == self.visibility,
            e.comments == self.comments,
            e.stereotypes == self.stereotypes,
    {
        let mut e = self;
        e.name = Some(String::from_str(name));
        e
    }

    /// Attach a comment.
    pub fn with_comment(self, comment: Comment) -> (e: Self)
        ensures
            e.comments@ == self.comments@.push(comment),
            e.id == self.id,
            e.owner == self.owner,
            e.name == self.name,
            e.visibility == self.visibility,
            e.stereotypes == self.stereotypes,
    {
        let mut e = self;
        e.comments.push(comment);
        e
    }

    /// Apply a stereotype; an element may carry several.
    pub fn with_stereotype(self, stereotype: AppliedStereotype) -> (e: Self)
        ensures
            e.stereotypes@ == self.stereotypes@.push(stereotype),
            e.id == self.id,
            e.owner == self.owner,
            e.name == self.name,
            e.visibility == self.visibility,
            e.comments == self.comments,
    {
        let mut e = self;
        e.stereotypes.push(stereotype);
        e
    }
}

/// A comment attached to an element; its owner is implicit, the annotated
/// elements are further cross-references.
#[derive(Debug, Clone, PartialEq, Eq)]
pub struct Comment {
    /// The comment text (Markdown allowed); never blank.
    pub body: String,
    /// Elements this comment also annotates (the owner is implicit).
    pub annotated_elements: Vec<ElementId>,
}

/// Why a comment could not be built.
#[derive(Debug, Clone, Copy, PartialEq, Eq, Structural)]
pub enum CommentError {
    /// The body was empty or white space only.
    EmptyBody,
}

impl Comment {
    /// Build a comment, rejecting a body that is empty or white space only.
    pub fn new(body: &str) -> (r: Result<Self, CommentError>)
        ensures
            blank(body@) ==> r == Err::<Comment, CommentError>(CommentError::EmptyBody),
            !blank(body@) ==> (r matches Ok(c) && c.body@ == body@ && c.annotated_elements@.len() == 0),
    {
        if is_blank(body) {
            return Err(CommentError::EmptyBody);
        }
        Ok(Comment { body: String::from_str(body), annotated_elements: Vec::new() })
    }

    /// Add an annotated element reference.
    pub fn annotate(self, element: ElementId) -> (c: Self)
        ensures
            c.annotated_elements@ == self.annotated_elements@.push(element),
            c.body == self.body,
    {
        let mut c = self;
        c.annotated_elements.push(element);
        c
    }
}

/// The base of every edge of the model graph: an identity and an owner.
#[derive(Debug, Clone, Copy, PartialEq, Eq, Structural)]
pub struct Relationship {
    /// Edge identity.
    pub id: ElementId,
    /// Owning namespace (an edge always has one).
    pub owner: ElementId,
}

impl Relationship {
    /// An edge owned by `owner`.
    pub fn new(id: ElementId, owner: ElementId) -> (r: Self)
        ensures
            r.id == id,
            r.owner == owner,
    {
        Relationship { id, owner }
    }
}

/// A directed edge from its sources to its targets.
#[derive(Debug, Clone, PartialEq, Eq)]
pub struct DirectedRelationship {
    /// The underlying relationship (identity and owner).
    pub relationship: Relationship,
    /// The "from" elements.
    pub sources: Vec<ElementId>,
    /// The "to" elements.
    pub targets: Vec<ElementId>,
}

impl DirectedRelationship {
    /// A directed edge with no endpoints yet.
    pub fn new(relationship: Relationship) -> (d: Self)
        ensures
            d.relationship == relationship,
            d.sources@.len() == 0,
            d.targets@.len() == 0,
    {
        DirectedRelationship { relationship, sources: Vec::new(), targets: Vec::new() }
    }

    /// A binary edge: exactly one source and one target.
    pub fn binary(relationship: Relationship, source: ElementId, target: ElementId) -> (d: Self)
        ensures
            d.relationship == relationship,
            d.sources@ == seq![source],
            d.targets@ == seq![target],
    {
        let mut sources = Vec::new();
        sources.push(source);
        let mut targets = Vec::new();
        targets.push(target);
        assert(sources@ =~= seq![source]);
        assert(targets@ =~= seq![target]);
        DirectedRelationship { relationship, sources, targets }
    }

    /// Whether this edge is binary: one source and one target.
    pub fn is_binary(&self) -> (b: bool)
        ensures
            b == (self.sources@.len() == 1 && self.targets@.len() == 1),
    {
        self.sources.len() == 1 && self.targets.len() == 1
    }
}

} // verus!
