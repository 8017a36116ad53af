//! Typed errors of the model API: every fallible operation returns one, and
//! no operation panics.

use vstd::prelude::*;

use crate::id::ElementId;

verus! {

/// Every error the model API can raise.
#[derive(Debug, Clone, PartialEq, Eq)]
pub enum Error {
    /// The project root already exists (a project has exactly one root).
    RootAlreadyExists {
        /// The id of the existing root package.
        existing: ElementId,
    },
    /// An element (or comment) was not found by id.
    ElementNotFound {
        /// The id that was looked up.
        id: ElementId,
    },
    /// A relationship was not found by id.
    RelationshipNotFound {
        /// The id that was looked up.
        id: ElementId,
    },
    /// A metaclass was supplied that is not a top-level ownable kind.
    NotTopLevelKind {
        /// The stable string identifier of the rejected kind.
        kind: String,
    },
    /// A relationship source or target does not reference an existing element.
    RelationshipEndpointNotFound {
        /// The relationship kind string.
        kind: String,
        /// The id of the missing endpoint.
        endpoint: ElementId,
    },
    /// A reparent would move an element into its own subtree.
    ReparentIntoOwnSubtree {
        /// The element being reparented.
        element: ElementId,
        /// The would-be new owner.
        new_owner: ElementId,
    },
    /// Deleting an element referenced by a relationship was rejected.
    ElementReferencedByRelationship {
        /// The element being deleted.
        element: ElementId,
        /// A relationship that references it.
        relationship: ElementId,
    },
    /// Deleting an element that owns children was rejected.
    ElementHasChildren {
        /// The element being deleted.
        element: ElementId,
        /// Number of children blocking deletion.
        count: usize,
    },
    /// A comment body was empty or white space only.
    EmptyCommentBody,
    /// A record with this id already exists in the table it was added to.
    IdAlreadyExists {
        /// The id that is already taken.
        id: ElementId,
    },
    /// A stored row could not be read back: an unparseable id or an unknown
    /// kind.
    CorruptStore {
        /// Which column held the bad value.
        field: &'static str,
        /// What was wrong with it.
        detail: String,
    },
    /// An undo (or redo) was asked of a command whose forward delta never ran.
    CannotUndoRedoBeforeDo {
        /// Why the command cannot be replayed.
        reason: &'static str,
    },
    /// A batch failed mid-way and rolling back its applied part failed too;
    /// the model may be inconsistent.
    BatchRollbackFailed {
        /// What failed, and where.
        reason: String,
    },
    /// Undo was asked with nothing on the undo stack.
    UndoStackEmpty,
    /// Redo was asked with nothing on the redo stack.
    RedoStackEmpty,
}

impl Error {
    /// Whether this error is the `ElementNotFound` variant.
    pub fn is_element_not_found(&self) -> (r: bool)
        ensures
            r == (*self is ElementNotFound),
    {
        match self {
            Error::ElementNotFound { .. } => true,
            _ => false,
        }
    }
}

} // verus!
