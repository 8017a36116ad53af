//! Smith's UML model: element identity, the metaclass registry, visibility,
//! multiplicity, stereotypes and profiles, and the model itself — an ownership
//! tree of elements with relationships and comments, its graph projection,
//! and an undo/redo command stack — together with the decisions of the
//! `.smith` file format (header check, schema migrations, backup rotation).

pub mod id;
pub mod closure;
pub mod command;
pub mod element;
pub mod error;
pub mod graph;
pub mod keyed;
pub mod model;
pub mod multiplicity;
pub mod numeral;
pub mod profile;
pub mod projection;
pub mod rows;
pub mod shell;
pub mod sort;
pub mod stereotype;
pub mod store;
pub mod metaclass;
pub mod text;
pub mod tree;
pub mod visibility;

pub use element::{Comment, CommentError, DirectedRelationship, NamedElement, Relationship};
pub use error::Error;
pub use id::ElementId;
pub use metaclass::{MetaclassKind, MetaclassScope};
pub use model::{CommentView, CreateElement, CreateRelationship, ElementView, Model, RelationshipView};
pub use multiplicity::{Multiplicity, MultiplicityError};
pub use profile::{builtin_profiles, Profile};
pub use projection::{EdgeKind, EdgeNode, ElementNode, Projection, ProjectionEdge};
pub use stereotype::{validate_stereotype_application, AppliedStereotype, Stereotype, StereotypeError, TagValue};
pub use store::{current_schema_version, Migration};
pub use visibility::Visibility;
