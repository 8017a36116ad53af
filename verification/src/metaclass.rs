//! The closed registry of metaclass kinds.
//!
//! Two tables make up the registry: the top-level kinds, which are
//! independently ownable in the ownership tree (and are the kinds a
//! stereotype may extend), and the sub-element / relationship kinds, which
//! belong to a parent element or diagram but still carry a stable string
//! identifier. Each kind's identifier is its own `PascalCase` name. The set is
//! closed: user extension goes through stereotypes, not new metaclasses.

use vstd::prelude::*;

verus! {

/// Whether a [`MetaclassKind`] is independently ownable or a nested sub-kind.
#[derive(Debug, Clone, Copy, PartialEq, Eq, Structural, Hash)]
pub enum MetaclassScope {
    /// Top-level element kind (ownable in the ownership tree).
    TopLevel,
    /// Sub-element or relationship kind (owned by a parent element / diagram).
    SubElement,
}

/// Every metaclass (element kind) the model recognises: top-level kinds
/// first, then sub-element / relationship kinds.
#[derive(Debug, Clone, Copy, PartialEq, Eq, Structural, Hash)]
pub enum MetaclassKind {
    /// The `Package` metaclass (top-level).
    Package,
    /// The `Class` metaclass (top-level).
    Class,
    /// The `Interface` metaclass (top-level).
    Interface,
    /// The `DataType` metaclass (top-level).
    DataType,
    /// The `Enumeration` metaclass (top-level).
    Enumeration,
    /// The `Association` metaclass (top-level).
    Association,
    /// The `Generalization` metaclass (top-level).
    Generalization,
    /// The `Realization` metaclass (top-level).
    Realization,
    /// The `Dependency` metaclass (top-level).
    Dependency,
    /// The `UseCase` metaclass (top-level).
    UseCase,
    /// The `Actor` metaclass (top-level).
    Actor,
    /// The `Activity` metaclass (top-level).
    Activity,
    /// The `Interaction` metaclass (top-level).
    Interaction,
    /// The `StateMachine` metaclass (top-level).
    StateMachine,
    /// The `Component` metaclass (top-level).
    Component,
    /// The `Node` metaclass (top-level).
    Node,
    /// The `Artifact` metaclass (top-level).
    Artifact,
    /// The `Requirement` metaclass (top-level).
    Requirement,
    /// The `TestCase` metaclass (top-level).
    TestCase,
    /// The `Profile` metaclass (top-level).
    Profile,
    /// The `Stereotype` metaclass (top-level).
    Stereotype,
    /// The `Comment` metaclass (top-level).
    Comment,
    /// The `PrimitiveType` metaclass (sub-element).
    PrimitiveType,
    /// The `AssociationClass` metaclass (sub-element).
    AssociationClass,
    /// The `Signal` metaclass (sub-element).
    Signal,
    /// The `InstanceSpecification` metaclass (sub-element).
    InstanceSpecification,
    /// The `Slot` metaclass (sub-element).
    Slot,
    /// The `Link` metaclass (sub-element).
    Link,
    /// The `Port` metaclass (sub-element).
    Port,
    /// The `Connector` metaclass (sub-element).
    Connector,
    /// The `Part` metaclass (sub-element).
    Part,
    /// The `Collaboration` metaclass (sub-element).
    Collaboration,
    /// The `CollaborationUse` metaclass (sub-element).
    CollaborationUse,
    /// The `Message` metaclass (sub-element).
    Message,
    /// The `Lifeline` metaclass (sub-element).
    Lifeline,
    /// The `ExecutionSpecification` metaclass (sub-element).
    ExecutionSpecification,
    /// The `CombinedFragment` metaclass (sub-element).
    CombinedFragment,
    /// The `InteractionUse` metaclass (sub-element).
    InteractionUse,
    /// The `Gate` metaclass (sub-element).
    Gate,
    /// The `State` metaclass (sub-element).
    State,
    /// The `Region` metaclass (sub-element).
    Region,
    /// The `Transition` metaclass (sub-element).
    Transition,
    /// The `Pseudostate` metaclass (sub-element).
    Pseudostate,
    /// The `FinalState` metaclass (sub-element).
    FinalState,
    /// The `Action` metaclass (sub-element).
    Action,
    /// The `ControlNode` metaclass (sub-element).
    ControlNode,
    /// The `ObjectNode` metaclass (sub-element).
    ObjectNode,
    /// The `ActivityPartition` metaclass (sub-element).
    ActivityPartition,
    /// The `Include` metaclass (sub-element).
    Include,
    /// The `Extend` metaclass (sub-element).
    Extend,
    /// The `ExtensionPoint` metaclass (sub-element).
    ExtensionPoint,
    /// The `Deployment` metaclass (sub-element).
    Deployment,
    /// The `Manifestation` metaclass (sub-element).
    Manifestation,
    /// The `CommunicationPath` metaclass (sub-element).
    CommunicationPath,
    /// The `PackageImport` metaclass (sub-element).
    PackageImport,
    /// The `PackageMerge` metaclass (sub-element).
    PackageMerge,
    /// The `ElementImport` metaclass (sub-element).
    ElementImport,
    /// The `Metaclass` metaclass (sub-element).
    Metaclass,
    /// The `Extension` metaclass (sub-element).
    Extension,
}

/// The stable identifier of each kind: its own name.
pub open spec fn kind_name(k: MetaclassKind) -> Seq<char> {
    match k {
        MetaclassKind::Package => "Package"@,
        MetaclassKind::Class => "Class"@,
        MetaclassKind::Interface => "Interface"@,
        MetaclassKind::DataType => "DataType"@,
        MetaclassKind::Enumeration => "Enumeration"@,
        MetaclassKind::Association => "Association"@,
        MetaclassKind::Generalization => "Generalization"@,
        MetaclassKind::Realization => "Realization"@,
        MetaclassKind::Dependency => "Dependency"@,
        MetaclassKind::UseCase => "UseCase"@,
        MetaclassKind::Actor => "Actor"@,
        MetaclassKind::Activity => "Activity"@,
        MetaclassKind::Interaction => "Interaction"@,
        MetaclassKind::StateMachine => "StateMachine"@,
        MetaclassKind::Component => "Component"@,
        MetaclassKind::Node => "Node"@,
        MetaclassKind::Artifact => "Artifact"@,
        MetaclassKind::Requirement => "Requirement"@,
        MetaclassKind::TestCase => "TestCase"@,
        MetaclassKind::Profile => "Profile"@,
        MetaclassKind::Stereotype => "Stereotype"@,
        MetaclassKind::Comment => "Comment"@,
        MetaclassKind::PrimitiveType => "PrimitiveType"@,
        MetaclassKind::AssociationClass => "AssociationClass"@,
        MetaclassKind::Signal => "Signal"@,
        MetaclassKind::InstanceSpecification => "InstanceSpecification"@,
        MetaclassKind::Slot => "Slot"@,
        MetaclassKind::Link => "Link"@,
        MetaclassKind::Port => "Port"@,
        MetaclassKind::Connector => "Connector"@,
        MetaclassKind::Part => "Part"@,
        MetaclassKind::Collaboration => "Collaboration"@,
        MetaclassKind::CollaborationUse => "CollaborationUse"@,
        MetaclassKind::Message => "Message"@,
        MetaclassKind::Lifeline => "Lifeline"@,
        MetaclassKind::ExecutionSpecification => "ExecutionSpecification"@,
        MetaclassKind::CombinedFragment => "CombinedFragment"@,
        MetaclassKind::InteractionUse => "InteractionUse"@,
        MetaclassKind::Gate => "Gate"@,
        MetaclassKind::State => "State"@,
        MetaclassKind::Region => "Region"@,
        MetaclassKind::Transition => "Transition"@,
        MetaclassKind::Pseudostate => "Pseudostate"@,
        MetaclassKind::FinalState => "FinalState"@,
        MetaclassKind::Action => "Action"@,
        MetaclassKind::ControlNode => "ControlNode"@,
        MetaclassKind::ObjectNode => "ObjectNode"@,
        MetaclassKind::ActivityPartition => "ActivityPartition"@,
        MetaclassKind::Include => "Include"@,
        MetaclassKind::Extend => "Extend"@,
        MetaclassKind::ExtensionPoint => "ExtensionPoint"@,
        MetaclassKind::Deployment => "Deployment"@,
        MetaclassKind::Manifestation => "Manifestation"@,
        MetaclassKind::CommunicationPath => "CommunicationPath"@,
        MetaclassKind::PackageImport => "PackageImport"@,
        MetaclassKind::PackageMerge => "PackageMerge"@,
        MetaclassKind::ElementImport => "ElementImport"@,
        MetaclassKind::Metaclass => "Metaclass"@,
        MetaclassKind::Extension => "Extension"@,
    }
}

/// The scope of each kind, as the two registry tables assign it.
pub open spec fn kind_scope(k: MetaclassKind) -> MetaclassScope {
    match k {
        MetaclassKind::Package => MetaclassScope::TopLevel,
        MetaclassKind::Class => MetaclassScope::TopLevel,
        MetaclassKind::Interface => MetaclassScope::TopLevel,
        MetaclassKind::DataType => MetaclassScope::TopLevel,
        MetaclassKind::Enumeration => MetaclassScope::TopLevel,
        MetaclassKind::Association => MetaclassScope::TopLevel,
        MetaclassKind::Generalization => MetaclassScope::TopLevel,
        MetaclassKind::Realization => MetaclassScope::TopLevel,
        MetaclassKind::Dependency => MetaclassScope::TopLevel,
        MetaclassKind::UseCase => MetaclassScope::TopLevel,
        MetaclassKind::Actor => MetaclassScope::TopLevel,
        MetaclassKind::Activity => MetaclassScope::TopLevel,
        MetaclassKind::Interaction => MetaclassScope::TopLevel,
        MetaclassKind::StateMachine => MetaclassScope::TopLevel,
        MetaclassKind::Component => MetaclassScope::TopLevel,
        MetaclassKind::Node => MetaclassScope::TopLevel,
        MetaclassKind::Artifact => MetaclassScope::TopLevel,
        MetaclassKind::Requirement => MetaclassScope::TopLevel,
        MetaclassKind::TestCase => MetaclassScope::TopLevel,
        MetaclassKind::Profile => MetaclassScope::TopLevel,
        MetaclassKind::Stereotype => MetaclassScope::TopLevel,
        MetaclassKind::Comment => MetaclassScope::TopLevel,
        MetaclassKind::PrimitiveType => MetaclassScope::SubElement,
        MetaclassKind::AssociationClass => MetaclassScope::SubElement,
        MetaclassKind::Signal => MetaclassScope::SubElement,
        MetaclassKind::InstanceSpecification => MetaclassScope::SubElement,
        MetaclassKind::Slot => MetaclassScope::SubElement,
        MetaclassKind::Link => MetaclassScope::SubElement,
        MetaclassKind::Port => MetaclassScope::SubElement,
        MetaclassKind::Connector => MetaclassScope::SubElement,
        MetaclassKind::Part => MetaclassScope::SubElement,
        MetaclassKind::Collaboration => MetaclassScope::SubElement,
        MetaclassKind::CollaborationUse => MetaclassScope::SubElement,
        MetaclassKind::Message => MetaclassScope::SubElement,
        MetaclassKind::Lifeline => MetaclassScope::SubElement,
        MetaclassKind::ExecutionSpecification => MetaclassScope::SubElement,
        MetaclassKind::CombinedFragment => MetaclassScope::SubElement,
        MetaclassKind::InteractionUse => MetaclassScope::SubElement,
        MetaclassKind::Gate => MetaclassScope::SubElement,
        MetaclassKind::State => MetaclassScope::SubElement,
        MetaclassKind::Region => MetaclassScope::SubElement,
        MetaclassKind::Transition => MetaclassScope::SubElement,
        MetaclassKind::Pseudostate => MetaclassScope::SubElement,
        MetaclassKind::FinalState => MetaclassScope::SubElement,
        MetaclassKind::Action => MetaclassScope::SubElement,
        MetaclassKind::ControlNode => MetaclassScope::SubElement,
        MetaclassKind::ObjectNode => MetaclassScope::SubElement,
        MetaclassKind::ActivityPartition => MetaclassScope::SubElement,
        MetaclassKind::Include => MetaclassScope::SubElement,
        MetaclassKind::Extend => MetaclassScope::SubElement,
        MetaclassKind::ExtensionPoint => MetaclassScope::SubElement,
        MetaclassKind::Deployment => MetaclassScope::SubElement,
        MetaclassKind::Manifestation => MetaclassScope::SubElement,
        MetaclassKind::CommunicationPath => MetaclassScope::SubElement,
        MetaclassKind::PackageImport => MetaclassScope::SubElement,
        MetaclassKind::PackageMerge => MetaclassScope::SubElement,
        MetaclassKind::ElementImport => MetaclassScope::SubElement,
        MetaclassKind::Metaclass => MetaclassScope::SubElement,
        MetaclassKind::Extension => MetaclassScope::SubElement,
    }
}

/// The position of each kind in [`MetaclassKind::ALL`].
pub open spec fn kind_index(k: MetaclassKind) -> int {
    match k {
        MetaclassKind::Package => 0,
        MetaclassKind::Class => 1,
        MetaclassKind::Interface => 2,
        MetaclassKind::DataType => 3,
        MetaclassKind::Enumeration => 4,
        MetaclassKind::Association => 5,
        MetaclassKind::Generalization => 6,
        MetaclassKind::Realization => 7,
        MetaclassKind::Dependency => 8,
        MetaclassKind::UseCase => 9,
        MetaclassKind::Actor => 10,
        MetaclassKind::Activity => 11,
        MetaclassKind::Interaction => 12,
        MetaclassKind::StateMachine => 13,
        MetaclassKind::Component => 14,
        MetaclassKind::Node => 15,
        MetaclassKind::Artifact => 16,
        MetaclassKind::Requirement => 17,
        MetaclassKind::TestCase => 18,
        MetaclassKind::Profile => 19,
        MetaclassKind::Stereotype => 20,
        MetaclassKind::Comment => 21,
        MetaclassKind::PrimitiveType => 22,
        MetaclassKind::AssociationClass => 23,
        MetaclassKind::Signal => 24,
        MetaclassKind::InstanceSpecification => 25,
        MetaclassKind::Slot => 26,
        MetaclassKind::Link => 27,
        MetaclassKind::Port => 28,
        MetaclassKind::Connector => 29,
        MetaclassKind::Part => 30,
        MetaclassKind::Collaboration => 31,
        MetaclassKind::CollaborationUse => 32,
        MetaclassKind::Message => 33,
        MetaclassKind::Lifeline => 34,
        MetaclassKind::ExecutionSpecification => 35,
        MetaclassKind::CombinedFragment => 36,
        MetaclassKind::InteractionUse => 37,
        MetaclassKind::Gate => 38,
        MetaclassKind::State => 39,
        MetaclassKind::Region => 40,
        MetaclassKind::Transition => 41,
        MetaclassKind::Pseudostate => 42,
        MetaclassKind::FinalState => 43,
        MetaclassKind::Action => 44,
        MetaclassKind::ControlNode => 45,
        MetaclassKind::ObjectNode => 46,
        MetaclassKind::ActivityPartition => 47,
        MetaclassKind::Include => 48,
        MetaclassKind::Extend => 49,
        MetaclassKind::ExtensionPoint => 50,
        MetaclassKind::Deployment => 51,
        MetaclassKind::Manifestation => 52,
        MetaclassKind::CommunicationPath => 53,
        MetaclassKind::PackageImport => 54,
        MetaclassKind::PackageMerge => 55,
        MetaclassKind::ElementImport => 56,
        MetaclassKind::Metaclass => 57,
        MetaclassKind::Extension => 58,
    }
}

/// The kind a string identifies, if any.
pub open spec fn kind_of_name(s: Seq<char>) -> Option<MetaclassKind> {
    if s == "Package"@ {
        Some(MetaclassKind::Package)
    } else if s == "Class"@ {
        Some(MetaclassKind::Class)
    } else if s == "Interface"@ {
        Some(MetaclassKind::Interface)
    } else if s == "DataType"@ {
        Some(MetaclassKind::DataType)
    } else if s == "Enumeration"@ {
        Some(MetaclassKind::Enumeration)
    } else if s == "Association"@ {
        Some(MetaclassKind::Association)
    } else if s == "Generalization"@ {
        Some(MetaclassKind::Generalization)
    } else if s == "Realization"@ {
        Some(MetaclassKind::Realization)
    } else if s == "Dependency"@ {
        Some(MetaclassKind::Dependency)
    } else if s == "UseCase"@ {
        Some(MetaclassKind::UseCase)
    } else if s == "Actor"@ {
        Some(MetaclassKind::Actor)
    } else if s == "Activity"@ {
        Some(MetaclassKind::Activity)
    } else if s == "Interaction"@ {
        Some(MetaclassKind::Interaction)
    } else if s == "StateMachine"@ {
        Some(MetaclassKind::StateMachine)
    } else if s == "Component"@ {
        Some(MetaclassKind::Component)
    } else if s == "Node"@ {
        Some(MetaclassKind::Node)
    } else if s == "Artifact"@ {
        Some(MetaclassKind::Artifact)
    } else if s == "Requirement"@ {
        Some(MetaclassKind::Requirement)
    } else if s == "TestCase"@ {
        Some(MetaclassKind::TestCase)
    } else if s == "Profile"@ {
        Some(MetaclassKind::Profile)
    } else if s == "Stereotype"@ {
        Some(MetaclassKind::Stereotype)
    } else if s == "Comment"@ {
        Some(MetaclassKind::Comment)
    } else if s == "PrimitiveType"@ {
        Some(MetaclassKind::PrimitiveType)
    } else if s == "AssociationClass"@ {
        Some(MetaclassKind::AssociationClass)
    } else if s == "Signal"@ {
        Some(MetaclassKind::Signal)
    } else if s == "InstanceSpecification"@ {
        Some(MetaclassKind::InstanceSpecification)
    } else if s == "Slot"@ {
        Some(MetaclassKind::Slot)
    } else if s == "Link"@ {
        Some(MetaclassKind::Link)
    } else if s == "Port"@ {
        Some(MetaclassKind::Port)
    } else if s == "Connector"@ {
        Some(MetaclassKind::Connector)
    } else if s == "Part"@ {
        Some(MetaclassKind::Part)
    } else if s == "Collaboration"@ {
        Some(MetaclassKind::Collaboration)
    } else if s == "CollaborationUse"@ {
        Some(MetaclassKind::CollaborationUse)
    } else if s == "Message"@ {
        Some(MetaclassKind::Message)
    } else if s == "Lifeline"@ {
        Some(MetaclassKind::Lifeline)
    } else if s == "ExecutionSpecification"@ {
        Some(MetaclassKind::ExecutionSpecification)
    } else if s == "CombinedFragment"@ {
        Some(MetaclassKind::CombinedFragment)
    } else if s == "InteractionUse"@ {
        Some(MetaclassKind::InteractionUse)
    } else if s == "Gate"@ {
        Some(MetaclassKind::Gate)
    } else if s == "State"@ {
        Some(MetaclassKind::State)
    } else if s == "Region"@ {
        Some(MetaclassKind::Region)
    } else if s == "Transition"@ {
        Some(MetaclassKind::Transition)
    } else if s == "Pseudostate"@ {
        Some(MetaclassKind::Pseudostate)
    } else if s == "FinalState"@ {
        Some(MetaclassKind::FinalState)
    } else if s == "Action"@ {
        Some(MetaclassKind::Action)
    } else if s == "ControlNode"@ {
        Some(MetaclassKind::ControlNode)
    } else if s == "ObjectNode"@ {
        Some(MetaclassKind::ObjectNode)
    } else if s == "ActivityPartition"@ {
        Some(MetaclassKind::ActivityPartition)
    } else if s == "Include"@ {
        Some(MetaclassKind::Include)
    } else if s == "Extend"@ {
        Some(MetaclassKind::Extend)
    } else if s == "ExtensionPoint"@ {
        Some(MetaclassKind::ExtensionPoint)
    } else if s == "Deployment"@ {
        Some(MetaclassKind::Deployment)
    } else if s == "Manifestation"@ {
        Some(MetaclassKind::Manifestation)
    } else if s == "CommunicationPath"@ {
        Some(MetaclassKind::CommunicationPath)
    } else if s == "PackageImport"@ {
        Some(MetaclassKind::PackageImport)
    } else if s == "PackageMerge"@ {
        Some(MetaclassKind::PackageMerge)
    } else if s == "ElementImport"@ {
        Some(MetaclassKind::ElementImport)
    } else if s == "Metaclass"@ {
        Some(MetaclassKind::Metaclass)
    } else if s == "Extension"@ {
        Some(MetaclassKind::Extension)
    } else {
        None
    }
}

impl MetaclassKind {
    /// Every kind in the registry, top-level kinds first.
    pub const ALL: [MetaclassKind; 59] = [
        MetaclassKind::Package,
        MetaclassKind::Class,
        MetaclassKind::Interface,
        MetaclassKind::DataType,
        MetaclassKind::Enumeration,
        MetaclassKind::Association,
        MetaclassKind::Generalization,
        MetaclassKind::Realization,
        MetaclassKind::Dependency,
        MetaclassKind::UseCase,
        MetaclassKind::Actor,
        MetaclassKind::Activity,
        MetaclassKind::Interaction,
        MetaclassKind::StateMachine,
        MetaclassKind::Component,
        MetaclassKind::Node,
        MetaclassKind::Artifact,
        MetaclassKind::Requirement,
        MetaclassKind::TestCase,
        MetaclassKind::Profile,
        MetaclassKind::Stereotype,
        MetaclassKind::Comment,
        MetaclassKind::PrimitiveType,
        MetaclassKind::AssociationClass,
        MetaclassKind::Signal,
        MetaclassKind::InstanceSpecification,
        MetaclassKind::Slot,
        MetaclassKind::Link,
        MetaclassKind::Port,
        MetaclassKind::Connector,
        MetaclassKind::Part,
        MetaclassKind::Collaboration,
        MetaclassKind::CollaborationUse,
        MetaclassKind::Message,
        MetaclassKind::Lifeline,
        MetaclassKind::ExecutionSpecification,
        MetaclassKind::CombinedFragment,
        MetaclassKind::InteractionUse,
        MetaclassKind::Gate,
        MetaclassKind::State,
        MetaclassKind::Region,
        MetaclassKind::Transition,
        MetaclassKind::Pseudostate,
        MetaclassKind::FinalState,
        MetaclassKind::Action,
        MetaclassKind::ControlNode,
        MetaclassKind::ObjectNode,
        MetaclassKind::ActivityPartition,
        MetaclassKind::Include,
        MetaclassKind::Extend,
        MetaclassKind::ExtensionPoint,
        MetaclassKind::Deployment,
        MetaclassKind::Manifestation,
        MetaclassKind::CommunicationPath,
        MetaclassKind::PackageImport,
        MetaclassKind::PackageMerge,
        MetaclassKind::ElementImport,
        MetaclassKind::Metaclass,
        MetaclassKind::Extension,
    ];

    /// The stable string identifier of this kind.
    pub fn as_str(self) -> (s: &'static str)
        ensures
            s@ == kind_name(self),
    {
        match self {
            MetaclassKind::Package => "Package",
            MetaclassKind::Class => "Class",
            MetaclassKind::Interface => "Interface",
            MetaclassKind::DataType => "DataType",
            MetaclassKind::Enumeration => "Enumeration",
            MetaclassKind::Association => "Association",
            MetaclassKind::Generalization => "Generalization",
            MetaclassKind::Realization => "Realization",
            MetaclassKind::Dependency => "Dependency",
            MetaclassKind::UseCase => "UseCase",
            MetaclassKind::Actor => "Actor",
            MetaclassKind::Activity => "Activity",
            MetaclassKind::Interaction => "Interaction",
            MetaclassKind::StateMachine => "StateMachine",
            MetaclassKind::Component => "Component",
            MetaclassKind::Node => "Node",
            MetaclassKind::Artifact => "Artifact",
            MetaclassKind::Requirement => "Requirement",
            MetaclassKind::TestCase => "TestCase",
            MetaclassKind::Profile => "Profile",
            MetaclassKind::Stereotype => "Stereotype",
            MetaclassKind::Comment => "Comment",
            MetaclassKind::PrimitiveType => "PrimitiveType",
            MetaclassKind::AssociationClass => "AssociationClass",
            MetaclassKind::Signal => "Signal",
            MetaclassKind::InstanceSpecification => "InstanceSpecification",
            MetaclassKind::Slot => "Slot",
            MetaclassKind::Link => "Link",
            MetaclassKind::Port => "Port",
            MetaclassKind::Connector => "Connector",
            MetaclassKind::Part => "Part",
            MetaclassKind::Collaboration => "Collaboration",
            MetaclassKind::CollaborationUse => "CollaborationUse",
            MetaclassKind::Message => "Message",
            MetaclassKind::Lifeline => "Lifeline",
            MetaclassKind::ExecutionSpecification => "ExecutionSpecification",
            MetaclassKind::CombinedFragment => "CombinedFragment",
            MetaclassKind::InteractionUse => "InteractionUse",
            MetaclassKind::Gate => "Gate",
            MetaclassKind::State => "State",
            MetaclassKind::Region => "Region",
            MetaclassKind::Transition => "Transition",
            MetaclassKind::Pseudostate => "Pseudostate",
            MetaclassKind::FinalState => "FinalState",
            MetaclassKind::Action => "Action",
            MetaclassKind::ControlNode => "ControlNode",
            MetaclassKind::ObjectNode => "ObjectNode",
            MetaclassKind::ActivityPartition => "ActivityPartition",
            MetaclassKind::Include => "Include",
            MetaclassKind::Extend => "Extend",
            MetaclassKind::ExtensionPoint => "ExtensionPoint",
            MetaclassKind::Deployment => "Deployment",
            MetaclassKind::Manifestation => "Manifestation",
            MetaclassKind::CommunicationPath => "CommunicationPath",
            MetaclassKind::PackageImport => "PackageImport",
            MetaclassKind::PackageMerge => "PackageMerge",
            MetaclassKind::ElementImport => "ElementImport",
            MetaclassKind::Metaclass => "Metaclass",
            MetaclassKind::Extension => "Extension",
        }
    }

    /// Whether this kind is ownable or a nested sub-kind.
    pub fn scope(self) -> (s: MetaclassScope)
        ensures
            s == kind_scope(self),
    {
        match self {
            MetaclassKind::Package => MetaclassScope::TopLevel,
            MetaclassKind::Class => MetaclassScope::TopLevel,
            MetaclassKind::Interface => MetaclassScope::TopLevel,
            MetaclassKind::DataType => MetaclassScope::TopLevel,
            MetaclassKind::Enumeration => MetaclassScope::TopLevel,
            MetaclassKind::Association => MetaclassScope::TopLevel,
            MetaclassKind::Generalization => MetaclassScope::TopLevel,
            MetaclassKind::Realization => MetaclassScope::TopLevel,
            MetaclassKind::Dependency => MetaclassScope::TopLevel,
            MetaclassKind::UseCase => MetaclassScope::TopLevel,
            MetaclassKind::Actor => MetaclassScope::TopLevel,
            MetaclassKind::Activity => MetaclassScope::TopLevel,
            MetaclassKind::Interaction => MetaclassScope::TopLevel,
            MetaclassKind::StateMachine => MetaclassScope::TopLevel,
            MetaclassKind::Component => MetaclassScope::TopLevel,
            MetaclassKind::Node => MetaclassScope::TopLevel,
            MetaclassKind::Artifact => MetaclassScope::TopLevel,
            MetaclassKind::Requirement => MetaclassScope::TopLevel,
            MetaclassKind::TestCase => MetaclassScope::TopLevel,
            MetaclassKind::Profile => MetaclassScope::TopLevel,
            MetaclassKind::Stereotype => MetaclassScope::TopLevel,
            MetaclassKind::Comment => MetaclassScope::TopLevel,
            MetaclassKind::PrimitiveType => MetaclassScope::SubElement,
            MetaclassKind::AssociationClass => MetaclassScope::SubElement,
            MetaclassKind::Signal => MetaclassScope::SubElement,
            MetaclassKind::InstanceSpecification => MetaclassScope::SubElement,
            MetaclassKind::Slot => MetaclassScope::SubElement,
            MetaclassKind::Link => MetaclassScope::SubElement,
            MetaclassKind::Port => MetaclassScope::SubElement,
            MetaclassKind::Connector => MetaclassScope::SubElement,
            MetaclassKind::Part => MetaclassScope::SubElement,
            MetaclassKind::Collaboration => MetaclassScope::SubElement,
            MetaclassKind::CollaborationUse => MetaclassScope::SubElement,
            MetaclassKind::Message => MetaclassScope::SubElement,
            MetaclassKind::Lifeline => MetaclassScope::SubElement,
            MetaclassKind::ExecutionSpecification => MetaclassScope::SubElement,
            MetaclassKind::CombinedFragment => MetaclassScope::SubElement,
            MetaclassKind::InteractionUse => MetaclassScope::SubElement,
            MetaclassKind::Gate => MetaclassScope::SubElement,
            MetaclassKind::State => MetaclassScope::SubElement,
            MetaclassKind::Region => MetaclassScope::SubElement,
            MetaclassKind::Transition => MetaclassScope::SubElement,
            MetaclassKind::Pseudostate => MetaclassScope::SubElement,
            MetaclassKind::FinalState => MetaclassScope::SubElement,
            MetaclassKind::Action => MetaclassScope::SubElement,
            MetaclassKind::ControlNode => MetaclassScope::SubElement,
            MetaclassKind::ObjectNode => MetaclassScope::SubElement,
            MetaclassKind::ActivityPartition => MetaclassScope::SubElement,
            MetaclassKind::Include => MetaclassScope::SubElement,
            MetaclassKind::Extend => MetaclassScope::SubElement,
            MetaclassKind::ExtensionPoint => MetaclassScope::SubElement,
            MetaclassKind::Deployment => MetaclassScope::SubElement,
            MetaclassKind::Manifestation => MetaclassScope::SubElement,
            MetaclassKind::CommunicationPath => MetaclassScope::SubElement,
            MetaclassKind::PackageImport => MetaclassScope::SubElement,
            MetaclassKind::PackageMerge => MetaclassScope::SubElement,
            MetaclassKind::ElementImport => MetaclassScope::SubElement,
            MetaclassKind::Metaclass => MetaclassScope::SubElement,
            MetaclassKind::Extension => MetaclassScope::SubElement,
        }
    }

    /// Resolve a kind by its stable identifier; [`None`] for any string that
    /// is not a registered kind, which is what makes the registry closed.
    pub fn from_id(id: &str) -> (k: Option<MetaclassKind>)
        ensures
            k == kind_of_name(id@),
            k matches Some(kind) ==> kind_name(kind) == id@,
            k is None <==> forall|kind: MetaclassKind| kind_name(kind) != id@,
    {
        proof {
            lemma_kind_names_identify_kinds();
        }
        if crate::text::str_eq(id, "Package") {
            Some(MetaclassKind::Package)
        } else if crate::text::str_eq(id, "Class") {
            Some(MetaclassKind::Class)
        } else if crate::text::str_eq(id, "Interface") {
            Some(MetaclassKind::Interface)
        } else if crate::text::str_eq(id, "DataType") {
            Some(MetaclassKind::DataType)
        } else if crate::text::str_eq(id, "Enumeration") {
            Some(MetaclassKind::Enumeration)
        } else if crate::text::str_eq(id, "Association") {
            Some(MetaclassKind::Association)
        } else if crate::text::str_eq(id, "Generalization") {
            Some(MetaclassKind::Generalization)
        } else if crate::text::str_eq(id, "Realization") {
            Some(MetaclassKind::Realization)
        } else if crate::text::str_eq(id, "Dependency") {
            Some(MetaclassKind::Dependency)
        } else if crate::text::str_eq(id, "UseCase") {
            Some(MetaclassKind::UseCase)
        } else if crate::text::str_eq(id, "Actor") {
            Some(MetaclassKind::Actor)
        } else if crate::text::str_eq(id, "Activity") {
            Some(MetaclassKind::Activity)
        } else if crate::text::str_eq(id, "Interaction") {
            Some(MetaclassKind::Interaction)
        } else if crate::text::str_eq(id, "StateMachine") {
            Some(MetaclassKind::StateMachine)
        } else if crate::text::str_eq(id, "Component") {
            Some(MetaclassKind::Component)
        } else if crate::text::str_eq(id, "Node") {
            Some(MetaclassKind::Node)
        } else if crate::text::str_eq(id, "Artifact") {
            Some(MetaclassKind::Artifact)
        } else if crate::text::str_eq(id, "Requirement") {
            Some(MetaclassKind::Requirement)
        } else if crate::text::str_eq(id, "TestCase") {
            Some(MetaclassKind::TestCase)
        } else if crate::text::str_eq(id, "Profile") {
            Some(MetaclassKind::Profile)
        } else if crate::text::str_eq(id, "Stereotype") {
            Some(MetaclassKind::Stereotype)
        } else if crate::text::str_eq(id, "Comment") {
            Some(MetaclassKind::Comment)
        } else if crate::text::str_eq(id, "PrimitiveType") {
            Some(MetaclassKind::PrimitiveType)
        } else if crate::text::str_eq(id, "AssociationClass") {
            Some(MetaclassKind::AssociationClass)
        } else if crate::text::str_eq(id, "Signal") {
            Some(MetaclassKind::Signal)
        } else if crate::text::str_eq(id, "InstanceSpecification") {
            Some(MetaclassKind::InstanceSpecification)
        } else if crate::text::str_eq(id, "Slot") {
            Some(MetaclassKind::Slot)
        } else if crate::text::str_eq(id, "Link") {
            Some(MetaclassKind::Link)
        } else if crate::text::str_eq(id, "Port") {
            Some(MetaclassKind::Port)
        } else if crate::text::str_eq(id, "Connector") {
            Some(MetaclassKind::Connector)
        } else if crate::text::str_eq(id, "Part") {
            Some(MetaclassKind::Part)
        } else if crate::text::str_eq(id, "Collaboration") {
            Some(MetaclassKind::Collaboration)
        } else if crate::text::str_eq(id, "CollaborationUse") {
            Some(MetaclassKind::CollaborationUse)
        } else if crate::text::str_eq(id, "Message") {
            Some(MetaclassKind::Message)
        } else if crate::text::str_eq(id, "Lifeline") {
            Some(MetaclassKind::Lifeline)
        } else if crate::text::str_eq(id, "ExecutionSpecification") {
            Some(MetaclassKind::ExecutionSpecification)
        } else if crate::text::str_eq(id, "CombinedFragment") {
            Some(MetaclassKind::CombinedFragment)
        } else if crate::text::str_eq(id, "InteractionUse") {
            Some(MetaclassKind::InteractionUse)
        } else if crate::text::str_eq(id, "Gate") {
            Some(MetaclassKind::Gate)
        } else if crate::text::str_eq(id, "State") {
            Some(MetaclassKind::State)
        } else if crate::text::str_eq(id, "Region") {
            Some(MetaclassKind::Region)
        } else if crate::text::str_eq(id, "Transition") {
            Some(MetaclassKind::Transition)
        } else if crate::text::str_eq(id, "Pseudostate") {
            Some(MetaclassKind::Pseudostate)
        } else if crate::text::str_eq(id, "FinalState") {
            Some(MetaclassKind::FinalState)
        } else if crate::text::str_eq(id, "Action") {
            Some(MetaclassKind::Action)
        } else if crate::text::str_eq(id, "ControlNode") {
            Some(MetaclassKind::ControlNode)
        } else if crate::text::str_eq(id, "ObjectNode") {
            Some(MetaclassKind::ObjectNode)
        } else if crate::text::str_eq(id, "ActivityPartition") {
            Some(MetaclassKind::ActivityPartition)
        } else if crate::text::str_eq(id, "Include") {
            Some(MetaclassKind::Include)
        } else if crate::text::str_eq(id, "Extend") {
            Some(MetaclassKind::Extend)
        } else if crate::text::str_eq(id, "ExtensionPoint") {
            Some(MetaclassKind::ExtensionPoint)
        } else if crate::text::str_eq(id, "Deployment") {
            Some(MetaclassKind::Deployment)
        } else if crate::text::str_eq(id, "Manifestation") {
            Some(MetaclassKind::Manifestation)
        } else if crate::text::str_eq(id, "CommunicationPath") {
            Some(MetaclassKind::CommunicationPath)
        } else if crate::text::str_eq(id, "PackageImport") {
            Some(MetaclassKind::PackageImport)
        } else if crate::text::str_eq(id, "PackageMerge") {
            Some(MetaclassKind::PackageMerge)
        } else if crate::text::str_eq(id, "ElementImport") {
            Some(MetaclassKind::ElementImport)
        } else if crate::text::str_eq(id, "Metaclass") {
            Some(MetaclassKind::Metaclass)
        } else if crate::text::str_eq(id, "Extension") {
            Some(MetaclassKind::Extension)
        } else {
            None
        }
    }
}

/// Each kind is identified by its name and by no other: resolving the name
/// of a kind gives back that kind, and a string resolves to a kind only when
/// it is that kind's name.
pub proof fn lemma_kind_names_identify_kinds()
    ensures
        forall|k: MetaclassKind| #[trigger] kind_of_name(kind_name(k)) == Some(k),
        forall|s: Seq<char>|
            #[trigger] kind_of_name(s) is Some ==> kind_name(kind_of_name(s)->0) == s,
{
    reveal_strlit("Package");
    reveal_strlit("Class");
    reveal_strlit("Interface");
    reveal_strlit("DataType");
    reveal_strlit("Enumeration");
    reveal_strlit("Association");
    reveal_strlit("Generalization");
    reveal_strlit("Realization");
    reveal_strlit("Dependency");
    reveal_strlit("UseCase");
    reveal_strlit("Actor");
    reveal_strlit("Activity");
    reveal_strlit("Interaction");
    reveal_strlit("StateMachine");
    reveal_strlit("Component");
    reveal_strlit("Node");
    reveal_strlit("Artifact");
    reveal_strlit("Requirement");
    reveal_strlit("TestCase");
    reveal_strlit("Profile");
    reveal_strlit("Stereotype");
    reveal_strlit("Comment");
    reveal_strlit("PrimitiveType");
    reveal_strlit("AssociationClass");
    reveal_strlit("Signal");
    reveal_strlit("InstanceSpecification");
    reveal_strlit("Slot");
    reveal_strlit("Link");
    reveal_strlit("Port");
    reveal_strlit("Connector");
    reveal_strlit("Part");
    reveal_strlit("Collaboration");
    reveal_strlit("CollaborationUse");
    reveal_strlit("Message");
    reveal_strlit("Lifeline");
    reveal_strlit("ExecutionSpecification");
    reveal_strlit("CombinedFragment");
    reveal_strlit("InteractionUse");
    reveal_strlit("Gate");
    reveal_strlit("State");
    reveal_strlit("Region");
    reveal_strlit("Transition");
    reveal_strlit("Pseudostate");
    reveal_strlit("FinalState");
    reveal_strlit("Action");
    reveal_strlit("ControlNode");
    reveal_strlit("ObjectNode");
    reveal_strlit("ActivityPartition");
    reveal_strlit("Include");
    reveal_strlit("Extend");
    reveal_strlit("ExtensionPoint");
    reveal_strlit("Deployment");
    reveal_strlit("Manifestation");
    reveal_strlit("CommunicationPath");
    reveal_strlit("PackageImport");
    reveal_strlit("PackageMerge");
    reveal_strlit("ElementImport");
    reveal_strlit("Metaclass");
    reveal_strlit("Extension");
    assert("Package"@.len() == 7);
    assert("Class"@.len() == 5);
    assert("Interface"@.len() == 9);
    assert("DataType"@.len() == 8);
    assert("Enumeration"@.len() == 11);
    assert("Association"@.len() == 11);
    assert("Generalization"@.len() == 14);
    assert("Realization"@.len() == 11);
    assert("Dependency"@.len() == 10);
    assert("UseCase"@.len() == 7);
    assert("Actor"@.len() == 5);
    assert("Activity"@.len() == 8);
    assert("Interaction"@.len() == 11);
    assert("StateMachine"@.len() == 12);
    assert("Component"@.len() == 9);
    assert("Node"@.len() == 4);
    assert("Artifact"@.len() == 8);
    assert("Requirement"@.len() == 11);
    assert("TestCase"@.len() == 8);
    assert("Profile"@.len() == 7);
    assert("Stereotype"@.len() == 10);
    assert("Comment"@.len() == 7);
    assert("PrimitiveType"@.len() == 13);
    assert("AssociationClass"@.len() == 16);
    assert("Signal"@.len() == 6);
    assert("InstanceSpecification"@.len() == 21);
    assert("Slot"@.len() == 4);
    assert("Link"@.len() == 4);
    assert("Port"@.len() == 4);
    assert("Connector"@.len() == 9);
    assert("Part"@.len() == 4);
    assert("Collaboration"@.len() == 13);
    assert("CollaborationUse"@.len() == 16);
    assert("Message"@.len() == 7);
    assert("Lifeline"@.len() == 8);
    assert("ExecutionSpecification"@.len() == 22);
    assert("CombinedFragment"@.len() == 16);
    assert("InteractionUse"@.len() == 14);
    assert("Gate"@.len() == 4);
    assert("State"@.len() == 5);
    assert("Region"@.len() == 6);
    assert("Transition"@.len() == 10);
    assert("Pseudostate"@.len() == 11);
    assert("FinalState"@.len() == 10);
    assert("Action"@.len() == 6);
    assert("ControlNode"@.len() == 11);
    assert("ObjectNode"@.len() == 10);
    assert("ActivityPartition"@.len() == 17);
    assert("Include"@.len() == 7);
    assert("Extend"@.len() == 6);
    assert("ExtensionPoint"@.len() == 14);
    assert("Deployment"@.len() == 10);
    assert("Manifestation"@.len() == 13);
    assert("CommunicationPath"@.len() == 17);
    assert("PackageImport"@.len() == 13);
    assert("PackageMerge"@.len() == 12);
    assert("ElementImport"@.len() == 13);
    assert("Metaclass"@.len() == 9);
    assert("Extension"@.len() == 9);
    assert(kind_of_name("Package"@) == Some(MetaclassKind::Package)) by {

    }
    assert(kind_of_name("Class"@) == Some(MetaclassKind::Class)) by {

    }
    assert(kind_of_name("Interface"@) == Some(MetaclassKind::Interface)) by {

    }
    assert(kind_of_name("DataType"@) == Some(MetaclassKind::DataType)) by {

    }
    assert(kind_of_name("Enumeration"@) == Some(MetaclassKind::Enumeration)) by {

    }
    assert(kind_of_name("Association"@) == Some(MetaclassKind::Association)) by {
        assert("Enumeration"@[0] != "Association"@[0]);
    }
    assert(kind_of_name("Generalization"@) == Some(MetaclassKind::Generalization)) by {

    }
    assert(kind_of_name("Realization"@) == Some(MetaclassKind::Realization)) by {
        assert("Enumeration"@[0] != "Realization"@[0]);
        assert("Association"@[0] != "Realization"@[0]);
    }
    assert(kind_of_name("Dependency"@) == Some(MetaclassKind::Dependency)) by {

    }
    assert(kind_of_name("UseCase"@) == Some(MetaclassKind::UseCase)) by {
        assert("Package"@[0] != "UseCase"@[0]);
    }
    assert(kind_of_name("Actor"@) == Some(MetaclassKind::Actor)) by {
        assert("Class"@[0] != "Actor"@[0]);
    }
    assert(kind_of_name("Activity"@) == Some(MetaclassKind::Activity)) by {
        assert("DataType"@[0] != "Activity"@[0]);
    }
    assert(kind_of_name("Interaction"@) == Some(MetaclassKind::Interaction)) by {
        assert("Enumeration"@[0] != "Interaction"@[0]);
        assert("Association"@[0] != "Interaction"@[0]);
        assert("Realization"@[0] != "Interaction"@[0]);
    }
    assert(kind_of_name("StateMachine"@) == Some(MetaclassKind::StateMachine)) by {

    }
    assert(kind_of_name("Component"@) == Some(MetaclassKind::Component)) by {
        assert("Interface"@[0] != "Component"@[0]);
    }
    assert(kind_of_name("Node"@) == Some(MetaclassKind::Node)) by {

    }
    assert(kind_of_name("Artifact"@) == Some(MetaclassKind::Artifact)) by {
        assert("DataType"@[0] != "Artifact"@[0]);
        assert("Activity"@[1] != "Artifact"@[1]);
    }
    assert(kind_of_name("Requirement"@) == Some(MetaclassKind::Requirement)) by {
        assert("Enumeration"@[0] != "Requirement"@[0]);
        assert("Association"@[0] != "Requirement"@[0]);
        assert("Realization"@[2] != "Requirement"@[2]);
        assert("Interaction"@[0] != "Requirement"@[0]);
    }
    assert(kind_of_name("TestCase"@) == Some(MetaclassKind::TestCase)) by {
        assert("DataType"@[0] != "TestCase"@[0]);
        assert("Activity"@[0] != "TestCase"@[0]);
        assert("Artifact"@[0] != "TestCase"@[0]);
    }
    assert(kind_of_name("Profile"@) == Some(MetaclassKind::Profile)) by {
        assert("Package"@[1] != "Profile"@[1]);
        assert("UseCase"@[0] != "Profile"@[0]);
    }
    assert(kind_of_name("Stereotype"@) == Some(MetaclassKind::Stereotype)) by {
        assert("Dependency"@[0] != "Stereotype"@[0]);
    }
    assert(kind_of_name("Comment"@) == Some(MetaclassKind::Comment)) by {
        assert("Package"@[0] != "Comment"@[0]);
        assert("UseCase"@[0] != "Comment"@[0]);
        assert("Profile"@[0] != "Comment"@[0]);
    }
    assert(kind_of_name("PrimitiveType"@) == Some(MetaclassKind::PrimitiveType)) by {

    }
    assert(kind_of_name("AssociationClass"@) == Some(MetaclassKind::AssociationClass)) by {

    }
    assert(kind_of_name("Signal"@) == Some(MetaclassKind::Signal)) by {

    }
    assert(kind_of_name("InstanceSpecification"@) == Some(MetaclassKind::InstanceSpecification)) by {

    }
    assert(kind_of_name("Slot"@) == Some(MetaclassKind::Slot)) by {
        assert("Node"@[0] != "Slot"@[0]);
    }
    assert(kind_of_name("Link"@) == Some(MetaclassKind::Link)) by {
        assert("Node"@[0] != "Link"@[0]);
        assert("Slot"@[0] != "Link"@[0]);
    }
    assert(kind_of_name("Port"@) == Some(MetaclassKind::Port)) by {
        assert("Node"@[0] != "Port"@[0]);
        assert("Slot"@[0] != "Port"@[0]);
        assert("Link"@[0] != "Port"@[0]);
    }
    assert(kind_of_name("Connector"@) == Some(MetaclassKind::Connector)) by {
        assert("Interface"@[0] != "Connector"@[0]);
        assert("Component"@[2] != "Connector"@[2]);
    }
    assert(kind_of_name("Part"@) == Some(MetaclassKind::Part)) by {
        assert("Node"@[0] != "Part"@[0]);
        assert("Slot"@[0] != "Part"@[0]);
        assert("Link"@[0] != "Part"@[0]);
        assert("Port"@[1] != "Part"@[1]);
    }
    assert(kind_of_name("Collaboration"@) == Some(MetaclassKind::Collaboration)) by {
        assert("PrimitiveType"@[0] != "Collaboration"@[0]);
    }
    assert(kind_of_name("CollaborationUse"@) == Some(MetaclassKind::CollaborationUse)) by {
        assert("AssociationClass"@[0] != "CollaborationUse"@[0]);
    }
    assert(kind_of_name("Message"@) == Some(MetaclassKind::Message)) by {
        assert("Package"@[0] != "Message"@[0]);
        assert("UseCase"@[0] != "Message"@[0]);
        assert("Profile"@[0] != "Message"@[0]);
        assert("Comment"@[0] != "Message"@[0]);
    }
    assert(kind_of_name("Lifeline"@) == Some(MetaclassKind::Lifeline)) by {
        assert("DataType"@[0] != "Lifeline"@[0]);
        assert("Activity"@[0] != "Lifeline"@[0]);
        assert("Artifact"@[0] != "Lifeline"@[0]);
        assert("TestCase"@[0] != "Lifeline"@[0]);
    }
    assert(kind_of_name("ExecutionSpecification"@) == Some(MetaclassKind::ExecutionSpecification)) by {

    }
    assert(kind_of_name("CombinedFragment"@) == Some(MetaclassKind::CombinedFragment)) by {
        assert("AssociationClass"@[0] != "CombinedFragment"@[0]);
        assert("CollaborationUse"@[2] != "CombinedFragment"@[2]);
    }
    assert(kind_of_name("InteractionUse"@) == Some(MetaclassKind::InteractionUse)) by {
        assert("Generalization"@[0] != "InteractionUse"@[0]);
    }
    assert(kind_of_name("Gate"@) == Some(MetaclassKind::Gate)) by {
        assert("Node"@[0] != "Gate"@[0]);
        assert("Slot"@[0] != "Gate"@[0]);
        assert("Link"@[0] != "Gate"@[0]);
        assert("Port"@[0] != "Gate"@[0]);
        assert("Part"@[0] != "Gate"@[0]);
    }
    assert(kind_of_name("State"@) == Some(MetaclassKind::State)) by {
        assert("Class"@[0] != "State"@[0]);
        assert("Actor"@[0] != "State"@[0]);
    }
    assert(kind_of_name("Region"@) == Some(MetaclassKind::Region)) by {
        assert("Signal"@[0] != "Region"@[0]);
    }
    assert(kind_of_name("Transition"@) == Some(MetaclassKind::Transition)) by {
        assert("Dependency"@[0] != "Transition"@[0]);
        assert("Stereotype"@[0] != "Transition"@[0]);
    }
    assert(kind_of_name("Pseudostate"@) == Some(MetaclassKind::Pseudostate)) by {
        assert("Enumeration"@[0] != "Pseudostate"@[0]);
        assert("Association"@[0] != "Pseudostate"@[0]);
        assert("Realization"@[0] != "Pseudostate"@[0]);
        assert("Interaction"@[0] != "Pseudostate"@[0]);
        assert("Requirement"@[0] != "Pseudostate"@[0]);
    }
    assert(kind_of_name("FinalState"@) == Some(MetaclassKind::FinalState)) by {
        assert("Dependency"@[0] != "FinalState"@[0]);
        assert("Stereotype"@[0] != "FinalState"@[0]);
        assert("Transition"@[0] != "FinalState"@[0]);
    }
    assert(kind_of_name("Action"@) == Some(MetaclassKind::Action)) by {
        assert("Signal"@[0] != "Action"@[0]);
        assert("Region"@[0] != "Action"@[0]);
    }
    assert(kind_of_name("ControlNode"@) == Some(MetaclassKind::ControlNode)) by {
        assert("Enumeration"@[0] != "ControlNode"@[0]);
        assert("Association"@[0] != "ControlNode"@[0]);
        assert("Realization"@[0] != "ControlNode"@[0]);
        assert("Interaction"@[0] != "ControlNode"@[0]);
        assert("Requirement"@[0] != "ControlNode"@[0]);
        assert("Pseudostate"@[0] != "ControlNode"@[0]);
    }
    assert(kind_of_name("ObjectNode"@) == Some(MetaclassKind::ObjectNode)) by {
        assert("Dependency"@[0] != "ObjectNode"@[0]);
        assert("Stereotype"@[0] != "ObjectNode"@[0]);
        assert("Transition"@[0] != "ObjectNode"@[0]);
        assert("FinalState"@[0] != "ObjectNode"@[0]);
    }
    assert(kind_of_name("ActivityPartition"@) == Some(MetaclassKind::ActivityPartition)) by {

    }
    assert(kind_of_name("Include"@) == Some(MetaclassKind::Include)) by {
        assert("Package"@[0] != "Include"@[0]);
        assert("UseCase"@[0] != "Include"@[0]);
        assert("Profile"@[0] != "Include"@[0]);
        assert("Comment"@[0] != "Include"@[0]);
        assert("Message"@[0] != "Include"@[0]);
    }
    assert(kind_of_name("Extend"@) == Some(MetaclassKind::Extend)) by {
        assert("Signal"@[0] != "Extend"@[0]);
        assert("Region"@[0] != "Extend"@[0]);
        assert("Action"@[0] != "Extend"@[0]);
    }
    assert(kind_of_name("ExtensionPoint"@) == Some(MetaclassKind::ExtensionPoint)) by {
        assert("Generalization"@[0] != "ExtensionPoint"@[0]);
        assert("InteractionUse"@[0] != "ExtensionPoint"@[0]);
    }
    assert(kind_of_name("Deployment"@) == Some(MetaclassKind::Deployment)) by {
        assert("Dependency"@[3] != "Deployment"@[3]);
        assert("Stereotype"@[0] != "Deployment"@[0]);
        assert("Transition"@[0] != "Deployment"@[0]);
        assert("FinalState"@[0] != "Deployment"@[0]);
        assert("ObjectNode"@[0] != "Deployment"@[0]);
    }
    assert(kind_of_name("Manifestation"@) == Some(MetaclassKind::Manifestation)) by {
        assert("PrimitiveType"@[0] != "Manifestation"@[0]);
        assert("Collaboration"@[0] != "Manifestation"@[0]);
    }
    assert(kind_of_name("CommunicationPath"@) == Some(MetaclassKind::CommunicationPath)) by {
        assert("ActivityPartition"@[0] != "CommunicationPath"@[0]);
    }
    assert(kind_of_name("PackageImport"@) == Some(MetaclassKind::PackageImport)) by {
        assert("PrimitiveType"@[1] != "PackageImport"@[1]);
        assert("Collaboration"@[0] != "PackageImport"@[0]);
        assert("Manifestation"@[0] != "PackageImport"@[0]);
    }
    assert(kind_of_name("PackageMerge"@) == Some(MetaclassKind::PackageMerge)) by {
        assert("StateMachine"@[0] != "PackageMerge"@[0]);
    }
    assert(kind_of_name("ElementImport"@) == Some(MetaclassKind::ElementImport)) by {
        assert("PrimitiveType"@[0] != "ElementImport"@[0]);
        assert("Collaboration"@[0] != "ElementImport"@[0]);
        assert("Manifestation"@[0] != "ElementImport"@[0]);
        assert("PackageImport"@[0] != "ElementImport"@[0]);
    }
    assert(kind_of_name("Metaclass"@) == Some(MetaclassKind::Metaclass)) by {
        assert("Interface"@[0] != "Metaclass"@[0]);
        assert("Component"@[0] != "Metaclass"@[0]);
        assert("Connector"@[0] != "Metaclass"@[0]);
    }
    assert(kind_of_name("Extension"@) == Some(MetaclassKind::Extension)) by {
        assert("Interface"@[0] != "Extension"@[0]);
        assert("Component"@[0] != "Extension"@[0]);
        assert("Connector"@[0] != "Extension"@[0]);
        assert("Metaclass"@[0] != "Extension"@[0]);
    }
    assert forall|k: MetaclassKind| #[trigger] kind_of_name(kind_name(k)) == Some(k) by {
        match k {
            MetaclassKind::Package => {}
            MetaclassKind::Class => {}
            MetaclassKind::Interface => {}
            MetaclassKind::DataType => {}
            MetaclassKind::Enumeration => {}
            MetaclassKind::Association => {}
            MetaclassKind::Generalization => {}
            MetaclassKind::Realization => {}
            MetaclassKind::Dependency => {}
            MetaclassKind::UseCase => {}
            MetaclassKind::Actor => {}
            MetaclassKind::Activity => {}
            MetaclassKind::Interaction => {}
            MetaclassKind::StateMachine => {}
            MetaclassKind::Component => {}
            MetaclassKind::Node => {}
            MetaclassKind::Artifact => {}
            MetaclassKind::Requirement => {}
            MetaclassKind::TestCase => {}
            MetaclassKind::Profile => {}
            MetaclassKind::Stereotype => {}
            MetaclassKind::Comment => {}
            MetaclassKind::PrimitiveType => {}
            MetaclassKind::AssociationClass => {}
            MetaclassKind::Signal => {}
            MetaclassKind::InstanceSpecification => {}
            MetaclassKind::Slot => {}
            MetaclassKind::Link => {}
            MetaclassKind::Port => {}
            MetaclassKind::Connector => {}
            MetaclassKind::Part => {}
            MetaclassKind::Collaboration => {}
            MetaclassKind::CollaborationUse => {}
            MetaclassKind::Message => {}
            MetaclassKind::Lifeline => {}
            MetaclassKind::ExecutionSpecification => {}
            MetaclassKind::CombinedFragment => {}
            MetaclassKind::InteractionUse => {}
            MetaclassKind::Gate => {}
            MetaclassKind::State => {}
            MetaclassKind::Region => {}
            MetaclassKind::Transition => {}
            MetaclassKind::Pseudostate => {}
            MetaclassKind::FinalState => {}
            MetaclassKind::Action => {}
            MetaclassKind::ControlNode => {}
            MetaclassKind::ObjectNode => {}
            MetaclassKind::ActivityPartition => {}
            MetaclassKind::Include => {}
            MetaclassKind::Extend => {}
            MetaclassKind::ExtensionPoint => {}
            MetaclassKind::Deployment => {}
            MetaclassKind::Manifestation => {}
            MetaclassKind::CommunicationPath => {}
            MetaclassKind::PackageImport => {}
            MetaclassKind::PackageMerge => {}
            MetaclassKind::ElementImport => {}
            MetaclassKind::Metaclass => {}
            MetaclassKind::Extension => {}
        }
    }
}

/// The registry lists the top-level kinds first: a kind is top-level exactly
/// when it is one of the first 22 kinds of [`MetaclassKind::ALL`], and every
/// later kind is a sub-element.
pub proof fn lemma_top_level_kinds_come_first()
    ensures
        forall|k: MetaclassKind| (#[trigger] kind_scope(k) == MetaclassScope::TopLevel) <==> kind_index(k) < 22,
        forall|i: int| 0 <= i < 59 ==> ((#[trigger] kind_scope(MetaclassKind::ALL@[i]) == MetaclassScope::TopLevel) <==> i < 22),
{
    lemma_all_lists_every_kind();
    assert forall|i: int| 0 <= i < 59 implies ((#[trigger] kind_scope(MetaclassKind::ALL@[i]) == MetaclassScope::TopLevel) <==> i < 22) by {
        let k = MetaclassKind::ALL@[i];
        assert(MetaclassKind::ALL@[kind_index(k)] == k);
        if kind_index(k) != i {
            assert(MetaclassKind::ALL@[kind_index(k)] != MetaclassKind::ALL@[i]);
        }
    }
}

/// The registry slice lists every kind exactly once, at its index.
pub proof fn lemma_all_lists_every_kind()
    ensures
        MetaclassKind::ALL@.len() == 59,
        forall|k: MetaclassKind|
            0 <= #[trigger] kind_index(k) < 59 && MetaclassKind::ALL@[kind_index(k)] == k,
        forall|i: int, j: int|
            0 <= i < j < 59 ==> MetaclassKind::ALL@[i] != MetaclassKind::ALL@[j],
{
}

} // verus!
