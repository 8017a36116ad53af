//! Stereotypes, their applications, and the check that an application fits.
//!
//! A stereotype lists the metaclasses it may extend; applying it to an
//! element of another metaclass is rejected. An element may carry several
//! stereotypes, and each application keeps its own tag values, so two
//! stereotypes may each have a tag of the same name without collision.

use vstd::prelude::*;

use crate::id::ElementId;
use crate::metaclass::MetaclassKind;

verus! {

/// A stereotype definition: its identity, its name, and the metaclasses it
/// may extend.
#[derive(Debug, Clone, PartialEq, Eq)]
pub struct Stereotype {
    /// Identity of the stereotype element.
    pub id: ElementId,
    /// The stereotype's name (rendered in guillemets).
    pub name: String,
    /// The metaclasses this stereotype may extend.
    pub extended_metaclasses: Vec<MetaclassKind>,
}

impl Stereotype {
    /// A stereotype extending the given metaclasses.
    pub fn new(id: ElementId, name: &str, extended: &[MetaclassKind]) -> (s: Self)
        ensures
            s.id == id,
            s.name@ == name@,
            s.extended_metaclasses@ == extended@,
    {
        let mut kinds: Vec<MetaclassKind> = Vec::new();
        let n = extended.len();
        let mut i: usize = 0;
        while i < n
            invariant
                n == extended@.len(),
                i <= n,
                kinds@ == extended@.take(i as int),
            decreases n - i,
        {
            kinds.push(extended[i]);
            i = i + 1;
            assert(kinds@ =~= extended@.take(i as int));
        }
        assert(extended@.take(n as int) =~= extended@);
        Stereotype { id, name: String::from_str(name), extended_metaclasses: kinds }
    }
}

/// One tagged value of a stereotype application.
#[derive(Debug, Clone, PartialEq, Eq)]
pub struct TagValue {
    /// The tag's name (scoped to its application).
    pub name: String,
    /// The tag's value, as text.
    pub value: String,
}

impl TagValue {
    /// A tagged value.
    pub fn new(name: &str, value: &str) -> (t: Self)
        ensures
            t.name@ == name@,
            t.value@ == value@,
    {
        TagValue { name: String::from_str(name), value: String::from_str(value) }
    }
}

/// An application of a stereotype to an element, with the application's own
/// tag values.
#[derive(Debug, Clone, PartialEq, Eq)]
pub struct AppliedStereotype {
    /// The stereotype applied.
    pub stereotype_id: ElementId,
    /// The values of this application's tags (its own namespace).
    pub tag_values: Vec<TagValue>,
}

impl AppliedStereotype {
    /// An application of `stereotype_id` with no tag values yet.
    pub fn new(stereotype_id: ElementId) -> (a: Self)
        ensures
            a.stereotype_id == stereotype_id,
            a.tag_values@.len() == 0,
    {
        AppliedStereotype { stereotype_id, tag_values: Vec::new() }
    }

    /// Add a tag value to this application.
    pub fn with_tag(self, name: &str, value: &str) -> (a: Self)
        ensures
            a.stereotype_id == self.stereotype_id,
            a.tag_values@.len() == self.tag_values@.len() + 1,
            forall|i: int| 0 <= i < self.tag_values@.len() ==> a.tag_values@[i] == self.tag_values@[i],
            a.tag_values@.last().name@ == name@,
            a.tag_values@.last().value@ == value@,
    {
        let mut a = self;
        a.tag_values.push(TagValue::new(name, value));
        a
    }
}

/// Why a stereotype application was rejected.
#[derive(Debug, Clone, PartialEq, Eq)]
pub enum StereotypeError {
    /// The element's metaclass is not one the stereotype extends.
    MetaclassNotExtended {
        /// The stereotype's name.
        stereotype: String,
        /// The metaclass the application targeted.
        element_kind: MetaclassKind,
    },
}

/// Check that `stereotype` may be applied to an element of `element_kind`:
/// the kind must be among the metaclasses it extends.
pub fn validate_stereotype_application(stereotype: &Stereotype, element_kind: MetaclassKind) -> (r: Result<(), StereotypeError>)
    ensures
        stereotype.extended_metaclasses@.contains(element_kind) ==> r is Ok,
        !stereotype.extended_metaclasses@.contains(element_kind) ==> (r matches Err(
            StereotypeError::MetaclassNotExtended { stereotype: name, element_kind: kind },
        ) && name@ == stereotype.name@ && kind == element_kind),
{
    let n = stereotype.extended_metaclasses.len();
    let mut i: usize = 0;
    while i < n
        invariant
            n == stereotype.extended_metaclasses@.len(),
            i <= n,
            forall|j: int| 0 <= j < i ==> stereotype.extended_metaclasses@[j] != element_kind,
        decreases n - i,
    {
        if stereotype.extended_metaclasses[i] == element_kind {
            assert(stereotype.extended_metaclasses@[i as int] == element_kind);
            return Ok(());
        }
        i = i + 1;
    }
    Err(StereotypeError::MetaclassNotExtended { stereotype: stereotype.name.clone(), element_kind })
}

} // verus!
