//! Profiles and the built-in profiles.
//!
//! The three built-in profiles are present in every project and cannot be
//! deleted (`is_builtin`); their stereotypes are available without an
//! explicit application of the profile.

use vstd::prelude::*;

use crate::id::ElementId;
use crate::metaclass::MetaclassKind;
use crate::stereotype::Stereotype;

verus! {

/// Qualified name of the traceability profile.
pub const TRACEABILITY_PROFILE: &'static str = "smith::traceability";

/// Qualified name of the requirements profile.
pub const REQUIREMENTS_PROFILE: &'static str = "smith::requirements";

/// Qualified name of the tests profile.
pub const TESTS_PROFILE: &'static str = "smith::tests";

/// A profile: a named package of stereotype definitions.
#[derive(Debug, Clone, PartialEq, Eq)]
pub struct Profile {
    /// Identity of the profile element.
    pub id: ElementId,
    /// Qualified name, e.g. `smith::traceability`.
    pub qualified_name: String,
    /// Built-in profiles are permanent and always available.
    pub is_builtin: bool,
    /// The stereotypes this profile defines.
    pub stereotypes: Vec<Stereotype>,
}

impl Profile {
    /// A profile with no stereotypes yet.
    pub fn new(id: ElementId, qualified_name: &str, is_builtin: bool) -> (p: Self)
        ensures
            p.id == id,
            p.qualified_name@ == qualified_name@,
            p.is_builtin == is_builtin,
            p.stereotypes@.len() == 0,
    {
        Profile { id, qualified_name: String::from_str(qualified_name), is_builtin, stereotypes: Vec::new() }
    }

    /// Add a stereotype definition.
    pub fn with_stereotype(self, stereotype: Stereotype) -> (p: Self)
        ensures
            p.id == self.id,
            p.qualified_name == self.qualified_name,
            p.is_builtin == self.is_builtin,
            p.stereotypes@ == self.stereotypes@.push(stereotype),
    {
        let mut p = self;
        p.stereotypes.push(stereotype);
        p
    }
}

/// The names of the trace stereotypes shipped in `smith::traceability`, in
/// order; each extends `Dependency`.
pub open spec fn trace_stereotype_names() -> Seq<Seq<char>> {
    seq!["satisfy"@, "verify"@, "realize"@, "deriveReqt"@, "refine"@, "trace"@, "copy"@]
}

/// The names of the trace stereotypes, in order.
fn trace_names() -> (names: [&'static str; 7])
    ensures
        forall|i: int| 0 <= i < 7 ==> #[trigger] names@[i]@ == trace_stereotype_names()[i],
{
    let names = ["satisfy", "verify", "realize", "deriveReqt", "refine", "trace", "copy"];
    assert forall|i: int| 0 <= i < 7 implies #[trigger] names@[i]@ == trace_stereotype_names()[i] by {
    }
    names
}

/// The built-in `smith::traceability` profile: the seven trace stereotypes,
/// each extending `Dependency`.
fn traceability() -> (p: Profile)
    ensures
        p.qualified_name@ == TRACEABILITY_PROFILE@,
        p.is_builtin,
        p.stereotypes@.len() == 7,
        forall|i: int| 0 <= i < 7 ==> (#[trigger] p.stereotypes@[i]).name@ == trace_stereotype_names()[i]
            && p.stereotypes@[i].extended_metaclasses@ == seq![MetaclassKind::Dependency],
{
    let names = trace_names();
    let mut profile = Profile::new(ElementId::new(), TRACEABILITY_PROFILE, true);
    let extended = [MetaclassKind::Dependency];
    let mut i: usize = 0;
    while i < 7
        invariant
            i <= 7,
            profile.qualified_name@ == TRACEABILITY_PROFILE@,
            profile.is_builtin,
            profile.stereotypes@.len() == i,
            extended@ == seq![MetaclassKind::Dependency],
            forall|k: int| 0 <= k < 7 ==> #[trigger] names@[k]@ == trace_stereotype_names()[k],
            forall|k: int| 0 <= k < i ==> (#[trigger] profile.stereotypes@[k]).name@ == trace_stereotype_names()[k]
                && profile.stereotypes@[k].extended_metaclasses@ == seq![MetaclassKind::Dependency],
        decreases 7 - i,
    {
        let s = Stereotype::new(ElementId::new(), names[i], &extended);
        profile = profile.with_stereotype(s);
        i = i + 1;
    }
    profile
}

/// Return the three built-in profiles, in their fixed order: traceability,
/// requirements, tests. All are built in; the requirements and tests
/// profiles define no stereotypes.
pub fn builtin_profiles() -> (ps: Vec<Profile>)
    ensures
        ps@.len() == 3,
        ps@[0].qualified_name@ == TRACEABILITY_PROFILE@,
        ps@[1].qualified_name@ == REQUIREMENTS_PROFILE@,
        ps@[2].qualified_name@ == TESTS_PROFILE@,
        forall|i: int| 0 <= i < 3 ==> (#[trigger] ps@[i]).is_builtin,
        ps@[0].stereotypes@.len() == 7,
        forall|i: int| 0 <= i < 7 ==> (#[trigger] ps@[0].stereotypes@[i]).name@ == trace_stereotype_names()[i]
            && ps@[0].stereotypes@[i].extended_metaclasses@ == seq![MetaclassKind::Dependency],
        ps@[1].stereotypes@.len() == 0,
        ps@[2].stereotypes@.len() == 0,
{
    let mut ps: Vec<Profile> = Vec::new();
    ps.push(traceability());
    ps.push(Profile::new(ElementId::new(), REQUIREMENTS_PROFILE, true));
    ps.push(Profile::new(ElementId::new(), TESTS_PROFILE, true));
    ps
}

} // verus!
