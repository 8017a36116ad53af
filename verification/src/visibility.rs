//! Visibility and its fixed UML notation prefix.

use vstd::prelude::*;

verus! {

/// UML visibility of a named element: `public`, `private`, `protected`, or
/// `package`. The default is [`Visibility::Public`].
#[derive(Debug, Clone, Copy, PartialEq, Eq, Structural, Hash)]
pub enum Visibility {
    /// `+` — visible everywhere.
    Public,
    /// `-` — visible only within the owning namespace.
    Private,
    /// `#` — visible to specializations of the owner.
    Protected,
    /// `~` — visible within the nearest enclosing package.
    Package,
}

/// The UML notation prefix of each visibility.
pub open spec fn notation_text(v: Visibility) -> Seq<char> {
    match v {
        Visibility::Public => "+"@,
        Visibility::Private => "-"@,
        Visibility::Protected => "#"@,
        Visibility::Package => "~"@,
    }
}

/// The stable column identifier of each visibility.
pub open spec fn store_text(v: Visibility) -> Seq<char> {
    match v {
        Visibility::Public => "public"@,
        Visibility::Private => "private"@,
        Visibility::Protected => "protected"@,
        Visibility::Package => "package"@,
    }
}

impl Visibility {
    /// The fixed UML notation prefix for this visibility.
    pub fn notation(self) -> (s: &'static str)
        ensures
            s@ == notation_text(self),
    {
        match self {
            Visibility::Public => "+",
            Visibility::Private => "-",
            Visibility::Protected => "#",
            Visibility::Package => "~",
        }
    }
}

impl Default for Visibility {
    /// The metamodel default: public.
    fn default() -> (v: Self)
        ensures
            v == Visibility::Public,
    {
        Visibility::Public
    }
}

/// Map a [`Visibility`] to its stable string id (the stored column value).
pub fn visibility_str(v: Visibility) -> (s: &'static str)
    ensures
        s@ == store_text(v),
{
    match v {
        Visibility::Public => "public",
        Visibility::Private => "private",
        Visibility::Protected => "protected",
        Visibility::Package => "package",
    }
}

/// The visibility a stored string names: `private`, `protected` and `package`
/// name theirs; any other text reads as public.
pub open spec fn visibility_of_text(s: Seq<char>) -> Visibility {
    if s == "private"@ {
        Visibility::Private
    } else if s == "protected"@ {
        Visibility::Protected
    } else if s == "package"@ {
        Visibility::Package
    } else {
        Visibility::Public
    }
}

/// Resolve a stored visibility string into a [`Visibility`] (unknown text
/// reads as public).
pub fn visibility_from_store(s: &str) -> (v: Visibility)
    ensures
        v == visibility_of_text(s@),
{
    if crate::text::str_eq(s, "private") {
        Visibility::Private
    } else if crate::text::str_eq(s, "protected") {
        Visibility::Protected
    } else if crate::text::str_eq(s, "package") {
        Visibility::Package
    } else {
        Visibility::Public
    }
}

/// The stored name of a visibility is the word its UML prefix stands for:
/// `+` public, `-` private, `#` protected, `~` package; and reading a stored
/// name back gives the visibility with that prefix.
pub proof fn lemma_store_text_names_the_notation(v: Visibility)
    ensures
        notation_text(v) == "+"@ <==> store_text(v) == "public"@,
        notation_text(v) == "-"@ <==> store_text(v) == "private"@,
        notation_text(v) == "#"@ <==> store_text(v) == "protected"@,
        notation_text(v) == "~"@ <==> store_text(v) == "package"@,
        notation_text(visibility_of_text("public"@)) == "+"@,
        notation_text(visibility_of_text("private"@)) == "-"@,
        notation_text(visibility_of_text("protected"@)) == "#"@,
        notation_text(visibility_of_text("package"@)) == "~"@,
{
    reveal_strlit("+");
    reveal_strlit("-");
    reveal_strlit("#");
    reveal_strlit("~");
    reveal_strlit("public");
    reveal_strlit("private");
    reveal_strlit("protected");
    reveal_strlit("package");
    assert("+"@[0] != "-"@[0] && "+"@[0] != "#"@[0] && "+"@[0] != "~"@[0]);
    assert("-"@[0] != "#"@[0] && "-"@[0] != "~"@[0] && "#"@[0] != "~"@[0]);
    assert("public"@ != "private"@) by {
        assert("public"@[1] != "private"@[1]);
    }
    assert("public"@.len() != "protected"@.len());
    assert("public"@ != "package"@) by {
        assert("public"@[1] != "package"@[1]);
    }
    assert("private"@.len() != "protected"@.len());
    assert("private"@ != "package"@) by {
        assert("private"@[1] != "package"@[1]);
    }
    assert("protected"@.len() != "package"@.len());
}

/// Reading back the stored form of a visibility gives the same visibility.
pub proof fn lemma_visibility_store_round_trip(v: Visibility)
    ensures
        visibility_of_text(store_text(v)) == v,
{
    reveal_strlit("public");
    reveal_strlit("private");
    reveal_strlit("protected");
    reveal_strlit("package");
    assert("public"@ != "private"@) by {
        assert("public"@[1] != "private"@[1]);
    }
    assert("public"@.len() != "protected"@.len());
    assert("public"@ != "package"@) by {
        assert("public"@[1] != "package"@[1]);
    }
    assert("private"@.len() != "protected"@.len());
    assert("private"@ != "package"@) by {
        assert("private"@[1] != "package"@[1]);
    }
    assert("protected"@.len() != "package"@.len());
}

} // verus!
