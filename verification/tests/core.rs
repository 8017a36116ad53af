//! The metamodel core: identity, the metaclass registry, visibility,
//! multiplicity, named elements, relationships, stereotypes and profiles.

use std::collections::HashSet;
use std::str::FromStr;

use smith::profile::{REQUIREMENTS_PROFILE, TESTS_PROFILE, TRACEABILITY_PROFILE};
use smith::visibility::{visibility_from_store, visibility_str};
use smith::{
    builtin_profiles, validate_stereotype_application, AppliedStereotype, Comment, CommentError,
    DirectedRelationship, ElementId, MetaclassKind, MetaclassScope, Multiplicity, MultiplicityError,
    NamedElement, Relationship, Stereotype, StereotypeError, TagValue, Visibility,
};

#[test]
fn metaclass_kind_registry_is_closed() {
    let mut ids = HashSet::new();
    let mut top_level = 0usize;
    let mut sub_element = 0usize;
    for kind in MetaclassKind::ALL.iter() {
        let id = kind.as_str();
        assert!(ids.insert(id), "duplicate id {id}");
        assert_eq!(MetaclassKind::from_id(id), Some(*kind));
        match kind.scope() {
            MetaclassScope::TopLevel => top_level += 1,
            MetaclassScope::SubElement => sub_element += 1,
        }
    }

    assert_eq!(top_level, 22);
    assert_eq!(sub_element, 37);
    assert_eq!(MetaclassKind::ALL.len(), 59);

    assert_eq!(MetaclassKind::from_id("NotARealKind"), None);

    assert_eq!(MetaclassKind::Dependency.scope(), MetaclassScope::TopLevel);
    assert_eq!(MetaclassKind::Comment.scope(), MetaclassScope::TopLevel);
    assert_eq!(MetaclassKind::Port.scope(), MetaclassScope::SubElement);
}

#[test]
fn metaclass_ids_are_the_variant_names() {
    assert_eq!(MetaclassKind::Package.as_str(), "Package");
    assert_eq!(MetaclassKind::Class.as_str(), "Class");
    assert_eq!(MetaclassKind::from_id("Association"), Some(MetaclassKind::Association));
    assert_eq!(MetaclassKind::from_id("package"), None);
    assert_eq!(MetaclassKind::from_id(""), None);
}

#[test]
fn multiplicity_parses_formats_and_rejects_upper_below_lower() {
    let one = Multiplicity {
        lower: 1,
        upper: Some(1),
    };
    assert_eq!(Multiplicity::from_str("1"), Ok(one));
    assert_eq!(one.to_string(), "1");

    let star = Multiplicity {
        lower: 0,
        upper: None,
    };
    assert_eq!(Multiplicity::from_str("*"), Ok(star));
    assert_eq!(star.to_string(), "*");

    let zero_one = Multiplicity {
        lower: 0,
        upper: Some(1),
    };
    assert_eq!(Multiplicity::from_str("0..1"), Ok(zero_one));
    assert_eq!(zero_one.to_string(), "0..1");

    let one_five = Multiplicity {
        lower: 1,
        upper: Some(5),
    };
    assert_eq!(Multiplicity::from_str("1..5"), Ok(one_five));
    assert_eq!(one_five.to_string(), "1..5");

    assert_eq!(
        Multiplicity::from_str("1..1"),
        Ok(Multiplicity {
            lower: 1,
            upper: Some(1),
        })
    );
    assert_eq!(
        Multiplicity::from_str("0..*"),
        Ok(Multiplicity {
            lower: 0,
            upper: None
        })
    );
    assert_eq!(
        Multiplicity::from_str("3..*"),
        Ok(Multiplicity {
            lower: 3,
            upper: None,
        })
    );
    assert_eq!(
        Multiplicity {
            lower: 1,
            upper: Some(1)
        }
        .to_string(),
        "1"
    );
    assert_eq!(
        Multiplicity {
            lower: 0,
            upper: None
        }
        .to_string(),
        "*"
    );
    assert_eq!(
        Multiplicity {
            lower: 3,
            upper: None,
        }
        .to_string(),
        "3..*"
    );

    assert_eq!(
        Multiplicity::new(3, Some(2)),
        Err(MultiplicityError::UpperBelowLower { lower: 3, upper: 2 })
    );
    assert!(Multiplicity::from_str("3..2").is_err());
}

#[test]
fn multiplicity_rejects_malformed_text_with_the_input() {
    for text in ["", "..", "1..", "..3", "a", "1..b", "1...3", "-1", "*..*", "4294967296"] {
        assert_eq!(
            Multiplicity::from_str(text),
            Err(MultiplicityError::InvalidFormat {
                input: text.to_string()
            }),
            "{text:?}"
        );
    }
    assert_eq!(
        Multiplicity::from_str("3..2"),
        Err(MultiplicityError::InvalidFormat {
            input: "3..2".to_string()
        })
    );
}

#[test]
fn multiplicity_trims_surrounding_white_space_and_accepts_a_plus_sign() {
    assert_eq!(
        Multiplicity::from_str(" 2 .. 7 "),
        Ok(Multiplicity {
            lower: 2,
            upper: Some(7)
        })
    );
    assert_eq!(
        Multiplicity::from_str("+4"),
        Ok(Multiplicity {
            lower: 4,
            upper: Some(4)
        })
    );
    assert_eq!(
        Multiplicity::from_str("4294967295..*"),
        Ok(Multiplicity {
            lower: u32::MAX,
            upper: None
        })
    );
}

#[test]
fn multiplicity_format_reads_back() {
    for (lower, upper) in [(0, Some(0)), (0, Some(1)), (2, Some(2)), (7, None), (0, None), (10, Some(250))] {
        let m = Multiplicity::new(lower, upper).unwrap();
        assert_eq!(Multiplicity::from_str(&m.to_string()), Ok(m));
    }
    assert_eq!(
        Multiplicity::new(4, Some(9)).unwrap().to_string(),
        "4..9"
    );
}

#[test]
fn multiplicity_unbounded_means_no_upper_bound() {
    assert!(Multiplicity::new(0, None).unwrap().is_unbounded());
    assert!(!Multiplicity::new(0, Some(3)).unwrap().is_unbounded());
    assert_eq!(
        Multiplicity::new(2, Some(2)),
        Ok(Multiplicity {
            lower: 2,
            upper: Some(2)
        })
    );
}

#[test]
fn name_is_optional_and_not_unique_among_siblings() {
    let parent = ElementId::new();

    let unnamed = NamedElement::new(ElementId::new()).with_owner(parent);
    assert!(unnamed.name.is_none());

    let a = NamedElement::new(ElementId::new())
        .with_owner(parent)
        .with_name("Payment");
    let b = NamedElement::new(ElementId::new())
        .with_owner(parent)
        .with_name("Payment");

    assert_eq!(a.owner, b.owner);
    assert_eq!(a.name, b.name);
    assert_ne!(a.id, b.id);
}

#[test]
fn directed_relationship_binary_sources_and_targets() {
    let owner = ElementId::new();
    let source = ElementId::new();
    let target = ElementId::new();
    let relationship = Relationship::new(ElementId::new(), owner);

    let edge = DirectedRelationship::binary(relationship, source, target);

    assert!(edge.is_binary());
    assert_eq!(edge.sources, vec![source]);
    assert_eq!(edge.targets, vec![target]);

    let mut nary = DirectedRelationship::new(Relationship::new(ElementId::new(), owner));
    nary.sources.push(source);
    nary.targets.push(target);
    nary.targets.push(ElementId::new());
    assert!(!nary.is_binary());
}

#[test]
fn comment_body_must_not_be_blank() {
    assert_eq!(Comment::new("   \t\n"), Err(CommentError::EmptyBody));
    assert_eq!(Comment::new(""), Err(CommentError::EmptyBody));
    let target = ElementId::new();
    let c = Comment::new("see spec").unwrap().annotate(target);
    assert_eq!(c.body, "see spec");
    assert_eq!(c.annotated_elements, vec![target]);
}

#[test]
fn stereotype_application_rejects_non_extended_metaclass() {
    let stereotype = Stereotype::new(ElementId::new(), "entity", &[MetaclassKind::Class]);

    let accepted = validate_stereotype_application(&stereotype, MetaclassKind::Class);
    assert!(accepted.is_ok());

    let rejected = validate_stereotype_application(&stereotype, MetaclassKind::Requirement);
    assert!(rejected.is_err());
}

#[test]
fn stereotype_rejection_names_the_stereotype_and_the_kind() {
    let stereotype = Stereotype::new(ElementId::new(), "entity", &[MetaclassKind::Class, MetaclassKind::Interface]);
    assert_eq!(validate_stereotype_application(&stereotype, MetaclassKind::Interface), Ok(()));
    match validate_stereotype_application(&stereotype, MetaclassKind::Package) {
        Err(StereotypeError::MetaclassNotExtended { stereotype, element_kind }) => {
            assert_eq!(stereotype, "entity");
            assert_eq!(element_kind, MetaclassKind::Package);
        }
        other => panic!("unexpected {other:?}"),
    }
}

#[test]
fn element_carries_multiple_stereotypes_with_disjoint_tag_namespaces() {
    let persistence = AppliedStereotype::new(ElementId::new()).with_tag("id", "uuid-aaaa");
    let audit = AppliedStereotype::new(ElementId::new()).with_tag("id", "AUD-0001");

    let element = NamedElement::new(ElementId::new())
        .with_stereotype(persistence)
        .with_stereotype(audit);

    assert_eq!(element.stereotypes.len(), 2);
    assert_eq!(element.stereotypes[0].tag_values[0].name, "id");
    assert_eq!(element.stereotypes[0].tag_values[0].value, "uuid-aaaa");
    assert_eq!(element.stereotypes[1].tag_values[0].name, "id");
    assert_eq!(element.stereotypes[1].tag_values[0].value, "AUD-0001");
}

#[test]
fn tag_value_keeps_name_and_value() {
    let t = TagValue::new("priority", "high");
    assert_eq!(t.name, "priority");
    assert_eq!(t.value, "high");
}

#[test]
fn builtin_profiles_present_and_undeletable() {
    let profiles = builtin_profiles();
    assert_eq!(profiles.len(), 3);

    let names: Vec<&str> = profiles.iter().map(|p| p.qualified_name.as_str()).collect();
    assert_eq!(
        names,
        vec![TRACEABILITY_PROFILE, REQUIREMENTS_PROFILE, TESTS_PROFILE]
    );

    for profile in &profiles {
        assert!(
            profile.is_builtin,
            "{} not marked builtin",
            profile.qualified_name
        );
    }

    let traceability = &profiles[0];
    assert_eq!(traceability.stereotypes.len(), 7);
    let trace_names: Vec<&str> = traceability
        .stereotypes
        .iter()
        .map(|s| s.name.as_str())
        .collect();
    assert_eq!(
        trace_names,
        vec![
            "satisfy",
            "verify",
            "realize",
            "deriveReqt",
            "refine",
            "trace",
            "copy"
        ]
    );
    for stereotype in &traceability.stereotypes {
        assert_eq!(
            stereotype.extended_metaclasses,
            vec![MetaclassKind::Dependency]
        );
    }
}

#[test]
fn visibility_variants_carry_fixed_notation_prefixes() {
    assert_eq!(Visibility::Public.notation(), "+");
    assert_eq!(Visibility::Private.notation(), "-");
    assert_eq!(Visibility::Protected.notation(), "#");
    assert_eq!(Visibility::Package.notation(), "~");

    assert_eq!(Visibility::default(), Visibility::Public);
}

#[test]
fn visibility_store_text_round_trips() {
    for v in [Visibility::Public, Visibility::Private, Visibility::Protected, Visibility::Package] {
        assert_eq!(visibility_from_store(visibility_str(v)), v);
    }
    assert_eq!(visibility_str(Visibility::Protected), "protected");
    assert_eq!(visibility_from_store("bogus"), Visibility::Public);
}

#[test]
fn element_id_is_unique_and_immutable() {
    let a = ElementId::new();
    assert_eq!(a, a);
    assert_eq!(a.as_bytes(), a.as_bytes());
    assert_ne!(a, ElementId::new());

    let ids: Vec<ElementId> = (0..256).map(|_| ElementId::new()).collect();
    let mut seen = HashSet::new();
    for id in &ids {
        assert!(seen.insert(*id), "duplicate id minted");
    }
    for window in ids.windows(2) {
        let earlier = window[0].as_bytes();
        let later = window[1].as_bytes();
        assert!(earlier[0..6] <= later[0..6], "v7 timestamp prefix decreased");
    }
}

#[test]
fn element_id_bytes_and_uuid_agree_with_its_value() {
    let id = ElementId::from_u128(0x0123_4567_89ab_cdef_0011_2233_4455_6677);
    assert_eq!(id.as_u128(), 0x0123_4567_89ab_cdef_0011_2233_4455_6677);
    assert_eq!(
        id.as_bytes(),
        [0x01, 0x23, 0x45, 0x67, 0x89, 0xab, 0xcd, 0xef, 0x00, 0x11, 0x22, 0x33, 0x44, 0x55, 0x66, 0x77]
    );
    assert_eq!(id.as_uuid().to_string(), "01234567-89ab-cdef-0011-223344556677");
    let fresh = ElementId::new();
    assert_eq!(fresh.as_uuid().get_version_num(), 7);
    assert_eq!(fresh.as_uuid().as_u128(), fresh.as_u128());
}

#[test]
fn greet_replies_with_the_name() {
    assert_eq!(smith::shell::greet("Ada"), "Hello, Ada \u{2014} from Smith's Rust core.");
    assert_eq!(smith::shell::greet(""), "Hello,  \u{2014} from Smith's Rust core.");
}
