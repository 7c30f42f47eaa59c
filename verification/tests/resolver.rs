use a2lmacros::ast::{Enumerator, Member, Multiplicity, Node, Scalar, Specification, Tagged};
use a2lmacros::names::{find_duplicate, synthesize_field, synthesize_member, synthesize_name};
use a2lmacros::parser::parse_specification;
use a2lmacros::resolver::{resolve, Schema, SemanticError};
use a2lmacros::token::tokenize;

fn tag(s: &str) -> Vec<u8> {
    s.as_bytes().to_vec()
}

fn schema_of(source: &str) -> Result<Schema, SemanticError> {
    resolve(&parse_specification(&tokenize(&tag(source)).unwrap()).unwrap())
}

fn block(label: &str, item: Node) -> Tagged {
    Tagged {
        tag: tag(label),
        block: true,
        multiplicity: Multiplicity::Optional,
        member: Member { item, name: None, doc: None },
    }
}

#[test]
fn enum_value_follows_the_written_one() {
    let schema = schema_of("<E> block \"B\" enum { \"E1\" = 1, \"E2\" };").unwrap();
    assert_eq!(
        schema.lookup(&tag("B")),
        Some(&Node::Enum {
            name: Some(tag("B")),
            enumerators: vec![
                Enumerator { tag: tag("E1"), value: Some(1) },
                Enumerator { tag: tag("E2"), value: Some(2) },
            ],
        })
    );
}

#[test]
fn enum_values_count_on_from_every_written_value() {
    let schema =
        schema_of("<E> \"K\" enum Kind { \"A\", \"B\", \"C\" = 5, \"D\", \"E\" = -3, \"F\" };").unwrap();
    let values: Vec<Option<i64>> = match schema.lookup(&tag("Kind")) {
        Some(Node::Enum { enumerators, .. }) => enumerators.iter().map(|e| e.value).collect(),
        other => panic!("no enumeration: {:?}", other),
    };
    assert_eq!(values, vec![Some(0), Some(1), Some(5), Some(6), Some(-3), Some(-2)]);
}

#[test]
fn enum_value_after_the_largest_is_refused() {
    assert_eq!(
        schema_of("<E> \"K\" enum { \"A\" = 9223372036854775807, \"B\" };").unwrap_err(),
        SemanticError::DiscriminantOverflow { tag: tag("B") }
    );
}

#[test]
fn duplicate_tags_are_refused_with_both_places() {
    assert_eq!(
        schema_of("<S> block \"B\" taggedunion { \"X\" int; \"Y\" int; \"X\" long; };").unwrap_err(),
        SemanticError::DuplicateTag { tag: tag("X"), first: 0, second: 2 }
    );
    assert_eq!(
        schema_of("<S> block \"B\" taggedstruct { \"Y\" int; \"Y\" (int)*; };").unwrap_err(),
        SemanticError::DuplicateTag { tag: tag("Y"), first: 0, second: 1 }
    );
    assert_eq!(
        schema_of("<S> block \"B\" int; \"C\" int; block \"B\" long;").unwrap_err(),
        SemanticError::DuplicateTag { tag: tag("B"), first: 0, second: 2 }
    );
    assert_eq!(
        schema_of("<S> \"E\" enum { \"A\", \"A\" };").unwrap_err(),
        SemanticError::DuplicateTag { tag: tag("A"), first: 0, second: 1 }
    );
}

#[test]
fn equal_tags_in_different_unions_are_accepted() {
    assert!(schema_of(
        "<S> \"U\" taggedunion A { \"X\" int; }; \"V\" taggedunion B { \"X\" int; \"U\" int; };"
    )
    .is_ok());
}

#[test]
fn duplicate_member_names_are_refused() {
    assert_eq!(
        schema_of("<S> \"T\" struct { int a; long; int b; uint a; };").unwrap_err(),
        SemanticError::DuplicateName { name: tag("a"), first: 0, second: 3 }
    );
}

#[test]
fn equal_type_names_collide() {
    assert_eq!(
        schema_of("<S> \"A\" struct T { int; }; \"B\" struct T { int; };").unwrap_err(),
        SemanticError::NameCollision { name: tag("T"), first: 1, second: 2 }
    );
    assert_eq!(
        schema_of("<S> \"SOME_TAG\" struct { int; }; \"B\" enum SomeTag { };").unwrap_err(),
        SemanticError::NameCollision { name: tag("SomeTag"), first: 1, second: 2 }
    );
    assert_eq!(
        schema_of("<S> \"T\" struct S { int; };").unwrap_err(),
        SemanticError::NameCollision { name: tag("S"), first: 0, second: 1 }
    );
}

#[test]
fn names_that_are_no_identifiers_are_refused() {
    assert!(schema_of("<S> \"123\" struct { int; };").is_ok());
    assert_eq!(
        schema_of("<S> \"--\" struct { int; };").unwrap_err(),
        SemanticError::InvalidIdentifier { name: tag("") }
    );
    let spec = Specification {
        name: tag("S"),
        blocks: vec![block("B", Node::Struct { name: Some(tag("no good")), members: vec![] })],
    };
    assert_eq!(
        resolve(&spec).unwrap_err(),
        SemanticError::InvalidIdentifier { name: tag("no good") }
    );
    let named = Specification {
        name: tag("S"),
        blocks: vec![Tagged {
            tag: tag("B"),
            block: false,
            multiplicity: Multiplicity::One,
            member: Member { item: Node::Scalar(Scalar::Int), name: Some(tag("9x")), doc: None },
        }],
    };
    assert_eq!(resolve(&named).unwrap_err(), SemanticError::InvalidIdentifier { name: tag("9x") });
    let root = Specification { name: tag("1S"), blocks: vec![] };
    assert_eq!(resolve(&root).unwrap_err(), SemanticError::InvalidIdentifier { name: tag("1S") });
}

#[test]
fn tag_with_a_double_quote_is_refused() {
    let spec = Specification { name: tag("S"), blocks: vec![block("A\"B", Node::Scalar(Scalar::Int))] };
    assert_eq!(resolve(&spec).unwrap_err(), SemanticError::InvalidTag { tag: tag("A\"B") });
}

#[test]
fn array_of_char_elements_is_refused() {
    let spec = Specification {
        name: tag("S"),
        blocks: vec![block(
            "A",
            Node::Array { element: Box::new(Node::Scalar(Scalar::Char)), size: 4 },
        )],
    };
    assert_eq!(resolve(&spec).unwrap_err(), SemanticError::InvalidArray);
}

#[test]
fn anonymous_declarations_are_named_after_their_tag() {
    let schema = schema_of(
        "<Root> block \"IF_DATA\" taggedunion { \"SOME_DATA\" struct { uint; }; \"x9\" enum { }; };",
    )
    .unwrap();
    let names: Vec<Option<Vec<u8>>> = schema
        .types()
        .iter()
        .map(|n| match n {
            Node::Struct { name, .. } => name.clone(),
            Node::Enum { name, .. } => name.clone(),
            Node::TaggedUnion { name, .. } => name.clone(),
            Node::TaggedStruct { name, .. } => name.clone(),
            _ => None,
        })
        .collect();
    assert_eq!(
        names,
        vec![Some(tag("Root")), Some(tag("IfData")), Some(tag("SomeData")), Some(tag("X9"))]
    );
    assert_eq!(schema.name(), &tag("Root"));
    assert!(schema.lookup(&tag("SomeData")).is_some());
    assert!(schema.lookup(&tag("Missing")).is_none());
}

#[test]
fn multiplicities_and_documentation_are_kept() {
    let schema = schema_of(
        "<S> \"TS\" taggedstruct T { \"A\" (int)!; \"B\" int; /// about b\n \"C\" (int)*; };",
    )
    .unwrap();
    match schema.lookup(&tag("T")) {
        Some(Node::TaggedStruct { entries, .. }) => {
            let seen: Vec<Multiplicity> = entries.iter().map(|e| e.multiplicity).collect();
            assert_eq!(
                seen,
                vec![Multiplicity::One, Multiplicity::Optional, Multiplicity::Repeated]
            );
            assert_eq!(entries[1].member.doc, Some(tag(" about b")));
        }
        other => panic!("no tagged struct: {:?}", other),
    }
}

#[test]
fn synthesize_name_makes_camel_case() {
    assert_eq!(synthesize_name(&tag("IF_DATA")), tag("IfData"));
    assert_eq!(synthesize_name(&tag("NONE")), tag("None"));
    assert_eq!(synthesize_name(&tag("some tag-9x")), tag("SomeTag9x"));
    assert_eq!(synthesize_name(&tag("a1B2")), tag("A1b2"));
    assert_eq!(synthesize_name(&tag("_%_")), tag(""));
    assert_eq!(synthesize_name(&tag("")), tag(""));
    assert_eq!(synthesize_name(&tag("1MS")), tag("_1ms"));
}

#[test]
fn synthesize_field_makes_lower_case_with_underscores() {
    assert_eq!(synthesize_field(&tag("IF_DATA")), tag("if_data"));
    assert_eq!(synthesize_field(&tag("--Some  Tag9x--")), tag("some_tag9x"));
    assert_eq!(synthesize_field(&tag("9 lives")), tag("_9_lives"));
    assert_eq!(synthesize_field(&tag("%%")), tag(""));
    assert_eq!(synthesize_member(&tag("IF_DATA"), 0), tag("if_data_1"));
    assert_eq!(synthesize_member(&tag("X"), 11), tag("x_12"));
}

#[test]
fn equal_names_of_fields_and_variants_are_refused() {
    assert_eq!(
        schema_of("<S> \"T\" taggedstruct { \"X\" int y; \"Y\" int; };").unwrap_err(),
        SemanticError::DuplicateName { name: tag("y"), first: 0, second: 1 }
    );
    assert_eq!(
        schema_of("<S> \"T\" struct { int; int t_1; };").unwrap_err(),
        SemanticError::DuplicateName { name: tag("t_1"), first: 0, second: 1 }
    );
    assert_eq!(
        schema_of("<S> \"T\" taggedunion { \"A-B\" int; \"C\" int; \"A_B\" int; };").unwrap_err(),
        SemanticError::DuplicateName { name: tag("AB"), first: 0, second: 2 }
    );
    assert_eq!(
        schema_of("<S> \"T\" enum { \"a\", \"A\" };").unwrap_err(),
        SemanticError::DuplicateName { name: tag("A"), first: 0, second: 1 }
    );
    assert_eq!(
        schema_of("<S> \"T\" enum { \"a\", \"%\" };").unwrap_err(),
        SemanticError::InvalidIdentifier { name: tag("") }
    );
    assert!(schema_of("<S> \"T\" taggedunion { \"A\" int x; \"B\" int x; };").is_ok());
}

#[test]
fn find_duplicate_returns_the_first_repeat() {
    let keys = vec![Some(tag("a")), None, Some(tag("b")), None, Some(tag("b")), Some(tag("a"))];
    assert_eq!(find_duplicate(&keys), Some((2, 4)));
    assert_eq!(find_duplicate(&vec![Some(tag("a")), None, None, Some(tag("b"))]), None);
    assert_eq!(find_duplicate(&vec![]), None);
}
