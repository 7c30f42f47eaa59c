use a2lmacros::codec::{decode_node, encode_node, DecodeError};
use a2lmacros::compiler::compile;
use a2lmacros::resolver::Schema;
use a2lmacros::tree::{Atom, Tree, Value};
use a2lmacros::{decode, encode};

fn raw(s: &str) -> Vec<u8> {
    s.as_bytes().to_vec()
}

fn schema(source: &str) -> Schema {
    compile(&raw(source)).unwrap().schema
}

fn tagged(tag: &str, children: Vec<Tree>) -> Tree {
    Tree::Tagged { tag: raw(tag), children }
}

fn leaf(x: i128) -> Tree {
    Tree::Leaf(Atom::Int(x))
}

fn number(x: i128) -> Value {
    Value::Atom(Atom::Int(x))
}

#[test]
fn repeated_block_decodes_every_child_in_order() {
    let s = schema("<S> block \"TAG\" (char[256] name)*;");
    assert_eq!(decode(&s, &vec![]), Ok(Value::Tagged(vec![vec![]])));
    let text = |t: &str| Tree::Leaf(Atom::Text(raw(t)));
    let tree = vec![
        tagged("TAG", vec![text("first")]),
        tagged("TAG", vec![text("")]),
        tagged("TAG", vec![text("third")]),
    ];
    let value = decode(&s, &tree).unwrap();
    assert_eq!(
        value,
        Value::Tagged(vec![vec![
            Value::Atom(Atom::Text(raw("first"))),
            Value::Atom(Atom::Text(raw(""))),
            Value::Atom(Atom::Text(raw("third"))),
        ]])
    );
    let again = encode(&s, &value).unwrap();
    assert_eq!(again.len(), 3);
    assert_eq!(again, tree);
}

#[test]
fn decoding_is_idempotent_under_a_full_cycle() {
    let s = schema("<S> block \"A\" (int)*; \"B\" (uint)!; \"C\" long;");
    let tree = vec![
        tagged("B", vec![leaf(1)]),
        tagged("A", vec![leaf(2)]),
        tagged("C", vec![leaf(-5)]),
        tagged("A", vec![leaf(3)]),
    ];
    let value = decode(&s, &tree).unwrap();
    assert_eq!(
        value,
        Value::Tagged(vec![vec![number(2), number(3)], vec![number(1)], vec![number(-5)]])
    );
    let canonical = encode(&s, &value).unwrap();
    assert_eq!(
        canonical,
        vec![
            tagged("A", vec![leaf(2)]),
            tagged("A", vec![leaf(3)]),
            tagged("B", vec![leaf(1)]),
            tagged("C", vec![leaf(-5)]),
        ]
    );
    assert_eq!(decode(&s, &canonical), Ok(value));
}

#[test]
fn tagged_union_selects_the_variant_by_its_tag() {
    let s = schema(
        "<S> block \"IF\" taggedunion U { \"X\" int; \"Y\" struct P { int; long; }; \"NONE\"; };",
    );
    let tree = vec![tagged("IF", vec![tagged("Y", vec![leaf(1), leaf(2)])])];
    let value = decode(&s, &tree).unwrap();
    assert_eq!(
        value,
        Value::Tagged(vec![vec![Value::Union {
            variant: 1,
            value: Box::new(Value::List(vec![number(1), number(2)])),
        }]])
    );
    assert_eq!(encode(&s, &value), Some(tree));
    let none = vec![tagged("IF", vec![tagged("NONE", vec![])])];
    assert_eq!(
        decode(&s, &none),
        Ok(Value::Tagged(vec![vec![Value::Union {
            variant: 2,
            value: Box::new(Value::List(vec![])),
        }]]))
    );
    assert_eq!(
        decode(&s, &vec![tagged("IF", vec![tagged("Z", vec![leaf(1)])])]),
        Err(DecodeError::UnexpectedTag { tag: raw("Z") })
    );
    assert_eq!(
        decode(&s, &vec![tagged("IF", vec![])]),
        Err(DecodeError::Structure)
    );
}

#[test]
fn nested_items_are_groups_and_arrays_hold_their_elements() {
    let s = schema("<S> \"T\" struct O { struct I { int; uchar[2]; }; enum E { \"A\", \"B\" }; };");
    let tree = vec![tagged(
        "T",
        vec![
            Tree::Group(vec![leaf(-7), Tree::Group(vec![leaf(1), leaf(255)])]),
            Tree::Leaf(Atom::Item(raw("B"))),
        ],
    )];
    let value = decode(&s, &tree).unwrap();
    assert_eq!(
        value,
        Value::Tagged(vec![vec![Value::List(vec![
            Value::List(vec![number(-7), Value::List(vec![number(1), number(255)])]),
            Value::Enum(1),
        ])]])
    );
    assert_eq!(encode(&s, &value), Some(tree));
}

#[test]
fn floating_point_content_is_carried_as_bits() {
    let s = schema("<S> \"D\" double; \"F\" float;");
    let tree = vec![
        tagged("D", vec![Tree::Leaf(Atom::Double(1.5f64.to_bits()))]),
        tagged("F", vec![Tree::Leaf(Atom::Float(0.25f32.to_bits()))]),
    ];
    let value = decode(&s, &tree).unwrap();
    match &value {
        Value::Tagged(occurrences) => match (&occurrences[0][0], &occurrences[1][0]) {
            (Value::Atom(Atom::Double(d)), Value::Atom(Atom::Float(f))) => {
                assert_eq!(f64::from_bits(*d), 1.5);
                assert_eq!(f32::from_bits(*f), 0.25);
            }
            other => panic!("no floats: {:?}", other),
        },
        other => panic!("no occurrences: {:?}", other),
    }
    assert_eq!(encode(&s, &value), Some(tree));
    assert_eq!(
        decode(&s, &vec![tagged("D", vec![Tree::Leaf(Atom::Float(0))])]),
        Err(DecodeError::TypeMismatch)
    );
}

#[test]
fn scalar_ranges_are_enforced() {
    let cases: [(&str, i128, i128); 8] = [
        ("char", -128, 127),
        ("int", -32768, 32767),
        ("long", -2147483648, 2147483647),
        ("int64", i64::MIN as i128, i64::MAX as i128),
        ("uchar", 0, 255),
        ("uint", 0, 65535),
        ("ulong", 0, 4294967295),
        ("uint64", 0, u64::MAX as i128),
    ];
    for (keyword, low, high) in cases {
        let s = schema(format!("<S> \"T\" ({})!;", keyword).as_str());
        for x in [low, high] {
            assert_eq!(
                decode(&s, &vec![tagged("T", vec![leaf(x)])]),
                Ok(Value::Tagged(vec![vec![number(x)]]))
            );
        }
        for x in [low - 1, high + 1] {
            assert_eq!(
                decode(&s, &vec![tagged("T", vec![leaf(x)])]),
                Err(DecodeError::TypeMismatch)
            );
            assert_eq!(encode(&s, &Value::Tagged(vec![vec![number(x)]])), None);
        }
    }
}

#[test]
fn decode_reports_missing_and_unexpected_tags() {
    let s = schema("<S> \"ONE\" (int)!; \"OPT\" int; \"MANY\" (int)*;");
    assert_eq!(decode(&s, &vec![]), Err(DecodeError::MissingTag { tag: raw("ONE") }));
    assert_eq!(
        decode(&s, &vec![tagged("ONE", vec![leaf(1)]), tagged("ONE", vec![leaf(2)])]),
        Err(DecodeError::UnexpectedTag { tag: raw("ONE") })
    );
    assert_eq!(
        decode(
            &s,
            &vec![
                tagged("ONE", vec![leaf(1)]),
                tagged("OPT", vec![leaf(2)]),
                tagged("OPT", vec![leaf(3)]),
            ]
        ),
        Err(DecodeError::UnexpectedTag { tag: raw("OPT") })
    );
    assert_eq!(
        decode(&s, &vec![tagged("ONE", vec![leaf(1)]), tagged("OTHER", vec![])]),
        Err(DecodeError::UnexpectedTag { tag: raw("OTHER") })
    );
    assert_eq!(
        decode(&s, &vec![tagged("ONE", vec![leaf(1)])]),
        Ok(Value::Tagged(vec![vec![number(1)], vec![], vec![]]))
    );
}

#[test]
fn decode_reports_mismatched_content_and_structure() {
    let s = schema("<S> \"T\" struct P { char[4]; enum E { \"A\" }; int[2]; };");
    let build = |text: &str, item: Tree, elements: Vec<Tree>| {
        vec![tagged("T", vec![Tree::Leaf(Atom::Text(raw(text))), item, Tree::Group(elements)])]
    };
    let item = || Tree::Leaf(Atom::Item(raw("A")));
    assert!(decode(&s, &build("abcd", item(), vec![leaf(1), leaf(2)])).is_ok());
    assert_eq!(
        decode(&s, &build("abcde", item(), vec![leaf(1), leaf(2)])),
        Err(DecodeError::TypeMismatch)
    );
    assert_eq!(
        decode(&s, &build("ab", Tree::Leaf(Atom::Item(raw("B"))), vec![leaf(1), leaf(2)])),
        Err(DecodeError::TypeMismatch)
    );
    assert_eq!(
        decode(&s, &build("ab", leaf(0), vec![leaf(1), leaf(2)])),
        Err(DecodeError::TypeMismatch)
    );
    assert_eq!(decode(&s, &build("ab", item(), vec![leaf(1)])), Err(DecodeError::Structure));
    assert_eq!(
        decode(&s, &build("ab", Tree::Group(vec![]), vec![leaf(1), leaf(2)])),
        Err(DecodeError::Structure)
    );
    assert_eq!(
        decode(&s, &vec![tagged("T", vec![Tree::Leaf(Atom::Text(raw("ab"))), item()])]),
        Err(DecodeError::Structure)
    );
    assert_eq!(decode(&s, &vec![leaf(1)]), Err(DecodeError::Structure));
    assert_eq!(decode(&s, &vec![Tree::Group(vec![])]), Err(DecodeError::Structure));
}

#[test]
fn encode_refuses_what_is_no_value_of_the_schema() {
    let s = schema("<S> \"U\" (taggedunion U { \"X\" int; })!; \"E\" enum E { \"A\", \"B\" };");
    let union = |variant: usize, value: Value| Value::Union { variant, value: Box::new(value) };
    let ok = Value::Tagged(vec![vec![union(0, number(3))], vec![Value::Enum(1)]]);
    assert_eq!(
        encode(&s, &ok),
        Some(vec![
            tagged("U", vec![tagged("X", vec![leaf(3)])]),
            tagged("E", vec![Tree::Leaf(Atom::Item(raw("B")))]),
        ])
    );
    assert_eq!(encode(&s, &Value::Tagged(vec![vec![], vec![]])), None);
    assert_eq!(encode(&s, &Value::Tagged(vec![vec![union(1, number(3))], vec![]])), None);
    assert_eq!(
        encode(&s, &Value::Tagged(vec![vec![union(0, number(3))], vec![Value::Enum(2)]])),
        None
    );
    assert_eq!(encode(&s, &Value::Tagged(vec![vec![union(0, number(3))]])), None);
    assert_eq!(encode(&s, &Value::List(vec![])), None);
    assert_eq!(encode(&s, &number(1)), None);
}

#[test]
fn a_declared_type_decodes_on_its_own() {
    let s = schema("<S> block \"B\" struct Pair { int; int; };");
    let pair = s.lookup(&raw("Pair")).unwrap();
    let value = decode_node(pair, &vec![leaf(1), leaf(2)]).unwrap();
    assert_eq!(value, Value::List(vec![number(1), number(2)]));
    assert_eq!(encode_node(pair, &value), Some(vec![leaf(1), leaf(2)]));
}

#[test]
fn repeated_variant_of_a_union_holds_every_occurrence() {
    let s = schema("<S> block \"IF\" taggedunion U { \"X\" int; block \"SEQ\" (char[8] name)*; };");
    let text = |t: &str| Tree::Leaf(Atom::Text(raw(t)));
    let tree = vec![tagged(
        "IF",
        vec![tagged("SEQ", vec![text("a")]), tagged("SEQ", vec![text("b")])],
    )];
    let value = decode(&s, &tree).unwrap();
    assert_eq!(
        value,
        Value::Tagged(vec![vec![Value::Union {
            variant: 1,
            value: Box::new(Value::List(vec![
                Value::Atom(Atom::Text(raw("a"))),
                Value::Atom(Atom::Text(raw("b"))),
            ])),
        }]])
    );
    assert_eq!(encode(&s, &value), Some(tree));
    assert_eq!(
        decode(&s, &vec![tagged("IF", vec![tagged("SEQ", vec![text("a")]), tagged("X", vec![leaf(1)])])]),
        Err(DecodeError::UnexpectedTag { tag: raw("X") })
    );
    assert_eq!(
        decode(&s, &vec![tagged("IF", vec![tagged("SEQ", vec![text("a")]), leaf(1)])]),
        Err(DecodeError::Structure)
    );
    assert_eq!(
        decode(&s, &vec![tagged("IF", vec![tagged("X", vec![leaf(1)]), tagged("X", vec![leaf(2)])])]),
        Err(DecodeError::Structure)
    );
    let empty = Value::Tagged(vec![vec![Value::Union {
        variant: 1,
        value: Box::new(Value::List(vec![])),
    }]]);
    assert_eq!(encode(&s, &empty), None);
}
