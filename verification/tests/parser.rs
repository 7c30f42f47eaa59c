use a2lmacros::ast::{Enumerator, Member, Multiplicity, Node, Scalar, Specification, Tagged};
use a2lmacros::grammar::{Expected, SyntaxError};
use a2lmacros::parser::{parse_declarations, parse_specification};
use a2lmacros::token::tokenize;

fn name(s: &str) -> Vec<u8> {
    s.as_bytes().to_vec()
}

fn parse(source: &str) -> Result<Specification, SyntaxError> {
    parse_specification(&tokenize(&name(source)).unwrap())
}

fn failure(source: &str) -> (usize, Expected) {
    let e = parse(source).unwrap_err();
    (e.at, e.expected)
}

fn scalar(kind: Scalar, label: Option<&str>) -> Member {
    Member { item: Node::Scalar(kind), name: label.map(name), doc: None }
}

#[test]
fn parse_struct_block_with_names() {
    assert_eq!(
        parse("<Spec> block \"TAG1\" struct S { uint a; uint b; } both;"),
        Ok(Specification {
            name: name("Spec"),
            blocks: vec![Tagged {
                tag: name("TAG1"),
                block: true,
                multiplicity: Multiplicity::Optional,
                member: Member {
                    item: Node::Struct {
                        name: Some(name("S")),
                        members: vec![
                            scalar(Scalar::UInt, Some("a")),
                            scalar(Scalar::UInt, Some("b")),
                        ],
                    },
                    name: Some(name("both")),
                    doc: None,
                },
            }],
        })
    );
}

#[test]
fn parse_header_alone_has_no_blocks() {
    assert_eq!(parse("<Empty>"), Ok(Specification { name: name("Empty"), blocks: vec![] }));
}

#[test]
fn parse_every_scalar_keyword() {
    let spec = parse(
        "<K> \"S\" struct { char; int; long; int64; uchar; uint; ulong; uint64; double; float; };",
    )
    .unwrap();
    let kinds = [
        Scalar::Char,
        Scalar::Int,
        Scalar::Long,
        Scalar::Int64,
        Scalar::UChar,
        Scalar::UInt,
        Scalar::ULong,
        Scalar::UInt64,
        Scalar::Double,
        Scalar::Float,
    ];
    let expected: Vec<Member> = kinds.iter().map(|k| scalar(*k, None)).collect();
    assert_eq!(spec.blocks[0].member.item, Node::Struct { name: None, members: expected });
    assert!(!spec.blocks[0].block);
}

#[test]
fn parse_sizes_before_and_after_the_name() {
    let spec = parse("<A> \"T\" struct { char[256]; char text[8][2]; int[4] grid[5]; };").unwrap();
    let members = match &spec.blocks[0].member.item {
        Node::Struct { members, .. } => members,
        other => panic!("not a struct: {:?}", other),
    };
    assert_eq!(members[0].item, Node::CharArray { size: 256 });
    assert_eq!(
        members[1],
        Member {
            item: Node::Array { element: Box::new(Node::CharArray { size: 8 }), size: 2 },
            name: Some(name("text")),
            doc: None,
        }
    );
    assert_eq!(
        members[2].item,
        Node::Array {
            element: Box::new(Node::Array { element: Box::new(Node::Scalar(Scalar::Int)), size: 4 }),
            size: 5,
        }
    );
}

#[test]
fn parse_markers_and_the_empty_member() {
    let spec = parse("<M> \"ONE\" (int)!; \"OPT\" int; block \"MANY\" (int v)*; \"NONE\";").unwrap();
    let seen: Vec<(bool, Multiplicity)> =
        spec.blocks.iter().map(|t| (t.block, t.multiplicity)).collect();
    assert_eq!(
        seen,
        vec![
            (false, Multiplicity::One),
            (false, Multiplicity::Optional),
            (true, Multiplicity::Repeated),
            (false, Multiplicity::Optional),
        ]
    );
    assert_eq!(spec.blocks[2].member.name, Some(name("v")));
    assert_eq!(
        spec.blocks[3].member,
        Member { item: Node::Struct { name: None, members: vec![] }, name: None, doc: None }
    );
}

#[test]
fn parse_enumerators_with_and_without_values() {
    let spec = parse(
        "<E> \"E\" enum Kind { \"A\", \"B\" = 5, \"C\" = -9223372036854775808, \"D\" = 9223372036854775807 };",
    )
    .unwrap();
    assert_eq!(
        spec.blocks[0].member.item,
        Node::Enum {
            name: Some(name("Kind")),
            enumerators: vec![
                Enumerator { tag: name("A"), value: None },
                Enumerator { tag: name("B"), value: Some(5) },
                Enumerator { tag: name("C"), value: Some(i64::MIN) },
                Enumerator { tag: name("D"), value: Some(i64::MAX) },
            ],
        }
    );
    let empty = parse("<E> \"E\" enum { };").unwrap();
    assert_eq!(empty.blocks[0].member.item, Node::Enum { name: None, enumerators: vec![] });
}

#[test]
fn parse_attaches_documentation_to_the_declaration_before_it() {
    let spec = parse(
        "<D> block \"B\" struct S { uint month; /// the month\n uint day; }; /// the block\n \"T\" int;",
    )
    .unwrap();
    assert_eq!(spec.blocks[0].member.doc, Some(name(" the block")));
    assert_eq!(spec.blocks[1].member.doc, None);
    match &spec.blocks[0].member.item {
        Node::Struct { members, .. } => {
            assert_eq!(members[0].doc, Some(name(" the month")));
            assert_eq!(members[1].doc, None);
        }
        other => panic!("not a struct: {:?}", other),
    }
}

#[test]
fn parse_plain_declarations_need_no_header() {
    let tokens = tokenize(&name("block \"TAG\" (char[256])*;")).unwrap();
    assert_eq!(
        parse_declarations(&tokens),
        Ok(vec![Tagged {
            tag: name("TAG"),
            block: true,
            multiplicity: Multiplicity::Repeated,
            member: Member { item: Node::CharArray { size: 256 }, name: None, doc: None },
        }])
    );
    assert_eq!(parse_declarations(&vec![]), Ok(vec![]));
}

#[test]
fn syntax_error_names_the_punctuation_it_misses() {
    assert_eq!(failure(""), (0, Expected::Punct(b'<')));
    assert_eq!(failure("<S"), (2, Expected::Punct(b'>')));
    assert_eq!(failure("<S> \"T\" int"), (5, Expected::Punct(b';')));
    assert_eq!(failure("<S> \"T\" struct S int; };"), (6, Expected::Punct(b'{')));
    assert_eq!(failure("<S> \"T\" int[3;"), (7, Expected::Punct(b']')));
    assert_eq!(failure("<S> \"T\" (int;"), (6, Expected::Punct(b')')));
    assert_eq!(failure("<S> \"T\" enum { \"A\" \"B\" };"), (7, Expected::Punct(b'}')));
    assert_eq!(failure("<S> \"T\" struct { int;"), (8, Expected::Type));
}

#[test]
fn syntax_error_names_the_construct_it_misses() {
    assert_eq!(failure("< \"x\" >"), (1, Expected::Name));
    assert_eq!(failure("<S> block 5;"), (4, Expected::Tag));
    assert_eq!(failure("<S> int;"), (3, Expected::Tag));
    assert_eq!(failure("<S> \"T\" struct { 5; };"), (6, Expected::Type));
    assert_eq!(failure("<S> \"T\" block;"), (4, Expected::Type));
    assert_eq!(failure("<S> \"T\" int[x];"), (6, Expected::Number));
    assert_eq!(failure("<S> \"T\" enum { \"A\" = };"), (8, Expected::Number));
    assert_eq!(failure("<S> \"T\" enum { \"A\" = 9223372036854775808 };"), (8, Expected::Value));
    assert_eq!(failure("<S> \"T\" enum { \"A\" = -9223372036854775809 };"), (9, Expected::Value));
    assert_eq!(failure("<S> \"T\" enum { \"A\", };"), (8, Expected::Tag));
    assert_eq!(failure("<S> \"T\" (int);"), (7, Expected::Marker));
}
