use a2lmacros::ast::{Member, Multiplicity, Node, Scalar, Tagged};
use a2lmacros::compiler::{
    a2ml_specification, compile, compile_tokens, constant_name, read_plain, CompileError,
};
use a2lmacros::stream::{cook, read_stream, RawToken};
use a2lmacros::token::{LexError, LexFault, Token};
use a2lmacros::tree::{Atom, Tree, Value};
use a2lmacros::typedefs::{Field, TypeDef, TypeRef, Variant};
use a2lmacros::{decode, encode};

fn text(s: &str) -> Vec<u8> {
    s.as_bytes().to_vec()
}

const IF_DATA: &str = r#"
        <A2mlTest>
        block "IF_DATA" taggedunion if_data {
            "CHAR" char a;
            "INT" int b;
            "LONG" long c;
            "INT64" int64 d;
            "UCHAR" uchar e;
            "UINT" uint64 f;
            "ULONG" ulong g;
            "UINT64" uint64 h;
            "DOUBLE" double i;
            "STRUCT" struct structname {
                char[256];
                int;
            };
            block "BLOCK" taggedstruct tagged_struct {
                "TAG1" int intval;
            };
            "ENUM" enum EnumTest {
                "ENUMVAL1" = 1,
                "ENUMVAL2"
            } named_enum;
            "ARRAY" int arr[3];
            block "SEQUENCE" (char[256] name)*;
            "NONE";
        };
"#;

fn stream(source: &str) -> proc_macro2::TokenStream {
    source.parse().unwrap()
}

#[test]
fn test_a2ml_specification() {
    let input = stream(IF_DATA);
    let output = a2ml_specification(input);
    println!("{:#?}", output);
    assert!(output.is_ok());
}

#[test]
fn tokens_of_a_stream_compile_like_the_text() {
    let from_stream = a2ml_specification(stream(IF_DATA)).unwrap();
    let from_text = compile(&text(IF_DATA)).unwrap();
    assert_eq!(from_stream.types, from_text.types);
    assert_eq!(from_stream.text, from_text.text);
    assert_eq!(from_stream.schema.root(), from_text.schema.root());
}

#[test]
fn documentation_attributes_of_a_stream_are_documentation() {
    let source = "<D> block \"B\" struct S { uint month; /// the month\n uint day; };";
    let mut raws = Vec::new();
    read_stream(&stream(source), &mut raws);
    assert!(raws.contains(&RawToken::Punct(b'#')));
    let artifact = a2ml_specification(stream(source)).unwrap();
    match &artifact.types[1] {
        TypeDef::Product { fields, .. } => {
            assert_eq!(fields[0].doc, Some(text(" the month")));
            assert_eq!(fields[1].doc, None);
        }
        other => panic!("not a product type: {:?}", other),
    }
    assert_eq!(artifact.text, compile(&text(source)).unwrap().text);
}

#[test]
fn if_data_specification_generates_its_types_and_text() {
    let artifact = compile(&text(IF_DATA)).unwrap();
    assert_eq!(artifact.text_name, text("A2MLTEST_TEXT"));
    assert_eq!(
        artifact.text,
        text(concat_lines(&[
            "block \"IF_DATA\" taggedunion { \"CHAR\" char; \"INT\" int; \"LONG\" long;",
            "\"INT64\" int64; \"UCHAR\" uchar; \"UINT\" uint64; \"ULONG\" ulong;",
            "\"UINT64\" uint64; \"DOUBLE\" double; \"STRUCT\" struct { char[256]; int; };",
            "block \"BLOCK\" taggedstruct { \"TAG1\" int; };",
            "\"ENUM\" enum { \"ENUMVAL1\" = 1, \"ENUMVAL2\" = 2 }; \"ARRAY\" int[3];",
            "block \"SEQUENCE\" (char[256])*; \"NONE\"; };",
        ])
        .as_str())
    );
    let names: Vec<Vec<u8>> = artifact
        .types
        .iter()
        .map(|d| match d {
            TypeDef::Product { name, .. } => name.clone(),
            TypeDef::Sum { name, .. } => name.clone(),
        })
        .collect();
    assert_eq!(
        names,
        vec![
            text("A2mlTest"),
            text("if_data"),
            text("structname"),
            text("tagged_struct"),
            text("EnumTest"),
            text("None"),
        ]
    );
    assert_eq!(
        artifact.types[4],
        TypeDef::Sum {
            name: text("EnumTest"),
            variants: vec![
                Variant {
                    name: text("Enumval1"),
                    tag: text("ENUMVAL1"),
                    payload: None,
                    discriminant: Some(1),
                },
                Variant {
                    name: text("Enumval2"),
                    tag: text("ENUMVAL2"),
                    payload: None,
                    discriminant: Some(2),
                },
            ],
        }
    );
}

fn concat_lines(lines: &[&str]) -> String {
    lines.join(" ")
}

#[test]
fn end_to_end_struct_block() {
    let artifact = compile(&text("<Spec> block \"TAG1\" struct S { uint a; uint b; };")).unwrap();
    assert_eq!(
        artifact.types,
        vec![
            TypeDef::Product {
                name: text("Spec"),
                fields: vec![Field {
                    name: text("tag1"),
                    tag: Some(text("TAG1")),
                    multiplicity: Multiplicity::Optional,
                    ty: TypeRef::Named(text("S")),
                    doc: None,
                }],
            },
            TypeDef::Product {
                name: text("S"),
                fields: vec![
                    Field {
                        name: text("a"),
                        tag: None,
                        multiplicity: Multiplicity::One,
                        ty: TypeRef::Scalar(Scalar::UInt),
                        doc: None,
                    },
                    Field {
                        name: text("b"),
                        tag: None,
                        multiplicity: Multiplicity::One,
                        ty: TypeRef::Scalar(Scalar::UInt),
                        doc: None,
                    },
                ],
            },
        ]
    );
    let tree = vec![Tree::Tagged {
        tag: text("TAG1"),
        children: vec![Tree::Leaf(Atom::Int(5)), Tree::Leaf(Atom::Int(7))],
    }];
    let value = decode(&artifact.schema, &tree).unwrap();
    assert_eq!(
        value,
        Value::Tagged(vec![vec![Value::List(vec![
            Value::Atom(Atom::Int(5)),
            Value::Atom(Atom::Int(7)),
        ])]])
    );
    assert_eq!(encode(&artifact.schema, &value), Some(tree));
    assert_eq!(artifact.text, text("block \"TAG1\" struct { uint; uint; };"));
    assert_eq!(artifact.text_name, text("SPEC_TEXT"));
}

#[test]
fn canonical_text_reads_back_without_names_and_documentation() {
    let source = "<Spec> block \"TAG1\" struct S { uint a; /// the first\n uint b; } both;";
    let artifact = compile(&text(source)).unwrap();
    let uint = || Member { item: Node::Scalar(Scalar::UInt), name: None, doc: None };
    assert_eq!(
        read_plain(&artifact.text),
        Ok(vec![Tagged {
            tag: text("TAG1"),
            block: true,
            multiplicity: Multiplicity::Optional,
            member: Member {
                item: Node::Struct { name: None, members: vec![uint(), uint()] },
                name: None,
                doc: None,
            },
        }])
    );
}

#[test]
fn canonical_text_keeps_multiplicities_sizes_and_values() {
    let source = concat_lines(&[
        "<M> block \"TS\" taggedstruct Ts {",
        "  \"ONE\" (int x)!; \"OPT\" long y; \"MANY\" (uchar z[2][3])*;",
        "  block \"E\" (enum Kind { \"A\" = -4, \"B\", \"C\" = 10 })!;",
        "};",
    ]);
    let artifact = compile(&text(source.as_str())).unwrap();
    assert_eq!(
        artifact.text,
        text(concat_lines(&[
            "block \"TS\" taggedstruct { \"ONE\" (int)!; \"OPT\" long; \"MANY\" (uchar[2][3])*;",
            "block \"E\" (enum { \"A\" = -4, \"B\" = -3, \"C\" = 10 })!; };",
        ])
        .as_str())
    );
    let again = read_plain(&artifact.text).unwrap();
    let entries = match &again[0].member.item {
        Node::TaggedStruct { entries, .. } => entries,
        other => panic!("not a tagged struct: {:?}", other),
    };
    let multiplicities: Vec<Multiplicity> = entries.iter().map(|e| e.multiplicity).collect();
    assert_eq!(
        multiplicities,
        vec![
            Multiplicity::One,
            Multiplicity::Optional,
            Multiplicity::Repeated,
            Multiplicity::One,
        ]
    );
    assert_eq!(
        entries[2].member.item,
        Node::Array {
            element: Box::new(Node::Array {
                element: Box::new(Node::Scalar(Scalar::UChar)),
                size: 2,
            }),
            size: 3,
        }
    );
}

#[test]
fn constant_name_is_upper_case_with_suffix() {
    assert_eq!(constant_name(&text("MyA2mlSpec")), text("MYA2MLSPEC_TEXT"));
    assert_eq!(constant_name(&text("x_9z")), text("X_9Z_TEXT"));
    assert_eq!(constant_name(&text("")), text("_TEXT"));
}

#[test]
fn compile_reports_the_stage_that_failed() {
    assert_eq!(
        compile(&text("<S> block \"B\" int; @")).unwrap_err(),
        CompileError::Lex(LexError { offset: 19, fault: LexFault::UnexpectedByte })
    );
    assert!(matches!(compile(&text("<S> block int;")), Err(CompileError::Syntax(_))));
    assert!(matches!(
        compile(&text("<S> block \"B\" int; block \"B\" int;")),
        Err(CompileError::Semantic(_))
    ));
}

#[test]
fn member_documentation_reaches_the_type_definition() {
    let source = "<D> block \"B\" struct S { uint month; /// the month\n uint day; /// the day\n };";
    let artifact = compile(&text(source)).unwrap();
    match &artifact.types[1] {
        TypeDef::Product { fields, .. } => {
            assert_eq!(fields[0].doc, Some(text(" the month")));
            assert_eq!(fields[1].doc, Some(text(" the day")));
        }
        other => panic!("not a product type: {:?}", other),
    }
}

#[test]
fn anonymous_members_get_names_from_their_tags() {
    let source = "<N> block \"SOME-TAG\" struct { uint; uint second; struct Inner { int; }; }; \"1MS\" enum { \"2ND\", \"x_y\" };";
    let artifact = compile(&text(source)).unwrap();
    let fields = |index: usize| match &artifact.types[index] {
        TypeDef::Product { fields, .. } => fields.iter().map(|f| f.name.clone()).collect::<Vec<_>>(),
        other => panic!("not a product type: {:?}", other),
    };
    assert_eq!(fields(0), vec![text("some_tag"), text("_1ms")]);
    assert_eq!(fields(1), vec![text("some_tag_1"), text("second"), text("some_tag_3")]);
    assert_eq!(fields(2), vec![text("some_tag_1")]);
    match &artifact.types[3] {
        TypeDef::Sum { name, variants } => {
            assert_eq!(name, &text("_1ms"));
            let names: Vec<Vec<u8>> = variants.iter().map(|v| v.name.clone()).collect();
            assert_eq!(names, vec![text("_2nd"), text("XY")]);
        }
        other => panic!("not a sum type: {:?}", other),
    }
}

#[test]
fn empty_struct_is_written_without_an_item_where_it_is_optional() {
    let source = "<U> \"A\"; block \"B\"; \"C\" (struct { })!; \"D\" (struct N { })*; \"E\" struct M { };";
    let artifact = compile(&text(source)).unwrap();
    assert_eq!(
        artifact.text,
        text("\"A\"; block \"B\"; \"C\" (struct { })!; \"D\" (struct { })*; \"E\";")
    );
    let again = read_plain(&artifact.text).unwrap();
    assert_eq!(again.len(), 5);
    for tagged in &again {
        assert_eq!(tagged.member.item, Node::Struct { name: None, members: vec![] });
    }
}

#[test]
fn stream_is_read_with_its_groups_as_delimiters() {
    let mut raws = Vec::new();
    read_stream(&stream("<S> block \"T\" (int x[3])* { };"), &mut raws);
    let ident = |s: &str| RawToken::Ident(text(s));
    let punct = |b: u8| RawToken::Punct(b);
    assert_eq!(
        raws,
        vec![
            punct(b'<'),
            ident("S"),
            punct(b'>'),
            ident("block"),
            RawToken::Literal(text("\"T\"")),
            punct(b'('),
            ident("int"),
            ident("x"),
            punct(b'['),
            RawToken::Literal(text("3")),
            punct(b']'),
            punct(b')'),
            punct(b'*'),
            punct(b'{'),
            punct(b'}'),
            punct(b';'),
        ]
    );
    assert_eq!(
        cook(&raws),
        Ok(vec![
            Token::Punct(b'<'),
            Token::Ident(text("S")),
            Token::Punct(b'>'),
            Token::Ident(text("block")),
            Token::Str(text("T")),
            Token::Punct(b'('),
            Token::Ident(text("int")),
            Token::Ident(text("x")),
            Token::Punct(b'['),
            Token::Num(3),
            Token::Punct(b']'),
            Token::Punct(b')'),
            Token::Punct(b'*'),
            Token::Punct(b'{'),
            Token::Punct(b'}'),
            Token::Punct(b';'),
        ])
    );
    let mut appended = vec![punct(b'!')];
    read_stream(&stream(""), &mut appended);
    read_stream(&stream("a"), &mut appended);
    assert_eq!(appended, vec![punct(b'!'), ident("a")]);
}

#[test]
fn invisible_group_holds_its_content_only() {
    let inner = stream("\"T\" int");
    let group = proc_macro2::Group::new(proc_macro2::Delimiter::None, inner);
    let mut all = stream("<S>");
    all.extend(std::iter::once(proc_macro2::TokenTree::Group(group)));
    all.extend(stream(";"));
    let artifact = a2ml_specification(all).unwrap();
    assert_eq!(artifact.text, text("\"T\" int;"));
}

#[test]
fn literal_that_is_no_string_and_no_number_is_refused() {
    assert_eq!(
        a2ml_specification(stream("<S> \"T\" int[1.5];")).unwrap_err(),
        CompileError::Literal { at: 6 }
    );
    assert_eq!(
        a2ml_specification(stream("<S> 'c' int;")).unwrap_err(),
        CompileError::Literal { at: 3 }
    );
    assert_eq!(cook(&vec![RawToken::Literal(text("12u8"))]), Err(0));
}

#[test]
fn tokens_compile_like_their_text() {
    let tokens = a2lmacros::tokenize(&text(IF_DATA)).unwrap();
    assert_eq!(compile_tokens(&tokens).unwrap().text, compile(&text(IF_DATA)).unwrap().text);
    assert!(matches!(compile_tokens(&vec![]), Err(CompileError::Syntax(_))));
}
