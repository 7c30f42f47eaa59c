use a2lmacros::host::{fold_documentation, literal};
use a2lmacros::render::write_tokens;
use a2lmacros::token::{token_offsets, tokenize, LexError, LexFault, Token};

fn bytes(s: &str) -> Vec<u8> {
    s.as_bytes().to_vec()
}

#[test]
fn tokenize_reads_every_kind_of_token() {
    let tokens = tokenize(&bytes("<Name> block \"TAG 1\" int x_1[256]; // note\n/// doc\n(=*!-,{})"));
    assert_eq!(
        tokens,
        Ok(vec![
            Token::Punct(b'<'),
            Token::Ident(bytes("Name")),
            Token::Punct(b'>'),
            Token::Ident(bytes("block")),
            Token::Str(bytes("TAG 1")),
            Token::Ident(bytes("int")),
            Token::Ident(bytes("x_1")),
            Token::Punct(b'['),
            Token::Num(256),
            Token::Punct(b']'),
            Token::Punct(b';'),
            Token::Doc(bytes(" doc")),
            Token::Punct(b'('),
            Token::Punct(b'='),
            Token::Punct(b'*'),
            Token::Punct(b'!'),
            Token::Punct(b'-'),
            Token::Punct(b','),
            Token::Punct(b'{'),
            Token::Punct(b'}'),
            Token::Punct(b')'),
        ])
    );
}

#[test]
fn tokenize_of_empty_and_blank_text_is_empty() {
    assert_eq!(tokenize(&bytes("")), Ok(vec![]));
    assert_eq!(tokenize(&bytes(" \t\r\n // only a comment")), Ok(vec![]));
}

#[test]
fn tokenize_reads_the_largest_number_and_refuses_the_next() {
    assert_eq!(tokenize(&bytes("18446744073709551615")), Ok(vec![Token::Num(u64::MAX)]));
    assert_eq!(tokenize(&bytes("007")), Ok(vec![Token::Num(7)]));
    assert_eq!(
        tokenize(&bytes("  18446744073709551616")),
        Err(LexError { offset: 2, fault: LexFault::NumberTooLarge })
    );
}

#[test]
fn tokenize_refuses_an_open_string() {
    assert_eq!(
        tokenize(&bytes("int \"abc")),
        Err(LexError { offset: 4, fault: LexFault::UnterminatedString })
    );
}

#[test]
fn tokenize_refuses_a_foreign_byte_and_a_single_slash() {
    assert_eq!(
        tokenize(&bytes("int @")),
        Err(LexError { offset: 4, fault: LexFault::UnexpectedByte })
    );
    assert_eq!(tokenize(&bytes("/ x")), Err(LexError { offset: 0, fault: LexFault::UnexpectedByte }));
    assert_eq!(tokenize(&bytes("/")), Err(LexError { offset: 0, fault: LexFault::UnexpectedByte }));
}

#[test]
fn documentation_comment_runs_to_the_end_of_the_line() {
    assert_eq!(
        tokenize(&bytes("///a b\nint///\n///last")),
        Ok(vec![
            Token::Doc(bytes("a b")),
            Token::Ident(bytes("int")),
            Token::Doc(bytes("")),
            Token::Doc(bytes("last")),
        ])
    );
}

#[test]
fn written_tokens_are_read_back() {
    let tokens = vec![
        Token::Ident(bytes("block")),
        Token::Str(bytes("TAG")),
        Token::Punct(b'('),
        Token::Ident(bytes("char")),
        Token::Punct(b'['),
        Token::Num(256),
        Token::Punct(b']'),
        Token::Punct(b')'),
        Token::Punct(b'*'),
        Token::Punct(b';'),
        Token::Str(bytes("E")),
        Token::Punct(b'='),
        Token::Punct(b'-'),
        Token::Num(0),
        Token::Num(12),
        Token::Ident(bytes("a")),
        Token::Ident(bytes("b")),
    ];
    let written = write_tokens(&tokens);
    assert_eq!(written, bytes("block \"TAG\" (char[256])*; \"E\" = -0 12 a b"));
    assert_eq!(tokenize(&written), Ok(tokens));
}

#[test]
fn token_offsets_give_the_start_of_every_token() {
    let source = bytes("<S>\n  block \"T\" /// doc\n int[12];");
    let tokens = tokenize(&source).unwrap();
    let offsets = token_offsets(&source);
    assert_eq!(offsets, vec![0, 1, 2, 6, 12, 16, 25, 28, 29, 31, 32]);
    assert_eq!(offsets.len(), tokens.len());
    assert_eq!(token_offsets(&bytes("int @ long")), vec![0]);
    assert_eq!(token_offsets(&bytes("")), Vec::<usize>::new());
}

#[test]
fn literal_is_a_string_or_a_number() {
    assert_eq!(literal(&bytes("\"IF_DATA\"")), Some(Token::Str(bytes("IF_DATA"))));
    assert_eq!(literal(&bytes("\"\"")), Some(Token::Str(bytes(""))));
    assert_eq!(literal(&bytes("r\" raw\"")), Some(Token::Str(bytes(" raw"))));
    assert_eq!(literal(&bytes("256")), Some(Token::Num(256)));
    assert_eq!(literal(&bytes("18446744073709551615")), Some(Token::Num(u64::MAX)));
    assert_eq!(literal(&bytes("18446744073709551616")), None);
    assert_eq!(literal(&bytes("1.5")), None);
    assert_eq!(literal(&bytes("12u8")), None);
    assert_eq!(literal(&bytes("'c'")), None);
    assert_eq!(literal(&bytes("\"")), None);
    assert_eq!(literal(&bytes("")), None);
}

#[test]
fn documentation_attribute_becomes_a_documentation_token() {
    let attribute = |doc: &str| {
        vec![
            Token::Punct(b'#'),
            Token::Punct(b'['),
            Token::Ident(bytes("doc")),
            Token::Punct(b'='),
            Token::Str(bytes(doc)),
            Token::Punct(b']'),
        ]
    };
    let mut tokens = vec![Token::Ident(bytes("int")), Token::Punct(b';')];
    tokens.extend(attribute(" first"));
    tokens.extend(attribute(""));
    tokens.push(Token::Punct(b'#'));
    tokens.push(Token::Punct(b'['));
    tokens.push(Token::Ident(bytes("docs")));
    assert_eq!(
        fold_documentation(&tokens),
        vec![
            Token::Ident(bytes("int")),
            Token::Punct(b';'),
            Token::Doc(bytes(" first")),
            Token::Doc(bytes("")),
            Token::Punct(b'#'),
            Token::Punct(b'['),
            Token::Ident(bytes("docs")),
        ]
    );
    assert_eq!(fold_documentation(&vec![]), vec![]);
}
