//! Tokens that a host hands over: the literals of the host language, and
//! documentation comments in the form of attributes, `#[doc = "text"]`.

use vstd::prelude::*;
use crate::token::{
    decimal, lemma_run_len, lemma_tokens_push, read_number, run_len, scan, copy_range, tokens_model,
    Class, Token, TokenModel,
};

verus! {

/// The token of the text of a literal: of a string in double quotes, plain
/// or raw without hashes, the text between the quotes; of a run of digits
/// that writes a 64-bit number, that number; of anything else, none.
pub open spec fn literal_model(text: Seq<u8>) -> Option<TokenModel> {
    if text.len() >= 2 && text[0] == 34 && text.last() == 34 {
        Some(TokenModel::Str(text.subrange(1, text.len() - 1)))
    } else if text.len() >= 3 && text[0] == 114 && text[1] == 34 && text.last() == 34 {
        Some(TokenModel::Str(text.subrange(2, text.len() - 1)))
    } else if text.len() >= 1 && run_len(text, Class::Digit) == text.len() && decimal(text)
        <= u64::MAX {
        Some(TokenModel::Num(decimal(text) as u64))
    } else {
        None
    }
}

/// The model of a token that may be there.
pub open spec fn token_option(r: Option<Token>) -> Option<TokenModel> {
    match r {
        Some(t) => Some(t@),
        None => None,
    }
}

/// The token of the text of a literal of the host language.
pub fn literal(text: &Vec<u8>) -> (r: Option<Token>)
    ensures
        token_option(r) == literal_model(text@),
{
    let n = text.len();
    if n >= 2 && text[0] == 34 && text[n - 1] == 34 {
        return Some(Token::Str(copy_range(text, 1, n - 1)));
    }
    if n >= 3 && text[0] == 114 && text[1] == 34 && text[n - 1] == 34 {
        return Some(Token::Str(copy_range(text, 2, n - 1)));
    }
    if n == 0 {
        return None;
    }
    let end = scan(text, 0, Class::Digit);
    assert(text@.skip(0) =~= text@);
    if end != n {
        return None;
    }
    proof {
        lemma_run_len(text@, Class::Digit);
        assert(text@.subrange(0, n as int) =~= text@);
    }
    match read_number(text, 0, n) {
        Some(v) => Some(Token::Num(v)),
        None => None,
    }
}

/// The bytes of `doc`.
pub open spec fn doc_word() -> Seq<u8> {
    seq![100u8, 111u8, 99u8]
}

/// The text of the documentation attribute that starts at index `k`:
/// `#`, `[`, `doc`, `=`, a string and `]`.
pub open spec fn doc_attribute(ts: Seq<TokenModel>, k: int) -> Option<Seq<u8>> {
    if 0 <= k && k + 6 <= ts.len() && ts[k] == TokenModel::Punct(35) && ts[k + 1]
        == TokenModel::Punct(91) && ts[k + 2] == TokenModel::Ident(doc_word()) && ts[k + 3]
        == TokenModel::Punct(61) && ts[k + 4] is Str && ts[k + 5] == TokenModel::Punct(93) {
        Some(ts[k + 4]->Str_0)
    } else {
        None
    }
}

/// The tokens from index `k` on, with a documentation token in place of
/// every documentation attribute.
pub open spec fn folded(ts: Seq<TokenModel>, k: int) -> Seq<TokenModel>
    decreases ts.len() - k,
{
    if k < 0 || k >= ts.len() {
        Seq::empty()
    } else {
        match doc_attribute(ts, k) {
            Some(doc) => seq![TokenModel::Doc(doc)] + folded(ts, k + 6),
            None => seq![ts[k]] + folded(ts, k + 1),
        }
    }
}

fn is_punct_token(t: &Token, b: u8) -> (r: bool)
    ensures
        r == (t@ == TokenModel::Punct(b)),
{
    match t {
        Token::Punct(c) => *c == b,
        _ => false,
    }
}

fn is_doc_word(t: &Token) -> (r: bool)
    ensures
        r == (t@ == TokenModel::Ident(doc_word())),
{
    match t {
        Token::Ident(s) => {
            let r = s.len() == 3 && s[0] == 100 && s[1] == 111 && s[2] == 99;
            assert(r == (s@ =~= doc_word()));
            r
        },
        _ => false,
    }
}

/// A copy of a token.
pub fn clone_token(t: &Token) -> (r: Token)
    ensures
        r@ == t@,
{
    match t {
        Token::Ident(s) => Token::Ident(s.clone()),
        Token::Str(s) => Token::Str(s.clone()),
        Token::Num(n) => Token::Num(*n),
        Token::Punct(b) => Token::Punct(*b),
        Token::Doc(s) => Token::Doc(s.clone()),
    }
}

/// Puts a documentation token in place of every documentation attribute.
pub fn fold_documentation(tokens: &Vec<Token>) -> (r: Vec<Token>)
    ensures
        tokens_model(r@) == folded(tokens_model(tokens@), 0),
{
    let ghost tm = tokens_model(tokens@);
    let mut out: Vec<Token> = Vec::new();
    let mut k: usize = 0;
    assert(tokens_model(out@) + folded(tm, 0) =~= folded(tm, 0));
    while k < tokens.len()
        invariant
            k <= tokens.len(),
            tm == tokens_model(tokens@),
            tokens_model(out@) + folded(tm, k as int) == folded(tm, 0),
        decreases tokens.len() - k,
    {
        let ghost before = tokens_model(out@);
        let found = tokens.len() - k >= 6 && is_punct_token(&tokens[k], 35) && is_punct_token(
            &tokens[k + 1],
            91,
        ) && is_doc_word(&tokens[k + 2]) && is_punct_token(&tokens[k + 3], 61) && is_punct_token(
            &tokens[k + 5],
            93,
        );
        let doc = if found {
            match &tokens[k + 4] {
                Token::Str(s) => Some(s.clone()),
                _ => None,
            }
        } else {
            None
        };
        match doc {
            Some(text) => {
                let t = Token::Doc(text);
                proof {
                    lemma_tokens_push(out@, t);
                    assert(before.push(t@) + folded(tm, k + 6) =~= before + (seq![t@] + folded(
                        tm,
                        k + 6,
                    )));
                }
                out.push(t);
                k += 6;
            },
            None => {
                let t = clone_token(&tokens[k]);
                proof {
                    lemma_tokens_push(out@, t);
                    assert(before.push(t@) + folded(tm, k + 1) =~= before + (seq![t@] + folded(
                        tm,
                        k + 1,
                    )));
                }
                out.push(t);
                k += 1;
            },
        }
    }
    assert(tokens_model(out@) + Seq::<TokenModel>::empty() =~= tokens_model(out@));
    out
}

} // verus!
