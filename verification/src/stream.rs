//! Token streams of the host: the trees of a `proc_macro2::TokenStream`
//! are read into the tokens of the compiler, every group as its opening
//! delimiter, its content and its closing delimiter.

use vstd::prelude::*;
use proc_macro2::{Delimiter, TokenStream, TokenTree};
use crate::host::{literal, literal_model};
use crate::lists::{lemma_prepend_end, lemma_prepend_start, lemma_prepend_step, prepend};
use crate::token::{lemma_tokens_push, tokens_model, Token, TokenModel};

verus! {

/// `proc_macro2::TokenStream`, of which the verifier knows nothing but
/// what `stream_tokens` and `stream_depth` name.
#[verifier::external_type_specification]
#[verifier::external_body]
pub struct ExTokenStream(proc_macro2::TokenStream);

/// The delimiters of a group.
#[derive(Clone, Copy, Debug, PartialEq, Eq, Structural)]
pub enum Brackets {
    Parenthesis,
    Brace,
    Bracket,
    /// A group without visible delimiters.
    Invisible,
}

/// A token as a stream holds it: a literal is still its text.
#[derive(Debug, PartialEq, Eq)]
pub enum RawToken {
    Ident(Vec<u8>),
    Literal(Vec<u8>),
    Punct(u8),
}

/// The model of a [`RawToken`].
pub enum RawTokenModel {
    Ident(Seq<u8>),
    Literal(Seq<u8>),
    Punct(u8),
}

impl View for RawToken {
    type V = RawTokenModel;

    open spec fn view(&self) -> RawTokenModel {
        match *self {
            RawToken::Ident(s) => RawTokenModel::Ident(s@),
            RawToken::Literal(s) => RawTokenModel::Literal(s@),
            RawToken::Punct(b) => RawTokenModel::Punct(b),
        }
    }
}

/// The models of a list of raw tokens.
pub open spec fn raws_model(rs: Seq<RawToken>) -> Seq<RawTokenModel> {
    Seq::new(rs.len(), |i: int| rs[i]@)
}

/// One tree of a stream: a token, or a group with its content.
#[derive(Debug)]
pub enum Piece {
    Ident(Vec<u8>),
    Literal(Vec<u8>),
    Punct(u8),
    Group { brackets: Brackets, content: TokenStream },
}

/// The tokens that a stream holds, in their order: of a group its opening
/// delimiter, the tokens of its content and its closing delimiter.
pub uninterp spec fn stream_tokens(s: TokenStream) -> Seq<RawTokenModel>;

/// How deep the groups of a stream are nested.
pub uninterp spec fn stream_depth(s: TokenStream) -> nat;

/// The opening delimiter of a group, if it is visible.
pub open spec fn opening(b: Brackets) -> Seq<RawTokenModel> {
    match b {
        Brackets::Parenthesis => seq![RawTokenModel::Punct(40)],
        Brackets::Brace => seq![RawTokenModel::Punct(123)],
        Brackets::Bracket => seq![RawTokenModel::Punct(91)],
        Brackets::Invisible => Seq::empty(),
    }
}

/// The closing delimiter of a group, if it is visible.
pub open spec fn closing(b: Brackets) -> Seq<RawTokenModel> {
    match b {
        Brackets::Parenthesis => seq![RawTokenModel::Punct(41)],
        Brackets::Brace => seq![RawTokenModel::Punct(125)],
        Brackets::Bracket => seq![RawTokenModel::Punct(93)],
        Brackets::Invisible => Seq::empty(),
    }
}

/// The tokens of one tree of a stream.
pub open spec fn piece_tokens(p: Piece) -> Seq<RawTokenModel> {
    match p {
        Piece::Ident(s) => seq![RawTokenModel::Ident(s@)],
        Piece::Literal(s) => seq![RawTokenModel::Literal(s@)],
        Piece::Punct(b) => seq![RawTokenModel::Punct(b)],
        Piece::Group { brackets, content } => opening(brackets) + stream_tokens(content) + closing(
            brackets,
        ),
    }
}

/// The tokens of the trees from index `k` on.
pub open spec fn pieces_tokens(ps: Seq<Piece>, k: int) -> Seq<RawTokenModel>
    decreases ps.len() - k,
{
    if k < 0 || k >= ps.len() {
        Seq::empty()
    } else {
        piece_tokens(ps[k]) + pieces_tokens(ps, k + 1)
    }
}

/// The trees of a stream in their order, from `TokenStream::into_iter`:
/// of an identifier and of a literal the text that `to_string` gives, of a
/// punctuation the character that `Punct::as_char` gives, of a group the
/// delimiters that `Group::delimiter` gives and the content that
/// `Group::stream` gives. The tokens of these trees are the tokens of the
/// stream, and the content of a group is nested less deeply than the
/// stream that holds the group.
#[verifier::external_body]
fn stream_pieces(stream: &TokenStream) -> (r: Vec<Piece>)
    ensures
        pieces_tokens(r@, 0) == stream_tokens(*stream),
        forall|i: int|
            0 <= i < r.len() ==> ((#[trigger] r@[i]) matches Piece::Group { content, .. }
                ==> stream_depth(content) < stream_depth(*stream)),
{
    stream.clone().into_iter().map(|tree| match tree {
        TokenTree::Ident(ident) => Piece::Ident(ident.to_string().into_bytes()),
        TokenTree::Literal(literal) => Piece::Literal(literal.to_string().into_bytes()),
        TokenTree::Punct(punct) => Piece::Punct(punct.as_char() as u8),
        TokenTree::Group(group) => Piece::Group {
            brackets: match group.delimiter() {
                Delimiter::Parenthesis => Brackets::Parenthesis,
                Delimiter::Brace => Brackets::Brace,
                Delimiter::Bracket => Brackets::Bracket,
                Delimiter::None => Brackets::Invisible,
            },
            content: group.stream(),
        },
    }).collect()
}

fn push_raw(out: &mut Vec<RawToken>, t: RawToken)
    ensures
        raws_model(final(out)@) == raws_model(old(out)@).push(t@),
{
    assert(raws_model(out@.push(t)) =~= raws_model(out@).push(t@));
    out.push(t);
}

fn push_opening(out: &mut Vec<RawToken>, b: Brackets)
    ensures
        raws_model(final(out)@) == raws_model(old(out)@) + opening(b),
{
    let ghost before = raws_model(out@);
    match b {
        Brackets::Parenthesis => push_raw(out, RawToken::Punct(40)),
        Brackets::Brace => push_raw(out, RawToken::Punct(123)),
        Brackets::Bracket => push_raw(out, RawToken::Punct(91)),
        Brackets::Invisible => {},
    }
    assert(raws_model(out@) =~= before + opening(b));
}

fn push_closing(out: &mut Vec<RawToken>, b: Brackets)
    ensures
        raws_model(final(out)@) == raws_model(old(out)@) + closing(b),
{
    let ghost before = raws_model(out@);
    match b {
        Brackets::Parenthesis => push_raw(out, RawToken::Punct(41)),
        Brackets::Brace => push_raw(out, RawToken::Punct(125)),
        Brackets::Bracket => push_raw(out, RawToken::Punct(93)),
        Brackets::Invisible => {},
    }
    assert(raws_model(out@) =~= before + closing(b));
}

/// Appends the tokens of a stream, every group as its delimiters around
/// its content.
pub fn read_stream(stream: &TokenStream, out: &mut Vec<RawToken>)
    ensures
        raws_model(final(out)@) == raws_model(old(out)@) + stream_tokens(*stream),
    decreases stream_depth(*stream),
{
    let ghost before = raws_model(out@);
    let pieces = stream_pieces(stream);
    let mut i: usize = 0;
    while i < pieces.len()
        invariant
            i <= pieces.len(),
            forall|j: int|
                0 <= j < pieces.len() ==> ((#[trigger] pieces@[j]) matches Piece::Group {
                    content,
                    ..
                } ==> stream_depth(content) < stream_depth(*stream)),
            raws_model(out@) + pieces_tokens(pieces@, i as int) == before + stream_tokens(*stream),
        decreases pieces.len() - i,
    {
        let ghost cur = raws_model(out@);
        let ghost rest = pieces_tokens(pieces@, i + 1);
        match &pieces[i] {
            Piece::Ident(s) => {
                push_raw(out, RawToken::Ident(s.clone()));
                assert(raws_model(out@) + rest =~= cur + (piece_tokens(pieces@[i as int]) + rest));
            },
            Piece::Literal(s) => {
                push_raw(out, RawToken::Literal(s.clone()));
                assert(raws_model(out@) + rest =~= cur + (piece_tokens(pieces@[i as int]) + rest));
            },
            Piece::Punct(b) => {
                push_raw(out, RawToken::Punct(*b));
                assert(raws_model(out@) + rest =~= cur + (piece_tokens(pieces@[i as int]) + rest));
            },
            Piece::Group { brackets, content } => {
                push_opening(out, *brackets);
                read_stream(content, out);
                push_closing(out, *brackets);
                assert(raws_model(out@) + rest =~= cur + (piece_tokens(pieces@[i as int]) + rest));
            },
        }
        i += 1;
    }
    assert(raws_model(out@) + Seq::<RawTokenModel>::empty() =~= raws_model(out@));
}

/// The tokens of the raw tokens from index `k` on: an identifier and a
/// punctuation as they are, a literal as the token of its text; or the
/// index of the first literal that is neither a string nor a number.
pub open spec fn cooked(rs: Seq<RawTokenModel>, k: int) -> Result<Seq<TokenModel>, int>
    decreases rs.len() - k,
{
    if k < 0 || k >= rs.len() {
        Ok(Seq::empty())
    } else {
        match rs[k] {
            RawTokenModel::Ident(s) => prepend(seq![TokenModel::Ident(s)], cooked(rs, k + 1)),
            RawTokenModel::Punct(b) => prepend(seq![TokenModel::Punct(b)], cooked(rs, k + 1)),
            RawTokenModel::Literal(text) => match literal_model(text) {
                Some(t) => prepend(seq![t], cooked(rs, k + 1)),
                None => Err(k),
            },
        }
    }
}

/// The model of the result of reading raw tokens.
pub open spec fn cooked_result(r: Result<Vec<Token>, usize>) -> Result<Seq<TokenModel>, int> {
    match r {
        Ok(ts) => Ok(tokens_model(ts@)),
        Err(at) => Err(at as int),
    }
}

/// Reads raw tokens as tokens of the compiler.
pub fn cook(raws: &Vec<RawToken>) -> (r: Result<Vec<Token>, usize>)
    ensures
        cooked_result(r) == cooked(raws_model(raws@), 0),
{
    let ghost rm = raws_model(raws@);
    let mut out: Vec<Token> = Vec::new();
    let mut k: usize = 0;
    proof {
        lemma_prepend_start(cooked(rm, 0));
        assert(tokens_model(out@) =~= Seq::empty());
    }
    while k < raws.len()
        invariant
            k <= raws.len(),
            rm == raws_model(raws@),
            cooked(rm, 0) == prepend(tokens_model(out@), cooked(rm, k as int)),
        decreases raws.len() - k,
    {
        assert(rm[k as int] == raws@[k as int]@);
        let t = match &raws[k] {
            RawToken::Ident(s) => Token::Ident(s.clone()),
            RawToken::Punct(b) => Token::Punct(*b),
            RawToken::Literal(text) => match literal(text) {
                Some(t) => t,
                None => {
                    return Err(k);
                },
            },
        };
        proof {
            lemma_tokens_push(out@, t);
            lemma_prepend_step(tokens_model(out@), t@, cooked(rm, k + 1));
        }
        out.push(t);
        k += 1;
    }
    proof {
        lemma_prepend_end::<TokenModel, int>(tokens_model(out@));
    }
    Ok(out)
}

} // verus!
