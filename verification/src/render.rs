//! The canonical rendering of a schema in the plain dialect: its tokens
//! and its text, without names and documentation.

use vstd::prelude::*;
use crate::ast::{
    enumerators_model, members_model, taggeds_model, Enumerator, EnumeratorModel, MemberModel,
    Multiplicity, Node, NodeModel, Scalar, Tagged, TaggedModel,
};
use crate::bytes::{digits, push_bytes, push_digits};
use crate::keywords::{keyword_text, word, Keyword};
use crate::resolver::{Schema, SchemaModel};
use crate::token::{lemma_tokens_push, tokens_model, Token, TokenModel};

verus! {

/// The token of the punctuation `b`.
pub open spec fn punct(b: u8) -> TokenModel {
    TokenModel::Punct(b)
}

/// The token of a keyword.
pub open spec fn keyword(k: Keyword) -> TokenModel {
    TokenModel::Ident(word(k))
}

/// `[size]`
pub open spec fn size_tokens(size: usize) -> Seq<TokenModel> {
    seq![punct(91), TokenModel::Num(size as u64), punct(93)]
}

/// A number, with `-` before it where it is negative.
pub open spec fn value_tokens(v: i64) -> Seq<TokenModel> {
    if v < 0 {
        seq![punct(45), TokenModel::Num((-v) as u64)]
    } else {
        seq![TokenModel::Num(v as u64)]
    }
}

/// The enumerators from index `k` on, each with its value where it has one,
/// with commas between them.
pub open spec fn enumerator_tokens(es: Seq<EnumeratorModel>, k: int) -> Seq<TokenModel>
    decreases es.len() - k,
{
    if k < 0 || k >= es.len() {
        Seq::empty()
    } else {
        seq![TokenModel::Str(es[k].tag)] + (match es[k].value {
            Some(v) => seq![punct(61)] + value_tokens(v),
            None => Seq::empty(),
        }) + (if k + 1 < es.len() {
            seq![punct(44)]
        } else {
            Seq::empty()
        }) + enumerator_tokens(es, k + 1)
    }
}

/// The tokens of an item: its keyword, what it holds in braces, and its
/// sizes behind it.
pub open spec fn node_tokens(n: NodeModel) -> Seq<TokenModel>
    decreases n, 0nat,
{
    match n {
        NodeModel::Scalar(k) => seq![keyword(Keyword::Scalar(k))],
        NodeModel::CharArray { size } => seq![keyword(Keyword::Scalar(Scalar::Char))] + size_tokens(
            size,
        ),
        NodeModel::Array { element, size } => node_tokens(*element) + size_tokens(size),
        NodeModel::Enum { enumerators, .. } => seq![keyword(Keyword::Enum), punct(123)]
            + enumerator_tokens(enumerators, 0) + seq![punct(125)],
        NodeModel::Struct { members, .. } => seq![keyword(Keyword::Struct), punct(123)]
            + member_tokens(members, 0) + seq![punct(125)],
        NodeModel::TaggedUnion { variants, .. } => seq![keyword(Keyword::TaggedUnion), punct(123)]
            + tagged_list_tokens(variants, 0) + seq![punct(125)],
        NodeModel::TaggedStruct { entries, .. } => seq![keyword(Keyword::TaggedStruct), punct(123)]
            + tagged_list_tokens(entries, 0) + seq![punct(125)],
    }
}

/// The members from index `k` on, each followed by `;`.
pub open spec fn member_tokens(ms: Seq<MemberModel>, k: int) -> Seq<TokenModel>
    decreases ms, ms.len() - k,
{
    if k < 0 || k >= ms.len() {
        Seq::empty()
    } else {
        node_tokens(ms[k].item) + seq![punct(59)] + member_tokens(ms, k + 1)
    }
}

/// Whether an item is a struct without members.
pub open spec fn is_unit(n: NodeModel) -> bool {
    n matches NodeModel::Struct { members, .. } && members.len() == 0
}

/// The tokens of a tagged declaration: `block` where it is one, its tag,
/// and its item, in parentheses with `*` behind them where it is repeated
/// and with `!` where it occurs exactly once. An optional declaration that
/// holds the empty struct is written without an item.
pub open spec fn tagged_tokens(t: TaggedModel) -> Seq<TokenModel>
    decreases t, 0nat,
{
    (if t.block {
        seq![keyword(Keyword::Block)]
    } else {
        Seq::empty()
    }) + seq![TokenModel::Str(t.tag)] + (match t.multiplicity {
        Multiplicity::Optional => if is_unit(t.member.item) {
            Seq::empty()
        } else {
            node_tokens(t.member.item)
        },
        Multiplicity::Repeated => seq![punct(40)] + node_tokens(t.member.item) + seq![
            punct(41),
            punct(42),
        ],
        Multiplicity::One => seq![punct(40)] + node_tokens(t.member.item) + seq![
            punct(41),
            punct(33),
        ],
    })
}

/// The tagged declarations from index `k` on, each followed by `;`.
pub open spec fn tagged_list_tokens(ts: Seq<TaggedModel>, k: int) -> Seq<TokenModel>
    decreases ts, ts.len() - k,
{
    if k < 0 || k >= ts.len() {
        Seq::empty()
    } else {
        tagged_tokens(ts[k]) + seq![punct(59)] + tagged_list_tokens(ts, k + 1)
    }
}

/// The top-level declarations of a schema.
pub open spec fn declarations_of(s: SchemaModel) -> Seq<TaggedModel> {
    match s.root {
        NodeModel::TaggedStruct { entries, .. } => entries,
        _ => Seq::empty(),
    }
}

/// The canonical tokens of a schema: its top-level declarations.
pub open spec fn canonical_tokens(s: SchemaModel) -> Seq<TokenModel> {
    tagged_list_tokens(declarations_of(s), 0)
}

/// The text of one token.
pub open spec fn token_text(t: TokenModel) -> Seq<u8> {
    match t {
        TokenModel::Ident(s) => s,
        TokenModel::Str(s) => seq![34u8] + s + seq![34u8],
        TokenModel::Num(n) => digits(n as nat),
        TokenModel::Punct(b) => seq![b],
        TokenModel::Doc(s) => seq![47u8, 47u8, 47u8] + s + seq![10u8],
    }
}

/// The punctuation that follows without a space: `; , [ ] ) * !`.
pub open spec fn tight_before(t: TokenModel) -> bool {
    t matches TokenModel::Punct(b) && (b == 59 || b == 44 || b == 91 || b == 93 || b == 41 || b == 42
        || b == 33)
}

/// The punctuation that is followed without a space: `( [ -`.
pub open spec fn tight_after(t: TokenModel) -> bool {
    t matches TokenModel::Punct(b) && (b == 40 || b == 91 || b == 45)
}

/// What stands between two tokens: one space, or nothing beside tight
/// punctuation.
pub open spec fn separator(before: TokenModel, t: TokenModel) -> Seq<u8> {
    if tight_after(before) || tight_before(t) {
        Seq::empty()
    } else {
        seq![32u8]
    }
}

/// The text of the tokens from index `k` on, each after its separator.
pub open spec fn text_from(ts: Seq<TokenModel>, k: int) -> Seq<u8>
    decreases ts.len() - k,
{
    if k < 0 || k >= ts.len() {
        Seq::empty()
    } else if k == 0 {
        token_text(ts[k]) + text_from(ts, k + 1)
    } else {
        separator(ts[k - 1], ts[k]) + token_text(ts[k]) + text_from(ts, k + 1)
    }
}

/// The text of a list of tokens.
pub open spec fn text_of(ts: Seq<TokenModel>) -> Seq<u8> {
    text_from(ts, 0)
}

/// The canonical text of a schema.
pub open spec fn canonical_text(s: SchemaModel) -> Seq<u8> {
    text_of(canonical_tokens(s))
}

fn push_token(out: &mut Vec<Token>, t: Token)
    ensures
        tokens_model(final(out)@) == tokens_model(old(out)@).push(t@),
{
    proof {
        lemma_tokens_push(out@, t);
    }
    out.push(t);
}

fn push_size(out: &mut Vec<Token>, size: usize)
    ensures
        tokens_model(final(out)@) == tokens_model(old(out)@) + size_tokens(size),
{
    let ghost before = tokens_model(out@);
    push_token(out, Token::Punct(91));
    push_token(out, Token::Num(size as u64));
    push_token(out, Token::Punct(93));
    assert(tokens_model(out@) =~= before + size_tokens(size));
}

fn push_enumerators(out: &mut Vec<Token>, es: &Vec<Enumerator>)
    ensures
        tokens_model(final(out)@) == tokens_model(old(out)@) + enumerator_tokens(
            enumerators_model(es@),
            0,
        ),
{
    let ghost before = tokens_model(out@);
    let ghost em = enumerators_model(es@);
    let mut k: usize = 0;
    while k < es.len()
        invariant
            k <= es.len(),
            em == enumerators_model(es@),
            tokens_model(out@) + enumerator_tokens(em, k as int) == before + enumerator_tokens(em, 0),
        decreases es.len() - k,
    {
        let ghost cur = tokens_model(out@);
        let ghost rest = enumerator_tokens(em, k + 1);
        assert(em[k as int] == es@[k as int]@);
        push_token(out, Token::Str(es[k].tag.clone()));
        let ghost mut head: Seq<TokenModel> = seq![TokenModel::Str(em[k as int].tag)];
        assert(tokens_model(out@) =~= cur + head);
        if let Some(v) = es[k].value {
            push_token(out, Token::Punct(61));
            if v < 0 {
                push_token(out, Token::Punct(45));
                let wide: i128 = -(v as i128);
                push_token(out, Token::Num(wide as u64));
            } else {
                push_token(out, Token::Num(v as u64));
            }
            proof {
                assert(tokens_model(out@) =~= cur + (head + (seq![punct(61)] + value_tokens(v))));
                head = head + (seq![punct(61)] + value_tokens(v));
            }
        } else {
            proof {
                assert(head + Seq::<TokenModel>::empty() =~= head);
            }
        }
        if k + 1 < es.len() {
            push_token(out, Token::Punct(44));
            proof {
                assert(tokens_model(out@) =~= cur + (head + seq![punct(44)]));
                head = head + seq![punct(44)];
            }
        } else {
            proof {
                assert(head + Seq::<TokenModel>::empty() =~= head);
            }
        }
        assert(enumerator_tokens(em, k as int) == head + rest);
        assert(cur + (head + rest) =~= (cur + head) + rest);
        k += 1;
    }
    assert(tokens_model(out@) + Seq::<TokenModel>::empty() =~= tokens_model(out@));
}

/// Appends the canonical tokens of an item.
pub fn render_node(n: &Node, out: &mut Vec<Token>)
    ensures
        tokens_model(final(out)@) == tokens_model(old(out)@) + node_tokens(n@),
    decreases n, 0nat,
{
    let ghost before = tokens_model(out@);
    match n {
        Node::Scalar(k) => {
            push_token(out, Token::Ident(keyword_text(Keyword::Scalar(*k))));
            assert(tokens_model(out@) =~= before + node_tokens(n@));
        },
        Node::CharArray { size } => {
            push_token(out, Token::Ident(keyword_text(Keyword::Scalar(Scalar::Char))));
            push_size(out, *size);
            assert(tokens_model(out@) =~= before + node_tokens(n@));
        },
        Node::Array { element, size } => {
            render_node(element, out);
            push_size(out, *size);
            assert(tokens_model(out@) =~= before + node_tokens(n@));
        },
        Node::Enum { enumerators, .. } => {
            assert(n@ is Enum && n@->Enum_enumerators == enumerators_model(enumerators@));
            push_token(out, Token::Ident(keyword_text(Keyword::Enum)));
            push_token(out, Token::Punct(123));
            push_enumerators(out, enumerators);
            push_token(out, Token::Punct(125));
            assert(tokens_model(out@) =~= before + node_tokens(n@));
        },
        Node::Struct { members, .. } => {
            let ghost mm = members_model(members@);
            assert(n@ is Struct && n@->Struct_members == mm);
            push_token(out, Token::Ident(keyword_text(Keyword::Struct)));
            push_token(out, Token::Punct(123));
            let ghost opened = tokens_model(out@);
            let mut k: usize = 0;
            while k < members.len()
                invariant
                    k <= members.len(),
                    n is Struct,
                    n->Struct_members == *members,
                    mm == members_model(members@),
                    tokens_model(out@) + member_tokens(mm, k as int) == opened + member_tokens(mm, 0),
                decreases members.len() - k,
            {
                let ghost cur = tokens_model(out@);
                assert(mm[k as int] == members@[k as int]@);
                render_node(&members[k].item, out);
                push_token(out, Token::Punct(59));
                assert(cur + (node_tokens(mm[k as int].item) + seq![punct(59)] + member_tokens(
                    mm,
                    k + 1,
                )) =~= (cur + node_tokens(mm[k as int].item)).push(punct(59)) + member_tokens(
                    mm,
                    k + 1,
                ));
                k += 1;
            }
            assert(tokens_model(out@) + Seq::<TokenModel>::empty() =~= tokens_model(out@));
            push_token(out, Token::Punct(125));
            assert(tokens_model(out@) =~= before + node_tokens(n@));
        },
        Node::TaggedUnion { variants, .. } => {
            assert(n@ is TaggedUnion && n@->TaggedUnion_variants == taggeds_model(variants@));
            push_token(out, Token::Ident(keyword_text(Keyword::TaggedUnion)));
            push_token(out, Token::Punct(123));
            render_taggeds(variants, out);
            push_token(out, Token::Punct(125));
            assert(tokens_model(out@) =~= before + node_tokens(n@));
        },
        Node::TaggedStruct { entries, .. } => {
            assert(n@ is TaggedStruct && n@->TaggedStruct_entries == taggeds_model(entries@));
            push_token(out, Token::Ident(keyword_text(Keyword::TaggedStruct)));
            push_token(out, Token::Punct(123));
            render_taggeds(entries, out);
            push_token(out, Token::Punct(125));
            assert(tokens_model(out@) =~= before + node_tokens(n@));
        },
    }
}

/// Appends the canonical tokens of a tagged declaration.
pub fn render_tagged(t: &Tagged, out: &mut Vec<Token>)
    ensures
        tokens_model(final(out)@) == tokens_model(old(out)@) + tagged_tokens(t@),
    decreases t, 0nat,
{
    let ghost before = tokens_model(out@);
    if t.block {
        push_token(out, Token::Ident(keyword_text(Keyword::Block)));
    }
    push_token(out, Token::Str(t.tag.clone()));
    match t.multiplicity {
        Multiplicity::Optional => {
            let unit = match &t.member.item {
                Node::Struct { members, .. } => {
                    assert(t.member.item@->Struct_members == members_model(members@));
                    members.len() == 0
                },
                _ => false,
            };
            if !unit {
                render_node(&t.member.item, out);
            }
        },
        Multiplicity::Repeated => {
            push_token(out, Token::Punct(40));
            render_node(&t.member.item, out);
            push_token(out, Token::Punct(41));
            push_token(out, Token::Punct(42));
        },
        Multiplicity::One => {
            push_token(out, Token::Punct(40));
            render_node(&t.member.item, out);
            push_token(out, Token::Punct(41));
            push_token(out, Token::Punct(33));
        },
    }
    assert(tokens_model(out@) =~= before + tagged_tokens(t@));
}

/// Appends the canonical tokens of a list of tagged declarations.
pub fn render_taggeds(ts: &Vec<Tagged>, out: &mut Vec<Token>)
    ensures
        tokens_model(final(out)@) == tokens_model(old(out)@) + tagged_list_tokens(
            taggeds_model(ts@),
            0,
        ),
    decreases ts, 0nat,
{
    let ghost before = tokens_model(out@);
    let ghost tm = taggeds_model(ts@);
    let mut k: usize = 0;
    while k < ts.len()
        invariant
            k <= ts.len(),
            tm == taggeds_model(ts@),
            tokens_model(out@) + tagged_list_tokens(tm, k as int) == before + tagged_list_tokens(tm, 0),
        decreases ts.len() - k,
    {
        let ghost cur = tokens_model(out@);
        assert(tm[k as int] == ts@[k as int]@);
        render_tagged(&ts[k], out);
        push_token(out, Token::Punct(59));
        assert(cur + (tagged_tokens(tm[k as int]) + seq![punct(59)] + tagged_list_tokens(tm, k + 1))
            =~= (cur + tagged_tokens(tm[k as int])).push(punct(59)) + tagged_list_tokens(tm, k + 1));
        k += 1;
    }
    assert(tokens_model(out@) + Seq::<TokenModel>::empty() =~= tokens_model(out@));
}

/// The canonical tokens of a schema.
pub fn schema_tokens(schema: &Schema) -> (r: Vec<Token>)
    ensures
        tokens_model(r@) == canonical_tokens(schema@),
{
    let mut out: Vec<Token> = Vec::new();
    assert(tokens_model(out@) =~= Seq::empty());
    match schema.root() {
        Node::TaggedStruct { entries, .. } => {
            assert(schema@.root->TaggedStruct_entries == taggeds_model(entries@));
            render_taggeds(entries, &mut out);
            assert(Seq::<TokenModel>::empty() + canonical_tokens(schema@) =~= canonical_tokens(
                schema@,
            ));
        },
        _ => {},
    }
    out
}

fn push_token_text(out: &mut Vec<u8>, t: &Token)
    ensures
        final(out)@ == old(out)@ + token_text(t@),
{
    let ghost before = out@;
    match t {
        Token::Ident(s) => {
            push_bytes(out, s);
        },
        Token::Str(s) => {
            out.push(34);
            push_bytes(out, s);
            out.push(34);
            assert(out@ =~= before + token_text(t@));
        },
        Token::Num(n) => {
            push_digits(*n, out);
        },
        Token::Punct(b) => {
            out.push(*b);
            assert(out@ =~= before + token_text(t@));
        },
        Token::Doc(s) => {
            out.push(47);
            out.push(47);
            out.push(47);
            push_bytes(out, s);
            out.push(10);
            assert(out@ =~= before + token_text(t@));
        },
    }
}

fn is_tight_before(t: &Token) -> (r: bool)
    ensures
        r == tight_before(t@),
{
    match t {
        Token::Punct(b) => *b == 59 || *b == 44 || *b == 91 || *b == 93 || *b == 41 || *b == 42 || *b
            == 33,
        _ => false,
    }
}

fn is_tight_after(t: &Token) -> (r: bool)
    ensures
        r == tight_after(t@),
{
    match t {
        Token::Punct(b) => *b == 40 || *b == 91 || *b == 45,
        _ => false,
    }
}

/// Writes a list of tokens as text.
pub fn write_tokens(tokens: &Vec<Token>) -> (r: Vec<u8>)
    ensures
        r@ == text_of(tokens_model(tokens@)),
        crate::token_laws::all_writable(tokens_model(tokens@)) ==> crate::token::lex(r@, 0) == Ok::<
            Seq<TokenModel>,
            crate::token::LexError,
        >(tokens_model(tokens@)),
{
    let ghost tm = tokens_model(tokens@);
    proof {
        if crate::token_laws::all_writable(tm) {
            crate::token_laws::law_lex_text(tm);
        }
    }
    let mut out: Vec<u8> = Vec::new();
    let mut k: usize = 0;
    assert(out@ + text_from(tm, 0) =~= text_of(tm));
    while k < tokens.len()
        invariant
            k <= tokens.len(),
            tm == tokens_model(tokens@),
            out@ + text_from(tm, k as int) == text_of(tm),
        decreases tokens.len() - k,
    {
        let ghost cur = out@;
        let ghost rest = text_from(tm, k + 1);
        if k > 0 && !is_tight_after(&tokens[k - 1]) && !is_tight_before(&tokens[k]) {
            out.push(32);
        }
        let ghost sep = if k > 0 {
            separator(tm[k - 1], tm[k as int])
        } else {
            Seq::empty()
        };
        assert(out@ =~= cur + sep);
        push_token_text(&mut out, &tokens[k]);
        assert(cur + (sep + token_text(tm[k as int]) + rest) =~= (cur + sep + token_text(
            tm[k as int],
        )) + rest);
        assert(Seq::<u8>::empty() + token_text(tm[k as int]) + rest =~= token_text(tm[k as int])
            + rest);
        k += 1;
    }
    assert(out@ + Seq::<u8>::empty() =~= out@);
    out
}

/// The canonical text of a schema: its top-level declarations in the plain
/// dialect, without names and documentation.
pub fn schema_text(schema: &Schema) -> (r: Vec<u8>)
    ensures
        r@ == canonical_text(schema@),
        crate::compiler::plain_declarations(r@) == Ok::<
            Seq<TaggedModel>,
            crate::compiler::ReadError,
        >(crate::render_laws::erased_taggeds(declarations_of(schema@))),
{
    let root = schema.root();
    proof {
        crate::render_laws::law_canonical_text(schema@);
    }
    let tokens = schema_tokens(schema);
    write_tokens(&tokens)
}

} // verus!
