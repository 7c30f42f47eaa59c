//! The parser: from tokens to the declaration tree.

use vstd::prelude::*;
use crate::ast::{
    enumerators_model, lemma_enumerators_push, lemma_members_push, lemma_taggeds_push,
    members_model, taggeds_model, Enumerator, EnumeratorModel, Member, MemberModel, Multiplicity,
    Node, NodeModel, Scalar, Specification, SpecificationModel, Tagged, TaggedModel,
};
use crate::bytes::opt_bytes;
use crate::grammar::{
    p_declarations, p_doc, p_enumerator, p_enumerator_list, p_enumerators, p_member, p_members,
    p_name, p_size, p_sizes, p_specification, p_tagged, p_taggeds, p_type, p_value, prepend_parsed,
    punct_at, token_at, Expected, SyntaxError,
};
use crate::keywords::{lookup_keyword, Keyword};
use crate::token::{tokens_model, Token, TokenModel};

verus! {

/// The model of the result of parsing an item.
pub open spec fn node_parsed(r: Result<(Node, usize), SyntaxError>) -> Result<
    (NodeModel, int),
    SyntaxError,
> {
    match r {
        Ok((n, next)) => Ok((n@, next as int)),
        Err(e) => Err(e),
    }
}

/// The model of the result of parsing a member.
pub open spec fn member_parsed(r: Result<(Member, usize), SyntaxError>) -> Result<
    (MemberModel, int),
    SyntaxError,
> {
    match r {
        Ok((m, next)) => Ok((m@, next as int)),
        Err(e) => Err(e),
    }
}

/// The model of the result of parsing a tagged declaration.
pub open spec fn tagged_parsed(r: Result<(Tagged, usize), SyntaxError>) -> Result<
    (TaggedModel, int),
    SyntaxError,
> {
    match r {
        Ok((t, next)) => Ok((t@, next as int)),
        Err(e) => Err(e),
    }
}

/// The model of the result of parsing an enumerator.
pub open spec fn enumerator_parsed(r: Result<(Enumerator, usize), SyntaxError>) -> Result<
    (EnumeratorModel, int),
    SyntaxError,
> {
    match r {
        Ok((e, next)) => Ok((e@, next as int)),
        Err(e) => Err(e),
    }
}

/// The model of the result of parsing a list of members.
pub open spec fn members_parsed(r: Result<(Vec<Member>, usize), SyntaxError>) -> Result<
    (Seq<MemberModel>, int),
    SyntaxError,
> {
    match r {
        Ok((ms, next)) => Ok((members_model(ms@), next as int)),
        Err(e) => Err(e),
    }
}

/// The model of the result of parsing a list of tagged declarations.
pub open spec fn taggeds_parsed(r: Result<(Vec<Tagged>, usize), SyntaxError>) -> Result<
    (Seq<TaggedModel>, int),
    SyntaxError,
> {
    match r {
        Ok((ts, next)) => Ok((taggeds_model(ts@), next as int)),
        Err(e) => Err(e),
    }
}

/// The model of the result of parsing a list of enumerators.
pub open spec fn enumerators_parsed(r: Result<(Vec<Enumerator>, usize), SyntaxError>) -> Result<
    (Seq<EnumeratorModel>, int),
    SyntaxError,
> {
    match r {
        Ok((es, next)) => Ok((enumerators_model(es@), next as int)),
        Err(e) => Err(e),
    }
}

/// The model of the result of parsing a size.
pub open spec fn size_parsed(r: Result<(usize, usize), SyntaxError>) -> Result<(usize, int), SyntaxError> {
    match r {
        Ok((n, next)) => Ok((n, next as int)),
        Err(e) => Err(e),
    }
}

/// The model of the result of parsing the value of an enumerator.
pub open spec fn value_parsed(r: Result<(i64, usize), SyntaxError>) -> Result<(i64, int), SyntaxError> {
    match r {
        Ok((n, next)) => Ok((n, next as int)),
        Err(e) => Err(e),
    }
}

/// The model of the result of parsing a specification.
pub open spec fn specification_parsed(r: Result<Specification, SyntaxError>) -> Result<
    SpecificationModel,
    SyntaxError,
> {
    match r {
        Ok(s) => Ok(s@),
        Err(e) => Err(e),
    }
}

/// The model of the result of parsing top-level declarations.
pub open spec fn declarations_parsed(r: Result<Vec<Tagged>, SyntaxError>) -> Result<
    Seq<TaggedModel>,
    SyntaxError,
> {
    match r {
        Ok(ts) => Ok(taggeds_model(ts@)),
        Err(e) => Err(e),
    }
}

proof fn lemma_parsed_start<T>(r: Result<(Seq<T>, int), SyntaxError>)
    ensures
        prepend_parsed(Seq::empty(), r) == r,
{
    if let Ok((rest, next)) = r {
        assert(Seq::<T>::empty() + rest =~= rest);
    }
}

proof fn lemma_parsed_step<T>(pre: Seq<T>, t: T, r: Result<(Seq<T>, int), SyntaxError>)
    ensures
        prepend_parsed(pre, prepend_parsed(seq![t], r)) == prepend_parsed(pre.push(t), r),
{
    if let Ok((rest, next)) = r {
        assert(pre + (seq![t] + rest) =~= pre.push(t) + rest);
    }
}

proof fn lemma_parsed_end<T>(pre: Seq<T>, next: int)
    ensures
        prepend_parsed(pre, Ok((Seq::empty(), next))) == Ok::<(Seq<T>, int), SyntaxError>((pre, next)),
{
    assert(pre + Seq::<T>::empty() =~= pre);
}

proof fn lemma_parsed_last<T>(pre: Seq<T>, t: T, next: int)
    ensures
        prepend_parsed(pre, Ok((seq![t], next))) == Ok::<(Seq<T>, int), SyntaxError>(
            (pre.push(t), next),
        ),
{
    assert(pre + seq![t] =~= pre.push(t));
}

fn is_punct_at(tokens: &Vec<Token>, pos: usize, b: u8) -> (r: bool)
    ensures
        r == punct_at(tokens_model(tokens@), pos as int, b),
{
    if pos < tokens.len() {
        match &tokens[pos] {
            Token::Punct(c) => *c == b,
            _ => false,
        }
    } else {
        false
    }
}

fn ident_at(tokens: &Vec<Token>, pos: usize) -> (r: Option<&Vec<u8>>)
    ensures
        match r {
            Some(s) => token_at(tokens_model(tokens@), pos as int) == Some(TokenModel::Ident(s@)),
            None => !(token_at(tokens_model(tokens@), pos as int) matches Some(TokenModel::Ident(_))),
        },
{
    if pos < tokens.len() {
        match &tokens[pos] {
            Token::Ident(s) => Some(s),
            _ => None,
        }
    } else {
        None
    }
}

fn str_at(tokens: &Vec<Token>, pos: usize) -> (r: Option<&Vec<u8>>)
    ensures
        match r {
            Some(s) => token_at(tokens_model(tokens@), pos as int) == Some(TokenModel::Str(s@)),
            None => !(token_at(tokens_model(tokens@), pos as int) matches Some(TokenModel::Str(_))),
        },
{
    if pos < tokens.len() {
        match &tokens[pos] {
            Token::Str(s) => Some(s),
            _ => None,
        }
    } else {
        None
    }
}

fn num_at(tokens: &Vec<Token>, pos: usize) -> (r: Option<u64>)
    ensures
        match r {
            Some(n) => token_at(tokens_model(tokens@), pos as int) == Some(TokenModel::Num(n)),
            None => !(token_at(tokens_model(tokens@), pos as int) matches Some(TokenModel::Num(_))),
        },
{
    if pos < tokens.len() {
        match &tokens[pos] {
            Token::Num(n) => Some(*n),
            _ => None,
        }
    } else {
        None
    }
}

fn parse_name(tokens: &Vec<Token>, pos: usize) -> (r: (Option<Vec<u8>>, usize))
    requires
        pos <= tokens.len(),
    ensures
        (opt_bytes(r.0), r.1 as int) == p_name(tokens_model(tokens@), pos as int),
        pos <= r.1 <= tokens.len(),
{
    match ident_at(tokens, pos) {
        Some(s) => (Some(s.clone()), pos + 1),
        None => (None, pos),
    }
}

fn parse_doc(tokens: &Vec<Token>, pos: usize) -> (r: (Option<Vec<u8>>, usize))
    requires
        pos <= tokens.len(),
    ensures
        (opt_bytes(r.0), r.1 as int) == p_doc(tokens_model(tokens@), pos as int),
        pos <= r.1 <= tokens.len(),
{
    if pos < tokens.len() {
        match &tokens[pos] {
            Token::Doc(s) => (Some(s.clone()), pos + 1),
            _ => (None, pos),
        }
    } else {
        (None, pos)
    }
}

fn parse_size(tokens: &Vec<Token>, pos: usize) -> (r: Result<(usize, usize), SyntaxError>)
    requires
        pos <= tokens.len(),
    ensures
        size_parsed(r) == p_size(tokens_model(tokens@), pos as int),
        r matches Ok((_, next)) ==> next == pos + 3 && next <= tokens.len(),
{
    if !is_punct_at(tokens, pos, 91) {
        return Err(SyntaxError { at: pos, expected: Expected::Punct(91) });
    }
    match num_at(tokens, pos + 1) {
        Some(n) => {
            if n > usize::MAX as u64 {
                Err(SyntaxError { at: pos + 1, expected: Expected::Size })
            } else if is_punct_at(tokens, pos + 2, 93) {
                Ok((n as usize, pos + 3))
            } else {
                Err(SyntaxError { at: pos + 2, expected: Expected::Punct(93) })
            }
        },
        None => Err(SyntaxError { at: pos + 1, expected: Expected::Number }),
    }
}

fn is_char(n: &Node) -> (r: bool)
    ensures
        r == (n@ == NodeModel::Scalar(Scalar::Char)),
{
    match n {
        Node::Scalar(k) => *k == Scalar::Char,
        _ => false,
    }
}

fn parse_sizes(tokens: &Vec<Token>, pos: usize, base: Node) -> (r: Result<(Node, usize), SyntaxError>)
    requires
        pos <= tokens.len(),
    ensures
        node_parsed(r) == p_sizes(tokens_model(tokens@), pos as int, base@),
        r matches Ok((_, next)) ==> pos <= next <= tokens.len(),
{
    let ghost tm = tokens_model(tokens@);
    let mut item = base;
    let mut cur: usize = pos;
    while is_punct_at(tokens, cur, 91)
        invariant
            pos <= cur <= tokens.len(),
            tm == tokens_model(tokens@),
            p_sizes(tm, pos as int, base@) == p_sizes(tm, cur as int, item@),
        decreases tokens.len() - cur,
    {
        let (size, next) = match parse_size(tokens, cur) {
            Ok(x) => x,
            Err(e) => {
                return Err(e);
            },
        };
        item = if is_char(&item) {
            Node::CharArray { size }
        } else {
            Node::Array { element: Box::new(item), size }
        };
        cur = next;
    }
    Ok((item, cur))
}

fn parse_value(tokens: &Vec<Token>, pos: usize) -> (r: Result<(i64, usize), SyntaxError>)
    requires
        pos <= tokens.len(),
    ensures
        value_parsed(r) == p_value(tokens_model(tokens@), pos as int),
        r matches Ok((_, next)) ==> pos < next <= tokens.len(),
{
    if is_punct_at(tokens, pos, 45) {
        match num_at(tokens, pos + 1) {
            Some(n) => {
                if n > 0x8000_0000_0000_0000 {
                    Err(SyntaxError { at: pos + 1, expected: Expected::Value })
                } else {
                    let wide: i128 = -(n as i128);
                    Ok((wide as i64, pos + 2))
                }
            },
            None => Err(SyntaxError { at: pos + 1, expected: Expected::Number }),
        }
    } else {
        match num_at(tokens, pos) {
            Some(n) => {
                if n > 0x7fff_ffff_ffff_ffff {
                    Err(SyntaxError { at: pos, expected: Expected::Value })
                } else {
                    Ok((n as i64, pos + 1))
                }
            },
            None => Err(SyntaxError { at: pos, expected: Expected::Number }),
        }
    }
}

fn parse_enumerator(tokens: &Vec<Token>, pos: usize) -> (r: Result<(Enumerator, usize), SyntaxError>)
    requires
        pos <= tokens.len(),
    ensures
        enumerator_parsed(r) == p_enumerator(tokens_model(tokens@), pos as int),
        r matches Ok((_, next)) ==> pos < next <= tokens.len(),
{
    match str_at(tokens, pos) {
        Some(tag) => {
            if is_punct_at(tokens, pos + 1, 61) {
                match parse_value(tokens, pos + 2) {
                    Ok((v, next)) => Ok((Enumerator { tag: tag.clone(), value: Some(v) }, next)),
                    Err(e) => Err(e),
                }
            } else {
                Ok((Enumerator { tag: tag.clone(), value: None }, pos + 1))
            }
        },
        None => Err(SyntaxError { at: pos, expected: Expected::Tag }),
    }
}

fn parse_enumerators(tokens: &Vec<Token>, pos: usize) -> (r: Result<
    (Vec<Enumerator>, usize),
    SyntaxError,
>)
    requires
        pos <= tokens.len(),
    ensures
        enumerators_parsed(r) == p_enumerators(tokens_model(tokens@), pos as int),
        r matches Ok((_, next)) ==> pos < next <= tokens.len(),
{
    let ghost tm = tokens_model(tokens@);
    let mut out: Vec<Enumerator> = Vec::new();
    if is_punct_at(tokens, pos, 125) {
        assert(enumerators_model(out@) =~= Seq::empty());
        return Ok((out, pos + 1));
    }
    let mut cur: usize = pos;
    proof {
        lemma_parsed_start(p_enumerator_list(tm, pos as int));
        assert(enumerators_model(out@) =~= Seq::empty());
    }
    loop
        invariant
            pos <= cur <= tokens.len(),
            tm == tokens_model(tokens@),
            !punct_at(tm, pos as int, 125),
            p_enumerator_list(tm, pos as int) == prepend_parsed(
                enumerators_model(out@),
                p_enumerator_list(tm, cur as int),
            ),
        decreases tokens.len() - cur,
    {
        let (e, next) = match parse_enumerator(tokens, cur) {
            Ok(x) => x,
            Err(e) => {
                return Err(e);
            },
        };
        proof {
            lemma_enumerators_push(out@, e);
        }
        if is_punct_at(tokens, next, 44) {
            proof {
                lemma_parsed_step(enumerators_model(out@), e@, p_enumerator_list(tm, next + 1));
            }
            out.push(e);
            cur = next + 1;
        } else if is_punct_at(tokens, next, 125) {
            proof {
                lemma_parsed_last(enumerators_model(out@), e@, next + 1);
            }
            out.push(e);
            return Ok((out, next + 1));
        } else {
            return Err(SyntaxError { at: next, expected: Expected::Punct(125) });
        }
    }
}

/// Parses a type.
pub fn parse_type(tokens: &Vec<Token>, pos: usize) -> (r: Result<(Node, usize), SyntaxError>)
    requires
        pos <= tokens.len(),
    ensures
        node_parsed(r) == p_type(tokens_model(tokens@), pos as int),
        r matches Ok((_, next)) ==> pos < next <= tokens.len(),
    decreases tokens.len() - pos, 0nat,
{
    let w = match ident_at(tokens, pos) {
        Some(w) => w,
        None => {
            return Err(SyntaxError { at: pos, expected: Expected::Type });
        },
    };
    match lookup_keyword(w) {
        Some(Keyword::Scalar(k)) => Ok((Node::Scalar(k), pos + 1)),
        Some(Keyword::Enum) => {
            let (name, p) = parse_name(tokens, pos + 1);
            if !is_punct_at(tokens, p, 123) {
                return Err(SyntaxError { at: p, expected: Expected::Punct(123) });
            }
            match parse_enumerators(tokens, p + 1) {
                Ok((enumerators, next)) => Ok((Node::Enum { name, enumerators }, next)),
                Err(e) => Err(e),
            }
        },
        Some(Keyword::Struct) => {
            let (name, p) = parse_name(tokens, pos + 1);
            if !is_punct_at(tokens, p, 123) {
                return Err(SyntaxError { at: p, expected: Expected::Punct(123) });
            }
            match parse_members(tokens, p + 1) {
                Ok((members, next)) => Ok((Node::Struct { name, members }, next)),
                Err(e) => Err(e),
            }
        },
        Some(Keyword::TaggedUnion) => {
            let (name, p) = parse_name(tokens, pos + 1);
            if !is_punct_at(tokens, p, 123) {
                return Err(SyntaxError { at: p, expected: Expected::Punct(123) });
            }
            match parse_taggeds(tokens, p + 1, true) {
                Ok((variants, next)) => Ok((Node::TaggedUnion { name, variants }, next)),
                Err(e) => Err(e),
            }
        },
        Some(Keyword::TaggedStruct) => {
            let (name, p) = parse_name(tokens, pos + 1);
            if !is_punct_at(tokens, p, 123) {
                return Err(SyntaxError { at: p, expected: Expected::Punct(123) });
            }
            match parse_taggeds(tokens, p + 1, true) {
                Ok((entries, next)) => Ok((Node::TaggedStruct { name, entries }, next)),
                Err(e) => Err(e),
            }
        },
        _ => Err(SyntaxError { at: pos, expected: Expected::Type }),
    }
}

/// Parses a member: a type with its sizes and its name.
pub fn parse_member(tokens: &Vec<Token>, pos: usize) -> (r: Result<(Member, usize), SyntaxError>)
    requires
        pos <= tokens.len(),
    ensures
        member_parsed(r) == p_member(tokens_model(tokens@), pos as int),
        r matches Ok((_, next)) ==> pos < next <= tokens.len(),
    decreases tokens.len() - pos, 1nat,
{
    let (base, q1) = match parse_type(tokens, pos) {
        Ok(x) => x,
        Err(e) => {
            return Err(e);
        },
    };
    let (sized, q2) = match parse_sizes(tokens, q1, base) {
        Ok(x) => x,
        Err(e) => {
            return Err(e);
        },
    };
    let (name, q3) = parse_name(tokens, q2);
    match parse_sizes(tokens, q3, sized) {
        Ok((item, q4)) => Ok((Member { item, name, doc: None }, q4)),
        Err(e) => Err(e),
    }
}

/// Parses the members of a struct up to its closing brace.
pub fn parse_members(tokens: &Vec<Token>, pos: usize) -> (r: Result<(Vec<Member>, usize), SyntaxError>)
    requires
        pos <= tokens.len(),
    ensures
        members_parsed(r) == p_members(tokens_model(tokens@), pos as int),
        r matches Ok((_, next)) ==> pos < next <= tokens.len(),
    decreases tokens.len() - pos, 2nat,
{
    let ghost tm = tokens_model(tokens@);
    let mut out: Vec<Member> = Vec::new();
    let mut cur: usize = pos;
    proof {
        lemma_parsed_start(p_members(tm, pos as int));
        assert(members_model(out@) =~= Seq::empty());
    }
    loop
        invariant
            pos <= cur <= tokens.len(),
            tm == tokens_model(tokens@),
            p_members(tm, pos as int) == prepend_parsed(
                members_model(out@),
                p_members(tm, cur as int),
            ),
        decreases tokens.len() - cur,
    {
        if is_punct_at(tokens, cur, 125) {
            proof {
                lemma_parsed_end(members_model(out@), cur + 1);
            }
            return Ok((out, cur + 1));
        }
        let (m, q1) = match parse_member(tokens, cur) {
            Ok(x) => x,
            Err(e) => {
                return Err(e);
            },
        };
        if !is_punct_at(tokens, q1, 59) {
            return Err(SyntaxError { at: q1, expected: Expected::Punct(59) });
        }
        let (doc, q2) = parse_doc(tokens, q1 + 1);
        let member = Member { item: m.item, name: m.name, doc };
        proof {
            lemma_members_push(out@, member);
            lemma_parsed_step(members_model(out@), member@, p_members(tm, q2 as int));
        }
        out.push(member);
        cur = q2;
    }
}

/// Parses a tagged declaration.
pub fn parse_tagged(tokens: &Vec<Token>, pos: usize) -> (r: Result<(Tagged, usize), SyntaxError>)
    requires
        pos <= tokens.len(),
    ensures
        tagged_parsed(r) == p_tagged(tokens_model(tokens@), pos as int),
        r matches Ok((_, next)) ==> pos < next <= tokens.len(),
    decreases tokens.len() - pos, 2nat,
{
    let block = match ident_at(tokens, pos) {
        Some(w) => match lookup_keyword(w) {
            Some(Keyword::Block) => true,
            _ => false,
        },
        None => false,
    };
    proof {
        crate::keywords::lemma_keyword_word(Keyword::Block);
    }
    let q1: usize = if block {
        pos + 1
    } else {
        pos
    };
    let tag = match str_at(tokens, q1) {
        Some(tag) => tag.clone(),
        None => {
            return Err(SyntaxError { at: q1, expected: Expected::Tag });
        },
    };
    let q2: usize = q1 + 1;
    if is_punct_at(tokens, q2, 40) {
        let (member, q3) = match parse_member(tokens, q2 + 1) {
            Ok(x) => x,
            Err(e) => {
                return Err(e);
            },
        };
        if !is_punct_at(tokens, q3, 41) {
            Err(SyntaxError { at: q3, expected: Expected::Punct(41) })
        } else if is_punct_at(tokens, q3 + 1, 42) {
            Ok((Tagged { tag, block, multiplicity: Multiplicity::Repeated, member }, q3 + 2))
        } else if is_punct_at(tokens, q3 + 1, 33) {
            Ok((Tagged { tag, block, multiplicity: Multiplicity::One, member }, q3 + 2))
        } else {
            Err(SyntaxError { at: q3 + 1, expected: Expected::Marker })
        }
    } else if ident_at(tokens, q2).is_some() {
        match parse_member(tokens, q2) {
            Ok((member, q3)) => Ok(
                (Tagged { tag, block, multiplicity: Multiplicity::Optional, member }, q3),
            ),
            Err(e) => Err(e),
        }
    } else {
        let members: Vec<Member> = Vec::new();
        assert(members_model(members@) =~= Seq::empty());
        let member = Member { item: Node::Struct { name: None, members }, name: None, doc: None };
        Ok((Tagged { tag, block, multiplicity: Multiplicity::Optional, member }, q2))
    }
}

/// Parses tagged declarations, up to the closing brace where `closing` is
/// set and up to the end of the tokens where it is not.
pub fn parse_taggeds(tokens: &Vec<Token>, pos: usize, closing: bool) -> (r: Result<
    (Vec<Tagged>, usize),
    SyntaxError,
>)
    requires
        pos <= tokens.len(),
    ensures
        taggeds_parsed(r) == p_taggeds(tokens_model(tokens@), pos as int, closing),
        r matches Ok((_, next)) ==> pos <= next <= tokens.len() && (closing ==> pos < next),
    decreases tokens.len() - pos, 3nat,
{
    let ghost tm = tokens_model(tokens@);
    let mut out: Vec<Tagged> = Vec::new();
    let mut cur: usize = pos;
    proof {
        lemma_parsed_start(p_taggeds(tm, pos as int, closing));
        assert(taggeds_model(out@) =~= Seq::empty());
    }
    loop
        invariant
            pos <= cur <= tokens.len(),
            tm == tokens_model(tokens@),
            p_taggeds(tm, pos as int, closing) == prepend_parsed(
                taggeds_model(out@),
                p_taggeds(tm, cur as int, closing),
            ),
        decreases tokens.len() - cur,
    {
        if closing && is_punct_at(tokens, cur, 125) {
            proof {
                lemma_parsed_end(taggeds_model(out@), cur + 1);
            }
            return Ok((out, cur + 1));
        }
        if !closing && cur >= tokens.len() {
            proof {
                lemma_parsed_end(taggeds_model(out@), cur as int);
            }
            return Ok((out, cur));
        }
        let (t, q1) = match parse_tagged(tokens, cur) {
            Ok(x) => x,
            Err(e) => {
                return Err(e);
            },
        };
        if !is_punct_at(tokens, q1, 59) {
            return Err(SyntaxError { at: q1, expected: Expected::Punct(59) });
        }
        let (doc, q2) = parse_doc(tokens, q1 + 1);
        let tagged = Tagged {
            tag: t.tag,
            block: t.block,
            multiplicity: t.multiplicity,
            member: Member { item: t.member.item, name: t.member.name, doc },
        };
        proof {
            lemma_taggeds_push(out@, tagged);
            lemma_parsed_step(taggeds_model(out@), tagged@, p_taggeds(tm, q2 as int, closing));
        }
        out.push(tagged);
        cur = q2;
    }
}

/// Parses the tokens of a text of the plain dialect: its top-level
/// declarations.
pub fn parse_declarations(tokens: &Vec<Token>) -> (r: Result<Vec<Tagged>, SyntaxError>)
    ensures
        declarations_parsed(r) == p_declarations(tokens_model(tokens@)),
{
    match parse_taggeds(tokens, 0, false) {
        Ok((blocks, _)) => Ok(blocks),
        Err(e) => Err(e),
    }
}

/// Parses the tokens of a specification: its header and its top-level
/// declarations.
pub fn parse_specification(tokens: &Vec<Token>) -> (r: Result<Specification, SyntaxError>)
    ensures
        specification_parsed(r) == p_specification(tokens_model(tokens@)),
{
    if !is_punct_at(tokens, 0, 60) {
        return Err(SyntaxError { at: 0, expected: Expected::Punct(60) });
    }
    let name = match ident_at(tokens, 1) {
        Some(name) => name.clone(),
        None => {
            return Err(SyntaxError { at: 1, expected: Expected::Name });
        },
    };
    if !is_punct_at(tokens, 2, 62) {
        return Err(SyntaxError { at: 2, expected: Expected::Punct(62) });
    }
    match parse_taggeds(tokens, 3, false) {
        Ok((blocks, _)) => Ok(Specification { name, blocks }),
        Err(e) => Err(e),
    }
}

} // verus!
