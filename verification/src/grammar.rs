//! The grammar of the dialect, as a function from tokens to declarations.
//!
//! ```text
//! specification := '<' IDENT '>' { tagged ';' [DOC] }
//! tagged        := ['block'] STRING [ member | '(' member ')' ('*' | '!') ]
//! member        := type { size } [IDENT] { size }
//! size          := '[' NUM ']'
//! type          := scalar
//!                | 'struct' [IDENT] '{' { member ';' [DOC] } '}'
//!                | 'taggedunion' [IDENT] '{' { tagged ';' [DOC] } '}'
//!                | 'taggedstruct' [IDENT] '{' { tagged ';' [DOC] } '}'
//!                | 'enum' [IDENT] '{' [ enumerator { ',' enumerator } ] '}'
//! enumerator    := STRING [ '=' ['-'] NUM ]
//! ```
//!
//! A tagged declaration without a marker is optional, one marked `*` is
//! repeated and one marked `!` occurs exactly once; one without a member
//! holds the empty struct. The first size after `char` makes a fixed-length
//! string, every other size an array of what stands before it. The plain
//! dialect is the same grammar without the header, names and
//! documentation.

use vstd::prelude::*;
use crate::ast::{
    EnumeratorModel, MemberModel, Multiplicity, NodeModel, Scalar, SpecificationModel, TaggedModel,
};
use crate::keywords::{keyword_of, word, Keyword};
use crate::token::TokenModel;

verus! {

/// What the parser looked for where it found something else.
#[derive(Clone, Copy, Debug, PartialEq, Eq, Structural)]
pub enum Expected {
    /// The given punctuation.
    Punct(u8),
    /// The name of the specification.
    Name,
    /// A tag: a string literal.
    Tag,
    /// The keyword of a type.
    Type,
    /// A number.
    Number,
    /// A number that is the size of an array.
    Size,
    /// A number that is the value of an enumerator.
    Value,
    /// The marker `*` or `!` behind a member in parentheses.
    Marker,
}

/// A syntax error: the index of the offending token, which is the number
/// of tokens where the text ends too early, and what was expected there.
#[derive(Clone, Copy, Debug, PartialEq, Eq, Structural)]
pub struct SyntaxError {
    pub at: usize,
    pub expected: Expected,
}

/// The syntax error at the token of index `pos`.
pub open spec fn fault(pos: int, expected: Expected) -> SyntaxError {
    SyntaxError { at: pos as usize, expected }
}

/// The token of index `pos`, if there is one.
pub open spec fn token_at(ts: Seq<TokenModel>, pos: int) -> Option<TokenModel> {
    if 0 <= pos < ts.len() {
        Some(ts[pos])
    } else {
        None
    }
}

/// Whether the token of index `pos` is the punctuation `b`.
pub open spec fn punct_at(ts: Seq<TokenModel>, pos: int, b: u8) -> bool {
    token_at(ts, pos) == Some(TokenModel::Punct(b))
}

/// `pre` followed by the list that `r` holds, or the error of `r`.
pub open spec fn prepend_parsed<T>(pre: Seq<T>, r: Result<(Seq<T>, int), SyntaxError>) -> Result<
    (Seq<T>, int),
    SyntaxError,
> {
    match r {
        Ok((rest, next)) => Ok((pre + rest, next)),
        Err(e) => Err(e),
    }
}

/// The empty anonymous struct, which a tagged declaration without a member
/// holds.
pub open spec fn unit_member() -> MemberModel {
    MemberModel {
        item: NodeModel::Struct { name: None, members: Seq::empty() },
        name: None,
        doc: None,
    }
}

/// What a size makes of the item before it.
pub open spec fn wrap(base: NodeModel, size: usize) -> NodeModel {
    if base == NodeModel::Scalar(Scalar::Char) {
        NodeModel::CharArray { size }
    } else {
        NodeModel::Array { element: Box::new(base), size }
    }
}

/// `'[' NUM ']'`
pub open spec fn p_size(ts: Seq<TokenModel>, pos: int) -> Result<(usize, int), SyntaxError> {
    if !punct_at(ts, pos, 91) {
        Err(fault(pos, Expected::Punct(91)))
    } else {
        match token_at(ts, pos + 1) {
            Some(TokenModel::Num(n)) => if n > usize::MAX {
                Err(fault(pos + 1, Expected::Size))
            } else if punct_at(ts, pos + 2, 93) {
                Ok((n as usize, pos + 3))
            } else {
                Err(fault(pos + 2, Expected::Punct(93)))
            },
            _ => Err(fault(pos + 1, Expected::Number)),
        }
    }
}

/// `{ size }` behind the item `base`.
pub open spec fn p_sizes(ts: Seq<TokenModel>, pos: int, base: NodeModel) -> Result<
    (NodeModel, int),
    SyntaxError,
>
    decreases ts.len() - pos,
{
    if punct_at(ts, pos, 91) {
        match p_size(ts, pos) {
            Err(e) => Err(e),
            Ok((size, next)) => p_sizes(ts, next, wrap(base, size)),
        }
    } else {
        Ok((base, pos))
    }
}

/// `[IDENT]`
pub open spec fn p_name(ts: Seq<TokenModel>, pos: int) -> (Option<Seq<u8>>, int) {
    match token_at(ts, pos) {
        Some(TokenModel::Ident(s)) => (Some(s), pos + 1),
        _ => (None, pos),
    }
}

/// `[DOC]`
pub open spec fn p_doc(ts: Seq<TokenModel>, pos: int) -> (Option<Seq<u8>>, int) {
    match token_at(ts, pos) {
        Some(TokenModel::Doc(s)) => (Some(s), pos + 1),
        _ => (None, pos),
    }
}

/// `['-'] NUM`
pub open spec fn p_value(ts: Seq<TokenModel>, pos: int) -> Result<(i64, int), SyntaxError> {
    if punct_at(ts, pos, 45) {
        match token_at(ts, pos + 1) {
            Some(TokenModel::Num(n)) => if n > 0x8000_0000_0000_0000 {
                Err(fault(pos + 1, Expected::Value))
            } else {
                Ok(((-(n as int)) as i64, pos + 2))
            },
            _ => Err(fault(pos + 1, Expected::Number)),
        }
    } else {
        match token_at(ts, pos) {
            Some(TokenModel::Num(n)) => if n > 0x7fff_ffff_ffff_ffff {
                Err(fault(pos, Expected::Value))
            } else {
                Ok((n as i64, pos + 1))
            },
            _ => Err(fault(pos, Expected::Number)),
        }
    }
}

/// `STRING [ '=' ['-'] NUM ]`
pub open spec fn p_enumerator(ts: Seq<TokenModel>, pos: int) -> Result<
    (EnumeratorModel, int),
    SyntaxError,
> {
    match token_at(ts, pos) {
        Some(TokenModel::Str(tag)) => if punct_at(ts, pos + 1, 61) {
            match p_value(ts, pos + 2) {
                Err(e) => Err(e),
                Ok((v, next)) => Ok((EnumeratorModel { tag, value: Some(v) }, next)),
            }
        } else {
            Ok((EnumeratorModel { tag, value: None }, pos + 1))
        },
        _ => Err(fault(pos, Expected::Tag)),
    }
}

/// `enumerator { ',' enumerator } '}'`
pub open spec fn p_enumerator_list(ts: Seq<TokenModel>, pos: int) -> Result<
    (Seq<EnumeratorModel>, int),
    SyntaxError,
>
    decreases ts.len() - pos,
{
    match p_enumerator(ts, pos) {
        Err(e) => Err(e),
        Ok((e, next)) => if punct_at(ts, next, 44) {
            prepend_parsed(seq![e], p_enumerator_list(ts, next + 1))
        } else if punct_at(ts, next, 125) {
            Ok((seq![e], next + 1))
        } else {
            Err(fault(next, Expected::Punct(125)))
        },
    }
}

/// `[ enumerator { ',' enumerator } ] '}'`
pub open spec fn p_enumerators(ts: Seq<TokenModel>, pos: int) -> Result<
    (Seq<EnumeratorModel>, int),
    SyntaxError,
> {
    if punct_at(ts, pos, 125) {
        Ok((Seq::empty(), pos + 1))
    } else {
        p_enumerator_list(ts, pos)
    }
}

/// `type`
pub open spec fn p_type(ts: Seq<TokenModel>, pos: int) -> Result<(NodeModel, int), SyntaxError>
    decreases ts.len() - pos, 0nat,
{
    match token_at(ts, pos) {
        Some(TokenModel::Ident(w)) => match keyword_of(w) {
            Some(Keyword::Scalar(k)) => Ok((NodeModel::Scalar(k), pos + 1)),
            Some(Keyword::Enum) => {
                let (name, p) = p_name(ts, pos + 1);
                if !punct_at(ts, p, 123) {
                    Err(fault(p, Expected::Punct(123)))
                } else {
                    match p_enumerators(ts, p + 1) {
                        Err(e) => Err(e),
                        Ok((enumerators, next)) => Ok((NodeModel::Enum { name, enumerators }, next)),
                    }
                }
            },
            Some(Keyword::Struct) => {
                let (name, p) = p_name(ts, pos + 1);
                if !punct_at(ts, p, 123) {
                    Err(fault(p, Expected::Punct(123)))
                } else {
                    match p_members(ts, p + 1) {
                        Err(e) => Err(e),
                        Ok((members, next)) => Ok((NodeModel::Struct { name, members }, next)),
                    }
                }
            },
            Some(Keyword::TaggedUnion) => {
                let (name, p) = p_name(ts, pos + 1);
                if !punct_at(ts, p, 123) {
                    Err(fault(p, Expected::Punct(123)))
                } else {
                    match p_taggeds(ts, p + 1, true) {
                        Err(e) => Err(e),
                        Ok((variants, next)) => Ok((NodeModel::TaggedUnion { name, variants }, next)),
                    }
                }
            },
            Some(Keyword::TaggedStruct) => {
                let (name, p) = p_name(ts, pos + 1);
                if !punct_at(ts, p, 123) {
                    Err(fault(p, Expected::Punct(123)))
                } else {
                    match p_taggeds(ts, p + 1, true) {
                        Err(e) => Err(e),
                        Ok((entries, next)) => Ok((NodeModel::TaggedStruct { name, entries }, next)),
                    }
                }
            },
            _ => Err(fault(pos, Expected::Type)),
        },
        _ => Err(fault(pos, Expected::Type)),
    }
}

/// `type { size } [IDENT] { size }`
pub open spec fn p_member(ts: Seq<TokenModel>, pos: int) -> Result<(MemberModel, int), SyntaxError>
    decreases ts.len() - pos, 1nat,
{
    match p_type(ts, pos) {
        Err(e) => Err(e),
        Ok((base, q1)) => match p_sizes(ts, q1, base) {
            Err(e) => Err(e),
            Ok((sized, q2)) => {
                let (name, q3) = p_name(ts, q2);
                match p_sizes(ts, q3, sized) {
                    Err(e) => Err(e),
                    Ok((item, q4)) => Ok((MemberModel { item, name, doc: None }, q4)),
                }
            },
        },
    }
}

/// `{ member ';' [DOC] } '}'`
///
/// A member holds at least one token, so the parser never stands still
/// and the fault of standing still never comes.
pub open spec fn p_members(ts: Seq<TokenModel>, pos: int) -> Result<
    (Seq<MemberModel>, int),
    SyntaxError,
>
    decreases ts.len() - pos, 2nat,
{
    if punct_at(ts, pos, 125) {
        Ok((Seq::empty(), pos + 1))
    } else {
        match p_member(ts, pos) {
            Err(e) => Err(e),
            Ok((m, q1)) => if !punct_at(ts, q1, 59) {
                Err(fault(q1, Expected::Punct(59)))
            } else {
                let (doc, q2) = p_doc(ts, q1 + 1);
                if q2 <= pos {
                    Err(fault(pos, Expected::Type))
                } else {
                    prepend_parsed(
                        seq![MemberModel { item: m.item, name: m.name, doc }],
                        p_members(ts, q2),
                    )
                }
            },
        }
    }
}

/// `['block'] STRING [ member | '(' member ')' ('*' | '!') ]`
pub open spec fn p_tagged(ts: Seq<TokenModel>, pos: int) -> Result<(TaggedModel, int), SyntaxError>
    decreases ts.len() - pos, 2nat,
{
    let block = token_at(ts, pos) == Some(TokenModel::Ident(word(Keyword::Block)));
    let q1 = if block {
        pos + 1
    } else {
        pos
    };
    match token_at(ts, q1) {
        Some(TokenModel::Str(tag)) => {
            let q2 = q1 + 1;
            if punct_at(ts, q2, 40) {
                match p_member(ts, q2 + 1) {
                    Err(e) => Err(e),
                    Ok((member, q3)) => if !punct_at(ts, q3, 41) {
                        Err(fault(q3, Expected::Punct(41)))
                    } else if punct_at(ts, q3 + 1, 42) {
                        Ok(
                            (
                                TaggedModel { tag, block, multiplicity: Multiplicity::Repeated, member },
                                q3 + 2,
                            ),
                        )
                    } else if punct_at(ts, q3 + 1, 33) {
                        Ok(
                            (
                                TaggedModel { tag, block, multiplicity: Multiplicity::One, member },
                                q3 + 2,
                            ),
                        )
                    } else {
                        Err(fault(q3 + 1, Expected::Marker))
                    },
                }
            } else if token_at(ts, q2) matches Some(TokenModel::Ident(_)) {
                match p_member(ts, q2) {
                    Err(e) => Err(e),
                    Ok((member, q3)) => Ok(
                        (TaggedModel { tag, block, multiplicity: Multiplicity::Optional, member }, q3),
                    ),
                }
            } else {
                Ok(
                    (
                        TaggedModel {
                            tag,
                            block,
                            multiplicity: Multiplicity::Optional,
                            member: unit_member(),
                        },
                        q2,
                    ),
                )
            }
        },
        _ => Err(fault(q1, Expected::Tag)),
    }
}

/// `{ tagged ';' [DOC] }`, up to the closing brace where `closing` is set
/// and up to the end of the tokens where it is not.
///
/// A tagged declaration holds at least one token, so the parser never
/// stands still and the fault of standing still never comes.
pub open spec fn p_taggeds(ts: Seq<TokenModel>, pos: int, closing: bool) -> Result<
    (Seq<TaggedModel>, int),
    SyntaxError,
>
    decreases ts.len() - pos, 3nat,
{
    if closing && punct_at(ts, pos, 125) {
        Ok((Seq::empty(), pos + 1))
    } else if !closing && pos >= ts.len() {
        Ok((Seq::empty(), pos))
    } else {
        match p_tagged(ts, pos) {
            Err(e) => Err(e),
            Ok((t, q1)) => if !punct_at(ts, q1, 59) {
                Err(fault(q1, Expected::Punct(59)))
            } else {
                let (doc, q2) = p_doc(ts, q1 + 1);
                if q2 <= pos {
                    Err(fault(pos, Expected::Tag))
                } else {
                    prepend_parsed(
                        seq![
                            TaggedModel {
                                tag: t.tag,
                                block: t.block,
                                multiplicity: t.multiplicity,
                                member: MemberModel { item: t.member.item, name: t.member.name, doc },
                            },
                        ],
                        p_taggeds(ts, q2, closing),
                    )
                }
            },
        }
    }
}

/// The top-level declarations that the tokens of a text of the plain
/// dialect write.
pub open spec fn p_declarations(ts: Seq<TokenModel>) -> Result<Seq<TaggedModel>, SyntaxError> {
    match p_taggeds(ts, 0, false) {
        Ok((blocks, _)) => Ok(blocks),
        Err(e) => Err(e),
    }
}

/// The specification that the tokens write: `'<' IDENT '>'` and the
/// top-level declarations.
pub open spec fn p_specification(ts: Seq<TokenModel>) -> Result<SpecificationModel, SyntaxError> {
    if !punct_at(ts, 0, 60) {
        Err(fault(0, Expected::Punct(60)))
    } else {
        match token_at(ts, 1) {
            Some(TokenModel::Ident(name)) => if !punct_at(ts, 2, 62) {
                Err(fault(2, Expected::Punct(62)))
            } else {
                match p_taggeds(ts, 3, false) {
                    Ok((blocks, _)) => Ok(SpecificationModel { name, blocks }),
                    Err(e) => Err(e),
                }
            },
            _ => Err(fault(1, Expected::Name)),
        }
    }
}

} // verus!
