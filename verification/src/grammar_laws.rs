//! What holds of the grammar: every construct holds at least one token
//! and ends within the tokens, so the parser never stands still.

use vstd::prelude::*;
use crate::ast::NodeModel;
use crate::grammar::{
    p_doc, p_enumerator, p_enumerator_list, p_enumerators, p_member, p_members, p_name, p_size,
    p_sizes, p_tagged, p_taggeds, p_type, punct_at, token_at, wrap,
};
use crate::keywords::{word, Keyword};
use crate::token::TokenModel;

verus! {

/// Sizes end within the tokens, at or behind the index at which they
/// start.
pub proof fn lemma_sizes_advance(ts: Seq<TokenModel>, pos: int, base: NodeModel)
    requires
        0 <= pos <= ts.len(),
    ensures
        p_sizes(ts, pos, base) matches Ok((_, next)) ==> pos <= next <= ts.len(),
    decreases ts.len() - pos,
{
    if punct_at(ts, pos, 91) {
        if let Ok((size, next)) = p_size(ts, pos) {
            lemma_sizes_advance(ts, next, wrap(base, size));
        }
    }
}

/// A list of enumerators ends within the tokens, behind the index at
/// which it starts.
pub proof fn lemma_enumerators_advance(ts: Seq<TokenModel>, pos: int)
    requires
        0 <= pos <= ts.len(),
    ensures
        p_enumerator_list(ts, pos) matches Ok((_, next)) ==> pos < next <= ts.len(),
        p_enumerators(ts, pos) matches Ok((_, next)) ==> pos < next <= ts.len(),
    decreases ts.len() - pos,
{
    if let Ok((e, next)) = p_enumerator(ts, pos) {
        if punct_at(ts, next, 44) {
            lemma_enumerators_advance(ts, next + 1);
        }
    }
}

/// A type ends within the tokens, behind the index at which it starts.
pub proof fn lemma_type_advances(ts: Seq<TokenModel>, pos: int)
    requires
        0 <= pos <= ts.len(),
    ensures
        p_type(ts, pos) matches Ok((_, next)) ==> pos < next <= ts.len(),
    decreases ts.len() - pos, 0nat,
{
    if p_type(ts, pos) is Ok {
        let (name, q) = p_name(ts, pos + 1);
        if punct_at(ts, q, 123) {
            lemma_enumerators_advance(ts, q + 1);
            lemma_members_advance(ts, q + 1);
            lemma_taggeds_advance(ts, q + 1, true);
        }
    }
}

/// A member ends within the tokens, behind the index at which it starts.
pub proof fn lemma_member_advances(ts: Seq<TokenModel>, pos: int)
    requires
        0 <= pos <= ts.len(),
    ensures
        p_member(ts, pos) matches Ok((_, next)) ==> pos < next <= ts.len(),
    decreases ts.len() - pos, 1nat,
{
    lemma_type_advances(ts, pos);
    if let Ok((base, q1)) = p_type(ts, pos) {
        lemma_sizes_advance(ts, q1, base);
        if let Ok((sized, q2)) = p_sizes(ts, q1, base) {
            let (name, q3) = p_name(ts, q2);
            lemma_sizes_advance(ts, q3, sized);
        }
    }
}

/// The members of a struct end within the tokens, behind the index at
/// which they start; the parser never stands still between two of them.
pub proof fn lemma_members_advance(ts: Seq<TokenModel>, pos: int)
    requires
        0 <= pos <= ts.len(),
    ensures
        p_members(ts, pos) matches Ok((_, next)) ==> pos < next <= ts.len(),
        !punct_at(ts, pos, 125) ==> (p_member(ts, pos) matches Ok((_, q1)) ==> punct_at(ts, q1, 59)
            ==> p_doc(ts, q1 + 1).1 > pos),
    decreases ts.len() - pos, 2nat,
{
    if !punct_at(ts, pos, 125) {
        lemma_member_advances(ts, pos);
        if let Ok((m, q1)) = p_member(ts, pos) {
            if punct_at(ts, q1, 59) {
                let (doc, q2) = p_doc(ts, q1 + 1);
                lemma_members_advance(ts, q2);
            }
        }
    }
}

/// A tagged declaration ends within the tokens, behind the index at which
/// it starts.
pub proof fn lemma_tagged_advances(ts: Seq<TokenModel>, pos: int)
    requires
        0 <= pos <= ts.len(),
    ensures
        p_tagged(ts, pos) matches Ok((_, next)) ==> pos < next <= ts.len(),
    decreases ts.len() - pos, 2nat,
{
    if p_tagged(ts, pos) is Ok {
        let block = token_at(ts, pos) == Some(TokenModel::Ident(word(Keyword::Block)));
        let q1 = if block {
            pos + 1
        } else {
            pos
        };
        let q2 = q1 + 1;
        if punct_at(ts, q2, 40) {
            lemma_member_advances(ts, q2 + 1);
        } else if token_at(ts, q2) matches Some(TokenModel::Ident(_)) {
            lemma_member_advances(ts, q2);
        }
    }
}

/// Tagged declarations end within the tokens, at or behind the index at
/// which they start; the parser never stands still between two of them.
pub proof fn lemma_taggeds_advance(ts: Seq<TokenModel>, pos: int, closing: bool)
    requires
        0 <= pos <= ts.len(),
    ensures
        p_taggeds(ts, pos, closing) matches Ok((_, next)) ==> pos <= next <= ts.len() && (closing
            ==> pos < next),
        p_tagged(ts, pos) matches Ok((_, q1)) ==> punct_at(ts, q1, 59) ==> p_doc(ts, q1 + 1).1 > pos,
    decreases ts.len() - pos, 3nat,
{
    lemma_tagged_advances(ts, pos);
    if !(closing && punct_at(ts, pos, 125)) && !(!closing && pos >= ts.len()) {
        if let Ok((t, q1)) = p_tagged(ts, pos) {
            if punct_at(ts, q1, 59) {
                let (doc, q2) = p_doc(ts, q1 + 1);
                lemma_taggeds_advance(ts, q2, closing);
            }
        }
    }
}

} // verus!
