//! What holds of the canonical rendering: the parser reads it back as the
//! schema without its names and its documentation.

use vstd::prelude::*;
use crate::ast::{EnumeratorModel, MemberModel, Multiplicity, NodeModel, Scalar, TaggedModel};
use crate::grammar::{
    p_declarations, p_doc, p_enumerator, p_enumerator_list, p_enumerators, p_member, p_members,
    p_size, p_sizes, p_tagged, p_taggeds, p_type, p_value, punct_at, token_at, unit_member, wrap,
    SyntaxError,
};
use crate::keywords::{lemma_keyword_word, Keyword};
use crate::render::{
    canonical_text, canonical_tokens, declarations_of, enumerator_tokens, is_unit, keyword,
    member_tokens, node_tokens, punct, size_tokens, tagged_list_tokens, tagged_tokens,
    value_tokens,
};
use crate::resolver::{
    enum_tags, is_resolved, member_is_resolved, printable, tags_of, tags_ok, well_formed,
    SchemaModel,
};
use crate::token::{lex, LexError, TokenModel};
use crate::token_laws::{all_writable, law_lex_text, writable};

verus! {

/// An item without the names and the documentation under it.
pub open spec fn erased(n: NodeModel) -> NodeModel
    decreases n, 0nat,
{
    match n {
        NodeModel::Scalar(_) => n,
        NodeModel::CharArray { .. } => n,
        NodeModel::Array { element, size } => NodeModel::Array {
            element: Box::new(erased(*element)),
            size,
        },
        NodeModel::Enum { enumerators, .. } => NodeModel::Enum { name: None, enumerators },
        NodeModel::Struct { members, .. } => NodeModel::Struct {
            name: None,
            members: erased_members(members),
        },
        NodeModel::TaggedUnion { variants, .. } => NodeModel::TaggedUnion {
            name: None,
            variants: erased_taggeds(variants),
        },
        NodeModel::TaggedStruct { entries, .. } => NodeModel::TaggedStruct {
            name: None,
            entries: erased_taggeds(entries),
        },
    }
}

/// An anonymous, undocumented member that holds the erased item.
pub open spec fn bare(item: NodeModel) -> MemberModel
    decreases item, 1nat,
{
    MemberModel { item: erased(item), name: None, doc: None }
}

/// The members of a list, each anonymous, undocumented and erased.
pub open spec fn erased_members(ms: Seq<MemberModel>) -> Seq<MemberModel>
    decreases ms, 0nat,
{
    Seq::new(
        ms.len(),
        |i: int|
            if 0 <= i < ms.len() {
                bare(ms[i].item)
            } else {
                arbitrary()
            },
    )
}

/// A tagged declaration with its tag, its form and its multiplicity, and
/// without the names and the documentation in it.
pub open spec fn erased_tagged(t: TaggedModel) -> TaggedModel
    decreases t, 0nat,
{
    TaggedModel {
        tag: t.tag,
        block: t.block,
        multiplicity: t.multiplicity,
        member: bare(t.member.item),
    }
}

/// The tagged declarations of a list, each erased.
pub open spec fn erased_taggeds(ts: Seq<TaggedModel>) -> Seq<TaggedModel>
    decreases ts, 0nat,
{
    Seq::new(
        ts.len(),
        |i: int|
            if 0 <= i < ts.len() {
                erased_tagged(ts[i])
            } else {
                arbitrary()
            },
    )
}

/// The tokens `r` stand in `ts` from index `pos` on.
pub open spec fn holds(ts: Seq<TokenModel>, pos: int, r: Seq<TokenModel>) -> bool {
    &&& 0 <= pos
    &&& pos + r.len() <= ts.len()
    &&& forall|i: int| 0 <= i < r.len() ==> ts[pos + i] == #[trigger] r[i]
}

/// Whether the token of index `pos` is an identifier.
pub open spec fn ident_at(ts: Seq<TokenModel>, pos: int) -> bool {
    token_at(ts, pos) matches Some(TokenModel::Ident(_))
}

/// The tokens of a list of sizes.
pub open spec fn sizes_tokens(xs: Seq<usize>) -> Seq<TokenModel>
    decreases xs.len(),
{
    if xs.len() == 0 {
        Seq::empty()
    } else {
        size_tokens(xs[0]) + sizes_tokens(xs.drop_first())
    }
}

/// What a list of sizes makes of the item before it.
pub open spec fn sized(acc: NodeModel, xs: Seq<usize>) -> NodeModel
    decreases xs.len(),
{
    if xs.len() == 0 {
        acc
    } else {
        sized(wrap(acc, xs[0]), xs.drop_first())
    }
}

proof fn lemma_holds_split(ts: Seq<TokenModel>, pos: int, a: Seq<TokenModel>, b: Seq<TokenModel>)
    requires
        holds(ts, pos, a + b),
    ensures
        holds(ts, pos, a),
        holds(ts, pos + a.len(), b),
{
    assert forall|i: int| 0 <= i < a.len() implies ts[pos + i] == #[trigger] a[i] by {
        assert((a + b)[i] == a[i]);
    }
    assert forall|i: int| 0 <= i < b.len() implies ts[pos + a.len() + i] == #[trigger] b[i] by {
        assert((a + b)[a.len() + i] == b[i]);
    }
}

proof fn lemma_holds_one(ts: Seq<TokenModel>, pos: int, t: TokenModel)
    requires
        holds(ts, pos, seq![t]),
    ensures
        token_at(ts, pos) == Some(t),
{
    assert(seq![t][0] == t);
}

proof fn lemma_holds_two(ts: Seq<TokenModel>, pos: int, t: TokenModel, u: TokenModel)
    requires
        holds(ts, pos, seq![t, u]),
    ensures
        token_at(ts, pos) == Some(t),
        token_at(ts, pos + 1) == Some(u),
{
    assert(seq![t, u][0] == t);
    assert(seq![t, u][1] == u);
}

proof fn lemma_sizes_len(xs: Seq<usize>)
    ensures
        sizes_tokens(xs).len() == 3 * xs.len(),
    decreases xs.len(),
{
    if xs.len() > 0 {
        lemma_sizes_len(xs.drop_first());
    }
}

/// The sizes that stand at `pos` wrap the item before them, one after the
/// other.
proof fn lemma_sizes(ts: Seq<TokenModel>, pos: int, acc: NodeModel, xs: Seq<usize>)
    requires
        holds(ts, pos, sizes_tokens(xs)),
        !punct_at(ts, pos + 3 * xs.len(), 91),
    ensures
        p_sizes(ts, pos, acc) == Ok::<(NodeModel, int), SyntaxError>(
            (sized(acc, xs), pos + 3 * xs.len()),
        ),
    decreases xs.len(),
{
    if xs.len() > 0 {
        let head = size_tokens(xs[0]);
        let rest = sizes_tokens(xs.drop_first());
        lemma_holds_split(ts, pos, head, rest);
        assert(head[0] == punct(91));
        assert(head[1] == TokenModel::Num(xs[0] as u64));
        assert(head[2] == punct(93));
        assert(ts[pos + 0] == head[0]);
        assert(ts[pos + 1] == head[1]);
        assert(ts[pos + 2] == head[2]);
        assert(p_size(ts, pos) == Ok::<(usize, int), SyntaxError>((xs[0], pos + 3)));
        lemma_sizes(ts, pos + 3, wrap(acc, xs[0]), xs.drop_first());
    }
}

/// The tokens of an item start with a keyword.
proof fn lemma_node_first(n: NodeModel)
    ensures
        node_tokens(n).len() > 0,
        node_tokens(n)[0] is Ident,
    decreases n,
{
    match n {
        NodeModel::Array { element, size } => {
            lemma_node_first(*element);
        },
        _ => {},
    }
}

/// The tokens of a tagged declaration start with `block` or with its tag.
proof fn lemma_tagged_first(t: TaggedModel)
    ensures
        tagged_tokens(t).len() > 0,
        tagged_tokens(t)[0] is Ident || tagged_tokens(t)[0] is Str,
{
    let head = if t.block {
        seq![keyword(Keyword::Block)]
    } else {
        Seq::empty()
    };
    let a = head + seq![TokenModel::Str(t.tag)];
    assert(a[0] is Ident || a[0] is Str);
}

proof fn lemma_value(ts: Seq<TokenModel>, pos: int, v: i64)
    requires
        holds(ts, pos, value_tokens(v)),
    ensures
        p_value(ts, pos) == Ok::<(i64, int), SyntaxError>((v, pos + value_tokens(v).len())),
{
    if v < 0 {
        lemma_holds_two(ts, pos, punct(45), TokenModel::Num((-v) as u64));
    } else {
        lemma_holds_one(ts, pos, TokenModel::Num(v as u64));
    }
}

/// The enumerators that stand at `pos` before a closing brace are read
/// back as they are.
proof fn lemma_enumerator_list(ts: Seq<TokenModel>, pos: int, es: Seq<EnumeratorModel>, k: int)
    requires
        0 <= k < es.len(),
        holds(ts, pos, enumerator_tokens(es, k)),
        punct_at(ts, pos + enumerator_tokens(es, k).len(), 125),
    ensures
        p_enumerator_list(ts, pos) == Ok::<(Seq<EnumeratorModel>, int), SyntaxError>(
            (es.skip(k), pos + enumerator_tokens(es, k).len() + 1),
        ),
    decreases es.len() - k,
{
    let tag = seq![TokenModel::Str(es[k].tag)];
    let value = match es[k].value {
        Some(v) => seq![punct(61)] + value_tokens(v),
        None => Seq::empty(),
    };
    let comma = if k + 1 < es.len() {
        seq![punct(44)]
    } else {
        Seq::empty()
    };
    let rest = enumerator_tokens(es, k + 1);
    assert(enumerator_tokens(es, k) == tag + value + comma + rest);
    lemma_holds_split(ts, pos, tag + value + comma, rest);
    lemma_holds_split(ts, pos, tag + value, comma);
    lemma_holds_split(ts, pos, tag, value);
    lemma_holds_one(ts, pos, TokenModel::Str(es[k].tag));
    let after = pos + 1 + value.len();
    match es[k].value {
        Some(v) => {
            lemma_holds_split(ts, pos + 1, seq![punct(61)], value_tokens(v));
            lemma_holds_one(ts, pos + 1, punct(61));
            lemma_value(ts, pos + 2, v);
        },
        None => {
            if k + 1 < es.len() {
                lemma_holds_one(ts, pos + 1, punct(44));
            }
        },
    }
    assert(p_enumerator(ts, pos) == Ok::<(EnumeratorModel, int), SyntaxError>((es[k], after)));
    if k + 1 < es.len() {
        lemma_holds_one(ts, after, punct(44));
        lemma_enumerator_list(ts, after + 1, es, k + 1);
        assert(seq![es[k]] + es.skip(k + 1) =~= es.skip(k));
    } else {
        assert(seq![es[k]] =~= es.skip(k));
    }
}

proof fn lemma_enumerators(ts: Seq<TokenModel>, pos: int, es: Seq<EnumeratorModel>)
    requires
        holds(ts, pos, enumerator_tokens(es, 0)),
        punct_at(ts, pos + enumerator_tokens(es, 0).len(), 125),
    ensures
        p_enumerators(ts, pos) == Ok::<(Seq<EnumeratorModel>, int), SyntaxError>(
            (es, pos + enumerator_tokens(es, 0).len() + 1),
        ),
{
    if es.len() == 0 {
        assert(es =~= Seq::empty());
    } else {
        let first = seq![TokenModel::Str(es[0].tag)];
        assert(enumerator_tokens(es, 0)[0] == first[0]);
        assert(token_at(ts, pos) == Some(enumerator_tokens(es, 0)[0]));
        lemma_enumerator_list(ts, pos, es, 0);
        assert(es.skip(0) =~= es);
    }
}

/// The type and the sizes that the tokens of a resolved item and of
/// further sizes write: the erased item under those sizes.
proof fn lemma_sized(n: NodeModel, xs: Seq<usize>, ts: Seq<TokenModel>, pos: int)
    requires
        is_resolved(n),
        holds(ts, pos, node_tokens(n) + sizes_tokens(xs)),
        !punct_at(ts, pos + node_tokens(n).len() + 3 * xs.len(), 91),
    ensures
        p_type(ts, pos) matches Ok((base, q1)) && p_sizes(ts, q1, base) == Ok::<
            (NodeModel, int),
            SyntaxError,
        >((sized(erased(n), xs), pos + node_tokens(n).len() + 3 * xs.len())),
    decreases n, 1nat,
{
    lemma_sizes_len(xs);
    match n {
        NodeModel::Array { element, size } => {
            let all = seq![size] + xs;
            assert(all.drop_first() =~= xs);
            assert(node_tokens(n) + sizes_tokens(xs) =~= node_tokens(*element) + sizes_tokens(all));
            lemma_sized(*element, all, ts, pos);
        },
        NodeModel::CharArray { size } => {
            let all = seq![size] + xs;
            assert(all.drop_first() =~= xs);
            let head = seq![keyword(Keyword::Scalar(Scalar::Char))];
            assert(node_tokens(n) + sizes_tokens(xs) =~= head + sizes_tokens(all));
            lemma_holds_split(ts, pos, head, sizes_tokens(all));
            lemma_holds_one(ts, pos, keyword(Keyword::Scalar(Scalar::Char)));
            lemma_keyword_word(Keyword::Scalar(Scalar::Char));
            lemma_sizes(ts, pos + 1, NodeModel::Scalar(Scalar::Char), all);
        },
        _ => {
            lemma_holds_split(ts, pos, node_tokens(n), sizes_tokens(xs));
            lemma_type(n, ts, pos);
            lemma_sizes(ts, pos + node_tokens(n).len(), erased(n), xs);
        },
    }
}

/// The member that the tokens of a resolved item write: the erased item,
/// without a name.
proof fn lemma_member(n: NodeModel, ts: Seq<TokenModel>, pos: int)
    requires
        is_resolved(n),
        holds(ts, pos, node_tokens(n)),
        !punct_at(ts, pos + node_tokens(n).len(), 91),
        !ident_at(ts, pos + node_tokens(n).len()),
    ensures
        p_member(ts, pos) == Ok::<(MemberModel, int), SyntaxError>(
            (bare(n), pos + node_tokens(n).len()),
        ),
    decreases n, 2nat,
{
    assert(node_tokens(n) + sizes_tokens(Seq::empty()) =~= node_tokens(n));
    lemma_sized(n, Seq::empty(), ts, pos);
}

/// The type that the tokens of a resolved item without sizes write.
proof fn lemma_type(n: NodeModel, ts: Seq<TokenModel>, pos: int)
    requires
        is_resolved(n),
        !(n is Array),
        !(n is CharArray),
        holds(ts, pos, node_tokens(n)),
    ensures
        p_type(ts, pos) == Ok::<(NodeModel, int), SyntaxError>(
            (erased(n), pos + node_tokens(n).len()),
        ),
    decreases n, 0nat,
{
    match n {
        NodeModel::Scalar(k) => {
            lemma_holds_one(ts, pos, keyword(Keyword::Scalar(k)));
            lemma_keyword_word(Keyword::Scalar(k));
        },
        NodeModel::Enum { enumerators, .. } => {
            let head = seq![keyword(Keyword::Enum), punct(123)];
            let body = enumerator_tokens(enumerators, 0);
            lemma_holds_split(ts, pos, head + body, seq![punct(125)]);
            lemma_holds_split(ts, pos, head, body);
            lemma_holds_two(ts, pos, keyword(Keyword::Enum), punct(123));
            lemma_holds_one(ts, pos + 2 + body.len(), punct(125));
            lemma_keyword_word(Keyword::Enum);
            lemma_enumerators(ts, pos + 2, enumerators);
        },
        NodeModel::Struct { members, .. } => {
            let head = seq![keyword(Keyword::Struct), punct(123)];
            let body = member_tokens(members, 0);
            lemma_holds_split(ts, pos, head + body, seq![punct(125)]);
            lemma_holds_split(ts, pos, head, body);
            lemma_holds_two(ts, pos, keyword(Keyword::Struct), punct(123));
            lemma_holds_one(ts, pos + 2 + body.len(), punct(125));
            lemma_keyword_word(Keyword::Struct);
            lemma_members(members, 0, ts, pos + 2);
            assert(erased_members(members).skip(0) =~= erased_members(members));
        },
        NodeModel::TaggedUnion { variants, .. } => {
            let head = seq![keyword(Keyword::TaggedUnion), punct(123)];
            let body = tagged_list_tokens(variants, 0);
            lemma_holds_split(ts, pos, head + body, seq![punct(125)]);
            lemma_holds_split(ts, pos, head, body);
            lemma_holds_two(ts, pos, keyword(Keyword::TaggedUnion), punct(123));
            lemma_holds_one(ts, pos + 2 + body.len(), punct(125));
            lemma_keyword_word(Keyword::TaggedUnion);
            lemma_taggeds(variants, 0, ts, pos + 2, true);
            assert(erased_taggeds(variants).skip(0) =~= erased_taggeds(variants));
        },
        NodeModel::TaggedStruct { entries, .. } => {
            let head = seq![keyword(Keyword::TaggedStruct), punct(123)];
            let body = tagged_list_tokens(entries, 0);
            lemma_holds_split(ts, pos, head + body, seq![punct(125)]);
            lemma_holds_split(ts, pos, head, body);
            lemma_holds_two(ts, pos, keyword(Keyword::TaggedStruct), punct(123));
            lemma_holds_one(ts, pos + 2 + body.len(), punct(125));
            lemma_keyword_word(Keyword::TaggedStruct);
            lemma_taggeds(entries, 0, ts, pos + 2, true);
            assert(erased_taggeds(entries).skip(0) =~= erased_taggeds(entries));
        },
        _ => {},
    }
}

/// The members that the tokens of resolved members write before a closing
/// brace.
proof fn lemma_members(ms: Seq<MemberModel>, k: int, ts: Seq<TokenModel>, pos: int)
    requires
        0 <= k <= ms.len(),
        forall|i: int| 0 <= i < ms.len() ==> member_is_resolved(#[trigger] ms[i]),
        holds(ts, pos, member_tokens(ms, k)),
        punct_at(ts, pos + member_tokens(ms, k).len(), 125),
    ensures
        p_members(ts, pos) == Ok::<(Seq<MemberModel>, int), SyntaxError>(
            (erased_members(ms).skip(k), pos + member_tokens(ms, k).len() + 1),
        ),
    decreases ms, ms.len() - k,
{
    if k < ms.len() {
        let item = ms[k].item;
        let own = node_tokens(item);
        let rest = member_tokens(ms, k + 1);
        assert(member_is_resolved(ms[k]));
        lemma_node_first(item);
        lemma_holds_split(ts, pos, own + seq![punct(59)], rest);
        lemma_holds_split(ts, pos, own, seq![punct(59)]);
        lemma_holds_one(ts, pos + own.len(), punct(59));
        assert(ts[pos + 0] == own[0]);
        lemma_member(item, ts, pos);
        let q2 = pos + own.len() + 1;
        if k + 1 < ms.len() {
            lemma_node_first(ms[k + 1].item);
            let next = node_tokens(ms[k + 1].item);
            assert(rest[0] == next[0]);
            assert(ts[q2 + 0] == rest[0]);
        }
        assert(p_doc(ts, q2) == (None::<Seq<u8>>, q2));
        lemma_members(ms, k + 1, ts, q2);
        assert(seq![bare(item)] + erased_members(ms).skip(k + 1) =~= erased_members(ms).skip(k));
    } else {
        assert(erased_members(ms).skip(k) =~= Seq::empty());
    }
}

/// The tagged declaration that the tokens of a resolved one write before
/// a semicolon.
proof fn lemma_tagged(t: TaggedModel, ts: Seq<TokenModel>, pos: int)
    requires
        member_is_resolved(t.member),
        holds(ts, pos, tagged_tokens(t)),
        punct_at(ts, pos + tagged_tokens(t).len(), 59),
    ensures
        p_tagged(ts, pos) == Ok::<(TaggedModel, int), SyntaxError>(
            (erased_tagged(t), pos + tagged_tokens(t).len()),
        ),
    decreases t, 0nat,
{
    let head = if t.block {
        seq![keyword(Keyword::Block)]
    } else {
        Seq::empty()
    };
    let tag = seq![TokenModel::Str(t.tag)];
    let item = node_tokens(t.member.item);
    let body = match t.multiplicity {
        Multiplicity::Optional => if is_unit(t.member.item) {
            Seq::empty()
        } else {
            item
        },
        Multiplicity::Repeated => seq![punct(40)] + item + seq![punct(41), punct(42)],
        Multiplicity::One => seq![punct(40)] + item + seq![punct(41), punct(33)],
    };
    assert(tagged_tokens(t) == head + tag + body);
    lemma_holds_split(ts, pos, head + tag, body);
    lemma_holds_split(ts, pos, head, tag);
    lemma_keyword_word(Keyword::Block);
    if t.block {
        lemma_holds_one(ts, pos, keyword(Keyword::Block));
    }
    let q1 = pos + head.len();
    lemma_holds_one(ts, q1, TokenModel::Str(t.tag));
    let q2 = q1 + 1;
    lemma_node_first(t.member.item);
    match t.multiplicity {
        Multiplicity::Optional => {
            if is_unit(t.member.item) {
                assert(bare(t.member.item) == unit_member()) by {
                    assert(erased(t.member.item)->Struct_members =~= Seq::<MemberModel>::empty());
                }
            } else {
                assert(ts[q2 + 0] == item[0]);
                lemma_member(t.member.item, ts, q2);
            }
        },
        Multiplicity::Repeated => {
            lemma_holds_split(ts, q2, seq![punct(40)] + item, seq![punct(41), punct(42)]);
            lemma_holds_split(ts, q2, seq![punct(40)], item);
            lemma_holds_one(ts, q2, punct(40));
            lemma_holds_two(ts, q2 + 1 + item.len(), punct(41), punct(42));
            lemma_member(t.member.item, ts, q2 + 1);
        },
        Multiplicity::One => {
            lemma_holds_split(ts, q2, seq![punct(40)] + item, seq![punct(41), punct(33)]);
            lemma_holds_split(ts, q2, seq![punct(40)], item);
            lemma_holds_one(ts, q2, punct(40));
            lemma_holds_two(ts, q2 + 1 + item.len(), punct(41), punct(33));
            lemma_member(t.member.item, ts, q2 + 1);
        },
    }
}

/// The tagged declarations that the tokens of resolved ones write, before
/// a closing brace where `closing` is set and before the end of the tokens
/// where it is not.
proof fn lemma_taggeds(l: Seq<TaggedModel>, k: int, ts: Seq<TokenModel>, pos: int, closing: bool)
    requires
        0 <= k <= l.len(),
        forall|i: int| 0 <= i < l.len() ==> member_is_resolved((#[trigger] l[i]).member),
        holds(ts, pos, tagged_list_tokens(l, k)),
        closing ==> punct_at(ts, pos + tagged_list_tokens(l, k).len(), 125),
        !closing ==> pos + tagged_list_tokens(l, k).len() == ts.len(),
    ensures
        p_taggeds(ts, pos, closing) == Ok::<(Seq<TaggedModel>, int), SyntaxError>(
            (
                erased_taggeds(l).skip(k),
                pos + tagged_list_tokens(l, k).len() + if closing {
                    1int
                } else {
                    0int
                },
            ),
        ),
    decreases l, l.len() - k,
{
    if k < l.len() {
        let own = tagged_tokens(l[k]);
        let rest = tagged_list_tokens(l, k + 1);
        assert(member_is_resolved(l[k].member));
        lemma_tagged_first(l[k]);
        lemma_holds_split(ts, pos, own + seq![punct(59)], rest);
        lemma_holds_split(ts, pos, own, seq![punct(59)]);
        lemma_holds_one(ts, pos + own.len(), punct(59));
        assert(ts[pos + 0] == own[0]);
        lemma_tagged(l[k], ts, pos);
        let q2 = pos + own.len() + 1;
        if k + 1 < l.len() {
            lemma_tagged_first(l[k + 1]);
            let next = tagged_tokens(l[k + 1]);
            assert(rest[0] == next[0]);
            assert(ts[q2 + 0] == rest[0]);
        }
        assert(p_doc(ts, q2) == (None::<Seq<u8>>, q2));
        lemma_taggeds(l, k + 1, ts, q2, closing);
        assert(seq![erased_tagged(l[k])] + erased_taggeds(l).skip(k + 1) =~= erased_taggeds(l).skip(
            k,
        ));
    } else {
        assert(erased_taggeds(l).skip(k) =~= Seq::empty());
    }
}

/// Parsing the canonical tokens of a schema yields its top-level
/// declarations with their tags, nesting, scalar kinds, sizes,
/// multiplicities and enumerator values, and without their names and
/// documentation.
pub proof fn law_canonical_tokens(s: SchemaModel)
    requires
        well_formed(s),
    ensures
        p_declarations(canonical_tokens(s)) == Ok::<Seq<TaggedModel>, SyntaxError>(
            erased_taggeds(declarations_of(s)),
        ),
{
    let l = declarations_of(s);
    let ts = canonical_tokens(s);
    lemma_taggeds(l, 0, ts, 0, false);
    assert(erased_taggeds(l).skip(0) =~= erased_taggeds(l));
}


proof fn lemma_writable_concat(a: Seq<TokenModel>, b: Seq<TokenModel>)
    requires
        all_writable(a),
        all_writable(b),
    ensures
        all_writable(a + b),
{
    assert forall|i: int| 0 <= i < (a + b).len() implies writable(#[trigger] (a + b)[i]) by {
        if i < a.len() {
            assert((a + b)[i] == a[i]);
        } else {
            assert((a + b)[i] == b[i - a.len()]);
        }
    }
}

proof fn lemma_writable_keyword(k: Keyword)
    ensures
        writable(keyword(k)),
{
    lemma_keyword_word(k);
}

proof fn lemma_writable_enumerators(es: Seq<EnumeratorModel>, k: int)
    requires
        0 <= k,
        forall|i: int| 0 <= i < es.len() ==> printable(#[trigger] es[i].tag),
    ensures
        all_writable(enumerator_tokens(es, k)),
    decreases es.len() - k,
{
    if k < es.len() {
        let tag = seq![TokenModel::Str(es[k].tag)];
        let value = match es[k].value {
            Some(v) => seq![punct(61)] + value_tokens(v),
            None => Seq::empty(),
        };
        let comma = if k + 1 < es.len() {
            seq![punct(44)]
        } else {
            Seq::empty()
        };
        lemma_writable_enumerators(es, k + 1);
        assert(printable(es[k].tag));
        assert(all_writable(tag));
        if let Some(v) = es[k].value {
            assert(all_writable(value_tokens(v)));
            lemma_writable_concat(seq![punct(61)], value_tokens(v));
        }
        lemma_writable_concat(tag, value);
        lemma_writable_concat(tag + value, comma);
        lemma_writable_concat(tag + value + comma, enumerator_tokens(es, k + 1));
    }
}

/// Text can hold every canonical token of a resolved item.
proof fn lemma_writable_node(n: NodeModel)
    requires
        is_resolved(n),
    ensures
        all_writable(node_tokens(n)),
    decreases n, 0nat,
{
    lemma_writable_keyword(Keyword::Scalar(Scalar::Char));
    lemma_writable_keyword(Keyword::Enum);
    lemma_writable_keyword(Keyword::Struct);
    lemma_writable_keyword(Keyword::TaggedUnion);
    lemma_writable_keyword(Keyword::TaggedStruct);
    match n {
        NodeModel::Scalar(k) => {
            lemma_writable_keyword(Keyword::Scalar(k));
        },
        NodeModel::CharArray { size } => {
            lemma_writable_concat(seq![keyword(Keyword::Scalar(Scalar::Char))], size_tokens(size));
        },
        NodeModel::Array { element, size } => {
            lemma_writable_node(*element);
            lemma_writable_concat(node_tokens(*element), size_tokens(size));
        },
        NodeModel::Enum { enumerators, .. } => {
            let head = seq![keyword(Keyword::Enum), punct(123)];
            assert forall|i: int| 0 <= i < enumerators.len() implies printable(
                #[trigger] enumerators[i].tag,
            ) by {
                assert(printable(enum_tags(enumerators)[i]));
            }
            lemma_writable_enumerators(enumerators, 0);
            lemma_writable_concat(head, enumerator_tokens(enumerators, 0));
            lemma_writable_concat(head + enumerator_tokens(enumerators, 0), seq![punct(125)]);
        },
        NodeModel::Struct { members, .. } => {
            let head = seq![keyword(Keyword::Struct), punct(123)];
            lemma_writable_members(members, 0);
            lemma_writable_concat(head, member_tokens(members, 0));
            lemma_writable_concat(head + member_tokens(members, 0), seq![punct(125)]);
        },
        NodeModel::TaggedUnion { variants, .. } => {
            let head = seq![keyword(Keyword::TaggedUnion), punct(123)];
            lemma_writable_taggeds(variants, 0);
            lemma_writable_concat(head, tagged_list_tokens(variants, 0));
            lemma_writable_concat(head + tagged_list_tokens(variants, 0), seq![punct(125)]);
        },
        NodeModel::TaggedStruct { entries, .. } => {
            let head = seq![keyword(Keyword::TaggedStruct), punct(123)];
            lemma_writable_taggeds(entries, 0);
            lemma_writable_concat(head, tagged_list_tokens(entries, 0));
            lemma_writable_concat(head + tagged_list_tokens(entries, 0), seq![punct(125)]);
        },
    }
}

proof fn lemma_writable_members(ms: Seq<MemberModel>, k: int)
    requires
        0 <= k,
        forall|i: int| 0 <= i < ms.len() ==> member_is_resolved(#[trigger] ms[i]),
    ensures
        all_writable(member_tokens(ms, k)),
    decreases ms, ms.len() - k,
{
    if k < ms.len() {
        assert(member_is_resolved(ms[k]));
        lemma_writable_node(ms[k].item);
        lemma_writable_members(ms, k + 1);
        lemma_writable_concat(node_tokens(ms[k].item), seq![punct(59)]);
        lemma_writable_concat(node_tokens(ms[k].item) + seq![punct(59)], member_tokens(ms, k + 1));
    }
}

proof fn lemma_writable_tagged(t: TaggedModel)
    requires
        member_is_resolved(t.member),
        printable(t.tag),
    ensures
        all_writable(tagged_tokens(t)),
    decreases t, 0nat,
{
    lemma_writable_keyword(Keyword::Block);
    lemma_writable_node(t.member.item);
    let head = if t.block {
        seq![keyword(Keyword::Block)]
    } else {
        Seq::empty()
    };
    let tag = seq![TokenModel::Str(t.tag)];
    let item = node_tokens(t.member.item);
    let body = match t.multiplicity {
        Multiplicity::Optional => if is_unit(t.member.item) {
            Seq::empty()
        } else {
            item
        },
        Multiplicity::Repeated => seq![punct(40)] + item + seq![punct(41), punct(42)],
        Multiplicity::One => seq![punct(40)] + item + seq![punct(41), punct(33)],
    };
    lemma_writable_concat(seq![punct(40)], item);
    lemma_writable_concat(seq![punct(40)] + item, seq![punct(41), punct(42)]);
    lemma_writable_concat(seq![punct(40)] + item, seq![punct(41), punct(33)]);
    lemma_writable_concat(head, tag);
    lemma_writable_concat(head + tag, body);
}

proof fn lemma_writable_taggeds(l: Seq<TaggedModel>, k: int)
    requires
        0 <= k,
        forall|i: int| 0 <= i < l.len() ==> member_is_resolved((#[trigger] l[i]).member),
        tags_ok(tags_of(l)),
    ensures
        all_writable(tagged_list_tokens(l, k)),
    decreases l, l.len() - k,
{
    if k < l.len() {
        assert(member_is_resolved(l[k].member));
        assert(printable(tags_of(l)[k]));
        lemma_writable_tagged(l[k]);
        lemma_writable_taggeds(l, k + 1);
        lemma_writable_concat(tagged_tokens(l[k]), seq![punct(59)]);
        lemma_writable_concat(tagged_tokens(l[k]) + seq![punct(59)], tagged_list_tokens(l, k + 1));
    }
}

/// The lexer reads the canonical text of a schema back as its canonical
/// tokens.
pub proof fn law_canonical_lex(s: SchemaModel)
    requires
        well_formed(s),
    ensures
        lex(canonical_text(s), 0) == Ok::<Seq<TokenModel>, LexError>(canonical_tokens(s)),
{
    lemma_writable_taggeds(declarations_of(s), 0);
    law_lex_text(canonical_tokens(s));
}


/// Reading the canonical text of a schema yields its top-level
/// declarations with their tags, nesting, scalar kinds, sizes,
/// multiplicities and enumerator values, and without their names and
/// documentation.
pub proof fn law_canonical_text(s: SchemaModel)
    requires
        well_formed(s),
    ensures
        crate::compiler::plain_declarations(canonical_text(s)) == Ok::<
            Seq<TaggedModel>,
            crate::compiler::ReadError,
        >(erased_taggeds(declarations_of(s))),
{
    law_canonical_lex(s);
    law_canonical_tokens(s);
}

} // verus!
