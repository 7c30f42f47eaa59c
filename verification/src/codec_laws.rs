//! What holds of decoding and encoding under a resolved schema.

use vstd::prelude::*;
use crate::ast::{MemberModel, Multiplicity, NodeModel, TaggedModel};
use crate::codec::{
    count_ok, decode_content, decode_elements, decode_entries, decode_matching, decode_members,
    decode_single, encode_content, encode_elements, encode_entries, encode_members,
    encode_occurrences, encode_single, first_stranger, index_of, is_leaf_kind, DecodeErrorModel,
};
use crate::names::{distinct, lemma_first_index, present};
use crate::resolver::{enum_tags, is_resolved, member_is_resolved, tags_of};
use crate::tree::{TreeModel, ValueModel};

verus! {

/// Every tree of the list is a tagged node that carries `tag`.
pub open spec fn all_tagged(a: Seq<TreeModel>, tag: Seq<u8>) -> bool {
    forall|i: int| 0 <= i < a.len() ==> (#[trigger] a[i]) is Tagged && a[i]->tag == tag
}

/// Among distinct tags, each is found at its own index.
pub proof fn lemma_index_of(tags: Seq<Seq<u8>>, i: int)
    requires
        distinct(tags),
        0 <= i < tags.len(),
    ensures
        index_of(tags, tags[i]) == Some(i),
{
    lemma_first_index(present(tags), Some(tags[i]), 0);
    assert(present(tags)[i] == Some(tags[i]));
    let r = index_of(tags, tags[i])->Some_0;
    if r < i {
        assert(present(tags)[r] == Some(tags[r]));
        assert(tags[r] != tags[i]);
    }
}

/// A tag that is found is found at an index of the list, where it stands.
pub proof fn lemma_index_found(tags: Seq<Seq<u8>>, tag: Seq<u8>)
    ensures
        index_of(tags, tag) matches Some(j) ==> 0 <= j < tags.len() && tags[j] == tag,
{
    lemma_first_index(present(tags), Some(tag), 0);
    if let Some(j) = index_of(tags, tag) {
        assert(present(tags)[j] == Some(tags[j]));
    }
}

proof fn lemma_stranger_concat(tags: Seq<Seq<u8>>, a: Seq<TreeModel>, b: Seq<TreeModel>)
    requires
        first_stranger(tags, a) is None,
        first_stranger(tags, b) is None,
    ensures
        first_stranger(tags, a + b) is None,
    decreases a.len(),
{
    if a.len() == 0 {
        assert(a + b =~= b);
    } else {
        assert((a + b)[0] == a[0]);
        assert((a + b).drop_first() =~= a.drop_first() + b);
        lemma_stranger_concat(tags, a.drop_first(), b);
    }
}

proof fn lemma_stranger_tagged(tags: Seq<Seq<u8>>, a: Seq<TreeModel>, tag: Seq<u8>)
    requires
        all_tagged(a, tag),
        index_of(tags, tag) is Some,
    ensures
        first_stranger(tags, a) is None,
    decreases a.len(),
{
    if a.len() > 0 {
        assert(a[0] is Tagged && a[0]->tag == tag);
        assert forall|i: int| 0 <= i < a.drop_first().len() implies (#[trigger] a.drop_first()[i])
            is Tagged && a.drop_first()[i]->tag == tag by {
            assert(a.drop_first()[i] == a[i + 1]);
        }
        lemma_stranger_tagged(tags, a.drop_first(), tag);
    }
}

proof fn lemma_matching_concat(
    entry: TaggedModel,
    a: Seq<TreeModel>,
    b: Seq<TreeModel>,
    x: Seq<ValueModel>,
    y: Seq<ValueModel>,
)
    requires
        decode_matching(entry, a) == Ok::<Seq<ValueModel>, DecodeErrorModel>(x),
        decode_matching(entry, b) == Ok::<Seq<ValueModel>, DecodeErrorModel>(y),
    ensures
        decode_matching(entry, a + b) == Ok::<Seq<ValueModel>, DecodeErrorModel>(x + y),
    decreases a.len(),
{
    if a.len() == 0 {
        assert(a + b =~= b);
        assert(x + y =~= y);
    } else {
        assert((a + b)[0] == a[0]);
        assert((a + b).drop_first() =~= a.drop_first() + b);
        let rest = decode_matching(entry, a.drop_first());
        match a[0] {
            TreeModel::Tagged { tag, children } => {
                if tag == entry.tag {
                    let v = decode_content(entry.member.item, children)->Ok_0;
                    let xr = rest->Ok_0;
                    assert(x == seq![v] + xr);
                    lemma_matching_concat(entry, a.drop_first(), b, xr, y);
                    assert(seq![v] + (xr + y) =~= x + y);
                } else {
                    lemma_matching_concat(entry, a.drop_first(), b, x, y);
                }
            },
            _ => {
                lemma_matching_concat(entry, a.drop_first(), b, x, y);
            },
        }
    }
}

proof fn lemma_matching_other(entry: TaggedModel, a: Seq<TreeModel>, tag: Seq<u8>)
    requires
        all_tagged(a, tag),
        tag != entry.tag,
    ensures
        decode_matching(entry, a) == Ok::<Seq<ValueModel>, DecodeErrorModel>(Seq::empty()),
    decreases a.len(),
{
    if a.len() > 0 {
        assert(a[0] is Tagged && a[0]->tag == tag);
        assert forall|i: int| 0 <= i < a.drop_first().len() implies (#[trigger] a.drop_first()[i])
            is Tagged && a.drop_first()[i]->tag == tag by {
            assert(a.drop_first()[i] == a[i + 1]);
        }
        lemma_matching_other(entry, a.drop_first(), tag);
    }
}

proof fn lemma_matching_own(entry: TaggedModel, a: Seq<TreeModel>, w: Seq<ValueModel>)
    requires
        all_tagged(a, entry.tag),
        a.len() == w.len(),
        forall|i: int|
            0 <= i < a.len() ==> decode_content(entry.member.item, (#[trigger] a[i])->children) == Ok::<
                ValueModel,
                DecodeErrorModel,
            >(w[i]),
    ensures
        decode_matching(entry, a) == Ok::<Seq<ValueModel>, DecodeErrorModel>(w),
    decreases a.len(),
{
    if a.len() == 0 {
        assert(w =~= Seq::empty());
    } else {
        assert(a[0] is Tagged && a[0]->tag == entry.tag);
        let a1 = a.drop_first();
        let w1 = w.drop_first();
        assert forall|i: int| 0 <= i < a1.len() implies (#[trigger] a1[i]) is Tagged && a1[i]->tag
            == entry.tag by {
            assert(a1[i] == a[i + 1]);
        }
        assert forall|i: int| 0 <= i < a1.len() implies decode_content(
            entry.member.item,
            (#[trigger] a1[i])->children,
        ) == Ok::<ValueModel, DecodeErrorModel>(w1[i]) by {
            assert(a1[i] == a[i + 1]);
            assert(w1[i] == w[i + 1]);
        }
        lemma_matching_own(entry, a1, w1);
        assert(seq![w[0]] + w1 =~= w);
    }
}

proof fn lemma_decode_elements_all(
    element: NodeModel,
    cs: Seq<TreeModel>,
    vs: Seq<ValueModel>,
    k: int,
)
    requires
        0 <= k <= cs.len(),
        cs.len() == vs.len(),
        forall|i: int|
            k <= i < cs.len() ==> decode_single(element, #[trigger] cs[i]) == Ok::<
                ValueModel,
                DecodeErrorModel,
            >(vs[i]),
    ensures
        decode_elements(element, cs, k) == Ok::<Seq<ValueModel>, DecodeErrorModel>(vs.skip(k)),
    decreases cs.len() - k,
{
    if k < cs.len() {
        lemma_decode_elements_all(element, cs, vs, k + 1);
        assert(seq![vs[k]] + vs.skip(k + 1) =~= vs.skip(k));
    } else {
        assert(vs.skip(k) =~= Seq::empty());
    }
}

proof fn lemma_decode_members_all(
    members: Seq<MemberModel>,
    cs: Seq<TreeModel>,
    vs: Seq<ValueModel>,
    k: int,
)
    requires
        0 <= k <= cs.len(),
        cs.len() == vs.len(),
        cs.len() == members.len(),
        forall|i: int|
            k <= i < cs.len() ==> decode_single(members[i].item, #[trigger] cs[i]) == Ok::<
                ValueModel,
                DecodeErrorModel,
            >(vs[i]),
    ensures
        decode_members(members, cs, k) == Ok::<Seq<ValueModel>, DecodeErrorModel>(vs.skip(k)),
    decreases cs.len() - k,
{
    if k < cs.len() {
        lemma_decode_members_all(members, cs, vs, k + 1);
        assert(seq![vs[k]] + vs.skip(k + 1) =~= vs.skip(k));
    } else {
        assert(vs.skip(k) =~= Seq::empty());
    }
}

proof fn lemma_decode_entries_all(
    entries: Seq<TaggedModel>,
    cs: Seq<TreeModel>,
    os: Seq<Seq<ValueModel>>,
    k: int,
)
    requires
        0 <= k <= entries.len(),
        os.len() == entries.len(),
        forall|m: int|
            k <= m < entries.len() ==> decode_matching(#[trigger] entries[m], cs) == Ok::<
                Seq<ValueModel>,
                DecodeErrorModel,
            >(os[m]) && count_ok(entries[m].multiplicity, os[m].len()),
    ensures
        decode_entries(entries, cs, k) == Ok::<Seq<Seq<ValueModel>>, DecodeErrorModel>(os.skip(k)),
    decreases entries.len() - k,
{
    if k < entries.len() {
        lemma_decode_entries_all(entries, cs, os, k + 1);
        assert(decode_matching(entries[k], cs) == Ok::<Seq<ValueModel>, DecodeErrorModel>(os[k]));
        assert(seq![os[k]] + os.skip(k + 1) =~= os.skip(k));
    } else {
        assert(os.skip(k) =~= Seq::empty());
    }
}

/// Under a resolved item, what encodes a value decodes to that value.
pub proof fn lemma_encode_decode(n: NodeModel, v: ValueModel)
    requires
        is_resolved(n),
    ensures
        encode_content(n, v) matches Some(cs) ==> decode_content(n, cs) == Ok::<
            ValueModel,
            DecodeErrorModel,
        >(v),
    decreases n, 0nat,
{
    if let Some(cs) = encode_content(n, v) {
        match n {
            NodeModel::Scalar(_) => {},
            NodeModel::CharArray { .. } => {},
            NodeModel::Enum { enumerators, .. } => {
                let i = v->Enum_0;
                lemma_index_of(enum_tags(enumerators), i);
            },
            NodeModel::Array { element, size } => {
                let vs = v->List_0;
                lemma_encode_elements(*element, vs, 0);
                lemma_decode_elements_all(*element, cs, vs, 0);
                assert(vs.skip(0) =~= vs);
            },
            NodeModel::Struct { members, .. } => {
                let vs = v->List_0;
                lemma_encode_members(members, vs, 0);
                lemma_decode_members_all(members, cs, vs, 0);
                assert(vs.skip(0) =~= vs);
            },
            NodeModel::TaggedUnion { variants, .. } => {
                let j = v->variant;
                lemma_index_of(tags_of(variants), j);
                assert(member_is_resolved(variants[j].member));
                if variants[j].multiplicity == Multiplicity::Repeated {
                    let vs = (*v->value)->List_0;
                    let own = seq![variants[j].tag];
                    lemma_encode_occurrences(variants[j], vs, 0);
                    assert(cs[0] is Tagged && cs[0]->tag == variants[j].tag);
                    lemma_index_of(own, 0);
                    lemma_stranger_tagged(own, cs, variants[j].tag);
                    lemma_matching_own(variants[j], cs, vs);
                } else {
                    lemma_encode_decode(variants[j].member.item, *v->value);
                }
            },
            NodeModel::TaggedStruct { entries, .. } => {
                let os = v->Tagged_0;
                lemma_encode_entries(entries, os, 0);
                lemma_decode_entries_all(entries, cs, os, 0);
                assert(os.skip(0) =~= os);
            },
        }
    }
}

/// Under a resolved item, the tree that encodes an element or a member
/// decodes to its value.
pub proof fn lemma_encode_decode_single(n: NodeModel, v: ValueModel)
    requires
        is_resolved(n),
    ensures
        encode_single(n, v) matches Some(t) ==> decode_single(n, t) == Ok::<
            ValueModel,
            DecodeErrorModel,
        >(v),
    decreases n, 1nat,
{
    lemma_encode_decode(n, v);
}

proof fn lemma_encode_elements(element: NodeModel, vs: Seq<ValueModel>, k: int)
    requires
        is_resolved(element),
        0 <= k <= vs.len(),
    ensures
        encode_elements(element, vs, k) matches Some(ts) ==> {
            &&& ts.len() == vs.len() - k
            &&& forall|i: int|
                0 <= i < ts.len() ==> decode_single(element, #[trigger] ts[i]) == Ok::<
                    ValueModel,
                    DecodeErrorModel,
                >(vs[k + i])
        },
    decreases element, 2 + vs.len() - k,
{
    if k < vs.len() {
        if let Some(ts) = encode_elements(element, vs, k) {
            let t = encode_single(element, vs[k])->Some_0;
            let rest = encode_elements(element, vs, k + 1)->Some_0;
            assert(ts == seq![t] + rest);
            lemma_encode_decode_single(element, vs[k]);
            lemma_encode_elements(element, vs, k + 1);
            assert forall|i: int| 0 <= i < ts.len() implies decode_single(element, #[trigger] ts[i])
                == Ok::<ValueModel, DecodeErrorModel>(vs[k + i]) by {
                if i > 0 {
                    assert(ts[i] == rest[i - 1]);
                }
            }
        }
    }
}

proof fn lemma_encode_members(members: Seq<MemberModel>, vs: Seq<ValueModel>, k: int)
    requires
        forall|i: int| 0 <= i < members.len() ==> member_is_resolved(#[trigger] members[i]),
        0 <= k <= vs.len(),
        vs.len() == members.len(),
    ensures
        encode_members(members, vs, k) matches Some(ts) ==> {
            &&& ts.len() == vs.len() - k
            &&& forall|i: int|
                0 <= i < ts.len() ==> decode_single(members[k + i].item, #[trigger] ts[i]) == Ok::<
                    ValueModel,
                    DecodeErrorModel,
                >(vs[k + i])
        },
    decreases members, members.len() - k,
{
    if k < vs.len() {
        if let Some(ts) = encode_members(members, vs, k) {
            let t = encode_single(members[k].item, vs[k])->Some_0;
            let rest = encode_members(members, vs, k + 1)->Some_0;
            assert(ts == seq![t] + rest);
            assert(member_is_resolved(members[k]));
            lemma_encode_decode_single(members[k].item, vs[k]);
            lemma_encode_members(members, vs, k + 1);
            assert forall|i: int| 0 <= i < ts.len() implies decode_single(
                members[k + i].item,
                #[trigger] ts[i],
            ) == Ok::<ValueModel, DecodeErrorModel>(vs[k + i]) by {
                if i > 0 {
                    assert(ts[i] == rest[i - 1]);
                }
            }
        }
    }
}

proof fn lemma_encode_occurrences(entry: TaggedModel, vs: Seq<ValueModel>, j: int)
    requires
        member_is_resolved(entry.member),
        0 <= j <= vs.len(),
    ensures
        encode_occurrences(entry, vs, j) matches Some(a) ==> {
            &&& a.len() == vs.len() - j
            &&& all_tagged(a, entry.tag)
            &&& forall|i: int|
                0 <= i < a.len() ==> decode_content(entry.member.item, (#[trigger] a[i])->children)
                    == Ok::<ValueModel, DecodeErrorModel>(vs[j + i])
        },
    decreases entry, vs.len() - j,
{
    if j < vs.len() {
        if let Some(a) = encode_occurrences(entry, vs, j) {
            let cs = encode_content(entry.member.item, vs[j])->Some_0;
            let t = TreeModel::Tagged { tag: entry.tag, children: cs };
            let rest = encode_occurrences(entry, vs, j + 1)->Some_0;
            assert(a == seq![t] + rest);
            lemma_encode_decode(entry.member.item, vs[j]);
            lemma_encode_occurrences(entry, vs, j + 1);
            assert forall|i: int| 0 <= i < a.len() implies (#[trigger] a[i]) is Tagged && a[i]->tag
                == entry.tag && decode_content(entry.member.item, a[i]->children) == Ok::<
                ValueModel,
                DecodeErrorModel,
            >(vs[j + i]) by {
                if i > 0 {
                    assert(a[i] == rest[i - 1]);
                }
            }
        }
    }
}

proof fn lemma_encode_entries(entries: Seq<TaggedModel>, os: Seq<Seq<ValueModel>>, k: int)
    requires
        forall|i: int| 0 <= i < entries.len() ==> member_is_resolved((#[trigger] entries[i]).member),
        distinct(tags_of(entries)),
        os.len() == entries.len(),
        0 <= k <= entries.len(),
    ensures
        encode_entries(entries, os, k) matches Some(ts) ==> {
            &&& first_stranger(tags_of(entries), ts) is None
            &&& forall|m: int|
                0 <= m < entries.len() ==> decode_matching(#[trigger] entries[m], ts) == Ok::<
                    Seq<ValueModel>,
                    DecodeErrorModel,
                >(
                    if m >= k {
                        os[m]
                    } else {
                        Seq::empty()
                    },
                )
            &&& forall|m: int|
                k <= m < entries.len() ==> count_ok(
                    (#[trigger] entries[m]).multiplicity,
                    os[m].len(),
                )
        },
    decreases entries, entries.len() - k,
{
    if let Some(ts) = encode_entries(entries, os, k) {
        if k < entries.len() {
            let tags = tags_of(entries);
            let a = encode_occurrences(entries[k], os[k], 0)->Some_0;
            let rest = encode_entries(entries, os, k + 1)->Some_0;
            assert(ts == a + rest);
            assert(member_is_resolved(entries[k].member));
            lemma_encode_occurrences(entries[k], os[k], 0);
            lemma_encode_entries(entries, os, k + 1);
            lemma_index_of(tags, k);
            lemma_stranger_tagged(tags, a, entries[k].tag);
            lemma_stranger_concat(tags, a, rest);
            assert forall|m: int| 0 <= m < entries.len() implies decode_matching(
                #[trigger] entries[m],
                ts,
            ) == Ok::<Seq<ValueModel>, DecodeErrorModel>(
                if m >= k {
                    os[m]
                } else {
                    Seq::empty()
                },
            ) by {
                let y: Seq<ValueModel> = if m >= k + 1 {
                    os[m]
                } else {
                    Seq::empty()
                };
                if m == k {
                    lemma_matching_own(entries[k], a, os[k]);
                    lemma_matching_concat(entries[m], a, rest, os[k], y);
                    assert(os[k] + y =~= os[k]);
                } else {
                    assert(tags[m] != tags[k]);
                    lemma_matching_other(entries[m], a, entries[k].tag);
                    lemma_matching_concat(entries[m], a, rest, Seq::empty(), y);
                    assert(Seq::<ValueModel>::empty() + y =~= y);
                }
            }
        } else {
            assert forall|m: int| 0 <= m < entries.len() implies decode_matching(
                #[trigger] entries[m],
                ts,
            ) == Ok::<Seq<ValueModel>, DecodeErrorModel>(Seq::empty()) by {}
        }
    }
}


proof fn lemma_encode_elements_some(element: NodeModel, vs: Seq<ValueModel>, k: int)
    requires
        0 <= k <= vs.len(),
        forall|i: int| k <= i < vs.len() ==> encode_single(element, #[trigger] vs[i]) is Some,
    ensures
        encode_elements(element, vs, k) is Some,
    decreases vs.len() - k,
{
    if k < vs.len() {
        assert(encode_single(element, vs[k]) is Some);
        lemma_encode_elements_some(element, vs, k + 1);
    }
}

proof fn lemma_encode_members_some(members: Seq<MemberModel>, vs: Seq<ValueModel>, k: int)
    requires
        0 <= k <= vs.len(),
        vs.len() == members.len(),
        forall|i: int|
            k <= i < vs.len() ==> encode_single(members[i].item, #[trigger] vs[i]) is Some,
    ensures
        encode_members(members, vs, k) is Some,
    decreases vs.len() - k,
{
    if k < vs.len() {
        assert(encode_single(members[k].item, vs[k]) is Some);
        lemma_encode_members_some(members, vs, k + 1);
    }
}

proof fn lemma_encode_occurrences_some(entry: TaggedModel, vs: Seq<ValueModel>, j: int)
    requires
        0 <= j <= vs.len(),
        forall|i: int|
            j <= i < vs.len() ==> encode_content(entry.member.item, #[trigger] vs[i]) is Some,
    ensures
        encode_occurrences(entry, vs, j) is Some,
    decreases vs.len() - j,
{
    if j < vs.len() {
        assert(encode_content(entry.member.item, vs[j]) is Some);
        lemma_encode_occurrences_some(entry, vs, j + 1);
    }
}

proof fn lemma_encode_entries_some(entries: Seq<TaggedModel>, os: Seq<Seq<ValueModel>>, k: int)
    requires
        0 <= k <= entries.len(),
        os.len() == entries.len(),
        forall|m: int|
            k <= m < entries.len() ==> count_ok((#[trigger] entries[m]).multiplicity, os[m].len()),
        forall|m: int, j: int|
            k <= m < entries.len() && 0 <= j < os[m].len() ==> encode_content(
                entries[m].member.item,
                #[trigger] os[m][j],
            ) is Some,
    ensures
        encode_entries(entries, os, k) is Some,
    decreases entries.len() - k,
{
    if k < entries.len() {
        assert(count_ok(entries[k].multiplicity, os[k].len()));
        assert forall|i: int| 0 <= i < os[k].len() implies encode_content(
            entries[k].member.item,
            #[trigger] os[k][i],
        ) is Some by {}
        lemma_encode_occurrences_some(entries[k], os[k], 0);
        lemma_encode_entries_some(entries, os, k + 1);
    }
}

/// What decodes from a tree is a value of the item: it can be encoded.
pub proof fn lemma_decode_typed(n: NodeModel, cs: Seq<TreeModel>)
    ensures
        decode_content(n, cs) matches Ok(v) ==> encode_content(n, v) is Some,
    decreases n, 0nat,
{
    if let Ok(v) = decode_content(n, cs) {
        match n {
            NodeModel::Scalar(_) => {},
            NodeModel::CharArray { .. } => {},
            NodeModel::Enum { enumerators, .. } => {
                let tag = cs[0]->Leaf_0->Item_0;
                lemma_index_found(enum_tags(enumerators), tag);
            },
            NodeModel::Array { element, size } => {
                lemma_typed_elements(*element, cs, 0);
                lemma_encode_elements_some(*element, v->List_0, 0);
            },
            NodeModel::Struct { members, .. } => {
                lemma_typed_members(members, cs, 0);
                lemma_encode_members_some(members, v->List_0, 0);
            },
            NodeModel::TaggedUnion { variants, .. } => {
                let tag = cs[0]->tag;
                lemma_index_found(tags_of(variants), tag);
                let j = index_of(tags_of(variants), tag)->Some_0;
                if variants[j].multiplicity == Multiplicity::Repeated {
                    lemma_typed_matching(variants[j], cs);
                    let w = decode_matching(variants[j], cs)->Ok_0;
                    assert(w.len() >= 1);
                    lemma_encode_occurrences_some(variants[j], w, 0);
                } else {
                    lemma_decode_typed(variants[j].member.item, cs[0]->children);
                }
            },
            NodeModel::TaggedStruct { entries, .. } => {
                lemma_typed_entries(entries, cs, 0);
                let os = v->Tagged_0;
                assert forall|m: int, j: int|
                    0 <= m < entries.len() && 0 <= j < os[m].len() implies encode_content(
                    entries[m].member.item,
                    #[trigger] os[m][j],
                ) is Some by {
                    assert(count_ok(entries[0 + m].multiplicity, os[m].len()));
                }
                assert forall|m: int| 0 <= m < entries.len() implies count_ok(
                    (#[trigger] entries[m]).multiplicity,
                    os[m].len(),
                ) by {
                    assert(count_ok(entries[0 + m].multiplicity, os[m].len()));
                }
                lemma_encode_entries_some(entries, os, 0);
            },
        }
    }
}

/// What decodes from the tree of an element or of a member can be encoded
/// as one.
pub proof fn lemma_decode_typed_single(n: NodeModel, t: TreeModel)
    ensures
        decode_single(n, t) matches Ok(v) ==> encode_single(n, v) is Some,
    decreases n, 1nat,
{
    if is_leaf_kind(n) {
        lemma_decode_typed(n, seq![t]);
    } else if let TreeModel::Group(cs) = t {
        lemma_decode_typed(n, cs);
    }
}

proof fn lemma_typed_elements(element: NodeModel, cs: Seq<TreeModel>, k: int)
    requires
        0 <= k <= cs.len(),
    ensures
        decode_elements(element, cs, k) matches Ok(vs) ==> {
            &&& vs.len() == cs.len() - k
            &&& forall|i: int| 0 <= i < vs.len() ==> encode_single(element, #[trigger] vs[i]) is Some
        },
    decreases element, 2 + cs.len() - k,
{
    if k < cs.len() {
        if let Ok(vs) = decode_elements(element, cs, k) {
            let v = decode_single(element, cs[k])->Ok_0;
            let rest = decode_elements(element, cs, k + 1)->Ok_0;
            assert(vs == seq![v] + rest);
            lemma_decode_typed_single(element, cs[k]);
            lemma_typed_elements(element, cs, k + 1);
            assert forall|i: int| 0 <= i < vs.len() implies encode_single(
                element,
                #[trigger] vs[i],
            ) is Some by {
                if i > 0 {
                    assert(vs[i] == rest[i - 1]);
                }
            }
        }
    }
}

proof fn lemma_typed_members(members: Seq<MemberModel>, cs: Seq<TreeModel>, k: int)
    requires
        0 <= k <= cs.len(),
        cs.len() == members.len(),
    ensures
        decode_members(members, cs, k) matches Ok(vs) ==> {
            &&& vs.len() == cs.len() - k
            &&& forall|i: int|
                0 <= i < vs.len() ==> encode_single(members[k + i].item, #[trigger] vs[i]) is Some
        },
    decreases members, members.len() - k,
{
    if k < cs.len() {
        if let Ok(vs) = decode_members(members, cs, k) {
            let v = decode_single(members[k].item, cs[k])->Ok_0;
            let rest = decode_members(members, cs, k + 1)->Ok_0;
            assert(vs == seq![v] + rest);
            lemma_decode_typed_single(members[k].item, cs[k]);
            lemma_typed_members(members, cs, k + 1);
            assert forall|i: int| 0 <= i < vs.len() implies encode_single(
                members[k + i].item,
                #[trigger] vs[i],
            ) is Some by {
                if i > 0 {
                    assert(vs[i] == rest[i - 1]);
                }
            }
        }
    }
}

proof fn lemma_typed_matching(entry: TaggedModel, cs: Seq<TreeModel>)
    ensures
        decode_matching(entry, cs) matches Ok(w) ==> forall|i: int|
            0 <= i < w.len() ==> encode_content(entry.member.item, #[trigger] w[i]) is Some,
    decreases entry, cs.len(),
{
    if cs.len() > 0 {
        if let Ok(w) = decode_matching(entry, cs) {
            lemma_typed_matching(entry, cs.drop_first());
            let rest = decode_matching(entry, cs.drop_first())->Ok_0;
            if cs[0] is Tagged && cs[0]->tag == entry.tag {
                lemma_decode_typed(entry.member.item, cs[0]->children);
                let v = decode_content(entry.member.item, cs[0]->children)->Ok_0;
                assert(w == seq![v] + rest);
                assert forall|i: int| 0 <= i < w.len() implies encode_content(
                    entry.member.item,
                    #[trigger] w[i],
                ) is Some by {
                    if i > 0 {
                        assert(w[i] == rest[i - 1]);
                    }
                }
            }
        }
    }
}

proof fn lemma_typed_entries(entries: Seq<TaggedModel>, cs: Seq<TreeModel>, k: int)
    requires
        0 <= k <= entries.len(),
    ensures
        decode_entries(entries, cs, k) matches Ok(os) ==> {
            &&& os.len() == entries.len() - k
            &&& forall|i: int|
                0 <= i < os.len() ==> count_ok(entries[k + i].multiplicity, (#[trigger] os[i]).len())
            &&& forall|i: int, j: int|
                0 <= i < os.len() && 0 <= j < os[i].len() ==> encode_content(
                    entries[k + i].member.item,
                    #[trigger] os[i][j],
                ) is Some
        },
    decreases entries, entries.len() - k,
{
    if k < entries.len() {
        if let Ok(os) = decode_entries(entries, cs, k) {
            let w = decode_matching(entries[k], cs)->Ok_0;
            let rest = decode_entries(entries, cs, k + 1)->Ok_0;
            assert(os == seq![w] + rest);
            lemma_typed_matching(entries[k], cs);
            lemma_typed_entries(entries, cs, k + 1);
            assert forall|i: int| 0 <= i < os.len() implies count_ok(
                entries[k + i].multiplicity,
                (#[trigger] os[i]).len(),
            ) by {
                if i > 0 {
                    assert(os[i] == rest[i - 1]);
                }
            }
            assert forall|i: int, j: int| 0 <= i < os.len() && 0 <= j < os[i].len() implies encode_content(
                entries[k + i].member.item,
                #[trigger] os[i][j],
            ) is Some by {
                if i > 0 {
                    assert(os[i] == rest[i - 1]);
                    assert(encode_content(entries[(k + 1) + (i - 1)].member.item, rest[i - 1][j]) is Some);
                } else {
                    assert(os[0] == w);
                }
            }
        }
    }
}

/// Decoding is idempotent under a full cycle: under a resolved item, what
/// a tree decodes to can be encoded, and what encodes it decodes to the
/// same value.
pub proof fn law_round_trip(n: NodeModel, cs: Seq<TreeModel>)
    requires
        is_resolved(n),
    ensures
        decode_content(n, cs) matches Ok(v) ==> (encode_content(n, v) matches Some(again)
            && decode_content(n, again) == Ok::<ValueModel, DecodeErrorModel>(v)),
{
    lemma_decode_typed(n, cs);
    if let Ok(v) = decode_content(n, cs) {
        lemma_encode_decode(n, v);
    }
}

/// Under every schema, what the children of a root decode to can be
/// encoded, and what encodes it decodes to the same value.
pub proof fn law_schema_round_trip(s: crate::resolver::SchemaModel, cs: Seq<TreeModel>)
    requires
        crate::resolver::well_formed(s),
    ensures
        decode_content(s.root, cs) matches Ok(v) ==> (encode_content(s.root, v) matches Some(again)
            && decode_content(s.root, again) == Ok::<ValueModel, DecodeErrorModel>(v)),
{
    law_round_trip(s.root, cs);
}

} // verus!
