//! What holds of everything the resolver accepts.

use vstd::prelude::*;
use crate::ast::{EnumeratorModel, MemberModel, NodeModel, SpecificationModel, TaggedModel};
use crate::bytes::valid_identifier;
use crate::names::{
    distinct, lemma_find_repeat, lemma_no_repeat, lemma_no_repeat_present,
    member_fallback, present,
};
use crate::resolver::{
    declared_in_members, declared_in_taggeds, declared_types, discriminants, enum_tags,
    first_invalid, first_unprintable, invalid_fault, is_resolved, member_is_resolved,
    member_names, name_fault, name_of, names_ok, printable,
    resolved_member, resolved_members, resolved_node, resolved_schema, resolved_tagged,
    resolved_taggeds, root_of, sibling_tags_distinct, struct_names, tag_fault, tagged_names,
    tags_of, tags_ok, variant_names, well_formed,
};

verus! {

/// An item without the names of its declarations and members and the
/// values of its enumerators: what resolving leaves as it is.
pub open spec fn shape(n: NodeModel) -> NodeModel
    decreases n,
{
    match n {
        NodeModel::Scalar(_) => n,
        NodeModel::CharArray { .. } => n,
        NodeModel::Array { element, size } => NodeModel::Array {
            element: Box::new(shape(*element)),
            size,
        },
        NodeModel::Enum { enumerators, .. } => NodeModel::Enum {
            name: None,
            enumerators: Seq::new(
                enumerators.len(),
                |i: int| EnumeratorModel { tag: enumerators[i].tag, value: None },
            ),
        },
        NodeModel::Struct { members, .. } => NodeModel::Struct {
            name: None,
            members: Seq::new(
                members.len(),
                |i: int|
                    if 0 <= i < members.len() {
                        MemberModel { item: shape(members[i].item), name: None, doc: members[i].doc }
                    } else {
                        arbitrary()
                    },
            ),
        },
        NodeModel::TaggedUnion { variants, .. } => NodeModel::TaggedUnion {
            name: None,
            variants: Seq::new(
                variants.len(),
                |i: int|
                    if 0 <= i < variants.len() {
                        tagged_shape(variants[i])
                    } else {
                        arbitrary()
                    },
            ),
        },
        NodeModel::TaggedStruct { entries, .. } => NodeModel::TaggedStruct {
            name: None,
            entries: Seq::new(
                entries.len(),
                |i: int|
                    if 0 <= i < entries.len() {
                        tagged_shape(entries[i])
                    } else {
                        arbitrary()
                    },
            ),
        },
    }
}

/// A tagged declaration with the shape of its item.
pub open spec fn tagged_shape(t: TaggedModel) -> TaggedModel
    decreases t,
{
    TaggedModel {
        tag: t.tag,
        block: t.block,
        multiplicity: t.multiplicity,
        member: MemberModel { item: shape(t.member.item), name: None, doc: t.member.doc },
    }
}

proof fn lemma_first_unprintable(tags: Seq<Seq<u8>>, k: int)
    requires
        0 <= k,
    ensures
        first_unprintable(tags, k) is None ==> forall|i: int|
            k <= i < tags.len() ==> printable(#[trigger] tags[i]),
    decreases tags.len() - k,
{
    if k < tags.len() && printable(tags[k]) {
        lemma_first_unprintable(tags, k + 1);
    }
}

/// Tags without a fault are printable and pairwise distinct.
pub proof fn lemma_tag_fault(tags: Seq<Seq<u8>>)
    ensures
        tag_fault(tags) is None <==> tags_ok(tags),
{
    lemma_first_unprintable(tags, 0);
    lemma_find_repeat(present(tags), 0);
    lemma_no_repeat_present(tags);
    if tags_ok(tags) {
        lemma_unprintable_none(tags, 0);
    }
}

proof fn lemma_unprintable_none(tags: Seq<Seq<u8>>, k: int)
    requires
        0 <= k,
        forall|i: int| 0 <= i < tags.len() ==> printable(#[trigger] tags[i]),
    ensures
        first_unprintable(tags, k) is None,
    decreases tags.len() - k,
{
    if k < tags.len() {
        lemma_unprintable_none(tags, k + 1);
    }
}

proof fn lemma_first_invalid(names: Seq<Seq<u8>>, k: int)
    requires
        0 <= k,
    ensures
        first_invalid(names, k) is None <==> forall|i: int|
            k <= i < names.len() ==> valid_identifier(#[trigger] names[i]),
        first_invalid(names, k) matches Some(j) ==> k <= j < names.len(),
    decreases names.len() - k,
{
    if k < names.len() && valid_identifier(names[k]) {
        lemma_first_invalid(names, k + 1);
    }
}

/// Names without a fault are identifiers and pairwise distinct.
pub proof fn lemma_name_fault(names: Seq<Seq<u8>>)
    ensures
        invalid_fault(names) is None <==> forall|i: int|
            0 <= i < names.len() ==> valid_identifier(#[trigger] names[i]),
        name_fault(names) is None <==> names_ok(names),
{
    lemma_first_invalid(names, 0);
    lemma_find_repeat(present(names), 0);
    lemma_no_repeat_present(names);
}

/// What the assignment of values yields: as many enumerators with the same
/// tags, each with a value; a written value is kept, and an enumerator
/// without one gets `next` at index `k` and one more than the value before
/// it elsewhere.
pub proof fn lemma_discriminants(es: Seq<EnumeratorModel>, k: int, next: int)
    requires
        0 <= k <= es.len(),
        i64::MIN <= next <= i64::MAX + 1,
    ensures
        match discriminants(es, k, next) {
            Ok(r) => {
                &&& r.len() == es.len() - k
                &&& forall|i: int|
                    0 <= i < r.len() ==> {
                        &&& (#[trigger] r[i]).tag == es[k + i].tag
                        &&& r[i].value is Some
                        &&& es[k + i].value is Some ==> r[i].value == es[k + i].value
                        &&& es[k + i].value is None && i == 0 ==> r[i].value.unwrap() == next
                        &&& es[k + i].value is None && i > 0 ==> r[i].value.unwrap() == r[i
                            - 1].value.unwrap() + 1
                    }
            },
            Err(_) => true,
        },
    decreases es.len() - k,
{
    if k < es.len() {
        let v: int = match es[k].value {
            Some(x) => x as int,
            None => next,
        };
        if v <= i64::MAX {
            lemma_discriminants(es, k + 1, v + 1);
            if let Ok(rest) = discriminants(es, k + 1, v + 1) {
                let head = EnumeratorModel { tag: es[k].tag, value: Some(v as i64) };
                let r = seq![head] + rest;
                assert forall|i: int| 0 <= i < r.len() implies {
                    &&& (#[trigger] r[i]).tag == es[k + i].tag
                    &&& r[i].value is Some
                    &&& es[k + i].value is Some ==> r[i].value == es[k + i].value
                    &&& es[k + i].value is None && i == 0 ==> r[i].value.unwrap() == next
                    &&& es[k + i].value is None && i > 0 ==> r[i].value.unwrap() == r[i
                        - 1].value.unwrap() + 1
                } by {
                    if i > 0 {
                        assert(r[i] == rest[i - 1]);
                        if i > 1 {
                            assert(r[i - 1] == rest[i - 2]);
                        }
                    }
                }
            }
        }
    }
}

/// What the resolver accepts is resolved, and had no two siblings with the
/// same tag; a resolved node has the shape of the node it was made from,
/// and the name of that node where it had one.
pub proof fn lemma_resolved_node(n: NodeModel, tag: Seq<u8>)
    ensures
        match resolved_node(n, tag) {
            Ok(r) => {
                &&& is_resolved(r)
                &&& sibling_tags_distinct(n)
                &&& shape(r) == shape(n)
                &&& (name_of(n) is Some ==> name_of(r) == name_of(n))
                &&& (n is Scalar || n is CharArray ==> r == n)
                &&& (n is Array <==> r is Array)
                &&& (n is Enum <==> r is Enum)
                &&& (n is Struct <==> r is Struct)
                &&& (n is TaggedUnion <==> r is TaggedUnion)
                &&& (n is TaggedStruct <==> r is TaggedStruct)
            },
            Err(_) => true,
        },
    decreases n, 0nat,
{
    match n {
        NodeModel::Scalar(_) => {},
        NodeModel::CharArray { .. } => {},
        NodeModel::Array { element, size } => {
            lemma_resolved_node(*element, tag);
        },
        NodeModel::Enum { name, enumerators } => {
            lemma_tag_fault(enum_tags(enumerators));
            lemma_name_fault(variant_names(enum_tags(enumerators)));
            lemma_discriminants(enumerators, 0, 0);
            if let Ok(r) = resolved_node(n, tag) {
                let es = r->Enum_enumerators;
                assert(enum_tags(es) =~= enum_tags(enumerators));
                assert(shape(r)->Enum_enumerators =~= shape(n)->Enum_enumerators);
            }
        },
        NodeModel::Struct { name, members } => {
            let names = struct_names(members, tag);
            lemma_name_fault(names);
            if let Ok(r) = resolved_node(n, tag) {
                lemma_resolved_members(members, tag, 0);
                let ms = r->Struct_members;
                assert(member_names(ms) =~= present(names)) by {
                    assert forall|i: int| 0 <= i < ms.len() implies member_names(ms)[i] == present(
                        names,
                    )[i] by {
                        assert(ms[i].name == Some(names[0 + i]));
                    }
                }
                assert forall|i: int, j: int| 0 <= i < j < ms.len() implies present(names)[i]
                    != present(names)[j] by {
                    assert(names[i] != names[j]);
                }
                assert(shape(r)->Struct_members =~= shape(n)->Struct_members);
            }
        },
        NodeModel::TaggedUnion { name, variants } => {
            lemma_tag_fault(tags_of(variants));
            lemma_name_fault(variant_names(tags_of(variants)));
            lemma_name_fault(tagged_names(variants));
            if let Ok(r) = resolved_node(n, tag) {
                lemma_resolved_taggeds(variants, 0);
                let ts = r->TaggedUnion_variants;
                assert(tags_of(ts) =~= tags_of(variants));
                assert forall|i: int| 0 <= i < ts.len() implies tagged_shape(#[trigger] ts[i])
                    == tagged_shape(variants[i]) by {
                    assert(ts[i].tag == variants[0 + i].tag);
                }
                assert(shape(r)->TaggedUnion_variants =~= shape(n)->TaggedUnion_variants);
            }
        },
        NodeModel::TaggedStruct { name, entries } => {
            lemma_tag_fault(tags_of(entries));
            lemma_name_fault(tagged_names(entries));
            if let Ok(r) = resolved_node(n, tag) {
                lemma_resolved_taggeds(entries, 0);
                let ts = r->TaggedStruct_entries;
                assert(tags_of(ts) =~= tags_of(entries));
                assert(tagged_names(ts) =~= tagged_names(entries)) by {
                    assert forall|i: int| 0 <= i < ts.len() implies tagged_names(ts)[i]
                        == tagged_names(entries)[i] by {
                        assert(ts[i].member.name == Some(tagged_names(entries)[0 + i]));
                    }
                }
                assert forall|i: int| 0 <= i < ts.len() implies tagged_shape(#[trigger] ts[i])
                    == tagged_shape(entries[i]) by {
                    assert(ts[i].tag == entries[0 + i].tag);
                }
                assert(shape(r)->TaggedStruct_entries =~= shape(n)->TaggedStruct_entries);
            }
        },
    }
}

proof fn lemma_resolved_members(ms: Seq<MemberModel>, tag: Seq<u8>, k: int)
    requires
        0 <= k <= ms.len(),
        forall|i: int|
            0 <= i < ms.len() ==> valid_identifier(#[trigger] struct_names(ms, tag)[i]),
    ensures
        match resolved_members(ms, tag, k) {
            Ok(r) => {
                &&& r.len() == ms.len() - k
                &&& forall|i: int|
                    0 <= i < r.len() ==> {
                        &&& member_is_resolved(#[trigger] r[i])
                        &&& r[i].name == Some(struct_names(ms, tag)[k + i])
                        &&& r[i].doc == ms[k + i].doc
                        &&& shape(r[i].item) == shape(ms[k + i].item)
                    }
                &&& forall|i: int| k <= i < ms.len() ==> sibling_tags_distinct((#[trigger] ms[i]).item)
            },
            Err(_) => true,
        },
    decreases ms, ms.len() - k,
{
    if k < ms.len() {
        lemma_resolved_node(ms[k].item, tag);
        lemma_resolved_members(ms, tag, k + 1);
        if let Ok(r) = resolved_members(ms, tag, k) {
            let rest = resolved_members(ms, tag, k + 1)->Ok_0;
            let m = resolved_member(ms[k], tag, member_fallback(tag, k))->Ok_0;
            assert(r == seq![m] + rest);
            assert(r[0] == m);
            assert(valid_identifier(struct_names(ms, tag)[k]));
            assert(member_is_resolved(m));
            assert forall|i: int| 0 <= i < r.len() implies {
                &&& member_is_resolved(#[trigger] r[i])
                &&& r[i].name == Some(struct_names(ms, tag)[k + i])
                &&& r[i].doc == ms[k + i].doc
                &&& shape(r[i].item) == shape(ms[k + i].item)
            } by {
                if i > 0 {
                    assert(r[i] == rest[i - 1]);
                }
            }
        }
    }
}

proof fn lemma_resolved_taggeds(ts: Seq<TaggedModel>, k: int)
    requires
        0 <= k <= ts.len(),
        forall|i: int| 0 <= i < ts.len() ==> valid_identifier(#[trigger] tagged_names(ts)[i]),
    ensures
        match resolved_taggeds(ts, k) {
            Ok(r) => {
                &&& r.len() == ts.len() - k
                &&& forall|i: int|
                    0 <= i < r.len() ==> {
                        &&& member_is_resolved((#[trigger] r[i]).member)
                        &&& r[i].tag == ts[k + i].tag
                        &&& r[i].block == ts[k + i].block
                        &&& r[i].multiplicity == ts[k + i].multiplicity
                        &&& r[i].member.name == Some(tagged_names(ts)[k + i])
                        &&& r[i].member.doc == ts[k + i].member.doc
                        &&& shape(r[i].member.item) == shape(ts[k + i].member.item)
                    }
                &&& forall|i: int|
                    k <= i < ts.len() ==> sibling_tags_distinct((#[trigger] ts[i]).member.item)
            },
            Err(_) => true,
        },
    decreases ts, ts.len() - k,
{
    if k < ts.len() {
        lemma_resolved_node(ts[k].member.item, ts[k].tag);
        lemma_resolved_taggeds(ts, k + 1);
        if let Ok(r) = resolved_taggeds(ts, k) {
            let rest = resolved_taggeds(ts, k + 1)->Ok_0;
            let t = resolved_tagged(ts[k])->Ok_0;
            assert(r == seq![t] + rest);
            assert(r[0] == t);
            assert(valid_identifier(tagged_names(ts)[k]));
            assert(member_is_resolved(t.member));
            assert forall|i: int| 0 <= i < r.len() implies {
                &&& member_is_resolved((#[trigger] r[i]).member)
                &&& r[i].tag == ts[k + i].tag
                &&& r[i].block == ts[k + i].block
                &&& r[i].multiplicity == ts[k + i].multiplicity
                &&& r[i].member.name == Some(tagged_names(ts)[k + i])
                &&& r[i].member.doc == ts[k + i].member.doc
                &&& shape(r[i].member.item) == shape(ts[k + i].member.item)
            } by {
                if i > 0 {
                    assert(r[i] == rest[i - 1]);
                }
            }
        }
    }
}

/// Every entry of the type table of a resolved node is a resolved
/// declaration with a name.
pub proof fn lemma_declared_types(n: NodeModel)
    requires
        is_resolved(n),
    ensures
        forall|i: int|
            0 <= i < declared_types(n).len() ==> name_of(#[trigger] declared_types(n)[i]) is Some
                && is_resolved(declared_types(n)[i]),
    decreases n, 0nat,
{
    match n {
        NodeModel::Scalar(_) => {},
        NodeModel::CharArray { .. } => {},
        NodeModel::Array { element, .. } => {
            lemma_declared_types(*element);
        },
        NodeModel::Enum { .. } => {},
        NodeModel::Struct { members, .. } => {
            lemma_declared_in_members(members, 0);
        },
        NodeModel::TaggedUnion { variants, .. } => {
            lemma_declared_in_taggeds(variants, 0);
        },
        NodeModel::TaggedStruct { entries, .. } => {
            lemma_declared_in_taggeds(entries, 0);
        },
    }
}

proof fn lemma_declared_in_members(ms: Seq<MemberModel>, k: int)
    requires
        0 <= k <= ms.len(),
        forall|i: int| 0 <= i < ms.len() ==> member_is_resolved(#[trigger] ms[i]),
    ensures
        forall|i: int|
            0 <= i < declared_in_members(ms, k).len() ==> name_of(
                #[trigger] declared_in_members(ms, k)[i],
            ) is Some && is_resolved(declared_in_members(ms, k)[i]),
    decreases ms, ms.len() - k,
{
    if k < ms.len() {
        assert(member_is_resolved(ms[k]));
        lemma_declared_types(ms[k].item);
        lemma_declared_in_members(ms, k + 1);
    }
}

proof fn lemma_declared_in_taggeds(ts: Seq<TaggedModel>, k: int)
    requires
        0 <= k <= ts.len(),
        forall|i: int| 0 <= i < ts.len() ==> member_is_resolved((#[trigger] ts[i]).member),
    ensures
        forall|i: int|
            0 <= i < declared_in_taggeds(ts, k).len() ==> name_of(
                #[trigger] declared_in_taggeds(ts, k)[i],
            ) is Some && is_resolved(declared_in_taggeds(ts, k)[i]),
    decreases ts, ts.len() - k,
{
    if k < ts.len() {
        assert(member_is_resolved(ts[k].member));
        lemma_declared_types(ts[k].member.item);
        lemma_declared_in_taggeds(ts, k + 1);
    }
}

/// Every schema that the resolver yields is well formed.
pub proof fn law_schema_well_formed(s: SpecificationModel)
    ensures
        resolved_schema(s) matches Ok(schema) ==> well_formed(schema),
{
    lemma_resolved_node(root_of(s), s.name);
    if let Ok(root) = resolved_node(root_of(s), s.name) {
        lemma_no_repeat(crate::resolver::names_of(declared_types(root)));
    }
}

/// The resolver refuses every tree in which two siblings of a tagged union
/// or of a tagged struct share a tag.
pub proof fn law_sibling_tags(n: NodeModel, tag: Seq<u8>)
    requires
        !sibling_tags_distinct(n),
    ensures
        resolved_node(n, tag) is Err,
{
    lemma_resolved_node(n, tag);
}

/// The resolver refuses every specification in which two siblings share a
/// tag, and in every schema that it yields no two siblings share one.
pub proof fn law_schema_tags(s: SpecificationModel)
    ensures
        resolved_schema(s) matches Ok(schema) ==> sibling_tags_distinct(root_of(s))
            && sibling_tags_distinct(schema.root),
{
    lemma_resolved_node(root_of(s), s.name);
    if let Ok(schema) = resolved_schema(s) {
        lemma_resolved_distinct(schema.root);
    }
}

/// In a resolved node no two siblings share a tag.
pub proof fn lemma_resolved_distinct(n: NodeModel)
    requires
        is_resolved(n),
    ensures
        sibling_tags_distinct(n),
    decreases n,
{
    match n {
        NodeModel::Scalar(_) => {},
        NodeModel::CharArray { .. } => {},
        NodeModel::Enum { .. } => {},
        NodeModel::Array { element, .. } => {
            lemma_resolved_distinct(*element);
        },
        NodeModel::Struct { members, .. } => {
            assert forall|i: int| 0 <= i < members.len() implies sibling_tags_distinct(
                (#[trigger] members[i]).item,
            ) by {
                assert(member_is_resolved(members[i]));
                lemma_resolved_distinct(members[i].item);
            }
        },
        NodeModel::TaggedUnion { variants, .. } => {
            assert forall|i: int| 0 <= i < variants.len() implies sibling_tags_distinct(
                (#[trigger] variants[i]).member.item,
            ) by {
                assert(member_is_resolved(variants[i].member));
                lemma_resolved_distinct(variants[i].member.item);
            }
        },
        NodeModel::TaggedStruct { entries, .. } => {
            assert forall|i: int| 0 <= i < entries.len() implies sibling_tags_distinct(
                (#[trigger] entries[i]).member.item,
            ) by {
                assert(member_is_resolved(entries[i].member));
                lemma_resolved_distinct(entries[i].member.item);
            }
        },
    }
}

/// In every enumeration that the resolver yields each enumerator has a
/// value: the written one where there is one; else 0 for the first, and for
/// every other one more than the value of the enumerator before it, which
/// is therefore strictly smaller.
pub proof fn law_enum_values(name: Option<Seq<u8>>, enumerators: Seq<EnumeratorModel>, tag: Seq<u8>)
    ensures
        resolved_node(NodeModel::Enum { name, enumerators }, tag) matches Ok(r) ==> {
            &&& r matches NodeModel::Enum { enumerators: es, .. }
            &&& es.len() == enumerators.len()
            &&& forall|i: int|
                0 <= i < es.len() ==> {
                    &&& (#[trigger] es[i]).tag == enumerators[i].tag
                    &&& es[i].value is Some
                    &&& enumerators[i].value is Some ==> es[i].value == enumerators[i].value
                    &&& enumerators[i].value is None && i == 0 ==> es[i].value == Some(0i64)
                    &&& enumerators[i].value is None && i > 0 ==> es[i].value.unwrap() == es[i
                        - 1].value.unwrap() + 1 && es[i].value.unwrap() > es[i - 1].value.unwrap()
                }
        },
{
    lemma_discriminants(enumerators, 0, 0);
}


/// Resolving changes nothing but names and the values of enumerators: the
/// schema has the shape of the specification, with its tags, multiplicities
/// and documentation, and every declaration that had a name keeps it.
pub proof fn law_resolved_shape(n: NodeModel, tag: Seq<u8>)
    ensures
        resolved_node(n, tag) matches Ok(r) ==> shape(r) == shape(n) && (name_of(n) is Some
            ==> name_of(r) == name_of(n)),
{
    lemma_resolved_node(n, tag);
}

} // verus!
