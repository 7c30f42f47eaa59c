//! The resolver: validation of a declaration tree, synthesis of the names
//! of anonymous declarations and members, assignment of enumeration values
//! and construction of the table of declared types.

use vstd::prelude::*;
use crate::ast::{
    clone_taggeds, enumerators_model, lemma_enumerators_push, lemma_members_push, lemma_nodes_push,
    lemma_taggeds_push, members_model, nodes_model, taggeds_model, clone_node, Enumerator,
    EnumeratorModel, Member, MemberModel, Node, NodeModel, Scalar, Specification,
    SpecificationModel, Tagged, TaggedModel,
};
use crate::bytes::{
    bytes_eq, bytes_list, clone_opt_bytes, is_valid_identifier, opt_bytes, valid_identifier,
};
use crate::lists::{lemma_prepend_end, lemma_prepend_start, lemma_prepend_step, prepend};
use crate::names::{
    derived_field, derived_name, distinct, distinct_keys, find_duplicate, find_repeat,
    keys_model, lemma_find_repeat, member_fallback, present, synthesize_field,
    synthesize_member, synthesize_name,
};

verus! {

/// Why a declaration tree is refused.
#[derive(Debug, PartialEq, Eq)]
pub enum SemanticError {
    /// Two siblings carry the same tag, at the indices `first` and `second`.
    DuplicateTag { tag: Vec<u8>, first: usize, second: usize },
    /// Two fields of a product type or two variants of a sum type carry the
    /// same name, given or synthesized.
    DuplicateName { name: Vec<u8>, first: usize, second: usize },
    /// Two declarations, at the indices `first` and `second` of the type
    /// table, carry the same name, given or synthesized.
    NameCollision { name: Vec<u8>, first: usize, second: usize },
    /// A name, given or synthesized, is no identifier.
    InvalidIdentifier { name: Vec<u8> },
    /// A tag holds a double quote and cannot be written in the plain dialect.
    InvalidTag { tag: Vec<u8> },
    /// An array of `char` elements: the fixed-length string stands for it.
    InvalidArray,
    /// The value after the largest has no representation.
    DiscriminantOverflow { tag: Vec<u8> },
}

/// The model of a [`SemanticError`].
pub enum SemanticErrorModel {
    DuplicateTag { tag: Seq<u8>, first: usize, second: usize },
    DuplicateName { name: Seq<u8>, first: usize, second: usize },
    NameCollision { name: Seq<u8>, first: usize, second: usize },
    InvalidIdentifier { name: Seq<u8> },
    InvalidTag { tag: Seq<u8> },
    InvalidArray,
    DiscriminantOverflow { tag: Seq<u8> },
}

impl View for SemanticError {
    type V = SemanticErrorModel;

    open spec fn view(&self) -> SemanticErrorModel {
        match *self {
            SemanticError::DuplicateTag { tag, first, second } => SemanticErrorModel::DuplicateTag {
                tag: tag@,
                first,
                second,
            },
            SemanticError::DuplicateName { name, first, second } => SemanticErrorModel::DuplicateName {
                name: name@,
                first,
                second,
            },
            SemanticError::NameCollision { name, first, second } => SemanticErrorModel::NameCollision {
                name: name@,
                first,
                second,
            },
            SemanticError::InvalidIdentifier { name } => SemanticErrorModel::InvalidIdentifier { name: name@ },
            SemanticError::InvalidTag { tag } => SemanticErrorModel::InvalidTag { tag: tag@ },
            SemanticError::InvalidArray => SemanticErrorModel::InvalidArray,
            SemanticError::DiscriminantOverflow { tag } => SemanticErrorModel::DiscriminantOverflow {
                tag: tag@,
            },
        }
    }
}

/// The tags of a list of tagged declarations.
pub open spec fn tags_of(ts: Seq<TaggedModel>) -> Seq<Seq<u8>> {
    Seq::new(ts.len(), |i: int| ts[i].tag)
}

/// The tags of a list of enumerators.
pub open spec fn enum_tags(es: Seq<EnumeratorModel>) -> Seq<Seq<u8>> {
    Seq::new(es.len(), |i: int| es[i].tag)
}

/// The names of a list of members.
pub open spec fn member_names(ms: Seq<MemberModel>) -> Seq<Option<Seq<u8>>> {
    Seq::new(ms.len(), |i: int| ms[i].name)
}

/// A tag that the plain dialect can write: it holds no double quote.
pub open spec fn printable(t: Seq<u8>) -> bool {
    forall|i: int| 0 <= i < t.len() ==> t[i] != 34
}

/// The first index from `k` on of a tag that is not printable.
pub open spec fn first_unprintable(tags: Seq<Seq<u8>>, k: int) -> Option<int>
    decreases tags.len() - k,
{
    if k < 0 || k >= tags.len() {
        None
    } else if !printable(tags[k]) {
        Some(k)
    } else {
        first_unprintable(tags, k + 1)
    }
}

/// What is wrong with the tags of a group of siblings, if anything: the
/// first tag that is not printable, else the first tag that repeats an
/// earlier one.
pub open spec fn tag_fault(tags: Seq<Seq<u8>>) -> Option<SemanticErrorModel> {
    match first_unprintable(tags, 0) {
        Some(k) => Some(SemanticErrorModel::InvalidTag { tag: tags[k] }),
        None => match find_repeat(present(tags), 0) {
            Some((a, b)) => Some(
                SemanticErrorModel::DuplicateTag { tag: tags[b], first: a as usize, second: b as usize },
            ),
            None => None,
        },
    }
}

/// The name of a member: the given one, else `fallback`.
pub open spec fn member_name(m: MemberModel, fallback: Seq<u8>) -> Seq<u8> {
    match m.name {
        Some(s) => s,
        None => fallback,
    }
}

/// The names of the members of a struct under `tag`: the fields of its
/// product type.
pub open spec fn struct_names(ms: Seq<MemberModel>, tag: Seq<u8>) -> Seq<Seq<u8>> {
    Seq::new(ms.len(), |i: int| member_name(ms[i], member_fallback(tag, i)))
}

/// The names of the members of tagged declarations: a given name, else the
/// field name of the tag.
pub open spec fn tagged_names(ts: Seq<TaggedModel>) -> Seq<Seq<u8>> {
    Seq::new(ts.len(), |i: int| member_name(ts[i].member, derived_field(ts[i].tag)))
}

/// The names of the variants of a sum type whose variants carry `tags`.
pub open spec fn variant_names(tags: Seq<Seq<u8>>) -> Seq<Seq<u8>> {
    Seq::new(tags.len(), |i: int| derived_name(tags[i]))
}

/// The first index from `k` on of a name that is no identifier.
pub open spec fn first_invalid(names: Seq<Seq<u8>>, k: int) -> Option<int>
    decreases names.len() - k,
{
    if k < 0 || k >= names.len() {
        None
    } else if !valid_identifier(names[k]) {
        Some(k)
    } else {
        first_invalid(names, k + 1)
    }
}

/// The first name that is no identifier, as a fault.
pub open spec fn invalid_fault(names: Seq<Seq<u8>>) -> Option<SemanticErrorModel> {
    match first_invalid(names, 0) {
        Some(k) => Some(SemanticErrorModel::InvalidIdentifier { name: names[k] }),
        None => None,
    }
}

/// The first name that repeats an earlier one, as a fault.
pub open spec fn repeat_fault(names: Seq<Seq<u8>>) -> Option<SemanticErrorModel> {
    match find_repeat(present(names), 0) {
        Some((a, b)) => Some(
            SemanticErrorModel::DuplicateName { name: names[b], first: a as usize, second: b as usize },
        ),
        None => None,
    }
}

/// What is wrong with the names of the fields of a product type or of the
/// variants of a sum type, if anything: the first name that is no
/// identifier, else the first name that repeats an earlier one.
pub open spec fn name_fault(names: Seq<Seq<u8>>) -> Option<SemanticErrorModel> {
    match invalid_fault(names) {
        Some(e) => Some(e),
        None => repeat_fault(names),
    }
}

/// The name of a declaration: the given one, else the one derived from the
/// enclosing tag; refused unless it is an identifier.
pub open spec fn resolved_name(name: Option<Seq<u8>>, tag: Seq<u8>) -> Result<
    Seq<u8>,
    SemanticErrorModel,
> {
    let n = match name {
        Some(s) => s,
        None => derived_name(tag),
    };
    if valid_identifier(n) {
        Ok(n)
    } else {
        Err(SemanticErrorModel::InvalidIdentifier { name: n })
    }
}

/// The enumerators from index `k` on with their values: the written value,
/// else `next`, which is 0 at the start and one more than the value of the
/// enumerator before otherwise.
pub open spec fn discriminants(es: Seq<EnumeratorModel>, k: int, next: int) -> Result<
    Seq<EnumeratorModel>,
    SemanticErrorModel,
>
    decreases es.len() - k,
{
    if k < 0 || k >= es.len() {
        Ok(Seq::empty())
    } else {
        let v: int = match es[k].value {
            Some(x) => x as int,
            None => next,
        };
        if v > i64::MAX {
            Err(SemanticErrorModel::DiscriminantOverflow { tag: es[k].tag })
        } else {
            prepend(
                seq![EnumeratorModel { tag: es[k].tag, value: Some(v as i64) }],
                discriminants(es, k + 1, v + 1),
            )
        }
    }
}

/// The resolved form of a node that stands under `tag`, or the first fault
/// found: at a declaration its name, then the tags of its children, then
/// the names of its variants or fields, then its children in their order.
pub open spec fn resolved_node(n: NodeModel, tag: Seq<u8>) -> Result<NodeModel, SemanticErrorModel>
    decreases n, 0nat,
{
    match n {
        NodeModel::Scalar(_) => Ok(n),
        NodeModel::CharArray { .. } => Ok(n),
        NodeModel::Array { element, size } => {
            if *element == NodeModel::Scalar(Scalar::Char) {
                Err(SemanticErrorModel::InvalidArray)
            } else {
                match resolved_node(*element, tag) {
                    Ok(e) => Ok(NodeModel::Array { element: Box::new(e), size }),
                    Err(e) => Err(e),
                }
            }
        },
        NodeModel::Enum { name, enumerators } => match resolved_name(name, tag) {
            Err(e) => Err(e),
            Ok(nm) => match tag_fault(enum_tags(enumerators)) {
                Some(e) => Err(e),
                None => match name_fault(variant_names(enum_tags(enumerators))) {
                    Some(e) => Err(e),
                    None => match discriminants(enumerators, 0, 0) {
                        Err(e) => Err(e),
                        Ok(es) => Ok(NodeModel::Enum { name: Some(nm), enumerators: es }),
                    },
                },
            },
        },
        NodeModel::Struct { name, members } => match resolved_name(name, tag) {
            Err(e) => Err(e),
            Ok(nm) => match name_fault(struct_names(members, tag)) {
                Some(e) => Err(e),
                None => match resolved_members(members, tag, 0) {
                    Err(e) => Err(e),
                    Ok(ms) => Ok(NodeModel::Struct { name: Some(nm), members: ms }),
                },
            },
        },
        NodeModel::TaggedUnion { name, variants } => match resolved_name(name, tag) {
            Err(e) => Err(e),
            Ok(nm) => match tag_fault(tags_of(variants)) {
                Some(e) => Err(e),
                None => match name_fault(variant_names(tags_of(variants))) {
                    Some(e) => Err(e),
                    None => match invalid_fault(tagged_names(variants)) {
                        Some(e) => Err(e),
                        None => match resolved_taggeds(variants, 0) {
                            Err(e) => Err(e),
                            Ok(ts) => Ok(NodeModel::TaggedUnion { name: Some(nm), variants: ts }),
                        },
                    },
                },
            },
        },
        NodeModel::TaggedStruct { name, entries } => match resolved_name(name, tag) {
            Err(e) => Err(e),
            Ok(nm) => match tag_fault(tags_of(entries)) {
                Some(e) => Err(e),
                None => match name_fault(tagged_names(entries)) {
                    Some(e) => Err(e),
                    None => match resolved_taggeds(entries, 0) {
                        Err(e) => Err(e),
                        Ok(ts) => Ok(NodeModel::TaggedStruct { name: Some(nm), entries: ts }),
                    },
                },
            },
        },
    }
}

/// The resolved form of a member that stands under `tag`: it carries its
/// name, which is the given one or else `fallback`, and its item is
/// resolved.
pub open spec fn resolved_member(m: MemberModel, tag: Seq<u8>, fallback: Seq<u8>) -> Result<
    MemberModel,
    SemanticErrorModel,
>
    decreases m, 0nat,
{
    match resolved_node(m.item, tag) {
        Err(e) => Err(e),
        Ok(item) => Ok(MemberModel { item, name: Some(member_name(m, fallback)), doc: m.doc }),
    }
}

/// The resolved forms of the members of a struct from index `k` on, or the
/// first fault found.
pub open spec fn resolved_members(ms: Seq<MemberModel>, tag: Seq<u8>, k: int) -> Result<
    Seq<MemberModel>,
    SemanticErrorModel,
>
    decreases ms, ms.len() - k,
{
    if k < 0 || k >= ms.len() {
        Ok(Seq::empty())
    } else {
        match resolved_member(ms[k], tag, member_fallback(tag, k)) {
            Err(e) => Err(e),
            Ok(m) => prepend(seq![m], resolved_members(ms, tag, k + 1)),
        }
    }
}

/// The resolved form of a tagged declaration: its member stands under its
/// own tag and is named after it unless it has a name.
pub open spec fn resolved_tagged(t: TaggedModel) -> Result<TaggedModel, SemanticErrorModel>
    decreases t, 0nat,
{
    match resolved_member(t.member, t.tag, derived_field(t.tag)) {
        Err(e) => Err(e),
        Ok(member) => Ok(
            TaggedModel { tag: t.tag, block: t.block, multiplicity: t.multiplicity, member },
        ),
    }
}

/// The resolved forms of the tagged declarations from index `k` on, or
/// the first fault found.
pub open spec fn resolved_taggeds(ts: Seq<TaggedModel>, k: int) -> Result<
    Seq<TaggedModel>,
    SemanticErrorModel,
>
    decreases ts, ts.len() - k,
{
    if k < 0 || k >= ts.len() {
        Ok(Seq::empty())
    } else {
        match resolved_tagged(ts[k]) {
            Err(e) => Err(e),
            Ok(t) => prepend(seq![t], resolved_taggeds(ts, k + 1)),
        }
    }
}

/// The declarations under a node that define a type, the node first, each
/// before what it holds.
pub open spec fn declared_types(n: NodeModel) -> Seq<NodeModel>
    decreases n, 0nat,
{
    match n {
        NodeModel::Scalar(_) => Seq::empty(),
        NodeModel::CharArray { .. } => Seq::empty(),
        NodeModel::Array { element, .. } => declared_types(*element),
        NodeModel::Enum { .. } => seq![n],
        NodeModel::Struct { members, .. } => seq![n] + declared_in_members(members, 0),
        NodeModel::TaggedUnion { variants, .. } => seq![n] + declared_in_taggeds(variants, 0),
        NodeModel::TaggedStruct { entries, .. } => seq![n] + declared_in_taggeds(entries, 0),
    }
}

/// The declarations that define a type under the members from index `k`
/// on.
pub open spec fn declared_in_members(ms: Seq<MemberModel>, k: int) -> Seq<NodeModel>
    decreases ms, ms.len() - k,
{
    if k < 0 || k >= ms.len() {
        Seq::empty()
    } else {
        declared_types(ms[k].item) + declared_in_members(ms, k + 1)
    }
}

/// The declarations that define a type under the tagged declarations from
/// index `k` on.
pub open spec fn declared_in_taggeds(ts: Seq<TaggedModel>, k: int) -> Seq<NodeModel>
    decreases ts, ts.len() - k,
{
    if k < 0 || k >= ts.len() {
        Seq::empty()
    } else {
        declared_types(ts[k].member.item) + declared_in_taggeds(ts, k + 1)
    }
}

/// The name of a declaration that defines a type.
pub open spec fn name_of(n: NodeModel) -> Option<Seq<u8>> {
    match n {
        NodeModel::Enum { name, .. } => name,
        NodeModel::Struct { name, .. } => name,
        NodeModel::TaggedUnion { name, .. } => name,
        NodeModel::TaggedStruct { name, .. } => name,
        _ => None,
    }
}

/// The names of a list of declarations.
pub open spec fn names_of(ns: Seq<NodeModel>) -> Seq<Option<Seq<u8>>> {
    Seq::new(ns.len(), |i: int| name_of(ns[i]))
}

/// A resolved specification: its root, a tagged struct that carries the
/// name of the specification and holds its top-level declarations, and the
/// table of the types that it declares.
pub struct SchemaModel {
    pub root: NodeModel,
    pub types: Seq<NodeModel>,
}

/// The root of a specification before it is resolved.
pub open spec fn root_of(s: SpecificationModel) -> NodeModel {
    NodeModel::TaggedStruct { name: Some(s.name), entries: s.blocks }
}

/// The schema of a specification, or the first fault found: a fault of the
/// tree, else the first name that two declared types share.
pub open spec fn resolved_schema(s: SpecificationModel) -> Result<SchemaModel, SemanticErrorModel> {
    match resolved_node(root_of(s), s.name) {
        Err(e) => Err(e),
        Ok(root) => {
            let types = declared_types(root);
            match find_repeat(names_of(types), 0) {
                Some((a, b)) => Err(
                    SemanticErrorModel::NameCollision {
                        name: names_of(types)[b].unwrap(),
                        first: a as usize,
                        second: b as usize,
                    },
                ),
                None => Ok(SchemaModel { root, types }),
            }
        },
    }
}

/// The tags of a group of siblings are printable and pairwise distinct.
pub open spec fn tags_ok(tags: Seq<Seq<u8>>) -> bool {
    &&& forall|i: int| 0 <= i < tags.len() ==> printable(#[trigger] tags[i])
    &&& distinct(tags)
}

/// A name that is given and is an identifier.
pub open spec fn named(name: Option<Seq<u8>>) -> bool {
    name is Some && valid_identifier(name.unwrap())
}

/// The names of the fields of a product type or of the variants of a sum
/// type are identifiers and pairwise distinct.
pub open spec fn names_ok(names: Seq<Seq<u8>>) -> bool {
    &&& forall|i: int| 0 <= i < names.len() ==> valid_identifier(#[trigger] names[i])
    &&& distinct(names)
}

/// What holds of every node of a schema: each declaration and each member
/// has a name that is an identifier, sibling tags are printable and
/// distinct, the fields of a product type and the variants of a sum type
/// have distinct names, every enumerator has a value, and no array has
/// `char` elements.
pub open spec fn is_resolved(n: NodeModel) -> bool
    decreases n,
{
    match n {
        NodeModel::Scalar(_) => true,
        NodeModel::CharArray { .. } => true,
        NodeModel::Array { element, .. } => *element != NodeModel::Scalar(Scalar::Char) && is_resolved(
            *element,
        ),
        NodeModel::Enum { name, enumerators } => {
            &&& named(name)
            &&& tags_ok(enum_tags(enumerators))
            &&& names_ok(variant_names(enum_tags(enumerators)))
            &&& forall|i: int| 0 <= i < enumerators.len() ==> (#[trigger] enumerators[i]).value is Some
        },
        NodeModel::Struct { name, members } => {
            &&& named(name)
            &&& distinct_keys(member_names(members))
            &&& forall|i: int| 0 <= i < members.len() ==> member_is_resolved(#[trigger] members[i])
        },
        NodeModel::TaggedUnion { name, variants } => {
            &&& named(name)
            &&& tags_ok(tags_of(variants))
            &&& names_ok(variant_names(tags_of(variants)))
            &&& forall|i: int|
                0 <= i < variants.len() ==> member_is_resolved((#[trigger] variants[i]).member)
        },
        NodeModel::TaggedStruct { name, entries } => {
            &&& named(name)
            &&& tags_ok(tags_of(entries))
            &&& distinct(tagged_names(entries))
            &&& forall|i: int|
                0 <= i < entries.len() ==> member_is_resolved((#[trigger] entries[i]).member)
        },
    }
}

/// What holds of every member of a schema: it has a name that is an
/// identifier, and its item is resolved.
pub open spec fn member_is_resolved(m: MemberModel) -> bool
    decreases m,
{
    named(m.name) && is_resolved(m.item)
}

/// What holds of every schema: its root is a resolved tagged struct, its
/// table lists the types declared under the root, and no two of them share
/// a name.
pub open spec fn well_formed(s: SchemaModel) -> bool {
    &&& s.root is TaggedStruct
    &&& is_resolved(s.root)
    &&& s.types == declared_types(s.root)
    &&& distinct_keys(names_of(s.types))
}

/// No tagged union and no tagged struct under the node has two siblings
/// with the same tag.
pub open spec fn sibling_tags_distinct(n: NodeModel) -> bool
    decreases n,
{
    match n {
        NodeModel::Scalar(_) => true,
        NodeModel::CharArray { .. } => true,
        NodeModel::Enum { .. } => true,
        NodeModel::Array { element, .. } => sibling_tags_distinct(*element),
        NodeModel::Struct { members, .. } => forall|i: int|
            0 <= i < members.len() ==> sibling_tags_distinct((#[trigger] members[i]).item),
        NodeModel::TaggedUnion { variants, .. } => {
            &&& distinct(tags_of(variants))
            &&& forall|i: int|
                0 <= i < variants.len() ==> sibling_tags_distinct((#[trigger] variants[i]).member.item)
        },
        NodeModel::TaggedStruct { entries, .. } => {
            &&& distinct(tags_of(entries))
            &&& forall|i: int|
                0 <= i < entries.len() ==> sibling_tags_distinct((#[trigger] entries[i]).member.item)
        },
    }
}


/// The model of a fault that may have been found.
pub open spec fn error_option(r: Option<SemanticError>) -> Option<SemanticErrorModel> {
    match r {
        Some(e) => Some(e@),
        None => None,
    }
}

/// The model of the result of resolving a name.
pub open spec fn bytes_result(r: Result<Vec<u8>, SemanticError>) -> Result<Seq<u8>, SemanticErrorModel> {
    match r {
        Ok(v) => Ok(v@),
        Err(e) => Err(e@),
    }
}

/// The model of the result of resolving a node.
pub open spec fn node_result(r: Result<Node, SemanticError>) -> Result<NodeModel, SemanticErrorModel> {
    match r {
        Ok(v) => Ok(v@),
        Err(e) => Err(e@),
    }
}

/// The model of the result of resolving a member.
pub open spec fn member_result(r: Result<Member, SemanticError>) -> Result<
    MemberModel,
    SemanticErrorModel,
> {
    match r {
        Ok(v) => Ok(v@),
        Err(e) => Err(e@),
    }
}

/// The model of the result of resolving a tagged declaration.
pub open spec fn tagged_result(r: Result<Tagged, SemanticError>) -> Result<
    TaggedModel,
    SemanticErrorModel,
> {
    match r {
        Ok(v) => Ok(v@),
        Err(e) => Err(e@),
    }
}

/// The model of the result of resolving a list of members.
pub open spec fn members_result(r: Result<Vec<Member>, SemanticError>) -> Result<
    Seq<MemberModel>,
    SemanticErrorModel,
> {
    match r {
        Ok(v) => Ok(members_model(v@)),
        Err(e) => Err(e@),
    }
}

/// The model of the result of resolving a list of tagged declarations.
pub open spec fn taggeds_result(r: Result<Vec<Tagged>, SemanticError>) -> Result<
    Seq<TaggedModel>,
    SemanticErrorModel,
> {
    match r {
        Ok(v) => Ok(taggeds_model(v@)),
        Err(e) => Err(e@),
    }
}

/// The model of the result of assigning the values of enumerators.
pub open spec fn enumerators_result(r: Result<Vec<Enumerator>, SemanticError>) -> Result<
    Seq<EnumeratorModel>,
    SemanticErrorModel,
> {
    match r {
        Ok(v) => Ok(enumerators_model(v@)),
        Err(e) => Err(e@),
    }
}

/// The model of the result of resolving a specification.
pub open spec fn schema_result(r: Result<Schema, SemanticError>) -> Result<
    SchemaModel,
    SemanticErrorModel,
> {
    match r {
        Ok(v) => Ok(v@),
        Err(e) => Err(e@),
    }
}

/// Whether a tag holds no double quote.
pub fn is_printable(t: &Vec<u8>) -> (r: bool)
    ensures
        r == printable(t@),
{
    let mut i: usize = 0;
    while i < t.len()
        invariant
            i <= t.len(),
            forall|j: int| 0 <= j < i ==> t@[j] != 34,
        decreases t.len() - i,
    {
        if t[i] == 34 {
            return false;
        }
        i += 1;
    }
    true
}

fn tags_list(ts: &Vec<Tagged>) -> (r: Vec<Vec<u8>>)
    ensures
        bytes_list(r@) == tags_of(taggeds_model(ts@)),
{
    let mut out: Vec<Vec<u8>> = Vec::new();
    let mut i: usize = 0;
    while i < ts.len()
        invariant
            i <= ts.len(),
            out.len() == i,
            forall|j: int| 0 <= j < i ==> out@[j]@ == ts@[j].tag@,
        decreases ts.len() - i,
    {
        out.push(ts[i].tag.clone());
        i += 1;
    }
    assert(bytes_list(out@) =~= tags_of(taggeds_model(ts@)));
    out
}

fn enum_tags_list(es: &Vec<Enumerator>) -> (r: Vec<Vec<u8>>)
    ensures
        bytes_list(r@) == enum_tags(enumerators_model(es@)),
{
    let mut out: Vec<Vec<u8>> = Vec::new();
    let mut i: usize = 0;
    while i < es.len()
        invariant
            i <= es.len(),
            out.len() == i,
            forall|j: int| 0 <= j < i ==> out@[j]@ == es@[j].tag@,
        decreases es.len() - i,
    {
        out.push(es[i].tag.clone());
        i += 1;
    }
    assert(bytes_list(out@) =~= enum_tags(enumerators_model(es@)));
    out
}

fn struct_name_list(ms: &Vec<Member>, tag: &Vec<u8>) -> (r: Vec<Vec<u8>>)
    ensures
        bytes_list(r@) == struct_names(members_model(ms@), tag@),
{
    let mut out: Vec<Vec<u8>> = Vec::new();
    let mut i: usize = 0;
    while i < ms.len()
        invariant
            i <= ms.len(),
            out.len() == i,
            forall|j: int|
                0 <= j < i ==> out@[j]@ == member_name(ms@[j]@, member_fallback(tag@, j)),
        decreases ms.len() - i,
    {
        let name = match &ms[i].name {
            Some(name) => name.clone(),
            None => synthesize_member(tag, i),
        };
        out.push(name);
        i += 1;
    }
    assert(bytes_list(out@) =~= struct_names(members_model(ms@), tag@));
    out
}

fn tagged_name_list(ts: &Vec<Tagged>) -> (r: Vec<Vec<u8>>)
    ensures
        bytes_list(r@) == tagged_names(taggeds_model(ts@)),
{
    let mut out: Vec<Vec<u8>> = Vec::new();
    let mut i: usize = 0;
    while i < ts.len()
        invariant
            i <= ts.len(),
            out.len() == i,
            forall|j: int|
                0 <= j < i ==> out@[j]@ == member_name(ts@[j]@.member, derived_field(ts@[j].tag@)),
        decreases ts.len() - i,
    {
        let name = match &ts[i].member.name {
            Some(name) => name.clone(),
            None => synthesize_field(&ts[i].tag),
        };
        out.push(name);
        i += 1;
    }
    assert(bytes_list(out@) =~= tagged_names(taggeds_model(ts@)));
    out
}

fn variant_name_list(tags: &Vec<Vec<u8>>) -> (r: Vec<Vec<u8>>)
    ensures
        bytes_list(r@) == variant_names(bytes_list(tags@)),
{
    let mut out: Vec<Vec<u8>> = Vec::new();
    let mut i: usize = 0;
    while i < tags.len()
        invariant
            i <= tags.len(),
            out.len() == i,
            forall|j: int| 0 <= j < i ==> out@[j]@ == derived_name(tags@[j]@),
        decreases tags.len() - i,
    {
        out.push(synthesize_name(&tags[i]));
        i += 1;
    }
    assert(bytes_list(out@) =~= variant_names(bytes_list(tags@)));
    out
}

/// The name of a declaration that defines a type.
fn node_name(n: &Node) -> (r: &Option<Vec<u8>>)
    requires
        !(n@ is Scalar),
        !(n@ is CharArray),
        !(n@ is Array),
    ensures
        opt_bytes(*r) == name_of(n@),
{
    match n {
        Node::Enum { name, .. } => name,
        Node::Struct { name, .. } => name,
        Node::TaggedUnion { name, .. } => name,
        Node::TaggedStruct { name, .. } => name,
        _ => vstd::pervasive::unreached(),
    }
}

/// Looks for a fault in the tags of a group of siblings.
pub fn check_tags(tags: &Vec<Vec<u8>>) -> (r: Option<SemanticError>)
    ensures
        error_option(r) == tag_fault(bytes_list(tags@)),
{
    let ghost model = bytes_list(tags@);
    let mut keys: Vec<Option<Vec<u8>>> = Vec::new();
    let mut k: usize = 0;
    while k < tags.len()
        invariant
            k <= tags.len(),
            keys.len() == k,
            model == bytes_list(tags@),
            first_unprintable(model, 0) == first_unprintable(model, k as int),
            forall|j: int| 0 <= j < k ==> opt_bytes(keys@[j]) == Some(tags@[j]@),
        decreases tags.len() - k,
    {
        if !is_printable(&tags[k]) {
            return Some(SemanticError::InvalidTag { tag: tags[k].clone() });
        }
        keys.push(Some(tags[k].clone()));
        k += 1;
    }
    assert(keys_model(keys@) =~= present(model));
    proof {
        lemma_find_repeat(present(model), 0);
    }
    match find_duplicate(&keys) {
        Some((a, b)) => Some(SemanticError::DuplicateTag { tag: tags[b].clone(), first: a, second: b }),
        None => None,
    }
}

/// Looks for a name that is no identifier.
pub fn check_identifiers(names: &Vec<Vec<u8>>) -> (r: Option<SemanticError>)
    ensures
        error_option(r) == invalid_fault(bytes_list(names@)),
{
    let ghost model = bytes_list(names@);
    let mut k: usize = 0;
    while k < names.len()
        invariant
            k <= names.len(),
            model == bytes_list(names@),
            first_invalid(model, 0) == first_invalid(model, k as int),
        decreases names.len() - k,
    {
        if !is_valid_identifier(&names[k]) {
            return Some(SemanticError::InvalidIdentifier { name: names[k].clone() });
        }
        k += 1;
    }
    None
}

/// Looks for a name that repeats an earlier one.
pub fn check_repeats(names: &Vec<Vec<u8>>) -> (r: Option<SemanticError>)
    ensures
        error_option(r) == repeat_fault(bytes_list(names@)),
{
    let ghost model = bytes_list(names@);
    let mut keys: Vec<Option<Vec<u8>>> = Vec::new();
    let mut k: usize = 0;
    while k < names.len()
        invariant
            k <= names.len(),
            keys.len() == k,
            forall|j: int| 0 <= j < k ==> opt_bytes(keys@[j]) == Some(names@[j]@),
        decreases names.len() - k,
    {
        keys.push(Some(names[k].clone()));
        k += 1;
    }
    assert(keys_model(keys@) =~= present(model));
    match find_duplicate(&keys) {
        Some((a, b)) => Some(
            SemanticError::DuplicateName { name: names[b].clone(), first: a, second: b },
        ),
        None => None,
    }
}

/// Looks for a fault in the names of the fields of a product type or of
/// the variants of a sum type.
pub fn check_names(names: &Vec<Vec<u8>>) -> (r: Option<SemanticError>)
    ensures
        error_option(r) == name_fault(bytes_list(names@)),
{
    match check_identifiers(names) {
        Some(e) => Some(e),
        None => check_repeats(names),
    }
}

/// The name of a declaration under `tag`: the given one, else the one
/// synthesized from the tag.
pub fn resolve_name(name: &Option<Vec<u8>>, tag: &Vec<u8>) -> (r: Result<Vec<u8>, SemanticError>)
    ensures
        bytes_result(r) == resolved_name(opt_bytes(*name), tag@),
{
    let n = match name {
        Some(s) => s.clone(),
        None => synthesize_name(tag),
    };
    if is_valid_identifier(&n) {
        Ok(n)
    } else {
        Err(SemanticError::InvalidIdentifier { name: n })
    }
}

/// Gives every enumerator its value.
pub fn assign_discriminants(es: &Vec<Enumerator>) -> (r: Result<Vec<Enumerator>, SemanticError>)
    ensures
        enumerators_result(r) == discriminants(enumerators_model(es@), 0, 0),
{
    let ghost em = enumerators_model(es@);
    let mut out: Vec<Enumerator> = Vec::new();
    let mut next: i128 = 0;
    let mut i: usize = 0;
    proof {
        lemma_prepend_start(discriminants(em, 0, 0));
        assert(enumerators_model(out@) =~= Seq::empty());
    }
    while i < es.len()
        invariant
            i <= es.len(),
            em == enumerators_model(es@),
            -0x8000_0000_0000_0000 <= next <= 0x8000_0000_0000_0000,
            discriminants(em, 0, 0) == prepend(
                enumerators_model(out@),
                discriminants(em, i as int, next as int),
            ),
        decreases es.len() - i,
    {
        let v: i128 = match es[i].value {
            Some(x) => x as i128,
            None => next,
        };
        if v > 0x7fff_ffff_ffff_ffff {
            return Err(SemanticError::DiscriminantOverflow { tag: es[i].tag.clone() });
        }
        let e = Enumerator { tag: es[i].tag.clone(), value: Some(v as i64) };
        proof {
            lemma_enumerators_push(out@, e);
            lemma_prepend_step(enumerators_model(out@), e@, discriminants(em, i + 1, v + 1));
        }
        out.push(e);
        next = v + 1;
        i += 1;
    }
    proof {
        lemma_prepend_end::<EnumeratorModel, SemanticErrorModel>(enumerators_model(out@));
    }
    Ok(out)
}

fn is_char(n: &Node) -> (r: bool)
    ensures
        r == (n@ == NodeModel::Scalar(Scalar::Char)),
{
    match n {
        Node::Scalar(k) => *k == Scalar::Char,
        _ => false,
    }
}

/// Resolves a node that stands under `tag`.
pub fn resolve_node(n: &Node, tag: &Vec<u8>) -> (r: Result<Node, SemanticError>)
    ensures
        node_result(r) == resolved_node(n@, tag@),
    decreases n,
{
    match n {
        Node::Scalar(k) => Ok(Node::Scalar(*k)),
        Node::CharArray { size } => Ok(Node::CharArray { size: *size }),
        Node::Array { element, size } => {
            if is_char(element) {
                return Err(SemanticError::InvalidArray);
            }
            match resolve_node(element, tag) {
                Ok(e) => Ok(Node::Array { element: Box::new(e), size: *size }),
                Err(e) => Err(e),
            }
        },
        Node::Enum { name, enumerators } => {
            let nm = match resolve_name(name, tag) {
                Ok(nm) => nm,
                Err(e) => {
                    return Err(e);
                },
            };
            let tags = enum_tags_list(enumerators);
            if let Some(e) = check_tags(&tags) {
                return Err(e);
            }
            if let Some(e) = check_names(&variant_name_list(&tags)) {
                return Err(e);
            }
            match assign_discriminants(enumerators) {
                Ok(es) => Ok(Node::Enum { name: Some(nm), enumerators: es }),
                Err(e) => Err(e),
            }
        },
        Node::Struct { name, members } => {
            let nm = match resolve_name(name, tag) {
                Ok(nm) => nm,
                Err(e) => {
                    return Err(e);
                },
            };
            let names = struct_name_list(members, tag);
            if let Some(e) = check_names(&names) {
                return Err(e);
            }
            match resolve_members(members, tag, names) {
                Ok(ms) => Ok(Node::Struct { name: Some(nm), members: ms }),
                Err(e) => Err(e),
            }
        },
        Node::TaggedUnion { name, variants } => {
            let nm = match resolve_name(name, tag) {
                Ok(nm) => nm,
                Err(e) => {
                    return Err(e);
                },
            };
            let tags = tags_list(variants);
            if let Some(e) = check_tags(&tags) {
                return Err(e);
            }
            if let Some(e) = check_names(&variant_name_list(&tags)) {
                return Err(e);
            }
            let names = tagged_name_list(variants);
            if let Some(e) = check_identifiers(&names) {
                return Err(e);
            }
            match resolve_taggeds(variants, names) {
                Ok(ts) => Ok(Node::TaggedUnion { name: Some(nm), variants: ts }),
                Err(e) => Err(e),
            }
        },
        Node::TaggedStruct { name, entries } => {
            let nm = match resolve_name(name, tag) {
                Ok(nm) => nm,
                Err(e) => {
                    return Err(e);
                },
            };
            let tags = tags_list(entries);
            if let Some(e) = check_tags(&tags) {
                return Err(e);
            }
            let names = tagged_name_list(entries);
            if let Some(e) = check_names(&names) {
                return Err(e);
            }
            match resolve_taggeds(entries, names) {
                Ok(ts) => Ok(Node::TaggedStruct { name: Some(nm), entries: ts }),
                Err(e) => Err(e),
            }
        },
    }
}

/// Resolves a member that stands under `tag` and carries `name`.
fn resolve_member(m: &Member, tag: &Vec<u8>, name: Vec<u8>) -> (r: Result<Member, SemanticError>)
    ensures
        forall|fallback: Seq<u8>|
            name@ == member_name(m@, fallback) ==> member_result(r) == #[trigger] resolved_member(
                m@,
                tag@,
                fallback,
            ),
    decreases m,
{
    match resolve_node(&m.item, tag) {
        Ok(item) => Ok(Member { item, name: Some(name), doc: clone_opt_bytes(&m.doc) }),
        Err(e) => Err(e),
    }
}

fn resolve_members(ms: &Vec<Member>, tag: &Vec<u8>, names: Vec<Vec<u8>>) -> (r: Result<
    Vec<Member>,
    SemanticError,
>)
    requires
        bytes_list(names@) == struct_names(members_model(ms@), tag@),
    ensures
        members_result(r) == resolved_members(members_model(ms@), tag@, 0),
    decreases ms,
{
    let ghost mm = members_model(ms@);
    let ghost nm = bytes_list(names@);
    let mut out: Vec<Member> = Vec::new();
    let mut i: usize = 0;
    proof {
        lemma_prepend_start(resolved_members(mm, tag@, 0));
        assert(members_model(out@) =~= Seq::empty());
        assert(nm.len() == names.len());
        assert(struct_names(mm, tag@).len() == ms.len());
    }
    while i < ms.len()
        invariant
            i <= ms.len(),
            names.len() == ms.len(),
            mm == members_model(ms@),
            nm == bytes_list(names@),
            nm == struct_names(mm, tag@),
            resolved_members(mm, tag@, 0) == prepend(
                members_model(out@),
                resolved_members(mm, tag@, i as int),
            ),
        decreases ms.len() - i,
    {
        assert(nm[i as int] == names@[i as int]@);
        assert(nm[i as int] == member_name(mm[i as int], member_fallback(tag@, i as int)));
        assert(mm[i as int] == ms@[i as int]@);
        let resolved = resolve_member(&ms[i], tag, names[i].clone());
        assert(member_result(resolved) == resolved_member(
            mm[i as int],
            tag@,
            member_fallback(tag@, i as int),
        ));
        match resolved {
            Err(e) => {
                return Err(e);
            },
            Ok(m) => {
                proof {
                    lemma_members_push(out@, m);
                    lemma_prepend_step(members_model(out@), m@, resolved_members(mm, tag@, i + 1));
                }
                out.push(m);
            },
        }
        i += 1;
    }
    proof {
        lemma_prepend_end::<MemberModel, SemanticErrorModel>(members_model(out@));
    }
    Ok(out)
}

/// Resolves a tagged declaration whose member carries `name`.
fn resolve_tagged(t: &Tagged, name: Vec<u8>) -> (r: Result<Tagged, SemanticError>)
    requires
        name@ == member_name(t@.member, derived_field(t@.tag)),
    ensures
        tagged_result(r) == resolved_tagged(t@),
    decreases t,
{
    let ghost fallback = derived_field(t.tag@);
    assert(name@ == member_name(t.member@, fallback));
    let r = resolve_member(&t.member, &t.tag, name);
    assert(member_result(r) == resolved_member(t.member@, t.tag@, fallback));
    match r {
        Ok(member) => Ok(
            Tagged { tag: t.tag.clone(), block: t.block, multiplicity: t.multiplicity, member },
        ),
        Err(e) => Err(e),
    }
}

fn resolve_taggeds(ts: &Vec<Tagged>, names: Vec<Vec<u8>>) -> (r: Result<Vec<Tagged>, SemanticError>)
    requires
        bytes_list(names@) == tagged_names(taggeds_model(ts@)),
    ensures
        taggeds_result(r) == resolved_taggeds(taggeds_model(ts@), 0),
    decreases ts,
{
    let ghost tm = taggeds_model(ts@);
    let ghost nm = bytes_list(names@);
    let mut out: Vec<Tagged> = Vec::new();
    let mut i: usize = 0;
    proof {
        lemma_prepend_start(resolved_taggeds(tm, 0));
        assert(taggeds_model(out@) =~= Seq::empty());
        assert(nm.len() == names.len());
        assert(tagged_names(tm).len() == ts.len());
    }
    while i < ts.len()
        invariant
            i <= ts.len(),
            names.len() == ts.len(),
            tm == taggeds_model(ts@),
            nm == bytes_list(names@),
            nm == tagged_names(tm),
            resolved_taggeds(tm, 0) == prepend(taggeds_model(out@), resolved_taggeds(tm, i as int)),
        decreases ts.len() - i,
    {
        assert(nm[i as int] == names@[i as int]@);
        assert(tm[i as int] == ts@[i as int]@);
        match resolve_tagged(&ts[i], names[i].clone()) {
            Err(e) => {
                return Err(e);
            },
            Ok(t) => {
                proof {
                    lemma_taggeds_push(out@, t);
                    lemma_prepend_step(taggeds_model(out@), t@, resolved_taggeds(tm, i + 1));
                }
                out.push(t);
            },
        }
        i += 1;
    }
    proof {
        lemma_prepend_end::<TaggedModel, SemanticErrorModel>(taggeds_model(out@));
    }
    Ok(out)
}

/// Appends to `table` a copy of every declaration under `n` that defines a
/// type.
pub fn collect_types(n: &Node, table: &mut Vec<Node>)
    ensures
        nodes_model(final(table)@) == nodes_model(old(table)@) + declared_types(n@),
    decreases n,
{
    let ghost before = nodes_model(table@);
    match n {
        Node::Scalar(_) => {
            assert(before + Seq::<NodeModel>::empty() =~= before);
        },
        Node::CharArray { .. } => {
            assert(before + Seq::<NodeModel>::empty() =~= before);
        },
        Node::Array { element, .. } => {
            collect_types(element, table);
        },
        Node::Enum { .. } => {
            let c = clone_node(n);
            proof {
                lemma_nodes_push(table@, c);
                assert(before.push(c@) =~= before + seq![n@]);
            }
            table.push(c);
        },
        Node::Struct { members, .. } => {
            let c = clone_node(n);
            proof {
                lemma_nodes_push(table@, c);
            }
            table.push(c);
            let ghost mm = members_model(members@);
            let mut i: usize = 0;
            assert(before + (seq![n@] + declared_in_members(mm, 0)) =~= before.push(n@)
                + declared_in_members(mm, 0));
            while i < members.len()
                invariant
                    i <= members.len(),
                    n is Struct,
                    n->Struct_members == *members,
                    mm == members_model(members@),
                    nodes_model(table@) + declared_in_members(mm, i as int) == before + declared_types(
                        n@,
                    ),
                decreases members.len() - i,
            {
                let ghost cur = nodes_model(table@);
                collect_types(&members[i].item, table);
                assert(cur + (declared_types(mm[i as int].item) + declared_in_members(mm, i + 1))
                    =~= (cur + declared_types(mm[i as int].item)) + declared_in_members(mm, i + 1));
                i += 1;
            }
            assert(nodes_model(table@) + Seq::<NodeModel>::empty() =~= nodes_model(table@));
        },
        Node::TaggedUnion { variants, .. } => {
            let c = clone_node(n);
            proof {
                lemma_nodes_push(table@, c);
            }
            table.push(c);
            let ghost tm = taggeds_model(variants@);
            let mut i: usize = 0;
            assert(before + (seq![n@] + declared_in_taggeds(tm, 0)) =~= before.push(n@)
                + declared_in_taggeds(tm, 0));
            while i < variants.len()
                invariant
                    i <= variants.len(),
                    n is TaggedUnion,
                    n->TaggedUnion_variants == *variants,
                    tm == taggeds_model(variants@),
                    nodes_model(table@) + declared_in_taggeds(tm, i as int) == before + declared_types(
                        n@,
                    ),
                decreases variants.len() - i,
            {
                let ghost cur = nodes_model(table@);
                collect_types(&variants[i].member.item, table);
                assert(cur + (declared_types(tm[i as int].member.item) + declared_in_taggeds(
                    tm,
                    i + 1,
                )) =~= (cur + declared_types(tm[i as int].member.item)) + declared_in_taggeds(
                    tm,
                    i + 1,
                ));
                i += 1;
            }
            assert(nodes_model(table@) + Seq::<NodeModel>::empty() =~= nodes_model(table@));
        },
        Node::TaggedStruct { entries, .. } => {
            let c = clone_node(n);
            proof {
                lemma_nodes_push(table@, c);
            }
            table.push(c);
            let ghost tm = taggeds_model(entries@);
            let mut i: usize = 0;
            assert(before + (seq![n@] + declared_in_taggeds(tm, 0)) =~= before.push(n@)
                + declared_in_taggeds(tm, 0));
            while i < entries.len()
                invariant
                    i <= entries.len(),
                    n is TaggedStruct,
                    n->TaggedStruct_entries == *entries,
                    tm == taggeds_model(entries@),
                    nodes_model(table@) + declared_in_taggeds(tm, i as int) == before + declared_types(
                        n@,
                    ),
                decreases entries.len() - i,
            {
                let ghost cur = nodes_model(table@);
                collect_types(&entries[i].member.item, table);
                assert(cur + (declared_types(tm[i as int].member.item) + declared_in_taggeds(
                    tm,
                    i + 1,
                )) =~= (cur + declared_types(tm[i as int].member.item)) + declared_in_taggeds(
                    tm,
                    i + 1,
                ));
                i += 1;
            }
            assert(nodes_model(table@) + Seq::<NodeModel>::empty() =~= nodes_model(table@));
        },
    }
}


/// A resolved, validated specification. A value of this type is well
/// formed: it can only be made by `resolve`.
#[derive(Debug)]
pub struct Schema {
    root: Node,
    types: Vec<Node>,
}

impl View for Schema {
    type V = SchemaModel;

    closed spec fn view(&self) -> SchemaModel {
        SchemaModel { root: self.root@, types: nodes_model(self.types@) }
    }
}

impl Schema {
    #[verifier::type_invariant]
    spec fn sound(&self) -> bool {
        well_formed(self@)
    }

    /// The root: a tagged struct that carries the name of the specification
    /// and holds its top-level declarations.
    pub fn root(&self) -> (r: &Node)
        ensures
            r@ == self@.root,
            well_formed(self@),
    {
        proof {
            use_type_invariant(self);
        }
        &self.root
    }

    /// The table of the declared types, each before what it holds.
    pub fn types(&self) -> (r: &Vec<Node>)
        ensures
            nodes_model(r@) == self@.types,
            well_formed(self@),
            forall|i: int| 0 <= i < r.len() ==> is_resolved(#[trigger] r@[i]@),
    {
        proof {
            use_type_invariant(self);
            crate::resolver_laws::lemma_declared_types(self@.root);
            assert forall|i: int| 0 <= i < self.types.len() implies is_resolved(
                #[trigger] self.types@[i]@,
            ) by {
                assert(self@.types[i] == self.types@[i]@);
            }
        }
        &self.types
    }

    /// The name of the specification.
    pub fn name(&self) -> (r: &Vec<u8>)
        ensures
            Some(r@) == name_of(self@.root),
    {
        proof {
            use_type_invariant(self);
        }
        match &self.root {
            Node::TaggedStruct { name: Some(name), .. } => name,
            _ => vstd::pervasive::unreached(),
        }
    }

    /// The declared type of the given name, if there is one.
    pub fn lookup(&self, name: &Vec<u8>) -> (r: Option<&Node>)
        ensures
            match r {
                Some(n) => is_resolved(n@) && exists|i: int|
                    0 <= i < self@.types.len() && #[trigger] self@.types[i] == n@ && name_of(n@)
                        == Some(name@),
                None => forall|i: int|
                    0 <= i < self@.types.len() ==> name_of(#[trigger] self@.types[i]) != Some(name@),
            },
    {
        proof {
            use_type_invariant(self);
            crate::resolver_laws::lemma_declared_types(self@.root);
        }
        let mut i: usize = 0;
        while i < self.types.len()
            invariant
                i <= self.types.len(),
                forall|j: int|
                    0 <= j < self@.types.len() ==> name_of(#[trigger] self@.types[j]) is Some
                        && is_resolved(self@.types[j]),
                forall|j: int| 0 <= j < i ==> name_of(#[trigger] self@.types[j]) != Some(name@),
            decreases self.types.len() - i,
        {
            assert(self@.types[i as int] == self.types@[i as int]@);
            assert(name_of(self@.types[i as int]) is Some);
            if let Some(n) = node_name(&self.types[i]) {
                if bytes_eq(n, name) {
                    return Some(&self.types[i]);
                }
            }
            i += 1;
        }
        None
    }
}

fn type_keys(ns: &Vec<Node>) -> (r: Vec<Option<Vec<u8>>>)
    requires
        forall|j: int| 0 <= j < ns.len() ==> name_of(#[trigger] ns@[j]@) is Some,
    ensures
        keys_model(r@) == names_of(nodes_model(ns@)),
{
    let mut out: Vec<Option<Vec<u8>>> = Vec::new();
    let mut i: usize = 0;
    while i < ns.len()
        invariant
            i <= ns.len(),
            out.len() == i,
            forall|j: int| 0 <= j < ns.len() ==> name_of(#[trigger] ns@[j]@) is Some,
            forall|j: int| 0 <= j < i ==> opt_bytes(out@[j]) == name_of(ns@[j]@),
        decreases ns.len() - i,
    {
        assert(name_of(ns@[i as int]@) is Some);
        out.push(clone_opt_bytes(node_name(&ns[i])));
        i += 1;
    }
    assert(keys_model(out@) =~= names_of(nodes_model(ns@)));
    out
}

fn table_of(root: &Node) -> (r: Vec<Node>)
    requires
        is_resolved(root@),
    ensures
        nodes_model(r@) == declared_types(root@),
        forall|j: int| 0 <= j < r.len() ==> name_of(#[trigger] r@[j]@) is Some,
{
    let mut types: Vec<Node> = Vec::new();
    assert(nodes_model(types@) =~= Seq::empty());
    collect_types(root, &mut types);
    assert(Seq::<NodeModel>::empty() + declared_types(root@) =~= declared_types(root@));
    proof {
        crate::resolver_laws::lemma_declared_types(root@);
        assert forall|j: int| 0 <= j < types.len() implies name_of(#[trigger] types@[j]@) is Some by {
            assert(nodes_model(types@)[j] == types@[j]@);
        }
    }
    types
}

/// Resolves a specification into a schema: validates it, gives every
/// anonymous declaration and member a name and every enumerator a value,
/// and lists the declared types.
pub fn resolve(spec: &Specification) -> (r: Result<Schema, SemanticError>)
    ensures
        schema_result(r) == resolved_schema(spec@),
        r matches Ok(schema) ==> well_formed(schema@),
{
    let ast = Node::TaggedStruct { name: Some(spec.name.clone()), entries: clone_taggeds(&spec.blocks) };
    assert(ast@ == root_of(spec@));
    let root = match resolve_node(&ast, &spec.name) {
        Ok(root) => root,
        Err(e) => {
            return Err(e);
        },
    };
    assert(is_resolved(root@) && root@ is TaggedStruct) by {
        crate::resolver_laws::lemma_resolved_node(ast@, spec.name@);
    }
    let types = table_of(&root);
    let keys = type_keys(&types);
    assert(find_repeat(names_of(declared_types(root@)), 0) matches Some((a, b)) ==> names_of(
        declared_types(root@),
    )[b] is Some) by {
        lemma_find_repeat(names_of(declared_types(root@)), 0);
    }
    match find_duplicate(&keys) {
        Some((a, b)) => {
            match &keys[b] {
                Some(name) => Err(
                    SemanticError::NameCollision { name: name.clone(), first: a, second: b },
                ),
                None => vstd::pervasive::unreached(),
            }
        },
        None => Ok(Schema { root, types }),
    }
}

} // verus!
