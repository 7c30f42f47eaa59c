//! The declaration tree of a specification and its mathematical model.
//!
//! Every executable type has a model over `Seq` in place of `Vec`; the
//! contracts of the library are stated over the models.

use vstd::prelude::*;
use crate::bytes::{opt_bytes, clone_opt_bytes};

verus! {

/// The primitive scalar kinds of the dialect.
#[derive(Clone, Copy, Debug, PartialEq, Eq, Structural)]
pub enum Scalar {
    Char,
    Int,
    Long,
    Int64,
    UChar,
    UInt,
    ULong,
    UInt64,
    Double,
    Float,
}

/// How often a tagged item may occur.
#[derive(Clone, Copy, Debug, PartialEq, Eq, Structural)]
pub enum Multiplicity {
    /// Exactly once.
    One,
    /// At most once.
    Optional,
    /// Any number of times.
    Repeated,
}

/// One declaration form.
#[derive(Debug, PartialEq, Eq)]
pub enum Node {
    Scalar(Scalar),
    /// A fixed-length string.
    CharArray { size: usize },
    Array { element: Box<Node>, size: usize },
    Enum { name: Option<Vec<u8>>, enumerators: Vec<Enumerator> },
    Struct { name: Option<Vec<u8>>, members: Vec<Member> },
    /// Exactly one variant is active, selected by its tag.
    TaggedUnion { name: Option<Vec<u8>>, variants: Vec<Tagged> },
    /// Every entry is present as often as its multiplicity allows.
    TaggedStruct { name: Option<Vec<u8>>, entries: Vec<Tagged> },
}

/// A variant of an enumeration, with the value written for it, if any.
#[derive(Debug, PartialEq, Eq)]
pub struct Enumerator {
    pub tag: Vec<u8>,
    pub value: Option<i64>,
}

/// An item with the name and the documentation given to it, if any.
#[derive(Debug, PartialEq, Eq)]
pub struct Member {
    pub item: Node,
    pub name: Option<Vec<u8>>,
    pub doc: Option<Vec<u8>>,
}

/// A tagged declaration: a top-level block, a variant of a tagged union or
/// an entry of a tagged struct. `block` tells whether it is written with the
/// `block` keyword; a block with `multiplicity` `Repeated` is a repeatable
/// block.
#[derive(Debug, PartialEq, Eq)]
pub struct Tagged {
    pub tag: Vec<u8>,
    pub block: bool,
    pub multiplicity: Multiplicity,
    pub member: Member,
}

/// A parsed specification: the name of its root and its top-level
/// declarations.
#[derive(Debug, PartialEq, Eq)]
pub struct Specification {
    pub name: Vec<u8>,
    pub blocks: Vec<Tagged>,
}

/// The model of a [`Node`].
pub enum NodeModel {
    Scalar(Scalar),
    CharArray { size: usize },
    Array { element: Box<NodeModel>, size: usize },
    Enum { name: Option<Seq<u8>>, enumerators: Seq<EnumeratorModel> },
    Struct { name: Option<Seq<u8>>, members: Seq<MemberModel> },
    TaggedUnion { name: Option<Seq<u8>>, variants: Seq<TaggedModel> },
    TaggedStruct { name: Option<Seq<u8>>, entries: Seq<TaggedModel> },
}

/// The model of an [`Enumerator`].
pub struct EnumeratorModel {
    pub tag: Seq<u8>,
    pub value: Option<i64>,
}

/// The model of a [`Member`].
pub struct MemberModel {
    pub item: NodeModel,
    pub name: Option<Seq<u8>>,
    pub doc: Option<Seq<u8>>,
}

/// The model of a [`Tagged`] declaration.
pub struct TaggedModel {
    pub tag: Seq<u8>,
    pub block: bool,
    pub multiplicity: Multiplicity,
    pub member: MemberModel,
}

/// The model of a [`Specification`].
pub struct SpecificationModel {
    pub name: Seq<u8>,
    pub blocks: Seq<TaggedModel>,
}

/// The model of an enumerator.
pub open spec fn enumerator_model(e: Enumerator) -> EnumeratorModel {
    EnumeratorModel { tag: e.tag@, value: e.value }
}

/// The models of a list of enumerators.
pub open spec fn enumerators_model(es: Seq<Enumerator>) -> Seq<EnumeratorModel> {
    Seq::new(es.len(), |i: int| enumerator_model(es[i]))
}

/// The model of a node.
pub open spec fn node_model(n: Node) -> NodeModel
    decreases n,
{
    match n {
        Node::Scalar(k) => NodeModel::Scalar(k),
        Node::CharArray { size } => NodeModel::CharArray { size },
        Node::Array { element, size } => NodeModel::Array {
            element: Box::new(node_model(*element)),
            size,
        },
        Node::Enum { name, enumerators } => NodeModel::Enum {
            name: opt_bytes(name),
            enumerators: enumerators_model(enumerators@),
        },
        Node::Struct { name, members } => NodeModel::Struct {
            name: opt_bytes(name),
            members: members_model(members@),
        },
        Node::TaggedUnion { name, variants } => NodeModel::TaggedUnion {
            name: opt_bytes(name),
            variants: taggeds_model(variants@),
        },
        Node::TaggedStruct { name, entries } => NodeModel::TaggedStruct {
            name: opt_bytes(name),
            entries: taggeds_model(entries@),
        },
    }
}

/// The model of a member.
pub open spec fn member_model(m: Member) -> MemberModel
    decreases m,
{
    MemberModel { item: node_model(m.item), name: opt_bytes(m.name), doc: opt_bytes(m.doc) }
}

/// The models of a list of members.
pub open spec fn members_model(ms: Seq<Member>) -> Seq<MemberModel>
    decreases ms,
{
    Seq::new(
        ms.len(),
        |i: int|
            if 0 <= i < ms.len() {
                member_model(ms[i])
            } else {
                arbitrary()
            },
    )
}

/// The model of a tagged declaration.
pub open spec fn tagged_model(t: Tagged) -> TaggedModel
    decreases t,
{
    TaggedModel {
        tag: t.tag@,
        block: t.block,
        multiplicity: t.multiplicity,
        member: member_model(t.member),
    }
}

/// The models of a list of tagged declarations.
pub open spec fn taggeds_model(ts: Seq<Tagged>) -> Seq<TaggedModel>
    decreases ts,
{
    Seq::new(
        ts.len(),
        |i: int|
            if 0 <= i < ts.len() {
                tagged_model(ts[i])
            } else {
                arbitrary()
            },
    )
}

/// The models of a list of nodes.
pub open spec fn nodes_model(ns: Seq<Node>) -> Seq<NodeModel> {
    Seq::new(ns.len(), |i: int| node_model(ns[i]))
}

impl View for Node {
    type V = NodeModel;

    open spec fn view(&self) -> NodeModel {
        node_model(*self)
    }
}

impl View for Enumerator {
    type V = EnumeratorModel;

    open spec fn view(&self) -> EnumeratorModel {
        enumerator_model(*self)
    }
}

impl View for Member {
    type V = MemberModel;

    open spec fn view(&self) -> MemberModel {
        member_model(*self)
    }
}

impl View for Tagged {
    type V = TaggedModel;

    open spec fn view(&self) -> TaggedModel {
        tagged_model(*self)
    }
}

impl View for Specification {
    type V = SpecificationModel;

    open spec fn view(&self) -> SpecificationModel {
        SpecificationModel { name: self.name@, blocks: taggeds_model(self.blocks@) }
    }
}

/// Pushing an item onto a list pushes its model onto the list's model.
pub proof fn lemma_members_push(ms: Seq<Member>, m: Member)
    ensures
        members_model(ms.push(m)) == members_model(ms).push(m@),
{
    assert(members_model(ms.push(m)) =~= members_model(ms).push(m@));
}

/// Pushing a tagged declaration onto a list pushes its model onto the
/// list's model.
pub proof fn lemma_taggeds_push(ts: Seq<Tagged>, t: Tagged)
    ensures
        taggeds_model(ts.push(t)) == taggeds_model(ts).push(t@),
{
    assert(taggeds_model(ts.push(t)) =~= taggeds_model(ts).push(t@));
}

/// Pushing an enumerator onto a list pushes its model onto the list's
/// model.
pub proof fn lemma_enumerators_push(es: Seq<Enumerator>, e: Enumerator)
    ensures
        enumerators_model(es.push(e)) == enumerators_model(es).push(e@),
{
    assert(enumerators_model(es.push(e)) =~= enumerators_model(es).push(e@));
}

/// Pushing a node onto a list pushes its model onto the list's model.
pub proof fn lemma_nodes_push(ns: Seq<Node>, n: Node)
    ensures
        nodes_model(ns.push(n)) == nodes_model(ns).push(n@),
{
    assert(nodes_model(ns.push(n)) =~= nodes_model(ns).push(n@));
}

/// A deep copy of a node.
pub fn clone_node(n: &Node) -> (r: Node)
    ensures
        r@ == n@,
    decreases n,
{
    match n {
        Node::Scalar(k) => Node::Scalar(*k),
        Node::CharArray { size } => Node::CharArray { size: *size },
        Node::Array { element, size } => Node::Array {
            element: Box::new(clone_node(element)),
            size: *size,
        },
        Node::Enum { name, enumerators: variants } => {
            let mut out: Vec<Enumerator> = Vec::new();
            let mut i: usize = 0;
            while i < variants.len()
                invariant
                    i <= variants.len(),
                    enumerators_model(out@) == enumerators_model(variants@).take(i as int),
                decreases variants.len() - i,
            {
                let e = Enumerator { tag: variants[i].tag.clone(), value: variants[i].value };
                proof {
                    lemma_enumerators_push(out@, e);
                    assert(enumerators_model(variants@).take(i + 1) =~= enumerators_model(
                        variants@,
                    ).take(i as int).push(e@));
                }
                out.push(e);
                i += 1;
            }
            assert(enumerators_model(variants@).take(i as int) =~= enumerators_model(variants@));
            Node::Enum { name: clone_opt_bytes(name), enumerators: out }
        },
        Node::Struct { name, members } => {
            let mut out: Vec<Member> = Vec::new();
            let mut i: usize = 0;
            while i < members.len()
                invariant
                    i <= members.len(),
                    n is Struct,
                    n->Struct_members == *members,
                    members_model(out@) == members_model(members@).take(i as int),
                decreases members.len() - i,
            {
                let m = clone_member(&members[i]);
                proof {
                    lemma_members_push(out@, m);
                    assert(members_model(members@).take(i + 1) =~= members_model(members@).take(
                        i as int,
                    ).push(m@));
                }
                out.push(m);
                i += 1;
            }
            assert(members_model(members@).take(i as int) =~= members_model(members@));
            Node::Struct { name: clone_opt_bytes(name), members: out }
        },
        Node::TaggedUnion { name, variants } => {
            let out = clone_taggeds(variants);
            Node::TaggedUnion { name: clone_opt_bytes(name), variants: out }
        },
        Node::TaggedStruct { name, entries } => {
            let out = clone_taggeds(entries);
            Node::TaggedStruct { name: clone_opt_bytes(name), entries: out }
        },
    }
}

/// A deep copy of a member.
pub fn clone_member(m: &Member) -> (r: Member)
    ensures
        r@ == m@,
    decreases m,
{
    Member { item: clone_node(&m.item), name: clone_opt_bytes(&m.name), doc: clone_opt_bytes(&m.doc) }
}

/// A deep copy of a tagged declaration.
pub fn clone_tagged(t: &Tagged) -> (r: Tagged)
    ensures
        r@ == t@,
    decreases t,
{
    Tagged {
        tag: t.tag.clone(),
        block: t.block,
        multiplicity: t.multiplicity,
        member: clone_member(&t.member),
    }
}

/// A deep copy of a list of tagged declarations.
pub fn clone_taggeds(ts: &Vec<Tagged>) -> (r: Vec<Tagged>)
    ensures
        taggeds_model(r@) == taggeds_model(ts@),
    decreases ts,
{
    let mut out: Vec<Tagged> = Vec::new();
    let mut i: usize = 0;
    while i < ts.len()
        invariant
            i <= ts.len(),
            taggeds_model(out@) == taggeds_model(ts@).take(i as int),
        decreases ts.len() - i,
    {
        let t = clone_tagged(&ts[i]);
        proof {
            lemma_taggeds_push(out@, t);
            assert(taggeds_model(ts@).take(i + 1) =~= taggeds_model(ts@).take(i as int).push(t@));
        }
        out.push(t);
        i += 1;
    }
    assert(taggeds_model(ts@).take(i as int) =~= taggeds_model(ts@));
    out
}

} // verus!
