//! The type definitions that a schema declares: a product type for every
//! struct and tagged struct, a sum type for every tagged union and
//! enumeration.

use vstd::prelude::*;
use crate::ast::{
    enumerators_model, members_model, nodes_model, taggeds_model, EnumeratorModel, MemberModel,
    Multiplicity, Node, NodeModel, Scalar, TaggedModel,
};
use crate::bytes::{clone_opt_bytes, opt_bytes};
use crate::names::{derived_name, synthesize_name};
use crate::resolver::Schema;

verus! {

/// The type of a field or of the payload of a variant.
#[derive(Debug, PartialEq, Eq)]
pub enum TypeRef {
    Scalar(Scalar),
    /// A string of at most `size` bytes.
    Text { size: usize },
    Array { element: Box<TypeRef>, size: usize },
    /// A declared type, by its name.
    Named(Vec<u8>),
}

/// A field of a product type: a member of a struct, or an entry of a
/// tagged struct with its tag and its multiplicity.
#[derive(Debug, PartialEq, Eq)]
pub struct Field {
    pub name: Vec<u8>,
    pub tag: Option<Vec<u8>>,
    pub multiplicity: Multiplicity,
    pub ty: TypeRef,
    pub doc: Option<Vec<u8>>,
}

/// A variant of a sum type: a variant of a tagged union with its payload,
/// or an enumerator with its value.
#[derive(Debug, PartialEq, Eq)]
pub struct Variant {
    pub name: Vec<u8>,
    pub tag: Vec<u8>,
    pub payload: Option<TypeRef>,
    pub discriminant: Option<i64>,
}

/// The definition of a type: a product of fields or a sum of variants.
#[derive(Debug, PartialEq, Eq)]
pub enum TypeDef {
    Product { name: Vec<u8>, fields: Vec<Field> },
    Sum { name: Vec<u8>, variants: Vec<Variant> },
}

/// The model of a [`TypeRef`].
pub enum TypeRefModel {
    Scalar(Scalar),
    Text { size: usize },
    Array { element: Box<TypeRefModel>, size: usize },
    Named(Seq<u8>),
}

/// The model of a [`Field`].
pub struct FieldModel {
    pub name: Seq<u8>,
    pub tag: Option<Seq<u8>>,
    pub multiplicity: Multiplicity,
    pub ty: TypeRefModel,
    pub doc: Option<Seq<u8>>,
}

/// The model of a [`Variant`].
pub struct VariantModel {
    pub name: Seq<u8>,
    pub tag: Seq<u8>,
    pub payload: Option<TypeRefModel>,
    pub discriminant: Option<i64>,
}

/// The model of a [`TypeDef`].
pub enum TypeDefModel {
    Product { name: Seq<u8>, fields: Seq<FieldModel> },
    Sum { name: Seq<u8>, variants: Seq<VariantModel> },
}

/// The model of a type reference.
pub open spec fn type_ref_model(t: TypeRef) -> TypeRefModel
    decreases t,
{
    match t {
        TypeRef::Scalar(k) => TypeRefModel::Scalar(k),
        TypeRef::Text { size } => TypeRefModel::Text { size },
        TypeRef::Array { element, size } => TypeRefModel::Array {
            element: Box::new(type_ref_model(*element)),
            size,
        },
        TypeRef::Named(name) => TypeRefModel::Named(name@),
    }
}

impl View for TypeRef {
    type V = TypeRefModel;

    open spec fn view(&self) -> TypeRefModel {
        type_ref_model(*self)
    }
}

impl View for Field {
    type V = FieldModel;

    open spec fn view(&self) -> FieldModel {
        FieldModel {
            name: self.name@,
            tag: opt_bytes(self.tag),
            multiplicity: self.multiplicity,
            ty: self.ty@,
            doc: opt_bytes(self.doc),
        }
    }
}

impl View for Variant {
    type V = VariantModel;

    open spec fn view(&self) -> VariantModel {
        VariantModel {
            name: self.name@,
            tag: self.tag@,
            payload: match self.payload {
                Some(t) => Some(t@),
                None => None,
            },
            discriminant: self.discriminant,
        }
    }
}

/// The models of a list of fields.
pub open spec fn fields_model(fs: Seq<Field>) -> Seq<FieldModel> {
    Seq::new(fs.len(), |i: int| fs[i]@)
}

/// The models of a list of variants.
pub open spec fn variants_model(vs: Seq<Variant>) -> Seq<VariantModel> {
    Seq::new(vs.len(), |i: int| vs[i]@)
}

impl View for TypeDef {
    type V = TypeDefModel;

    open spec fn view(&self) -> TypeDefModel {
        match *self {
            TypeDef::Product { name, fields } => TypeDefModel::Product {
                name: name@,
                fields: fields_model(fields@),
            },
            TypeDef::Sum { name, variants } => TypeDefModel::Sum {
                name: name@,
                variants: variants_model(variants@),
            },
        }
    }
}

/// The name of a declaration, or the empty name where it has none.
pub open spec fn declared_name(name: Option<Seq<u8>>) -> Seq<u8> {
    match name {
        Some(s) => s,
        None => Seq::empty(),
    }
}

/// The type by which an item is referred to: a scalar and a string by
/// themselves, an array by its element, a declaration by its name.
pub open spec fn type_ref(n: NodeModel) -> TypeRefModel
    decreases n,
{
    match n {
        NodeModel::Scalar(k) => TypeRefModel::Scalar(k),
        NodeModel::CharArray { size } => TypeRefModel::Text { size },
        NodeModel::Array { element, size } => TypeRefModel::Array {
            element: Box::new(type_ref(*element)),
            size,
        },
        NodeModel::Enum { name, .. } => TypeRefModel::Named(declared_name(name)),
        NodeModel::Struct { name, .. } => TypeRefModel::Named(declared_name(name)),
        NodeModel::TaggedUnion { name, .. } => TypeRefModel::Named(declared_name(name)),
        NodeModel::TaggedStruct { name, .. } => TypeRefModel::Named(declared_name(name)),
    }
}

/// The field of a member of a struct: it occurs once and carries the name
/// and the documentation of the member.
pub open spec fn member_field(m: MemberModel) -> FieldModel {
    FieldModel {
        name: declared_name(m.name),
        tag: None,
        multiplicity: Multiplicity::One,
        ty: type_ref(m.item),
        doc: m.doc,
    }
}

/// The field of an entry of a tagged struct.
pub open spec fn entry_field(t: TaggedModel) -> FieldModel {
    FieldModel {
        name: declared_name(t.member.name),
        tag: Some(t.tag),
        multiplicity: t.multiplicity,
        ty: type_ref(t.member.item),
        doc: t.member.doc,
    }
}

/// The variant of a variant of a tagged union: named after its tag, with
/// its item as payload.
pub open spec fn union_variant(t: TaggedModel) -> VariantModel {
    VariantModel {
        name: derived_name(t.tag),
        tag: t.tag,
        payload: Some(type_ref(t.member.item)),
        discriminant: None,
    }
}

/// The variant of an enumerator: named after its tag, with its value.
pub open spec fn enum_variant(e: EnumeratorModel) -> VariantModel {
    VariantModel { name: derived_name(e.tag), tag: e.tag, payload: None, discriminant: e.value }
}

/// The type that a declaration defines: a product type with one field per
/// member or entry in their order, or a sum type with one variant per
/// variant or enumerator in their order. A scalar, a string and an array
/// define none.
pub open spec fn definition(n: NodeModel) -> Option<TypeDefModel> {
    match n {
        NodeModel::Struct { name, members } => Some(
            TypeDefModel::Product {
                name: declared_name(name),
                fields: Seq::new(members.len(), |i: int| member_field(members[i])),
            },
        ),
        NodeModel::TaggedStruct { name, entries } => Some(
            TypeDefModel::Product {
                name: declared_name(name),
                fields: Seq::new(entries.len(), |i: int| entry_field(entries[i])),
            },
        ),
        NodeModel::TaggedUnion { name, variants } => Some(
            TypeDefModel::Sum {
                name: declared_name(name),
                variants: Seq::new(variants.len(), |i: int| union_variant(variants[i])),
            },
        ),
        NodeModel::Enum { name, enumerators } => Some(
            TypeDefModel::Sum {
                name: declared_name(name),
                variants: Seq::new(enumerators.len(), |i: int| enum_variant(enumerators[i])),
            },
        ),
        _ => None,
    }
}

/// The definitions of the declarations of a list, in their order.
pub open spec fn definitions(ns: Seq<NodeModel>) -> Seq<Option<TypeDefModel>> {
    Seq::new(ns.len(), |i: int| definition(ns[i]))
}

/// The model of a definition that may be there.
pub open spec fn type_def_option(r: Option<TypeDef>) -> Option<TypeDefModel> {
    match r {
        Some(d) => Some(d@),
        None => None,
    }
}

fn name_or_empty(name: &Option<Vec<u8>>) -> (r: Vec<u8>)
    ensures
        r@ == declared_name(opt_bytes(*name)),
{
    match name {
        Some(s) => s.clone(),
        None => Vec::new(),
    }
}

/// The type by which an item is referred to.
pub fn reference(n: &Node) -> (r: TypeRef)
    ensures
        r@ == type_ref(n@),
    decreases n,
{
    match n {
        Node::Scalar(k) => TypeRef::Scalar(*k),
        Node::CharArray { size } => TypeRef::Text { size: *size },
        Node::Array { element, size } => TypeRef::Array {
            element: Box::new(reference(element)),
            size: *size,
        },
        Node::Enum { name, .. } => TypeRef::Named(name_or_empty(name)),
        Node::Struct { name, .. } => TypeRef::Named(name_or_empty(name)),
        Node::TaggedUnion { name, .. } => TypeRef::Named(name_or_empty(name)),
        Node::TaggedStruct { name, .. } => TypeRef::Named(name_or_empty(name)),
    }
}

/// The type that a declaration defines, if it defines one.
pub fn define(n: &Node) -> (r: Option<TypeDef>)
    ensures
        type_def_option(r) == definition(n@),
{
    match n {
        Node::Struct { name, members } => {
            let ghost mm = members_model(members@);
            assert(n@ is Struct && n@->Struct_members == mm);
            let mut fields: Vec<Field> = Vec::new();
            let mut i: usize = 0;
            while i < members.len()
                invariant
                    i <= members.len(),
                    fields.len() == i,
                    mm == members_model(members@),
                    forall|j: int| 0 <= j < i ==> (#[trigger] fields@[j])@ == member_field(mm[j]),
                decreases members.len() - i,
            {
                let m = &members[i];
                assert(mm[i as int] == m@);
                fields.push(
                    Field {
                        name: name_or_empty(&m.name),
                        tag: None,
                        multiplicity: Multiplicity::One,
                        ty: reference(&m.item),
                        doc: clone_opt_bytes(&m.doc),
                    },
                );
                i += 1;
            }
            assert(fields_model(fields@) =~= Seq::new(mm.len(), |i: int| member_field(mm[i])));
            Some(TypeDef::Product { name: name_or_empty(name), fields })
        },
        Node::TaggedStruct { name, entries } => {
            let ghost em = taggeds_model(entries@);
            assert(n@ is TaggedStruct && n@->TaggedStruct_entries == em);
            let mut fields: Vec<Field> = Vec::new();
            let mut i: usize = 0;
            while i < entries.len()
                invariant
                    i <= entries.len(),
                    fields.len() == i,
                    em == taggeds_model(entries@),
                    forall|j: int| 0 <= j < i ==> (#[trigger] fields@[j])@ == entry_field(em[j]),
                decreases entries.len() - i,
            {
                let t = &entries[i];
                assert(em[i as int] == t@);
                fields.push(
                    Field {
                        name: name_or_empty(&t.member.name),
                        tag: Some(t.tag.clone()),
                        multiplicity: t.multiplicity,
                        ty: reference(&t.member.item),
                        doc: clone_opt_bytes(&t.member.doc),
                    },
                );
                i += 1;
            }
            assert(fields_model(fields@) =~= Seq::new(em.len(), |i: int| entry_field(em[i])));
            Some(TypeDef::Product { name: name_or_empty(name), fields })
        },
        Node::TaggedUnion { name, variants: items } => {
            let ghost em = taggeds_model(items@);
            assert(n@ is TaggedUnion && n@->TaggedUnion_variants == em);
            let mut variants: Vec<Variant> = Vec::new();
            let mut i: usize = 0;
            while i < items.len()
                invariant
                    i <= items.len(),
                    variants.len() == i,
                    em == taggeds_model(items@),
                    forall|j: int| 0 <= j < i ==> (#[trigger] variants@[j])@ == union_variant(em[j]),
                decreases items.len() - i,
            {
                let t = &items[i];
                assert(em[i as int] == t@);
                variants.push(
                    Variant {
                        name: synthesize_name(&t.tag),
                        tag: t.tag.clone(),
                        payload: Some(reference(&t.member.item)),
                        discriminant: None,
                    },
                );
                i += 1;
            }
            assert(variants_model(variants@) =~= Seq::new(em.len(), |i: int| union_variant(em[i])));
            Some(TypeDef::Sum { name: name_or_empty(name), variants })
        },
        Node::Enum { name, enumerators } => {
            let ghost em = enumerators_model(enumerators@);
            assert(n@ is Enum && n@->Enum_enumerators == em);
            let mut variants: Vec<Variant> = Vec::new();
            let mut i: usize = 0;
            while i < enumerators.len()
                invariant
                    i <= enumerators.len(),
                    variants.len() == i,
                    em == enumerators_model(enumerators@),
                    forall|j: int| 0 <= j < i ==> (#[trigger] variants@[j])@ == enum_variant(em[j]),
                decreases enumerators.len() - i,
            {
                let e = &enumerators[i];
                assert(em[i as int] == e@);
                variants.push(
                    Variant {
                        name: synthesize_name(&e.tag),
                        tag: e.tag.clone(),
                        payload: None,
                        discriminant: e.value,
                    },
                );
                i += 1;
            }
            assert(variants_model(variants@) =~= Seq::new(em.len(), |i: int| enum_variant(em[i])));
            Some(TypeDef::Sum { name: name_or_empty(name), variants })
        },
        _ => None,
    }
}

/// The type definitions of a schema: one for every entry of its type
/// table, in the order of the table.
pub fn type_definitions(schema: &Schema) -> (r: Vec<TypeDef>)
    ensures
        r.len() == schema@.types.len(),
        forall|i: int|
            0 <= i < r.len() ==> Some((#[trigger] r@[i])@) == definition(schema@.types[i]),
{
    let table = schema.types();
    proof {
        crate::resolver_laws::lemma_declared_types(schema@.root);
    }
    let mut out: Vec<TypeDef> = Vec::new();
    let mut i: usize = 0;
    while i < table.len()
        invariant
            i <= table.len(),
            out.len() == i,
            nodes_model(table@) == schema@.types,
            forall|j: int|
                0 <= j < schema@.types.len() ==> crate::resolver::name_of(
                    #[trigger] schema@.types[j],
                ) is Some,
            forall|j: int|
                0 <= j < i ==> Some((#[trigger] out@[j])@) == definition(schema@.types[j]),
        decreases table.len() - i,
    {
        assert(schema@.types[i as int] == table@[i as int]@);
        assert(crate::resolver::name_of(schema@.types[i as int]) is Some);
        match define(&table[i]) {
            Some(d) => {
                out.push(d);
            },
            None => {
                vstd::pervasive::unreached::<()>();
            },
        }
        i += 1;
    }
    out
}

} // verus!
