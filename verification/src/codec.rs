//! Decoding a generic tagged tree into a typed value under a schema, and
//! encoding a typed value back.
//!
//! An item that stands directly under a tag fills the children of the
//! tagged node: a scalar, a string or an enumerator is one leaf; an array
//! holds one child per element and a struct one per member; a tagged union
//! holds the one tagged child of its active variant, or one for every
//! occurrence where that variant is repeated; a tagged struct holds the
//! tagged children of its entries. As an element or a member, a scalar,
//! a string or an enumerator is a leaf and every other item is a group of
//! what it would hold under a tag.

use vstd::prelude::*;
use crate::ast::{
    enumerators_model, members_model, taggeds_model, Enumerator, MemberModel, Multiplicity, Node,
    NodeModel, Scalar, Tagged, TaggedModel,
};
use crate::bytes::bytes_eq;
use crate::lists::{
    lemma_prepend_end, lemma_prepend_some_end, lemma_prepend_some_join, lemma_prepend_some_start,
    lemma_prepend_some_step, lemma_prepend_start, lemma_prepend_step, prepend, prepend_some,
};
use crate::names::{first_index, present};
use crate::resolver::{enum_tags, tags_of, Schema};
use crate::tree::{
    clone_atom, lemma_occurrences_push, lemma_trees_push, lemma_values_push, occurrences_model,
    trees_model, values_model, Atom, AtomModel, Tree, TreeModel, Value, ValueModel,
};

verus! {

/// Why a tree is no value of a schema.
#[derive(Debug, PartialEq, Eq)]
pub enum DecodeError {
    /// An entry that must occur once does not occur.
    MissingTag { tag: Vec<u8> },
    /// A tag that the schema does not know at this place, or one that
    /// occurs more often than its entry allows.
    UnexpectedTag { tag: Vec<u8> },
    /// A leaf whose content is not of the kind or not in the range of the
    /// scalar, too long for the string, or no enumerator.
    TypeMismatch,
    /// The children do not match the item in number or in form.
    Structure,
}

/// The model of a [`DecodeError`].
pub enum DecodeErrorModel {
    MissingTag { tag: Seq<u8> },
    UnexpectedTag { tag: Seq<u8> },
    TypeMismatch,
    Structure,
}

impl View for DecodeError {
    type V = DecodeErrorModel;

    open spec fn view(&self) -> DecodeErrorModel {
        match *self {
            DecodeError::MissingTag { tag } => DecodeErrorModel::MissingTag { tag: tag@ },
            DecodeError::UnexpectedTag { tag } => DecodeErrorModel::UnexpectedTag { tag: tag@ },
            DecodeError::TypeMismatch => DecodeErrorModel::TypeMismatch,
            DecodeError::Structure => DecodeErrorModel::Structure,
        }
    }
}

/// The integers of a scalar kind.
pub open spec fn int_fits(k: Scalar, x: int) -> bool {
    match k {
        Scalar::Char => -0x80 <= x <= 0x7f,
        Scalar::Int => -0x8000 <= x <= 0x7fff,
        Scalar::Long => -0x8000_0000 <= x <= 0x7fff_ffff,
        Scalar::Int64 => -0x8000_0000_0000_0000 <= x <= 0x7fff_ffff_ffff_ffff,
        Scalar::UChar => 0 <= x <= 0xff,
        Scalar::UInt => 0 <= x <= 0xffff,
        Scalar::ULong => 0 <= x <= 0xffff_ffff,
        Scalar::UInt64 => 0 <= x <= 0xffff_ffff_ffff_ffff,
        Scalar::Double => false,
        Scalar::Float => false,
    }
}

/// The content that a scalar kind admits.
pub open spec fn atom_fits(k: Scalar, a: AtomModel) -> bool {
    match a {
        AtomModel::Int(x) => int_fits(k, x as int),
        AtomModel::Float(_) => k == Scalar::Float,
        AtomModel::Double(_) => k == Scalar::Double,
        _ => false,
    }
}

/// An item that is one leaf: a scalar, a string or an enumeration.
pub open spec fn is_leaf_kind(n: NodeModel) -> bool {
    n is Scalar || n is CharArray || n is Enum
}

/// The first index of `tag` among `tags`.
pub open spec fn index_of(tags: Seq<Seq<u8>>, tag: Seq<u8>) -> Option<int> {
    first_index(present(tags), Some(tag), 0)
}

/// How often an item of the given multiplicity may occur.
pub open spec fn count_ok(m: Multiplicity, count: nat) -> bool {
    match m {
        Multiplicity::One => count == 1,
        Multiplicity::Optional => count <= 1,
        Multiplicity::Repeated => true,
    }
}

/// What is wrong with the number of occurrences of an entry, if anything.
pub open spec fn count_fault(m: Multiplicity, tag: Seq<u8>, count: nat) -> Option<DecodeErrorModel> {
    if count_ok(m, count) {
        None
    } else if count == 0 {
        Some(DecodeErrorModel::MissingTag { tag })
    } else {
        Some(DecodeErrorModel::UnexpectedTag { tag })
    }
}

/// The value of a leaf under a scalar, a string or an enumeration.
pub open spec fn decode_leaf(n: NodeModel, t: TreeModel) -> Result<ValueModel, DecodeErrorModel> {
    match t {
        TreeModel::Leaf(a) => match n {
            NodeModel::Scalar(k) => if atom_fits(k, a) {
                Ok(ValueModel::Atom(a))
            } else {
                Err(DecodeErrorModel::TypeMismatch)
            },
            NodeModel::CharArray { size } => match a {
                AtomModel::Text(s) => if s.len() <= size {
                    Ok(ValueModel::Atom(a))
                } else {
                    Err(DecodeErrorModel::TypeMismatch)
                },
                _ => Err(DecodeErrorModel::TypeMismatch),
            },
            NodeModel::Enum { enumerators, .. } => match a {
                AtomModel::Item(tag) => match index_of(enum_tags(enumerators), tag) {
                    Some(i) => Ok(ValueModel::Enum(i)),
                    None => Err(DecodeErrorModel::TypeMismatch),
                },
                _ => Err(DecodeErrorModel::TypeMismatch),
            },
            _ => Err(DecodeErrorModel::Structure),
        },
        _ => Err(DecodeErrorModel::Structure),
    }
}

/// The first child that is no tagged node, or whose tag is none of `tags`.
pub open spec fn first_stranger(tags: Seq<Seq<u8>>, cs: Seq<TreeModel>) -> Option<DecodeErrorModel>
    decreases cs.len(),
{
    if cs.len() == 0 {
        None
    } else {
        match cs[0] {
            TreeModel::Tagged { tag, .. } => if index_of(tags, tag) is None {
                Some(DecodeErrorModel::UnexpectedTag { tag })
            } else {
                first_stranger(tags, cs.drop_first())
            },
            _ => Some(DecodeErrorModel::Structure),
        }
    }
}

/// The value of an item whose content is the children `cs`, or the first
/// fault found.
pub open spec fn decode_content(n: NodeModel, cs: Seq<TreeModel>) -> Result<ValueModel, DecodeErrorModel>
    decreases n, 0nat,
{
    match n {
        NodeModel::Scalar(_) => if cs.len() == 1 {
            decode_leaf(n, cs[0])
        } else {
            Err(DecodeErrorModel::Structure)
        },
        NodeModel::CharArray { .. } => if cs.len() == 1 {
            decode_leaf(n, cs[0])
        } else {
            Err(DecodeErrorModel::Structure)
        },
        NodeModel::Enum { .. } => if cs.len() == 1 {
            decode_leaf(n, cs[0])
        } else {
            Err(DecodeErrorModel::Structure)
        },
        NodeModel::Array { element, size } => if cs.len() != size {
            Err(DecodeErrorModel::Structure)
        } else {
            match decode_elements(*element, cs, 0) {
                Ok(vs) => Ok(ValueModel::List(vs)),
                Err(e) => Err(e),
            }
        },
        NodeModel::Struct { members, .. } => if cs.len() != members.len() {
            Err(DecodeErrorModel::Structure)
        } else {
            match decode_members(members, cs, 0) {
                Ok(vs) => Ok(ValueModel::List(vs)),
                Err(e) => Err(e),
            }
        },
        NodeModel::TaggedUnion { variants, .. } => if cs.len() == 0 {
            Err(DecodeErrorModel::Structure)
        } else {
            match cs[0] {
                TreeModel::Tagged { tag, children } => match index_of(tags_of(variants), tag) {
                    None => Err(DecodeErrorModel::UnexpectedTag { tag }),
                    Some(j) => if 0 <= j < variants.len() {
                        if variants[j].multiplicity == Multiplicity::Repeated {
                            match first_stranger(seq![variants[j].tag], cs) {
                                Some(e) => Err(e),
                                None => match decode_matching(variants[j], cs) {
                                    Ok(vs) => Ok(
                                        ValueModel::Union {
                                            variant: j,
                                            value: Box::new(ValueModel::List(vs)),
                                        },
                                    ),
                                    Err(e) => Err(e),
                                },
                            }
                        } else if cs.len() != 1 {
                            Err(DecodeErrorModel::Structure)
                        } else {
                            match decode_content(variants[j].member.item, children) {
                                Ok(v) => Ok(ValueModel::Union { variant: j, value: Box::new(v) }),
                                Err(e) => Err(e),
                            }
                        }
                    } else {
                        Err(DecodeErrorModel::Structure)
                    },
                },
                _ => Err(DecodeErrorModel::Structure),
            }
        },
        NodeModel::TaggedStruct { entries, .. } => match first_stranger(tags_of(entries), cs) {
            Some(e) => Err(e),
            None => match decode_entries(entries, cs, 0) {
                Ok(os) => Ok(ValueModel::Tagged(os)),
                Err(e) => Err(e),
            },
        },
    }
}

/// The value of an item that is the one tree `t`: an element of an array
/// or a member of a struct.
pub open spec fn decode_single(n: NodeModel, t: TreeModel) -> Result<ValueModel, DecodeErrorModel>
    decreases n, 1nat,
{
    if is_leaf_kind(n) {
        decode_leaf(n, t)
    } else {
        match t {
            TreeModel::Group(cs) => decode_content(n, cs),
            _ => Err(DecodeErrorModel::Structure),
        }
    }
}

/// The values of the elements of an array from index `k` on, each from
/// its tree.
pub open spec fn decode_elements(element: NodeModel, cs: Seq<TreeModel>, k: int) -> Result<
    Seq<ValueModel>,
    DecodeErrorModel,
>
    decreases element, 2 + cs.len() - k,
{
    if k < 0 || k >= cs.len() {
        Ok(Seq::empty())
    } else {
        match decode_single(element, cs[k]) {
            Err(e) => Err(e),
            Ok(v) => prepend(seq![v], decode_elements(element, cs, k + 1)),
        }
    }
}

/// The values of the members of a struct from index `k` on, each from its
/// tree.
pub open spec fn decode_members(members: Seq<MemberModel>, cs: Seq<TreeModel>, k: int) -> Result<
    Seq<ValueModel>,
    DecodeErrorModel,
>
    decreases members, members.len() - k,
{
    if k < 0 || k >= members.len() || k >= cs.len() {
        Ok(Seq::empty())
    } else {
        match decode_single(members[k].item, cs[k]) {
            Err(e) => Err(e),
            Ok(v) => prepend(seq![v], decode_members(members, cs, k + 1)),
        }
    }
}

/// For every entry from index `k` on, the values of the children that
/// carry its tag, in their order; an entry must occur as often as its
/// multiplicity allows.
pub open spec fn decode_entries(entries: Seq<TaggedModel>, cs: Seq<TreeModel>, k: int) -> Result<
    Seq<Seq<ValueModel>>,
    DecodeErrorModel,
>
    decreases entries, entries.len() - k,
{
    if k < 0 || k >= entries.len() {
        Ok(Seq::empty())
    } else {
        match decode_matching(entries[k], cs) {
            Err(e) => Err(e),
            Ok(os) => match count_fault(entries[k].multiplicity, entries[k].tag, os.len()) {
                Some(e) => Err(e),
                None => prepend(seq![os], decode_entries(entries, cs, k + 1)),
            },
        }
    }
}

/// The values of the children that carry the tag of `entry`, in their
/// order.
pub open spec fn decode_matching(entry: TaggedModel, cs: Seq<TreeModel>) -> Result<
    Seq<ValueModel>,
    DecodeErrorModel,
>
    decreases entry, cs.len(),
{
    if cs.len() == 0 {
        Ok(Seq::empty())
    } else {
        match cs[0] {
            TreeModel::Tagged { tag, children } => if tag == entry.tag {
                match decode_content(entry.member.item, children) {
                    Err(e) => Err(e),
                    Ok(v) => prepend(seq![v], decode_matching(entry, cs.drop_first())),
                }
            } else {
                decode_matching(entry, cs.drop_first())
            },
            _ => decode_matching(entry, cs.drop_first()),
        }
    }
}

/// The children that hold the value `v` of the item `n`, or nothing where
/// `v` is no value of `n`.
pub open spec fn encode_content(n: NodeModel, v: ValueModel) -> Option<Seq<TreeModel>>
    decreases n, 0nat,
{
    match n {
        NodeModel::Scalar(k) => match v {
            ValueModel::Atom(a) => if atom_fits(k, a) {
                Some(seq![TreeModel::Leaf(a)])
            } else {
                None
            },
            _ => None,
        },
        NodeModel::CharArray { size } => match v {
            ValueModel::Atom(AtomModel::Text(s)) => if s.len() <= size {
                Some(seq![TreeModel::Leaf(AtomModel::Text(s))])
            } else {
                None
            },
            _ => None,
        },
        NodeModel::Enum { enumerators, .. } => match v {
            ValueModel::Enum(i) => if 0 <= i < enumerators.len() {
                Some(seq![TreeModel::Leaf(AtomModel::Item(enumerators[i].tag))])
            } else {
                None
            },
            _ => None,
        },
        NodeModel::Array { element, size } => match v {
            ValueModel::List(vs) => if vs.len() == size {
                encode_elements(*element, vs, 0)
            } else {
                None
            },
            _ => None,
        },
        NodeModel::Struct { members, .. } => match v {
            ValueModel::List(vs) => if vs.len() == members.len() {
                encode_members(members, vs, 0)
            } else {
                None
            },
            _ => None,
        },
        NodeModel::TaggedUnion { variants, .. } => match v {
            ValueModel::Union { variant, value } => if 0 <= variant < variants.len() {
                if variants[variant].multiplicity == Multiplicity::Repeated {
                    match *value {
                        ValueModel::List(vs) => if vs.len() >= 1 {
                            encode_occurrences(variants[variant], vs, 0)
                        } else {
                            None
                        },
                        _ => None,
                    }
                } else {
                    match encode_content(variants[variant].member.item, *value) {
                        Some(cs) => Some(
                            seq![TreeModel::Tagged { tag: variants[variant].tag, children: cs }],
                        ),
                        None => None,
                    }
                }
            } else {
                None
            },
            _ => None,
        },
        NodeModel::TaggedStruct { entries, .. } => match v {
            ValueModel::Tagged(os) => if os.len() == entries.len() {
                encode_entries(entries, os, 0)
            } else {
                None
            },
            _ => None,
        },
    }
}

/// The one tree that holds the value of an element or of a member.
pub open spec fn encode_single(n: NodeModel, v: ValueModel) -> Option<TreeModel>
    decreases n, 1nat,
{
    match encode_content(n, v) {
        None => None,
        Some(cs) => if is_leaf_kind(n) {
            Some(cs[0])
        } else {
            Some(TreeModel::Group(cs))
        },
    }
}

/// The trees of the elements of an array from index `k` on.
pub open spec fn encode_elements(element: NodeModel, vs: Seq<ValueModel>, k: int) -> Option<
    Seq<TreeModel>,
>
    decreases element, 2 + vs.len() - k,
{
    if k < 0 || k >= vs.len() {
        Some(Seq::empty())
    } else {
        match encode_single(element, vs[k]) {
            None => None,
            Some(t) => prepend_some(seq![t], encode_elements(element, vs, k + 1)),
        }
    }
}

/// The trees of the members of a struct from index `k` on.
pub open spec fn encode_members(members: Seq<MemberModel>, vs: Seq<ValueModel>, k: int) -> Option<
    Seq<TreeModel>,
>
    decreases members, members.len() - k,
{
    if k < 0 || k >= members.len() || k >= vs.len() {
        Some(Seq::empty())
    } else {
        match encode_single(members[k].item, vs[k]) {
            None => None,
            Some(t) => prepend_some(seq![t], encode_members(members, vs, k + 1)),
        }
    }
}

/// The tagged children of the entries from index `k` on: the occurrences
/// of an entry in their order, entry after entry.
pub open spec fn encode_entries(entries: Seq<TaggedModel>, os: Seq<Seq<ValueModel>>, k: int) -> Option<
    Seq<TreeModel>,
>
    decreases entries, entries.len() - k,
{
    if k < 0 || k >= entries.len() || k >= os.len() {
        Some(Seq::empty())
    } else if !count_ok(entries[k].multiplicity, os[k].len()) {
        None
    } else {
        match encode_occurrences(entries[k], os[k], 0) {
            None => None,
            Some(a) => prepend_some(a, encode_entries(entries, os, k + 1)),
        }
    }
}

/// One tagged child for every occurrence from index `j` on.
pub open spec fn encode_occurrences(entry: TaggedModel, vs: Seq<ValueModel>, j: int) -> Option<
    Seq<TreeModel>,
>
    decreases entry, vs.len() - j,
{
    if j < 0 || j >= vs.len() {
        Some(Seq::empty())
    } else {
        match encode_content(entry.member.item, vs[j]) {
            None => None,
            Some(cs) => prepend_some(
                seq![TreeModel::Tagged { tag: entry.tag, children: cs }],
                encode_occurrences(entry, vs, j + 1),
            ),
        }
    }
}

/// The model of the result of decoding one value.
pub open spec fn value_result(r: Result<Value, DecodeError>) -> Result<ValueModel, DecodeErrorModel> {
    match r {
        Ok(v) => Ok(v@),
        Err(e) => Err(e@),
    }
}

/// The model of the result of decoding a list of values.
pub open spec fn values_result(r: Result<Vec<Value>, DecodeError>) -> Result<
    Seq<ValueModel>,
    DecodeErrorModel,
> {
    match r {
        Ok(v) => Ok(values_model(v@)),
        Err(e) => Err(e@),
    }
}

/// The model of the result of encoding into a list of trees.
pub open spec fn trees_option(r: Option<Vec<Tree>>) -> Option<Seq<TreeModel>> {
    match r {
        Some(v) => Some(trees_model(v@)),
        None => None,
    }
}

/// The model of the result of encoding into one tree.
pub open spec fn tree_option(r: Option<Tree>) -> Option<TreeModel> {
    match r {
        Some(v) => Some(v@),
        None => None,
    }
}

/// Whether a scalar kind admits the content.
pub fn fits(k: Scalar, a: &Atom) -> (r: bool)
    ensures
        r == atom_fits(k, a@),
{
    match a {
        Atom::Int(x) => {
            let x: i128 = *x;
            match k {
                Scalar::Char => -0x80 <= x && x <= 0x7f,
                Scalar::Int => -0x8000 <= x && x <= 0x7fff,
                Scalar::Long => -0x8000_0000 <= x && x <= 0x7fff_ffff,
                Scalar::Int64 => -0x8000_0000_0000_0000 <= x && x <= 0x7fff_ffff_ffff_ffff,
                Scalar::UChar => 0 <= x && x <= 0xff,
                Scalar::UInt => 0 <= x && x <= 0xffff,
                Scalar::ULong => 0 <= x && x <= 0xffff_ffff,
                Scalar::UInt64 => 0 <= x && x <= 0xffff_ffff_ffff_ffff,
                Scalar::Double => false,
                Scalar::Float => false,
            }
        },
        Atom::Float(_) => k == Scalar::Float,
        Atom::Double(_) => k == Scalar::Double,
        _ => false,
    }
}

/// The index of the first tagged declaration that carries `tag`.
pub fn find_tag(ts: &Vec<Tagged>, tag: &Vec<u8>) -> (r: Option<usize>)
    ensures
        match r {
            Some(i) => index_of(tags_of(taggeds_model(ts@)), tag@) == Some(i as int) && i < ts.len(),
            None => index_of(tags_of(taggeds_model(ts@)), tag@) is None,
        },
{
    let ghost s = present(tags_of(taggeds_model(ts@)));
    let mut i: usize = 0;
    while i < ts.len()
        invariant
            i <= ts.len(),
            s == present(tags_of(taggeds_model(ts@))),
            first_index(s, Some(tag@), 0) == first_index(s, Some(tag@), i as int),
        decreases ts.len() - i,
    {
        assert(s[i as int] == Some(ts@[i as int].tag@));
        if bytes_eq(&ts[i].tag, tag) {
            return Some(i);
        }
        i += 1;
    }
    None
}

/// The index of the first enumerator that carries `tag`.
pub fn find_enumerator(es: &Vec<Enumerator>, tag: &Vec<u8>) -> (r: Option<usize>)
    ensures
        match r {
            Some(i) => index_of(enum_tags(enumerators_model(es@)), tag@) == Some(i as int) && i
                < es.len(),
            None => index_of(enum_tags(enumerators_model(es@)), tag@) is None,
        },
{
    let ghost s = present(enum_tags(enumerators_model(es@)));
    let mut i: usize = 0;
    while i < es.len()
        invariant
            i <= es.len(),
            s == present(enum_tags(enumerators_model(es@))),
            first_index(s, Some(tag@), 0) == first_index(s, Some(tag@), i as int),
        decreases es.len() - i,
    {
        assert(s[i as int] == Some(es@[i as int].tag@));
        if bytes_eq(&es[i].tag, tag) {
            return Some(i);
        }
        i += 1;
    }
    None
}

/// Decodes a leaf under a scalar, a string or an enumeration.
pub fn decode_leaf_item(n: &Node, t: &Tree) -> (r: Result<Value, DecodeError>)
    ensures
        value_result(r) == decode_leaf(n@, t@),
{
    match t {
        Tree::Leaf(a) => match n {
            Node::Scalar(k) => if fits(*k, a) {
                Ok(Value::Atom(clone_atom(a)))
            } else {
                Err(DecodeError::TypeMismatch)
            },
            Node::CharArray { size } => match a {
                Atom::Text(s) => if s.len() <= *size {
                    Ok(Value::Atom(clone_atom(a)))
                } else {
                    Err(DecodeError::TypeMismatch)
                },
                _ => Err(DecodeError::TypeMismatch),
            },
            Node::Enum { enumerators, .. } => match a {
                Atom::Item(tag) => match find_enumerator(enumerators, tag) {
                    Some(i) => Ok(Value::Enum(i)),
                    None => Err(DecodeError::TypeMismatch),
                },
                _ => Err(DecodeError::TypeMismatch),
            },
            _ => Err(DecodeError::Structure),
        },
        _ => Err(DecodeError::Structure),
    }
}


/// The model of a fault that may have been found.
pub open spec fn fault_option(r: Option<DecodeError>) -> Option<DecodeErrorModel> {
    match r {
        Some(e) => Some(e@),
        None => None,
    }
}

/// Looks for a child that is no tagged node or whose tag no entry carries.
pub fn check_strangers(entries: &Vec<Tagged>, children: &Vec<Tree>) -> (r: Option<DecodeError>)
    ensures
        fault_option(r) == first_stranger(tags_of(taggeds_model(entries@)), trees_model(children@)),
{
    let ghost tags = tags_of(taggeds_model(entries@));
    let ghost cm = trees_model(children@);
    let mut j: usize = 0;
    assert(cm.skip(0) =~= cm);
    while j < children.len()
        invariant
            j <= children.len(),
            cm == trees_model(children@),
            tags == tags_of(taggeds_model(entries@)),
            first_stranger(tags, cm) == first_stranger(tags, cm.skip(j as int)),
        decreases children.len() - j,
    {
        let ghost rest = cm.skip(j as int);
        assert(rest[0] == children@[j as int]@);
        assert(rest.drop_first() =~= cm.skip(j + 1));
        match &children[j] {
            Tree::Tagged { tag, .. } => {
                if find_tag(entries, tag).is_none() {
                    return Some(DecodeError::UnexpectedTag { tag: tag.clone() });
                }
            },
            _ => {
                return Some(DecodeError::Structure);
            },
        }
        j += 1;
    }
    None
}

/// Looks for a child that is no tagged node or that carries another tag.
pub fn check_tag(tag: &Vec<u8>, children: &Vec<Tree>) -> (r: Option<DecodeError>)
    ensures
        fault_option(r) == first_stranger(seq![tag@], trees_model(children@)),
{
    let ghost tags = seq![tag@];
    let ghost cm = trees_model(children@);
    let mut j: usize = 0;
    assert(cm.skip(0) =~= cm);
    while j < children.len()
        invariant
            j <= children.len(),
            cm == trees_model(children@),
            tags == seq![tag@],
            first_stranger(tags, cm) == first_stranger(tags, cm.skip(j as int)),
        decreases children.len() - j,
    {
        let ghost rest = cm.skip(j as int);
        assert(rest[0] == children@[j as int]@);
        assert(rest.drop_first() =~= cm.skip(j + 1));
        match &children[j] {
            Tree::Tagged { tag: found, .. } => {
                proof {
                    crate::names::lemma_first_index(present(tags), Some(found@), 0);
                    assert(present(tags)[0] == Some(tag@));
                }
                if !bytes_eq(found, tag) {
                    return Some(DecodeError::UnexpectedTag { tag: found.clone() });
                }
            },
            _ => {
                return Some(DecodeError::Structure);
            },
        }
        j += 1;
    }
    None
}

/// Looks for a fault in the number of occurrences of an entry.
pub fn check_count(m: Multiplicity, tag: &Vec<u8>, count: usize) -> (r: Option<DecodeError>)
    ensures
        fault_option(r) == count_fault(m, tag@, count as nat),
{
    let ok = match m {
        Multiplicity::One => count == 1,
        Multiplicity::Optional => count <= 1,
        Multiplicity::Repeated => true,
    };
    if ok {
        None
    } else if count == 0 {
        Some(DecodeError::MissingTag { tag: tag.clone() })
    } else {
        Some(DecodeError::UnexpectedTag { tag: tag.clone() })
    }
}

/// Decodes the content of an item from the children that hold it.
pub fn decode_node(n: &Node, children: &Vec<Tree>) -> (r: Result<Value, DecodeError>)
    ensures
        value_result(r) == decode_content(n@, trees_model(children@)),
    decreases n, 0nat,
{
    let ghost cm = trees_model(children@);
    match n {
        Node::Scalar(_) => {
            if children.len() == 1 {
                assert(cm[0] == children@[0]@);
                decode_leaf_item(n, &children[0])
            } else {
                Err(DecodeError::Structure)
            }
        },
        Node::CharArray { .. } => {
            if children.len() == 1 {
                assert(cm[0] == children@[0]@);
                decode_leaf_item(n, &children[0])
            } else {
                Err(DecodeError::Structure)
            }
        },
        Node::Enum { .. } => {
            if children.len() == 1 {
                assert(cm[0] == children@[0]@);
                decode_leaf_item(n, &children[0])
            } else {
                Err(DecodeError::Structure)
            }
        },
        Node::Array { element, size } => {
            if children.len() != *size {
                return Err(DecodeError::Structure);
            }
            let ghost em = (**element)@;
            let mut out: Vec<Value> = Vec::new();
            let mut i: usize = 0;
            proof {
                lemma_prepend_start(decode_elements(em, cm, 0));
                assert(values_model(out@) =~= Seq::empty());
            }
            while i < children.len()
                invariant
                    i <= children.len(),
                    cm == trees_model(children@),
                    n is Array,
                    n->element == *element,
                    em == (**element)@,
                    n@ is Array,
                    *n@->element == em,
                    n@->Array_size == children.len(),
                    decode_elements(em, cm, 0) == prepend(
                        values_model(out@),
                        decode_elements(em, cm, i as int),
                    ),
                decreases children.len() - i,
            {
                assert(cm[i as int] == children@[i as int]@);
                match decode_tree(element, &children[i]) {
                    Err(e) => {
                        return Err(e);
                    },
                    Ok(v) => {
                        proof {
                            lemma_values_push(out@, v);
                            lemma_prepend_step(values_model(out@), v@, decode_elements(em, cm, i + 1));
                        }
                        out.push(v);
                    },
                }
                i += 1;
            }
            proof {
                lemma_prepend_end::<ValueModel, DecodeErrorModel>(values_model(out@));
            }
            Ok(Value::List(out))
        },
        Node::Struct { members, .. } => {
            let ghost mm = members_model(members@);
            assert(n@ is Struct && n@->Struct_members == mm);
            if children.len() != members.len() {
                return Err(DecodeError::Structure);
            }
            let mut out: Vec<Value> = Vec::new();
            let mut i: usize = 0;
            proof {
                lemma_prepend_start(decode_members(mm, cm, 0));
                assert(values_model(out@) =~= Seq::empty());
            }
            while i < children.len()
                invariant
                    i <= children.len(),
                    children.len() == members.len(),
                    cm == trees_model(children@),
                    n is Struct,
                    n->Struct_members == *members,
                    mm == members_model(members@),
                    n@ is Struct,
                    n@->Struct_members == mm,
                    decode_members(mm, cm, 0) == prepend(
                        values_model(out@),
                        decode_members(mm, cm, i as int),
                    ),
                decreases children.len() - i,
            {
                assert(cm[i as int] == children@[i as int]@);
                assert(mm[i as int] == members@[i as int]@);
                match decode_tree(&members[i].item, &children[i]) {
                    Err(e) => {
                        return Err(e);
                    },
                    Ok(v) => {
                        proof {
                            lemma_values_push(out@, v);
                            lemma_prepend_step(values_model(out@), v@, decode_members(mm, cm, i + 1));
                        }
                        out.push(v);
                    },
                }
                i += 1;
            }
            proof {
                lemma_prepend_end::<ValueModel, DecodeErrorModel>(values_model(out@));
            }
            Ok(Value::List(out))
        },
        Node::TaggedUnion { variants, .. } => {
            assert(n@ is TaggedUnion && n@->TaggedUnion_variants == taggeds_model(variants@));
            if children.len() == 0 {
                return Err(DecodeError::Structure);
            }
            assert(cm[0] == children@[0]@);
            match &children[0] {
                Tree::Tagged { tag, children: inner } => match find_tag(variants, tag) {
                    None => Err(DecodeError::UnexpectedTag { tag: tag.clone() }),
                    Some(j) => {
                        assert(taggeds_model(variants@)[j as int] == variants@[j as int]@);
                        let variant = &variants[j];
                        if variant.multiplicity == Multiplicity::Repeated {
                            if let Some(e) = check_tag(&variant.tag, children) {
                                return Err(e);
                            }
                            match decode_occurrences(variant, children) {
                                Ok(vs) => {
                                    let ghost vm = values_model(vs@);
                                    let list = Value::List(vs);
                                    assert(list@ == ValueModel::List(vm));
                                    Ok(Value::Union { variant: j, value: Box::new(list) })
                                },
                                Err(e) => Err(e),
                            }
                        } else if children.len() != 1 {
                            Err(DecodeError::Structure)
                        } else {
                            match decode_node(&variant.member.item, inner) {
                                Ok(v) => Ok(Value::Union { variant: j, value: Box::new(v) }),
                                Err(e) => Err(e),
                            }
                        }
                    },
                },
                _ => Err(DecodeError::Structure),
            }
        },
        Node::TaggedStruct { entries, .. } => {
            let ghost em = taggeds_model(entries@);
            assert(n@ is TaggedStruct && n@->TaggedStruct_entries == em);
            if let Some(e) = check_strangers(entries, children) {
                return Err(e);
            }
            let mut out: Vec<Vec<Value>> = Vec::new();
            let mut k: usize = 0;
            proof {
                lemma_prepend_start(decode_entries(em, cm, 0));
                assert(occurrences_model(out@) =~= Seq::empty());
            }
            while k < entries.len()
                invariant
                    k <= entries.len(),
                    cm == trees_model(children@),
                    n is TaggedStruct,
                    n->TaggedStruct_entries == *entries,
                    em == taggeds_model(entries@),
                    n@ is TaggedStruct,
                    n@->TaggedStruct_entries == em,
                    first_stranger(tags_of(em), cm) is None,
                    decode_entries(em, cm, 0) == prepend(
                        occurrences_model(out@),
                        decode_entries(em, cm, k as int),
                    ),
                decreases entries.len() - k,
            {
                assert(em[k as int] == entries@[k as int]@);
                let os = match decode_occurrences(&entries[k], children) {
                    Ok(os) => os,
                    Err(e) => {
                        return Err(e);
                    },
                };
                if let Some(e) = check_count(entries[k].multiplicity, &entries[k].tag, os.len()) {
                    return Err(e);
                }
                proof {
                    lemma_occurrences_push(out@, os);
                    lemma_prepend_step(
                        occurrences_model(out@),
                        values_model(os@),
                        decode_entries(em, cm, k + 1),
                    );
                }
                out.push(os);
                k += 1;
            }
            proof {
                lemma_prepend_end::<Seq<ValueModel>, DecodeErrorModel>(occurrences_model(out@));
            }
            Ok(Value::Tagged(out))
        },
    }
}

/// Decodes an element of an array or a member of a struct from its tree.
pub fn decode_tree(n: &Node, t: &Tree) -> (r: Result<Value, DecodeError>)
    ensures
        value_result(r) == decode_single(n@, t@),
    decreases n, 1nat,
{
    match n {
        Node::Scalar(_) => decode_leaf_item(n, t),
        Node::CharArray { .. } => decode_leaf_item(n, t),
        Node::Enum { .. } => decode_leaf_item(n, t),
        _ => match t {
            Tree::Group(children) => decode_node(n, children),
            _ => Err(DecodeError::Structure),
        },
    }
}

/// Decodes the children that carry the tag of `entry`.
pub fn decode_occurrences(entry: &Tagged, children: &Vec<Tree>) -> (r: Result<Vec<Value>, DecodeError>)
    ensures
        values_result(r) == decode_matching(entry@, trees_model(children@)),
    decreases entry, 0nat,
{
    let ghost cm = trees_model(children@);
    let ghost em = entry@;
    let mut out: Vec<Value> = Vec::new();
    let mut j: usize = 0;
    proof {
        lemma_prepend_start(decode_matching(em, cm));
        assert(values_model(out@) =~= Seq::empty());
        assert(cm.skip(0) =~= cm);
    }
    while j < children.len()
        invariant
            j <= children.len(),
            cm == trees_model(children@),
            em == entry@,
            decode_matching(em, cm) == prepend(
                values_model(out@),
                decode_matching(em, cm.skip(j as int)),
            ),
        decreases children.len() - j,
    {
        let ghost rest = cm.skip(j as int);
        assert(rest[0] == children@[j as int]@);
        assert(rest.drop_first() =~= cm.skip(j + 1));
        if let Tree::Tagged { tag, children: inner } = &children[j] {
            if bytes_eq(tag, &entry.tag) {
                match decode_node(&entry.member.item, inner) {
                    Err(e) => {
                        return Err(e);
                    },
                    Ok(v) => {
                        proof {
                            lemma_values_push(out@, v);
                            lemma_prepend_step(
                                values_model(out@),
                                v@,
                                decode_matching(em, cm.skip(j + 1)),
                            );
                        }
                        out.push(v);
                    },
                }
            }
        }
        j += 1;
    }
    proof {
        lemma_prepend_end::<ValueModel, DecodeErrorModel>(values_model(out@));
    }
    Ok(out)
}

/// Decodes the children of the root of a tree into the value of a
/// specification: for every top-level declaration its occurrences.
pub fn decode(schema: &Schema, children: &Vec<Tree>) -> (r: Result<Value, DecodeError>)
    ensures
        value_result(r) == decode_content(schema@.root, trees_model(children@)),
        r matches Ok(v) ==> encode_content(schema@.root, v@) is Some,
{
    let root = schema.root();
    proof {
        crate::codec_laws::lemma_decode_typed(root@, trees_model(children@));
    }
    decode_node(root, children)
}


fn is_leaf(n: &Node) -> (r: bool)
    ensures
        r == is_leaf_kind(n@),
{
    match n {
        Node::Scalar(_) => true,
        Node::CharArray { .. } => true,
        Node::Enum { .. } => true,
        _ => false,
    }
}

/// Whether an item of the given multiplicity may occur `count` times.
pub fn count_allowed(m: Multiplicity, count: usize) -> (r: bool)
    ensures
        r == count_ok(m, count as nat),
{
    match m {
        Multiplicity::One => count == 1,
        Multiplicity::Optional => count <= 1,
        Multiplicity::Repeated => true,
    }
}

fn single(t: Tree) -> (r: Vec<Tree>)
    ensures
        trees_model(r@) == seq![t@],
{
    let mut out: Vec<Tree> = Vec::new();
    out.push(t);
    assert(trees_model(out@) =~= seq![t@]);
    out
}

/// Encodes the content of an item: the children that hold the value, or
/// nothing where the value is none of the item.
pub fn encode_node(n: &Node, v: &Value) -> (r: Option<Vec<Tree>>)
    ensures
        trees_option(r) == encode_content(n@, v@),
    decreases n, 0nat,
{
    match n {
        Node::Scalar(k) => match v {
            Value::Atom(a) => if fits(*k, a) {
                Some(single(Tree::Leaf(clone_atom(a))))
            } else {
                None
            },
            _ => None,
        },
        Node::CharArray { size } => match v {
            Value::Atom(Atom::Text(s)) => if s.len() <= *size {
                Some(single(Tree::Leaf(Atom::Text(s.clone()))))
            } else {
                None
            },
            _ => None,
        },
        Node::Enum { enumerators, .. } => match v {
            Value::Enum(i) => {
                assert(n@ is Enum && n@->Enum_enumerators == enumerators_model(enumerators@));
                if *i < enumerators.len() {
                    Some(single(Tree::Leaf(Atom::Item(enumerators[*i].tag.clone()))))
                } else {
                    None
                }
            },
            _ => None,
        },
        Node::Array { element, size } => match v {
            Value::List(vs) => {
                let ghost vm = values_model(vs@);
                let ghost em = (**element)@;
                assert(v@ == ValueModel::List(vm));
                if vs.len() != *size {
                    return None;
                }
                let mut out: Vec<Tree> = Vec::new();
                let mut i: usize = 0;
                proof {
                    lemma_prepend_some_start(encode_elements(em, vm, 0));
                    assert(trees_model(out@) =~= Seq::empty());
                }
                while i < vs.len()
                    invariant
                        i <= vs.len(),
                        vm == values_model(vs@),
                        n is Array,
                        n->element == *element,
                        em == (**element)@,
                        n@ is Array,
                        *n@->element == em,
                        n@->Array_size == vs.len(),
                        v@ == ValueModel::List(vm),
                        encode_elements(em, vm, 0) == prepend_some(
                            trees_model(out@),
                            encode_elements(em, vm, i as int),
                        ),
                    decreases vs.len() - i,
                {
                    assert(vm[i as int] == vs@[i as int]@);
                    match encode_tree(element, &vs[i]) {
                        None => {
                            return None;
                        },
                        Some(t) => {
                            proof {
                                lemma_trees_push(out@, t);
                                lemma_prepend_some_step(
                                    trees_model(out@),
                                    t@,
                                    encode_elements(em, vm, i + 1),
                                );
                            }
                            out.push(t);
                        },
                    }
                    i += 1;
                }
                proof {
                    lemma_prepend_some_end(trees_model(out@));
                }
                Some(out)
            },
            _ => None,
        },
        Node::Struct { members, .. } => match v {
            Value::List(vs) => {
                let ghost vm = values_model(vs@);
                let ghost mm = members_model(members@);
                assert(v@ == ValueModel::List(vm));
                assert(n@ is Struct && n@->Struct_members == mm);
                if vs.len() != members.len() {
                    return None;
                }
                let mut out: Vec<Tree> = Vec::new();
                let mut i: usize = 0;
                proof {
                    lemma_prepend_some_start(encode_members(mm, vm, 0));
                    assert(trees_model(out@) =~= Seq::empty());
                }
                while i < vs.len()
                    invariant
                        i <= vs.len(),
                        vs.len() == members.len(),
                        vm == values_model(vs@),
                        n is Struct,
                        n->Struct_members == *members,
                        mm == members_model(members@),
                        n@ is Struct,
                        n@->Struct_members == mm,
                        v@ == ValueModel::List(vm),
                        encode_members(mm, vm, 0) == prepend_some(
                            trees_model(out@),
                            encode_members(mm, vm, i as int),
                        ),
                    decreases vs.len() - i,
                {
                    assert(vm[i as int] == vs@[i as int]@);
                    assert(mm[i as int] == members@[i as int]@);
                    match encode_tree(&members[i].item, &vs[i]) {
                        None => {
                            return None;
                        },
                        Some(t) => {
                            proof {
                                lemma_trees_push(out@, t);
                                lemma_prepend_some_step(
                                    trees_model(out@),
                                    t@,
                                    encode_members(mm, vm, i + 1),
                                );
                            }
                            out.push(t);
                        },
                    }
                    i += 1;
                }
                proof {
                    lemma_prepend_some_end(trees_model(out@));
                }
                Some(out)
            },
            _ => None,
        },
        Node::TaggedUnion { variants, .. } => match v {
            Value::Union { variant, value } => {
                assert(n@ is TaggedUnion && n@->TaggedUnion_variants == taggeds_model(variants@));
                if *variant >= variants.len() {
                    return None;
                }
                assert(taggeds_model(variants@)[*variant as int] == variants@[*variant as int]@);
                let active = &variants[*variant];
                if active.multiplicity == Multiplicity::Repeated {
                    match &**value {
                        Value::List(vs) => {
                            assert((**value)@ == ValueModel::List(values_model(vs@)));
                            if vs.len() == 0 {
                                return None;
                            }
                            let mut out: Vec<Tree> = Vec::new();
                            assert(trees_model(out@) =~= Seq::empty());
                            if !encode_occurrences_into(active, vs, &mut out) {
                                return None;
                            }
                            assert(Seq::<TreeModel>::empty() + encode_occurrences(
                                active@,
                                values_model(vs@),
                                0,
                            )->Some_0 =~= encode_occurrences(active@, values_model(vs@), 0)->Some_0);
                            Some(out)
                        },
                        _ => None,
                    }
                } else {
                    match encode_node(&active.member.item, value) {
                        Some(cs) => Some(
                            single(Tree::Tagged { tag: active.tag.clone(), children: cs }),
                        ),
                        None => None,
                    }
                }
            },
            _ => None,
        },
        Node::TaggedStruct { entries, .. } => match v {
            Value::Tagged(os) => {
                let ghost om = occurrences_model(os@);
                let ghost em = taggeds_model(entries@);
                assert(v@ == ValueModel::Tagged(om));
                assert(n@ is TaggedStruct && n@->TaggedStruct_entries == em);
                if os.len() != entries.len() {
                    return None;
                }
                let mut out: Vec<Tree> = Vec::new();
                let mut k: usize = 0;
                proof {
                    lemma_prepend_some_start(encode_entries(em, om, 0));
                    assert(trees_model(out@) =~= Seq::empty());
                }
                while k < entries.len()
                    invariant
                        k <= entries.len(),
                        os.len() == entries.len(),
                        om == occurrences_model(os@),
                        n is TaggedStruct,
                        n->TaggedStruct_entries == *entries,
                        em == taggeds_model(entries@),
                        n@ is TaggedStruct,
                        n@->TaggedStruct_entries == em,
                        v@ == ValueModel::Tagged(om),
                        encode_entries(em, om, 0) == prepend_some(
                            trees_model(out@),
                            encode_entries(em, om, k as int),
                        ),
                    decreases entries.len() - k,
                {
                    assert(om[k as int] == values_model(os@[k as int]@));
                    assert(em[k as int] == entries@[k as int]@);
                    if !count_allowed(entries[k].multiplicity, os[k].len()) {
                        return None;
                    }
                    let ghost before = trees_model(out@);
                    if !encode_occurrences_into(&entries[k], &os[k], &mut out) {
                        return None;
                    }
                    proof {
                        lemma_prepend_some_join(
                            before,
                            encode_occurrences(em[k as int], om[k as int], 0)->Some_0,
                            encode_entries(em, om, k + 1),
                        );
                    }
                    k += 1;
                }
                proof {
                    lemma_prepend_some_end(trees_model(out@));
                }
                Some(out)
            },
            _ => None,
        },
    }
}

/// Encodes an element of an array or a member of a struct as one tree.
pub fn encode_tree(n: &Node, v: &Value) -> (r: Option<Tree>)
    ensures
        tree_option(r) == encode_single(n@, v@),
    decreases n, 1nat,
{
    match encode_node(n, v) {
        None => None,
        Some(mut cs) => {
            if is_leaf(n) {
                assert(trees_model(cs@).len() == 1);
                assert(trees_model(cs@)[0] == cs@[0]@);
                cs.pop()
            } else {
                Some(Tree::Group(cs))
            }
        },
    }
}

/// Appends to `out` one tagged child for every occurrence of `entry`;
/// returns whether every occurrence is a value of the entry.
pub fn encode_occurrences_into(entry: &Tagged, vs: &Vec<Value>, out: &mut Vec<Tree>) -> (ok: bool)
    ensures
        match encode_occurrences(entry@, values_model(vs@), 0) {
            Some(a) => ok && trees_model(final(out)@) == trees_model(old(out)@) + a,
            None => !ok,
        },
    decreases entry, 0nat,
{
    let ghost before = trees_model(out@);
    let ghost em = entry@;
    let ghost vm = values_model(vs@);
    let ghost mut added: Seq<TreeModel> = Seq::empty();
    let mut j: usize = 0;
    proof {
        lemma_prepend_some_start(encode_occurrences(em, vm, 0));
        assert(before + added =~= before);
    }
    while j < vs.len()
        invariant
            j <= vs.len(),
            em == entry@,
            vm == values_model(vs@),
            trees_model(out@) == before + added,
            encode_occurrences(em, vm, 0) == prepend_some(
                added,
                encode_occurrences(em, vm, j as int),
            ),
        decreases vs.len() - j,
    {
        assert(vm[j as int] == vs@[j as int]@);
        match encode_node(&entry.member.item, &vs[j]) {
            None => {
                return false;
            },
            Some(cs) => {
                let t = Tree::Tagged { tag: entry.tag.clone(), children: cs };
                proof {
                    lemma_trees_push(out@, t);
                    lemma_prepend_some_step(added, t@, encode_occurrences(em, vm, j + 1));
                    assert((before + added).push(t@) =~= before + added.push(t@));
                    added = added.push(t@);
                }
                out.push(t);
            },
        }
        j += 1;
    }
    proof {
        lemma_prepend_some_end(added);
    }
    true
}

/// Encodes the value of a specification: the children of the root of its
/// tree, or nothing where the value is none of the schema.
pub fn encode(schema: &Schema, value: &Value) -> (r: Option<Vec<Tree>>)
    ensures
        trees_option(r) == encode_content(schema@.root, value@),
        r matches Some(children) ==> decode_content(schema@.root, trees_model(children@)) == Ok::<
            ValueModel,
            DecodeErrorModel,
        >(value@),
{
    let root = schema.root();
    proof {
        crate::codec_laws::lemma_encode_decode(root@, value@);
    }
    encode_node(root, value)
}

} // verus!
