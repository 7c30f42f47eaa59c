//! The generic tagged tree, the typed value, and their models.
//!
//! A floating-point scalar is carried as the bits of its IEEE 754 form.

use vstd::prelude::*;

verus! {

/// The scalar content of a leaf.
#[derive(Debug, PartialEq, Eq)]
pub enum Atom {
    Int(i128),
    /// The bits of a single-precision number.
    Float(u32),
    /// The bits of a double-precision number.
    Double(u64),
    Text(Vec<u8>),
    /// The tag of an enumerator.
    Item(Vec<u8>),
}

/// A node of the generic tree: scalar content, untagged children, or
/// children under a tag.
#[derive(Debug, PartialEq, Eq)]
pub enum Tree {
    Leaf(Atom),
    Group(Vec<Tree>),
    Tagged { tag: Vec<u8>, children: Vec<Tree> },
}

/// A typed value.
#[derive(Debug, PartialEq, Eq)]
pub enum Value {
    /// A scalar or a fixed-length string.
    Atom(Atom),
    /// The index of an enumerator.
    Enum(usize),
    /// The elements of an array or the fields of a struct, in their order.
    List(Vec<Value>),
    /// The index of the active variant of a tagged union, and its value:
    /// the list of its occurrences where the variant is repeated.
    Union { variant: usize, value: Box<Value> },
    /// For every entry of a tagged struct, its occurrences in their order.
    Tagged(Vec<Vec<Value>>),
}

/// The model of an [`Atom`].
pub enum AtomModel {
    Int(i128),
    Float(u32),
    Double(u64),
    Text(Seq<u8>),
    Item(Seq<u8>),
}

/// The model of a [`Tree`].
pub enum TreeModel {
    Leaf(AtomModel),
    Group(Seq<TreeModel>),
    Tagged { tag: Seq<u8>, children: Seq<TreeModel> },
}

/// The model of a [`Value`].
pub enum ValueModel {
    Atom(AtomModel),
    Enum(int),
    List(Seq<ValueModel>),
    Union { variant: int, value: Box<ValueModel> },
    Tagged(Seq<Seq<ValueModel>>),
}

impl View for Atom {
    type V = AtomModel;

    open spec fn view(&self) -> AtomModel {
        match *self {
            Atom::Int(x) => AtomModel::Int(x),
            Atom::Float(x) => AtomModel::Float(x),
            Atom::Double(x) => AtomModel::Double(x),
            Atom::Text(t) => AtomModel::Text(t@),
            Atom::Item(t) => AtomModel::Item(t@),
        }
    }
}

/// The model of a tree.
pub open spec fn tree_model(t: Tree) -> TreeModel
    decreases t,
{
    match t {
        Tree::Leaf(a) => TreeModel::Leaf(a@),
        Tree::Group(children) => TreeModel::Group(trees_model(children@)),
        Tree::Tagged { tag, children } => TreeModel::Tagged {
            tag: tag@,
            children: trees_model(children@),
        },
    }
}

/// The models of a list of trees.
pub open spec fn trees_model(ts: Seq<Tree>) -> Seq<TreeModel>
    decreases ts,
{
    Seq::new(
        ts.len(),
        |i: int|
            if 0 <= i < ts.len() {
                tree_model(ts[i])
            } else {
                arbitrary()
            },
    )
}

/// The model of a value.
pub open spec fn value_model(v: Value) -> ValueModel
    decreases v,
{
    match v {
        Value::Atom(a) => ValueModel::Atom(a@),
        Value::Enum(i) => ValueModel::Enum(i as int),
        Value::List(vs) => ValueModel::List(values_model(vs@)),
        Value::Union { variant, value } => ValueModel::Union {
            variant: variant as int,
            value: Box::new(value_model(*value)),
        },
        Value::Tagged(occurrences) => ValueModel::Tagged(occurrences_model(occurrences@)),
    }
}

/// The models of a list of values.
pub open spec fn values_model(vs: Seq<Value>) -> Seq<ValueModel>
    decreases vs,
{
    Seq::new(
        vs.len(),
        |i: int|
            if 0 <= i < vs.len() {
                value_model(vs[i])
            } else {
                arbitrary()
            },
    )
}

/// The models of the occurrences of the entries of a tagged struct.
pub open spec fn occurrences_model(os: Seq<Vec<Value>>) -> Seq<Seq<ValueModel>>
    decreases os,
{
    Seq::new(
        os.len(),
        |i: int|
            if 0 <= i < os.len() {
                values_model(os[i]@)
            } else {
                arbitrary()
            },
    )
}

impl View for Tree {
    type V = TreeModel;

    open spec fn view(&self) -> TreeModel {
        tree_model(*self)
    }
}

impl View for Value {
    type V = ValueModel;

    open spec fn view(&self) -> ValueModel {
        value_model(*self)
    }
}

/// Pushing a tree onto a list pushes its model onto the list's model.
pub proof fn lemma_trees_push(ts: Seq<Tree>, t: Tree)
    ensures
        trees_model(ts.push(t)) == trees_model(ts).push(t@),
{
    assert(trees_model(ts.push(t)) =~= trees_model(ts).push(t@));
}

/// Pushing a value onto a list pushes its model onto the list's model.
pub proof fn lemma_values_push(vs: Seq<Value>, v: Value)
    ensures
        values_model(vs.push(v)) == values_model(vs).push(v@),
{
    assert(values_model(vs.push(v)) =~= values_model(vs).push(v@));
}

/// Pushing the occurrences of an entry onto a list pushes their models
/// onto the list's model.
pub proof fn lemma_occurrences_push(os: Seq<Vec<Value>>, o: Vec<Value>)
    ensures
        occurrences_model(os.push(o)) == occurrences_model(os).push(values_model(o@)),
{
    assert(occurrences_model(os.push(o)) =~= occurrences_model(os).push(values_model(o@)));
}

/// A copy of an atom.
pub fn clone_atom(a: &Atom) -> (r: Atom)
    ensures
        r@ == a@,
{
    match a {
        Atom::Int(x) => Atom::Int(*x),
        Atom::Float(x) => Atom::Float(*x),
        Atom::Double(x) => Atom::Double(*x),
        Atom::Text(t) => Atom::Text(t.clone()),
        Atom::Item(t) => Atom::Item(t.clone()),
    }
}

} // verus!
