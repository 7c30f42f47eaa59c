//! The keywords of the dialect.

use vstd::prelude::*;
use crate::ast::Scalar;
use crate::bytes::bytes_eq;

verus! {

/// A keyword of the dialect.
#[derive(Clone, Copy, Debug, PartialEq, Eq, Structural)]
pub enum Keyword {
    Block,
    Struct,
    TaggedUnion,
    TaggedStruct,
    Enum,
    Scalar(Scalar),
}

/// The bytes of a scalar keyword: `char`, `int`, `long`, `int64`, `uchar`,
/// `uint`, `ulong`, `uint64`, `double`, `float`.
pub open spec fn scalar_word(k: Scalar) -> Seq<u8> {
    match k {
        Scalar::Char => seq![99u8, 104u8, 97u8, 114u8],
        Scalar::Int => seq![105u8, 110u8, 116u8],
        Scalar::Long => seq![108u8, 111u8, 110u8, 103u8],
        Scalar::Int64 => seq![105u8, 110u8, 116u8, 54u8, 52u8],
        Scalar::UChar => seq![117u8, 99u8, 104u8, 97u8, 114u8],
        Scalar::UInt => seq![117u8, 105u8, 110u8, 116u8],
        Scalar::ULong => seq![117u8, 108u8, 111u8, 110u8, 103u8],
        Scalar::UInt64 => seq![117u8, 105u8, 110u8, 116u8, 54u8, 52u8],
        Scalar::Double => seq![100u8, 111u8, 117u8, 98u8, 108u8, 101u8],
        Scalar::Float => seq![102u8, 108u8, 111u8, 97u8, 116u8],
    }
}

/// The bytes of a keyword: `block`, `struct`, `taggedunion`,
/// `taggedstruct`, `enum`, or those of a scalar keyword.
pub open spec fn word(k: Keyword) -> Seq<u8> {
    match k {
        Keyword::Block => seq![98u8, 108u8, 111u8, 99u8, 107u8],
        Keyword::Struct => seq![115u8, 116u8, 114u8, 117u8, 99u8, 116u8],
        Keyword::TaggedUnion => seq![
            116u8,
            97u8,
            103u8,
            103u8,
            101u8,
            100u8,
            117u8,
            110u8,
            105u8,
            111u8,
            110u8,
        ],
        Keyword::TaggedStruct => seq![
            116u8,
            97u8,
            103u8,
            103u8,
            101u8,
            100u8,
            115u8,
            116u8,
            114u8,
            117u8,
            99u8,
            116u8,
        ],
        Keyword::Enum => seq![101u8, 110u8, 117u8, 109u8],
        Keyword::Scalar(k) => scalar_word(k),
    }
}

/// The scalar kind that a word names, if any.
pub open spec fn scalar_of(w: Seq<u8>) -> Option<Scalar> {
    if w == scalar_word(Scalar::Char) {
        Some(Scalar::Char)
    } else if w == scalar_word(Scalar::Int) {
        Some(Scalar::Int)
    } else if w == scalar_word(Scalar::Long) {
        Some(Scalar::Long)
    } else if w == scalar_word(Scalar::Int64) {
        Some(Scalar::Int64)
    } else if w == scalar_word(Scalar::UChar) {
        Some(Scalar::UChar)
    } else if w == scalar_word(Scalar::UInt) {
        Some(Scalar::UInt)
    } else if w == scalar_word(Scalar::ULong) {
        Some(Scalar::ULong)
    } else if w == scalar_word(Scalar::UInt64) {
        Some(Scalar::UInt64)
    } else if w == scalar_word(Scalar::Double) {
        Some(Scalar::Double)
    } else if w == scalar_word(Scalar::Float) {
        Some(Scalar::Float)
    } else {
        None
    }
}

/// The keyword that a word is, if any.
pub open spec fn keyword_of(w: Seq<u8>) -> Option<Keyword> {
    if w == word(Keyword::Block) {
        Some(Keyword::Block)
    } else if w == word(Keyword::Struct) {
        Some(Keyword::Struct)
    } else if w == word(Keyword::TaggedUnion) {
        Some(Keyword::TaggedUnion)
    } else if w == word(Keyword::TaggedStruct) {
        Some(Keyword::TaggedStruct)
    } else if w == word(Keyword::Enum) {
        Some(Keyword::Enum)
    } else {
        match scalar_of(w) {
            Some(k) => Some(Keyword::Scalar(k)),
            None => None,
        }
    }
}

proof fn lemma_scalar_facts()
    ensures
        scalar_word(Scalar::Char).len() == 4 && scalar_word(Scalar::Char)[0] == 99,
        scalar_word(Scalar::Int).len() == 3 && scalar_word(Scalar::Int)[0] == 105,
        scalar_word(Scalar::Long).len() == 4 && scalar_word(Scalar::Long)[0] == 108,
        scalar_word(Scalar::Int64).len() == 5 && scalar_word(Scalar::Int64)[0] == 105,
        scalar_word(Scalar::UChar).len() == 5 && scalar_word(Scalar::UChar)[0] == 117
            && scalar_word(Scalar::UChar)[1] == 99,
        scalar_word(Scalar::UInt).len() == 4 && scalar_word(Scalar::UInt)[0] == 117,
        scalar_word(Scalar::ULong).len() == 5 && scalar_word(Scalar::ULong)[0] == 117
            && scalar_word(Scalar::ULong)[1] == 108,
        scalar_word(Scalar::UInt64).len() == 6 && scalar_word(Scalar::UInt64)[0] == 117,
        scalar_word(Scalar::Double).len() == 6 && scalar_word(Scalar::Double)[0] == 100,
        scalar_word(Scalar::Float).len() == 5 && scalar_word(Scalar::Float)[0] == 102,
{
}

/// Every scalar keyword names its own kind.
pub proof fn lemma_scalar_word(k: Scalar)
    ensures
        scalar_of(scalar_word(k)) == Some(k),
        scalar_word(k).len() >= 3,
        forall|i: int| 0 <= i < scalar_word(k).len() ==> crate::bytes::is_ident_part(scalar_word(k)[i]),
        crate::bytes::is_ident_start(scalar_word(k)[0]),
{
    lemma_scalar_facts();
}

/// Every keyword is its own word and no other.
pub proof fn lemma_keyword_word(k: Keyword)
    ensures
        keyword_of(word(k)) == Some(k),
        word(k).len() >= 3,
        forall|i: int| 0 <= i < word(k).len() ==> crate::bytes::is_ident_part(word(k)[i]),
        crate::bytes::is_ident_start(word(k)[0]),
{
    lemma_scalar_facts();
    assert(word(Keyword::Block).len() == 5 && word(Keyword::Block)[0] == 98);
    assert(word(Keyword::Struct).len() == 6 && word(Keyword::Struct)[0] == 115);
    assert(word(Keyword::TaggedUnion).len() == 11);
    assert(word(Keyword::TaggedStruct).len() == 12);
    assert(word(Keyword::Enum).len() == 4 && word(Keyword::Enum)[0] == 101);
    if let Keyword::Scalar(s) = k {
        lemma_scalar_word(s);
    }
}

/// The text of a scalar keyword.
pub fn scalar_text(k: Scalar) -> (r: Vec<u8>)
    ensures
        r@ == scalar_word(k),
{
    let r = match k {
        Scalar::Char => vec![99u8, 104u8, 97u8, 114u8],
        Scalar::Int => vec![105u8, 110u8, 116u8],
        Scalar::Long => vec![108u8, 111u8, 110u8, 103u8],
        Scalar::Int64 => vec![105u8, 110u8, 116u8, 54u8, 52u8],
        Scalar::UChar => vec![117u8, 99u8, 104u8, 97u8, 114u8],
        Scalar::UInt => vec![117u8, 105u8, 110u8, 116u8],
        Scalar::ULong => vec![117u8, 108u8, 111u8, 110u8, 103u8],
        Scalar::UInt64 => vec![117u8, 105u8, 110u8, 116u8, 54u8, 52u8],
        Scalar::Double => vec![100u8, 111u8, 117u8, 98u8, 108u8, 101u8],
        Scalar::Float => vec![102u8, 108u8, 111u8, 97u8, 116u8],
    };
    assert(r@ =~= scalar_word(k));
    r
}

/// The text of a keyword.
pub fn keyword_text(k: Keyword) -> (r: Vec<u8>)
    ensures
        r@ == word(k),
{
    let r = match k {
        Keyword::Block => vec![98u8, 108u8, 111u8, 99u8, 107u8],
        Keyword::Struct => vec![115u8, 116u8, 114u8, 117u8, 99u8, 116u8],
        Keyword::TaggedUnion => vec![
            116u8,
            97u8,
            103u8,
            103u8,
            101u8,
            100u8,
            117u8,
            110u8,
            105u8,
            111u8,
            110u8,
        ],
        Keyword::TaggedStruct => vec![
            116u8,
            97u8,
            103u8,
            103u8,
            101u8,
            100u8,
            115u8,
            116u8,
            114u8,
            117u8,
            99u8,
            116u8,
        ],
        Keyword::Enum => vec![101u8, 110u8, 117u8, 109u8],
        Keyword::Scalar(k) => scalar_text(k),
    };
    assert(r@ =~= word(k));
    r
}

fn is_word(w: &Vec<u8>, k: Keyword) -> (r: bool)
    ensures
        r == (w@ == word(k)),
{
    let text = keyword_text(k);
    bytes_eq(w, &text)
}

/// The keyword that a word is, if any.
pub fn lookup_keyword(w: &Vec<u8>) -> (r: Option<Keyword>)
    ensures
        r == keyword_of(w@),
{
    if is_word(w, Keyword::Block) {
        Some(Keyword::Block)
    } else if is_word(w, Keyword::Struct) {
        Some(Keyword::Struct)
    } else if is_word(w, Keyword::TaggedUnion) {
        Some(Keyword::TaggedUnion)
    } else if is_word(w, Keyword::TaggedStruct) {
        Some(Keyword::TaggedStruct)
    } else if is_word(w, Keyword::Enum) {
        Some(Keyword::Enum)
    } else if is_word(w, Keyword::Scalar(Scalar::Char)) {
        Some(Keyword::Scalar(Scalar::Char))
    } else if is_word(w, Keyword::Scalar(Scalar::Int)) {
        Some(Keyword::Scalar(Scalar::Int))
    } else if is_word(w, Keyword::Scalar(Scalar::Long)) {
        Some(Keyword::Scalar(Scalar::Long))
    } else if is_word(w, Keyword::Scalar(Scalar::Int64)) {
        Some(Keyword::Scalar(Scalar::Int64))
    } else if is_word(w, Keyword::Scalar(Scalar::UChar)) {
        Some(Keyword::Scalar(Scalar::UChar))
    } else if is_word(w, Keyword::Scalar(Scalar::UInt)) {
        Some(Keyword::Scalar(Scalar::UInt))
    } else if is_word(w, Keyword::Scalar(Scalar::ULong)) {
        Some(Keyword::Scalar(Scalar::ULong))
    } else if is_word(w, Keyword::Scalar(Scalar::UInt64)) {
        Some(Keyword::Scalar(Scalar::UInt64))
    } else if is_word(w, Keyword::Scalar(Scalar::Double)) {
        Some(Keyword::Scalar(Scalar::Double))
    } else if is_word(w, Keyword::Scalar(Scalar::Float)) {
        Some(Keyword::Scalar(Scalar::Float))
    } else {
        None
    }
}

} // verus!
