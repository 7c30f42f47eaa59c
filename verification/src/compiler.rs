//! The stages of the compiler put together: from tokens or text to the
//! schema and the artifacts generated from it.

use vstd::prelude::*;
use crate::ast::{taggeds_model, Tagged, TaggedModel};
use crate::bytes::is_lower;
use crate::grammar::{p_declarations, p_specification, SyntaxError};
use crate::host::{fold_documentation, folded};
use crate::parser::{parse_declarations, parse_specification};
use crate::render::{canonical_text, schema_text};
use crate::resolver::{
    name_of, resolve, resolved_schema, Schema, SchemaModel, SemanticError, SemanticErrorModel,
};
use crate::stream::{
    cook, cooked, raws_model, read_stream, stream_tokens, RawToken, RawTokenModel,
};
use crate::token::{lex, tokenize, tokens_model, LexError, Token, TokenModel};
use crate::typedefs::{definition, type_definitions, TypeDef};

verus! {

/// Why a text of the plain dialect cannot be read.
#[derive(Clone, Copy, Debug, PartialEq, Eq, Structural)]
pub enum ReadError {
    Lex(LexError),
    Syntax(SyntaxError),
}

/// Why a specification cannot be compiled.
#[derive(Debug, PartialEq, Eq)]
pub enum CompileError {
    /// A literal of a token stream, at the given index among its tokens,
    /// is neither a string nor a number.
    Literal { at: usize },
    Lex(LexError),
    Syntax(SyntaxError),
    Semantic(SemanticError),
}

/// The model of a [`CompileError`].
pub enum CompileErrorModel {
    Literal { at: usize },
    Lex(LexError),
    Syntax(SyntaxError),
    Semantic(SemanticErrorModel),
}

impl View for CompileError {
    type V = CompileErrorModel;

    open spec fn view(&self) -> CompileErrorModel {
        match *self {
            CompileError::Literal { at } => CompileErrorModel::Literal { at },
            CompileError::Lex(e) => CompileErrorModel::Lex(e),
            CompileError::Syntax(e) => CompileErrorModel::Syntax(e),
            CompileError::Semantic(e) => CompileErrorModel::Semantic(e@),
        }
    }
}

/// The top-level declarations that a text of the plain dialect writes.
pub open spec fn plain_declarations(text: Seq<u8>) -> Result<Seq<TaggedModel>, ReadError> {
    match lex(text, 0) {
        Err(e) => Err(ReadError::Lex(e)),
        Ok(ts) => match p_declarations(ts) {
            Err(e) => Err(ReadError::Syntax(e)),
            Ok(blocks) => Ok(blocks),
        },
    }
}

/// The schema that the tokens of a specification compile to, a
/// documentation attribute among them counting as a documentation token.
pub open spec fn compiled(ts: Seq<TokenModel>) -> Result<SchemaModel, CompileErrorModel> {
    match p_specification(folded(ts, 0)) {
        Err(e) => Err(CompileErrorModel::Syntax(e)),
        Ok(spec) => match resolved_schema(spec) {
            Err(e) => Err(CompileErrorModel::Semantic(e)),
            Ok(schema) => Ok(schema),
        },
    }
}

/// The schema that the tokens of a stream compile to.
pub open spec fn compiled_stream(raws: Seq<RawTokenModel>) -> Result<SchemaModel, CompileErrorModel> {
    match cooked(raws, 0) {
        Err(at) => Err(CompileErrorModel::Literal { at: at as usize }),
        Ok(ts) => compiled(ts),
    }
}

/// The schema that the text of a specification compiles to.
pub open spec fn compiled_text(text: Seq<u8>) -> Result<SchemaModel, CompileErrorModel> {
    match lex(text, 0) {
        Err(e) => Err(CompileErrorModel::Lex(e)),
        Ok(ts) => compiled(ts),
    }
}

/// A name in upper case.
pub open spec fn upper(s: Seq<u8>) -> Seq<u8> {
    Seq::new(
        s.len(),
        |i: int|
            if is_lower(s[i]) {
                (s[i] - 32) as u8
            } else {
                s[i]
            },
    )
}

/// The suffix of the name of the text constant: `_TEXT`.
pub open spec fn text_suffix() -> Seq<u8> {
    seq![95u8, 84u8, 69u8, 88u8, 84u8]
}

/// The name of the constant that holds the canonical text of a
/// specification: the name of the specification in upper case, and `_TEXT`.
pub open spec fn text_name(name: Seq<u8>) -> Seq<u8> {
    upper(name) + text_suffix()
}

/// What is generated from a schema: the schema itself, under which
/// `decode` and `encode` work, the type definitions, and the canonical
/// text with the name of its constant.
#[derive(Debug)]
pub struct Artifact {
    pub schema: Schema,
    pub types: Vec<TypeDef>,
    pub text_name: Vec<u8>,
    pub text: Vec<u8>,
}

impl Artifact {
    /// The artifact holds what its schema generates.
    pub open spec fn is_generated(&self) -> bool {
        &&& self.types.len() == self.schema@.types.len()
        &&& forall|i: int|
            0 <= i < self.types.len() ==> Some((#[trigger] self.types@[i])@) == definition(
                self.schema@.types[i],
            )
        &&& name_of(self.schema@.root) matches Some(name) && self.text_name@ == text_name(name)
        &&& self.text@ == canonical_text(self.schema@)
    }
}

/// The name of the constant that holds the canonical text.
pub fn constant_name(name: &Vec<u8>) -> (r: Vec<u8>)
    ensures
        r@ == text_name(name@),
{
    let mut out: Vec<u8> = Vec::new();
    let mut i: usize = 0;
    while i < name.len()
        invariant
            i <= name.len(),
            out@ == upper(name@).take(i as int),
        decreases name.len() - i,
    {
        let b = name[i];
        let c: u8 = if 97 <= b && b <= 122 {
            b - 32
        } else {
            b
        };
        out.push(c);
        assert(upper(name@).take(i + 1) =~= upper(name@).take(i as int).push(c));
        i += 1;
    }
    assert(upper(name@).take(name.len() as int) =~= upper(name@));
    out.push(95);
    out.push(84);
    out.push(69);
    out.push(88);
    out.push(84);
    assert(out@ =~= text_name(name@));
    out
}

/// Generates the artifacts of a schema.
pub fn generate(schema: Schema) -> (r: Artifact)
    ensures
        r.schema@ == schema@,
        r.is_generated(),
{
    let types = type_definitions(&schema);
    let text_name = constant_name(schema.name());
    let text = schema_text(&schema);
    Artifact { schema, types, text_name, text }
}

/// Reads a text of the plain dialect: its top-level declarations.
pub fn read_plain(text: &Vec<u8>) -> (r: Result<Vec<Tagged>, ReadError>)
    ensures
        match r {
            Ok(blocks) => plain_declarations(text@) == Ok::<Seq<TaggedModel>, ReadError>(
                taggeds_model(blocks@),
            ),
            Err(e) => plain_declarations(text@) == Err::<Seq<TaggedModel>, ReadError>(e),
        },
{
    let tokens = match tokenize(text) {
        Ok(tokens) => tokens,
        Err(e) => {
            return Err(ReadError::Lex(e));
        },
    };
    match parse_declarations(&tokens) {
        Ok(blocks) => Ok(blocks),
        Err(e) => Err(ReadError::Syntax(e)),
    }
}

/// Compiles the token stream of a specification: reads its tokens and
/// compiles them.
pub fn a2ml_specification(tokens: proc_macro2::TokenStream) -> (r: Result<Artifact, CompileError>)
    ensures
        match r {
            Ok(a) => compiled_stream(stream_tokens(tokens)) == Ok::<SchemaModel, CompileErrorModel>(
                a.schema@,
            ) && a.is_generated(),
            Err(e) => compiled_stream(stream_tokens(tokens)) == Err::<
                SchemaModel,
                CompileErrorModel,
            >(e@),
        },
{
    let mut raws: Vec<RawToken> = Vec::new();
    assert(raws_model(raws@) =~= Seq::empty());
    read_stream(&tokens, &mut raws);
    assert(Seq::<RawTokenModel>::empty() + stream_tokens(tokens) =~= stream_tokens(tokens));
    match cook(&raws) {
        Ok(cooked) => compile_tokens(&cooked),
        Err(at) => Err(CompileError::Literal { at }),
    }
}

/// Compiles the tokens of a specification: parses them, resolves the
/// specification and generates the artifacts of its schema. The tokens may
/// hold documentation as tokens or as attributes. The index of a syntax
/// error counts a documentation attribute as one token.
pub fn compile_tokens(tokens: &Vec<Token>) -> (r: Result<Artifact, CompileError>)
    ensures
        match r {
            Ok(a) => compiled(tokens_model(tokens@)) == Ok::<SchemaModel, CompileErrorModel>(
                a.schema@,
            ) && a.is_generated(),
            Err(e) => compiled(tokens_model(tokens@)) == Err::<SchemaModel, CompileErrorModel>(e@),
        },
{
    let folded = fold_documentation(tokens);
    let spec = match parse_specification(&folded) {
        Ok(spec) => spec,
        Err(e) => {
            return Err(CompileError::Syntax(e));
        },
    };
    match resolve(&spec) {
        Ok(schema) => Ok(generate(schema)),
        Err(e) => Err(CompileError::Semantic(e)),
    }
}

/// Compiles the text of a specification.
pub fn compile(text: &Vec<u8>) -> (r: Result<Artifact, CompileError>)
    ensures
        match r {
            Ok(a) => compiled_text(text@) == Ok::<SchemaModel, CompileErrorModel>(a.schema@)
                && a.is_generated(),
            Err(e) => compiled_text(text@) == Err::<SchemaModel, CompileErrorModel>(e@),
        },
{
    let tokens = match tokenize(text) {
        Ok(tokens) => tokens,
        Err(e) => {
            return Err(CompileError::Lex(e));
        },
    };
    compile_tokens(&tokens)
}

} // verus!
