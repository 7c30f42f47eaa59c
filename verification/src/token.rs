//! Tokens, and the lexer that reads them from text.
//!
//! Text holds identifiers, string literals without escapes, decimal
//! numbers, the punctuation of the dialect, line comments, and
//! documentation comments, which start with `///` and run to the end of
//! the line.

use vstd::prelude::*;
use crate::bytes::{
    byte_is_digit, byte_is_ident_part, byte_is_ident_start, byte_is_space, is_digit, is_ident_part,
    is_ident_start, is_space,
};
use crate::lists::{lemma_prepend_end, lemma_prepend_start, lemma_prepend_step, prepend};

verus! {

/// An atomic lexical unit.
#[derive(Debug, PartialEq, Eq)]
pub enum Token {
    Ident(Vec<u8>),
    /// A string literal, without its quotes.
    Str(Vec<u8>),
    Num(u64),
    Punct(u8),
    /// A documentation comment, without its slashes.
    Doc(Vec<u8>),
}

/// The model of a [`Token`].
pub enum TokenModel {
    Ident(Seq<u8>),
    Str(Seq<u8>),
    Num(u64),
    Punct(u8),
    Doc(Seq<u8>),
}

impl View for Token {
    type V = TokenModel;

    open spec fn view(&self) -> TokenModel {
        match *self {
            Token::Ident(s) => TokenModel::Ident(s@),
            Token::Str(s) => TokenModel::Str(s@),
            Token::Num(n) => TokenModel::Num(n),
            Token::Punct(b) => TokenModel::Punct(b),
            Token::Doc(s) => TokenModel::Doc(s@),
        }
    }
}

/// The models of a list of tokens.
pub open spec fn tokens_model(ts: Seq<Token>) -> Seq<TokenModel> {
    Seq::new(ts.len(), |i: int| ts[i]@)
}

/// Pushing a token onto a list pushes its model onto the list's model.
pub proof fn lemma_tokens_push(ts: Seq<Token>, t: Token)
    ensures
        tokens_model(ts.push(t)) == tokens_model(ts).push(t@),
{
    assert(tokens_model(ts.push(t)) =~= tokens_model(ts).push(t@));
}

/// What is wrong with a text.
#[derive(Clone, Copy, Debug, PartialEq, Eq, Structural)]
pub enum LexFault {
    /// A byte that starts no token.
    UnexpectedByte,
    /// A string literal without its closing quote.
    UnterminatedString,
    /// A number above the largest 64-bit number.
    NumberTooLarge,
}

/// A fault of a text, with the offset of the byte at which the faulty
/// token starts.
#[derive(Clone, Copy, Debug, PartialEq, Eq, Structural)]
pub struct LexError {
    pub offset: usize,
    pub fault: LexFault,
}

/// A class of bytes of which a token or a comment holds a run.
#[derive(Clone, Copy, Debug, PartialEq, Eq, Structural)]
pub enum Class {
    /// A byte of an identifier.
    Ident,
    /// A decimal digit.
    Digit,
    /// A byte of a line: any but the line feed.
    Line,
    /// A byte of a string literal: any but the double quote.
    Quoted,
}

/// Whether a byte is of a class.
pub open spec fn in_class(c: Class, b: u8) -> bool {
    match c {
        Class::Ident => is_ident_part(b),
        Class::Digit => is_digit(b),
        Class::Line => b != 10,
        Class::Quoted => b != 34,
    }
}

/// The punctuation of the dialect: `< > { } ( ) [ ] ; , = * ! -`.
pub open spec fn is_punct(b: u8) -> bool {
    b == 60 || b == 62 || b == 123 || b == 125 || b == 40 || b == 41 || b == 91 || b == 93 || b == 59
        || b == 44 || b == 61 || b == 42 || b == 33 || b == 45
}

/// The number of bytes at the start of `s` that are of class `c`.
pub open spec fn run_len(s: Seq<u8>, c: Class) -> nat
    decreases s.len(),
{
    if s.len() == 0 || !in_class(c, s[0]) {
        0
    } else {
        1 + run_len(s.drop_first(), c)
    }
}

/// The number that a run of digits writes.
pub open spec fn decimal(s: Seq<u8>) -> nat
    decreases s.len(),
{
    if s.len() == 0 {
        0
    } else {
        decimal(s.drop_last()) * 10 + (s.last() - 48) as nat
    }
}

/// A run is within the text, holds bytes of its class only, and ends at the
/// end of the text or before a byte of another class.
pub proof fn lemma_run_len(s: Seq<u8>, c: Class)
    ensures
        run_len(s, c) <= s.len(),
        forall|i: int| 0 <= i < run_len(s, c) ==> in_class(c, #[trigger] s[i]),
        run_len(s, c) < s.len() ==> !in_class(c, s[run_len(s, c) as int]),
    decreases s.len(),
{
    if s.len() > 0 && in_class(c, s[0]) {
        lemma_run_len(s.drop_first(), c);
        assert forall|i: int| 0 <= i < run_len(s, c) implies in_class(c, #[trigger] s[i]) by {
            if i > 0 {
                assert(s[i] == s.drop_first()[i - 1]);
            }
        }
    }
}

/// The length of a run is the one number of leading bytes of the class
/// that cannot be extended.
pub proof fn lemma_run_len_is(s: Seq<u8>, c: Class, n: int)
    requires
        0 <= n <= s.len(),
        forall|i: int| 0 <= i < n ==> in_class(c, #[trigger] s[i]),
        n == s.len() || !in_class(c, s[n]),
    ensures
        run_len(s, c) == n,
    decreases s.len(),
{
    if n > 0 {
        assert(in_class(c, s[0]));
        assert forall|i: int| 0 <= i < n - 1 implies in_class(c, #[trigger] s.drop_first()[i]) by {
            assert(s.drop_first()[i] == s[i + 1]);
        }
        lemma_run_len_is(s.drop_first(), c, n - 1);
    }
}

/// What stands at the start of a text: blank space or a comment to skip,
/// a token, or a fault; with the number of bytes that it holds.
pub enum Step {
    Skip { len: nat },
    Emit { token: TokenModel, len: nat },
    Fail { fault: LexFault },
}

/// What stands at the start of a text that is not empty.
pub open spec fn step(s: Seq<u8>) -> Step {
    if is_space(s[0]) {
        Step::Skip { len: 1 }
    } else if s[0] == 47 {
        if s.len() >= 2 && s[1] == 47 {
            let n = run_len(s, Class::Line);
            if s.len() >= 3 && s[2] == 47 {
                Step::Emit { token: TokenModel::Doc(s.subrange(3, n as int)), len: n }
            } else {
                Step::Skip { len: n }
            }
        } else {
            Step::Fail { fault: LexFault::UnexpectedByte }
        }
    } else if is_ident_start(s[0]) {
        let n = run_len(s, Class::Ident);
        Step::Emit { token: TokenModel::Ident(s.take(n as int)), len: n }
    } else if is_digit(s[0]) {
        let n = run_len(s, Class::Digit);
        if decimal(s.take(n as int)) > u64::MAX {
            Step::Fail { fault: LexFault::NumberTooLarge }
        } else {
            Step::Emit { token: TokenModel::Num(decimal(s.take(n as int)) as u64), len: n }
        }
    } else if s[0] == 34 {
        let n = run_len(s.drop_first(), Class::Quoted);
        if 1 + n >= s.len() {
            Step::Fail { fault: LexFault::UnterminatedString }
        } else {
            Step::Emit { token: TokenModel::Str(s.subrange(1, 1 + n as int)), len: n + 2 }
        }
    } else if is_punct(s[0]) {
        Step::Emit { token: TokenModel::Punct(s[0]), len: 1 }
    } else {
        Step::Fail { fault: LexFault::UnexpectedByte }
    }
}

/// A step holds at least one byte and no more than the text.
pub proof fn lemma_step(s: Seq<u8>)
    requires
        s.len() > 0,
    ensures
        step(s) matches Step::Skip { len } ==> 0 < len <= s.len(),
        step(s) matches Step::Emit { len, .. } ==> 0 < len <= s.len(),
{
    lemma_run_len(s, Class::Line);
    lemma_run_len(s, Class::Ident);
    lemma_run_len(s, Class::Digit);
    lemma_run_len(s.drop_first(), Class::Quoted);
}

/// The tokens of a text whose first byte stands at offset `base`, or the
/// first fault found, with the offset at which the faulty token starts.
pub open spec fn lex(s: Seq<u8>, base: int) -> Result<Seq<TokenModel>, LexError>
    decreases s.len(),
{
    if s.len() == 0 {
        Ok(Seq::empty())
    } else {
        proof {
            lemma_step(s);
        }
        match step(s) {
            Step::Skip { len } => lex(s.skip(len as int), base + len),
            Step::Emit { token, len } => prepend(seq![token], lex(s.skip(len as int), base + len)),
            Step::Fail { fault } => Err(LexError { offset: base as usize, fault }),
        }
    }
}

/// The model of the result of reading tokens.
pub open spec fn tokens_result(r: Result<Vec<Token>, LexError>) -> Result<Seq<TokenModel>, LexError> {
    match r {
        Ok(v) => Ok(tokens_model(v@)),
        Err(e) => Err(e),
    }
}


/// The value of a run of digits does not shrink when the run grows.
pub proof fn lemma_decimal_prefix(s: Seq<u8>, k: int)
    requires
        0 <= k <= s.len(),
        forall|i: int| 0 <= i < s.len() ==> is_digit(#[trigger] s[i]),
    ensures
        decimal(s.take(k)) <= decimal(s),
    decreases s.len(),
{
    if k == s.len() {
        assert(s.take(k) =~= s);
    } else {
        assert(s.drop_last().take(k) =~= s.take(k));
        lemma_decimal_prefix(s.drop_last(), k);
    }
}

fn byte_in_class(c: Class, b: u8) -> (r: bool)
    ensures
        r == in_class(c, b),
{
    match c {
        Class::Ident => byte_is_ident_part(b),
        Class::Digit => byte_is_digit(b),
        Class::Line => b != 10,
        Class::Quoted => b != 34,
    }
}

fn byte_is_punct(b: u8) -> (r: bool)
    ensures
        r == is_punct(b),
{
    b == 60 || b == 62 || b == 123 || b == 125 || b == 40 || b == 41 || b == 91 || b == 93 || b == 59
        || b == 44 || b == 61 || b == 42 || b == 33 || b == 45
}

/// The end of the run of bytes of class `c` that starts at `from`.
pub fn scan(text: &Vec<u8>, from: usize, c: Class) -> (end: usize)
    requires
        from <= text.len(),
    ensures
        from <= end <= text.len(),
        run_len(text@.skip(from as int), c) == end - from,
{
    let mut j: usize = from;
    while j < text.len() && byte_in_class(c, text[j])
        invariant
            from <= j <= text.len(),
            forall|i: int| from <= i < j ==> in_class(c, #[trigger] text@[i]),
        decreases text.len() - j,
    {
        j += 1;
    }
    proof {
        let s = text@.skip(from as int);
        assert forall|i: int| 0 <= i < j - from implies in_class(c, #[trigger] s[i]) by {
            assert(s[i] == text@[from + i]);
        }
        lemma_run_len_is(s, c, j - from);
    }
    j
}

/// A copy of the bytes from `from` up to `to`.
pub fn copy_range(text: &Vec<u8>, from: usize, to: usize) -> (r: Vec<u8>)
    requires
        from <= to <= text.len(),
    ensures
        r@ == text@.subrange(from as int, to as int),
{
    let mut out: Vec<u8> = Vec::new();
    let mut j: usize = from;
    while j < to
        invariant
            from <= j <= to <= text.len(),
            out@ == text@.subrange(from as int, j as int),
        decreases to - j,
    {
        out.push(text[j]);
        assert(text@.subrange(from as int, j + 1) =~= text@.subrange(from as int, j as int).push(
            text@[j as int],
        ));
        j += 1;
    }
    out
}

/// The number that the digits from `from` up to `to` write, unless it is
/// above the largest 64-bit number.
pub fn read_number(text: &Vec<u8>, from: usize, to: usize) -> (r: Option<u64>)
    requires
        from <= to <= text.len(),
        forall|i: int| from <= i < to ==> is_digit(#[trigger] text@[i]),
    ensures
        match r {
            Some(v) => v == decimal(text@.subrange(from as int, to as int)),
            None => decimal(text@.subrange(from as int, to as int)) > u64::MAX,
        },
{
    let ghost all = text@.subrange(from as int, to as int);
    let mut acc: u64 = 0;
    let mut j: usize = from;
    assert(text@.subrange(from as int, from as int) =~= Seq::empty());
    while j < to
        invariant
            from <= j <= to <= text.len(),
            all == text@.subrange(from as int, to as int),
            forall|i: int| from <= i < to ==> is_digit(#[trigger] text@[i]),
            acc == decimal(text@.subrange(from as int, j as int)),
        decreases to - j,
    {
        let d: u64 = (text[j] - 48) as u64;
        let ghost next = text@.subrange(from as int, j + 1);
        assert(next.drop_last() =~= text@.subrange(from as int, j as int));
        assert(next.last() == text@[j as int]);
        assert(decimal(next) == acc * 10 + d);
        let wide: u128 = acc as u128 * 10 + d as u128;
        if wide > 0xffff_ffff_ffff_ffff {
            proof {
                assert(all.take(j + 1 - from) =~= next);
                lemma_decimal_prefix(all, j + 1 - from);
            }
            return None;
        }
        acc = wide as u64;
        j += 1;
    }
    Some(acc)
}

/// What `next_step` found: where the step ends and the token, if it holds
/// one, or the fault.
pub enum Found {
    Skip { end: usize },
    Emit { token: Token, end: usize },
    Fail { fault: LexFault },
}

/// The step that a `Found` reports of a text that starts at offset `from`.
pub open spec fn found_step(f: Found, from: int) -> Step {
    match f {
        Found::Skip { end } => Step::Skip { len: (end - from) as nat },
        Found::Emit { token, end } => Step::Emit { token: token@, len: (end - from) as nat },
        Found::Fail { fault } => Step::Fail { fault },
    }
}

fn comment_step(text: &Vec<u8>, i: usize) -> (r: Found)
    requires
        i + 1 < text.len(),
        text@[i as int] == 47,
        text@[i + 1] == 47,
    ensures
        found_step(r, i as int) == step(text@.skip(i as int)),
        r matches Found::Skip { end } ==> i < end <= text.len(),
        r matches Found::Emit { end, .. } ==> i < end <= text.len(),
{
    let ghost s = text@.skip(i as int);
    assert(s[0] == text@[i as int]);
    assert(s[1] == text@[i + 1]);
    let end = scan(text, i, Class::Line);
    proof {
        lemma_run_len(s, Class::Line);
    }
    if i + 2 < text.len() && text[i + 2] == 47 {
        assert(s[2] == text@[i + 2]);
        assert(end >= i + 3) by {
            if end < i + 3 {
                assert(!in_class(Class::Line, s[end - i]));
            }
        }
        let token = Token::Doc(copy_range(text, i + 3, end));
        assert(s.subrange(3, end - i) =~= text@.subrange(i + 3, end as int));
        Found::Emit { token, end }
    } else {
        assert(!(s.len() >= 3 && s[2] == 47)) by {
            if s.len() >= 3 {
                assert(s[2] == text@[i + 2]);
            }
        }
        Found::Skip { end }
    }
}

fn ident_step(text: &Vec<u8>, i: usize) -> (r: Found)
    requires
        i < text.len(),
        is_ident_start(text@[i as int]),
    ensures
        found_step(r, i as int) == step(text@.skip(i as int)),
        r matches Found::Emit { end, .. } && i < end <= text.len(),
{
    let ghost s = text@.skip(i as int);
    assert(s[0] == text@[i as int]);
    let end = scan(text, i, Class::Ident);
    proof {
        lemma_run_len(s, Class::Ident);
    }
    let token = Token::Ident(copy_range(text, i, end));
    assert(s.take(end - i) =~= text@.subrange(i as int, end as int));
    Found::Emit { token, end }
}

fn number_step(text: &Vec<u8>, i: usize) -> (r: Found)
    requires
        i < text.len(),
        is_digit(text@[i as int]),
    ensures
        found_step(r, i as int) == step(text@.skip(i as int)),
        r matches Found::Emit { end, .. } ==> i < end <= text.len(),
        !(r is Skip),
{
    let ghost s = text@.skip(i as int);
    assert(s[0] == text@[i as int]);
    let end = scan(text, i, Class::Digit);
    proof {
        lemma_run_len(s, Class::Digit);
        assert(s.take(end - i) =~= text@.subrange(i as int, end as int));
        assert forall|k: int| i <= k < end implies is_digit(#[trigger] text@[k]) by {
            assert(s[k - i] == text@[k]);
        }
    }
    match read_number(text, i, end) {
        None => Found::Fail { fault: LexFault::NumberTooLarge },
        Some(v) => Found::Emit { token: Token::Num(v), end },
    }
}

fn string_step(text: &Vec<u8>, i: usize) -> (r: Found)
    requires
        i < text.len(),
        text@[i as int] == 34,
    ensures
        found_step(r, i as int) == step(text@.skip(i as int)),
        r matches Found::Emit { end, .. } ==> i < end <= text.len(),
        !(r is Skip),
{
    let ghost s = text@.skip(i as int);
    assert(s[0] == text@[i as int]);
    assert(s.drop_first() =~= text@.skip(i + 1));
    let end = scan(text, i + 1, Class::Quoted);
    if end >= text.len() {
        Found::Fail { fault: LexFault::UnterminatedString }
    } else {
        let token = Token::Str(copy_range(text, i + 1, end));
        assert(s.subrange(1, 1 + (end - (i + 1))) =~= text@.subrange(i + 1, end as int));
        Found::Emit { token, end: end + 1 }
    }
}

/// Reads what stands at offset `i` of a text.
pub fn next_step(text: &Vec<u8>, i: usize) -> (r: Found)
    requires
        i < text.len(),
    ensures
        found_step(r, i as int) == step(text@.skip(i as int)),
        r matches Found::Skip { end } ==> i < end <= text.len(),
        r matches Found::Emit { end, .. } ==> i < end <= text.len(),
{
    let ghost s = text@.skip(i as int);
    let b = text[i];
    assert(s[0] == b);
    if byte_is_space(b) {
        Found::Skip { end: i + 1 }
    } else if b == 47 {
        if i + 1 < text.len() && text[i + 1] == 47 {
            comment_step(text, i)
        } else {
            assert(!(s.len() >= 2 && s[1] == 47)) by {
                if s.len() >= 2 {
                    assert(s[1] == text@[i + 1]);
                }
            }
            Found::Fail { fault: LexFault::UnexpectedByte }
        }
    } else if byte_is_ident_start(b) {
        ident_step(text, i)
    } else if byte_is_digit(b) {
        number_step(text, i)
    } else if b == 34 {
        string_step(text, i)
    } else if byte_is_punct(b) {
        Found::Emit { token: Token::Punct(b), end: i + 1 }
    } else {
        Found::Fail { fault: LexFault::UnexpectedByte }
    }
}

/// Reads the tokens of a text.
pub fn tokenize(text: &Vec<u8>) -> (r: Result<Vec<Token>, LexError>)
    ensures
        tokens_result(r) == lex(text@, 0),
{
    let ghost all = text@;
    let mut out: Vec<Token> = Vec::new();
    let mut i: usize = 0;
    proof {
        lemma_prepend_start(lex(all, 0));
        assert(tokens_model(out@) =~= Seq::empty());
        assert(all.skip(0) =~= all);
    }
    while i < text.len()
        invariant
            i <= text.len(),
            all == text@,
            lex(all, 0) == prepend(tokens_model(out@), lex(all.skip(i as int), i as int)),
        decreases text.len() - i,
    {
        let ghost s = all.skip(i as int);
        match next_step(text, i) {
            Found::Skip { end } => {
                assert(s.skip(end - i) =~= all.skip(end as int));
                i = end;
            },
            Found::Emit { token, end } => {
                proof {
                    assert(s.skip(end - i) =~= all.skip(end as int));
                    lemma_tokens_push(out@, token);
                    lemma_prepend_step(
                        tokens_model(out@),
                        token@,
                        lex(all.skip(end as int), end as int),
                    );
                }
                out.push(token);
                i = end;
            },
            Found::Fail { fault } => {
                return Err(LexError { offset: i, fault });
            },
        }
    }
    proof {
        lemma_prepend_end::<TokenModel, LexError>(tokens_model(out@));
    }
    Ok(out)
}


/// The offsets at which the tokens of a text start, where the first byte
/// of the text stands at offset `base`; up to the first fault.
pub open spec fn offsets(s: Seq<u8>, base: int) -> Seq<int>
    decreases s.len(),
{
    if s.len() == 0 {
        Seq::empty()
    } else {
        proof {
            lemma_step(s);
        }
        match step(s) {
            Step::Skip { len } => offsets(s.skip(len as int), base + len),
            Step::Emit { len, .. } => seq![base] + offsets(s.skip(len as int), base + len),
            Step::Fail { .. } => Seq::empty(),
        }
    }
}

/// The source positions of the tokens of a text: for every token that
/// `tokenize` reads, the offset of its first byte.
pub fn token_offsets(text: &Vec<u8>) -> (r: Vec<usize>)
    ensures
        r.len() == offsets(text@, 0).len(),
        forall|k: int| 0 <= k < r.len() ==> r@[k] == offsets(text@, 0)[k],
        lex(text@, 0) matches Ok(tokens) ==> {
            &&& r.len() == tokens.len()
            &&& forall|k: int|
                0 <= k < r.len() ==> (#[trigger] r@[k]) < text.len() && (step(
                    text@.skip(r@[k] as int),
                ) matches Step::Emit { token, .. } && token == tokens[k])
        },
{
    let ghost all = text@;
    let ghost mut seen: Seq<int> = Seq::empty();
    let mut out: Vec<usize> = Vec::new();
    let mut i: usize = 0;
    proof {
        assert(all.skip(0) =~= all);
        assert(seen + offsets(all, 0) =~= offsets(all, 0));
    }
    while i < text.len()
        invariant
            i <= text.len(),
            all == text@,
            out.len() == seen.len(),
            forall|k: int| 0 <= k < out.len() ==> out@[k] == seen[k],
            offsets(all, 0) == seen + offsets(all.skip(i as int), i as int),
        decreases text.len() - i,
    {
        let ghost s = all.skip(i as int);
        match next_step(text, i) {
            Found::Skip { end } => {
                assert(s.skip(end - i) =~= all.skip(end as int));
                i = end;
            },
            Found::Emit { end, .. } => {
                proof {
                    assert(s.skip(end - i) =~= all.skip(end as int));
                    assert(seen + (seq![i as int] + offsets(all.skip(end as int), end as int))
                        =~= seen.push(i as int) + offsets(all.skip(end as int), end as int));
                    seen = seen.push(i as int);
                }
                out.push(i);
                i = end;
            },
            Found::Fail { .. } => {
                assert(seen + Seq::<int>::empty() =~= seen);
                proof {
                    crate::token_laws::lemma_offsets(all, 0);
                    if let Ok(tokens) = lex(all, 0) {
                        assert forall|k: int| 0 <= k < out.len() implies (#[trigger] out@[k]) < text.len()
                            && (step(all.skip(out@[k] as int)) matches Step::Emit { token, .. } && token
                            == tokens[k]) by {
                            assert(out@[k] == offsets(all, 0)[k]);
                        }
                    }
                }
                return out;
            },
        }
    }
    assert(seen + Seq::<int>::empty() =~= seen);
    proof {
        crate::token_laws::lemma_offsets(all, 0);
        if let Ok(tokens) = lex(all, 0) {
            assert forall|k: int| 0 <= k < out.len() implies (#[trigger] out@[k]) < text.len()
                && (step(all.skip(out@[k] as int)) matches Step::Emit { token, .. } && token
                == tokens[k]) by {
                assert(out@[k] == offsets(all, 0)[k]);
            }
        }
    }
    out
}

} // verus!
