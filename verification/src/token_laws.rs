//! What holds of the lexer: it reads the text of a list of tokens back as
//! those tokens.

use vstd::prelude::*;
use crate::bytes::{digits, is_digit, is_ident_part, valid_identifier};
use crate::render::{separator, text_from, text_of, token_text};
use crate::resolver::printable;
use crate::token::{
    decimal, is_punct, lemma_run_len_is, lemma_step, lex, offsets, step, Class, LexError, Step,
    TokenModel,
};

verus! {

/// A token that text can hold: an identifier, a string without a double
/// quote, a number, or punctuation of the dialect.
pub open spec fn writable(t: TokenModel) -> bool {
    match t {
        TokenModel::Ident(s) => valid_identifier(s),
        TokenModel::Str(s) => printable(s),
        TokenModel::Num(_) => true,
        TokenModel::Punct(b) => is_punct(b),
        TokenModel::Doc(_) => false,
    }
}

/// Text can hold every token of the list.
pub open spec fn all_writable(ts: Seq<TokenModel>) -> bool {
    forall|i: int| 0 <= i < ts.len() ==> writable(#[trigger] ts[i])
}

/// What follows the text of a token does not continue it.
pub open spec fn bounded(t: TokenModel, rest: Seq<u8>) -> bool {
    rest.len() == 0 || match t {
        TokenModel::Ident(_) => !is_ident_part(rest[0]),
        TokenModel::Num(_) => !is_digit(rest[0]),
        _ => true,
    }
}

/// The digits of a number are digits, at least one, and write the number.
pub proof fn lemma_digits(n: nat)
    ensures
        digits(n).len() >= 1,
        forall|i: int| 0 <= i < digits(n).len() ==> is_digit(#[trigger] digits(n)[i]),
        decimal(digits(n)) == n,
    decreases n,
{
    if n >= 10 {
        lemma_digits(n / 10);
        let x = digits(n / 10);
        let d = (48 + n % 10) as u8;
        assert(x.push(d).drop_last() =~= x);
        assert(x.push(d).last() == d);
        assert forall|i: int| 0 <= i < digits(n).len() implies is_digit(#[trigger] digits(n)[i]) by {
            if i < x.len() {
                assert(digits(n)[i] == x[i]);
            }
        }
    } else {
        let d = (48 + n) as u8;
        assert(digits(n) =~= Seq::<u8>::empty().push(d));
        assert(digits(n).drop_last() =~= Seq::<u8>::empty());
        assert(decimal(digits(n).drop_last()) == 0);
    }
}

/// At the start of the text of a writable token, followed by what does
/// not continue it, stands that token.
pub proof fn lemma_step_token(t: TokenModel, rest: Seq<u8>)
    requires
        writable(t),
        bounded(t, rest),
    ensures
        (token_text(t) + rest).len() > 0,
        step(token_text(t) + rest) == (Step::Emit { token: t, len: token_text(t).len() }),
{
    let text = token_text(t);
    let u = text + rest;
    match t {
        TokenModel::Ident(s) => {
            assert(u[0] == s[0]);
            assert forall|i: int| 0 <= i < s.len() implies crate::token::in_class(
                Class::Ident,
                #[trigger] u[i],
            ) by {
                assert(u[i] == s[i]);
            }
            if rest.len() > 0 {
                assert(u[s.len() as int] == rest[0]);
            }
            lemma_run_len_is(u, Class::Ident, s.len() as int);
            assert(u.take(s.len() as int) =~= s);
        },
        TokenModel::Num(n) => {
            lemma_digits(n as nat);
            let d = digits(n as nat);
            assert(u[0] == d[0]);
            assert(is_digit(d[0]));
            assert forall|i: int| 0 <= i < d.len() implies crate::token::in_class(
                Class::Digit,
                #[trigger] u[i],
            ) by {
                assert(u[i] == d[i]);
            }
            if rest.len() > 0 {
                assert(u[d.len() as int] == rest[0]);
            }
            lemma_run_len_is(u, Class::Digit, d.len() as int);
            assert(u.take(d.len() as int) =~= d);
        },
        TokenModel::Str(s) => {
            assert(text.len() == s.len() + 2);
            assert(u[0] == 34);
            let v = u.drop_first();
            assert forall|i: int| 0 <= i < s.len() implies crate::token::in_class(
                Class::Quoted,
                #[trigger] v[i],
            ) by {
                assert(v[i] == u[i + 1]);
                assert(u[i + 1] == text[i + 1]);
                assert(text[i + 1] == s[i]);
            }
            let n = s.len() as int;
            assert(v[n] == u[n + 1]);
            assert(u[n + 1] == text[n + 1]);
            assert(text[n + 1] == 34);
            lemma_run_len_is(v, Class::Quoted, s.len() as int);
            assert(u.subrange(1, 1 + s.len() as int) =~= s);
        },
        TokenModel::Punct(b) => {
            assert(u[0] == b);
        },
        TokenModel::Doc(_) => {},
    }
}

/// The text of the tokens from index `k` on starts with a space or with
/// the first byte of the token at `k`.
proof fn lemma_text_first(ts: Seq<TokenModel>, k: int)
    requires
        all_writable(ts),
        0 < k < ts.len(),
    ensures
        text_from(ts, k).len() > 0,
        bounded(ts[k - 1], text_from(ts, k)),
{
    let sep = separator(ts[k - 1], ts[k]);
    let own = token_text(ts[k]);
    let rest = text_from(ts, k + 1);
    let all = text_from(ts, k);
    assert(all == sep + own + rest);
    assert(writable(ts[k]));
    assert(writable(ts[k - 1]));
    lemma_token_text(ts[k]);
    if sep.len() > 0 {
        assert(all[0] == sep[0]);
    } else {
        assert(all[0] == own[0]);
    }
}

/// The text of a writable token is not empty; that of punctuation is the
/// one byte.
proof fn lemma_token_text(t: TokenModel)
    requires
        writable(t),
    ensures
        token_text(t).len() > 0,
        t matches TokenModel::Punct(b) ==> token_text(t)[0] == b,
{
    match t {
        TokenModel::Num(n) => {
            lemma_digits(n as nat);
        },
        _ => {},
    }
}

/// The lexer reads the text of the tokens from index `k` on back as those
/// tokens.
pub proof fn lemma_lex_text(ts: Seq<TokenModel>, k: int, base: int)
    requires
        all_writable(ts),
        0 <= k <= ts.len(),
    ensures
        lex(text_from(ts, k), base) == Ok::<Seq<TokenModel>, LexError>(ts.skip(k)),
    decreases ts.len() - k,
{
    if k < ts.len() {
        let own = token_text(ts[k]);
        let rest = text_from(ts, k + 1);
        let all = text_from(ts, k);
        let u = own + rest;
        assert(writable(ts[k]));
        if k + 1 < ts.len() {
            lemma_text_first(ts, k + 1);
        }
        lemma_step_token(ts[k], rest);
        lemma_lex_text(ts, k + 1, base + own.len() + 1);
        lemma_lex_text(ts, k + 1, base + own.len());
        assert(u.skip(own.len() as int) =~= rest);
        assert(seq![ts[k]] + ts.skip(k + 1) =~= ts.skip(k));
        if k > 0 && separator(ts[k - 1], ts[k]).len() > 0 {
            assert(all =~= seq![32u8] + u);
            assert(all[0] == 32);
            assert(all.skip(1) =~= u);
            assert(step(all) == (Step::Skip { len: 1 }));
            assert(lex(u, base + 1) == Ok::<Seq<TokenModel>, LexError>(ts.skip(k)));
        } else {
            assert(all =~= u);
        }
    } else {
        assert(ts.skip(k) =~= Seq::empty());
    }
}

/// The lexer reads the text of a list of writable tokens back as those
/// tokens.
pub proof fn law_lex_text(ts: Seq<TokenModel>)
    requires
        all_writable(ts),
    ensures
        lex(text_of(ts), 0) == Ok::<Seq<TokenModel>, LexError>(ts),
{
    lemma_lex_text(ts, 0, 0);
    assert(ts.skip(0) =~= ts);
}


/// Every token of a text stands at its offset: where the lexer reads a
/// text, it reads as many tokens as the text has offsets, and at the
/// offset of each stands that token.
pub proof fn lemma_offsets(s: Seq<u8>, base: int)
    ensures
        lex(s, base) matches Ok(tokens) ==> {
            &&& offsets(s, base).len() == tokens.len()
            &&& forall|k: int|
                0 <= k < tokens.len() ==> base <= (#[trigger] offsets(s, base)[k]) < base + s.len()
                    && (step(s.skip(offsets(s, base)[k] - base)) matches Step::Emit { token, .. }
                    && token == tokens[k])
        },
    decreases s.len(),
{
    if s.len() > 0 {
        lemma_step(s);
        if let Ok(tokens) = lex(s, base) {
            match step(s) {
                Step::Skip { len } => {
                    let rest = s.skip(len as int);
                    lemma_offsets(rest, base + len);
                    assert forall|k: int| 0 <= k < tokens.len() implies base <= (#[trigger] offsets(
                        s,
                        base,
                    )[k]) < base + s.len() && (step(s.skip(offsets(s, base)[k] - base)) matches Step::Emit {
                        token,
                        ..
                    } && token == tokens[k]) by {
                        let o = offsets(rest, base + len)[k];
                        assert(rest.skip(o - (base + len)) =~= s.skip(o - base));
                    }
                },
                Step::Emit { token, len } => {
                    let rest = s.skip(len as int);
                    lemma_offsets(rest, base + len);
                    let tail = lex(rest, base + len)->Ok_0;
                    assert(tokens == seq![token] + tail);
                    assert forall|k: int| 0 <= k < tokens.len() implies base <= (#[trigger] offsets(
                        s,
                        base,
                    )[k]) < base + s.len() && (step(s.skip(offsets(s, base)[k] - base)) matches Step::Emit {
                        token,
                        ..
                    } && token == tokens[k]) by {
                        if k == 0 {
                            assert(s.skip(0) =~= s);
                        } else {
                            let o = offsets(rest, base + len)[k - 1];
                            assert(offsets(s, base)[k] == o);
                            assert(tokens[k] == tail[k - 1]);
                            assert(rest.skip(o - (base + len)) =~= s.skip(o - base));
                        }
                    }
                },
                Step::Fail { .. } => {},
            }
        }
    }
}

} // verus!
