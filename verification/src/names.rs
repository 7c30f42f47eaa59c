//! Names: identifiers derived from tags, and the detection of repeated keys.

use vstd::prelude::*;
use crate::bytes::{bytes_eq, digits, is_digit, is_lower, is_upper, opt_bytes, push_bytes, push_digits};

verus! {

/// The identifier-safe form of a tag from byte `k` on: letters and digits
/// are kept, every other byte is dropped and starts a new word, the first
/// letter of a word is upper case and its other letters are lower case.
pub open spec fn camel_case(tag: Seq<u8>, k: int, start: bool) -> Seq<u8>
    decreases tag.len() - k,
{
    if k < 0 || k >= tag.len() {
        Seq::empty()
    } else {
        let b = tag[k];
        if is_upper(b) {
            seq![if start { b } else { (b + 32) as u8 }] + camel_case(tag, k + 1, false)
        } else if is_lower(b) {
            seq![if start { (b - 32) as u8 } else { b }] + camel_case(tag, k + 1, false)
        } else if is_digit(b) {
            seq![b] + camel_case(tag, k + 1, false)
        } else {
            camel_case(tag, k + 1, true)
        }
    }
}

/// The lower-case form of a tag from byte `k` on: letters and digits are
/// kept, letters in lower case, and every run of other bytes between two
/// of them becomes one `_`.
pub open spec fn snake_case(tag: Seq<u8>, k: int, started: bool, pending: bool) -> Seq<u8>
    decreases tag.len() - k,
{
    if k < 0 || k >= tag.len() {
        Seq::empty()
    } else {
        let b = tag[k];
        if is_upper(b) || is_lower(b) || is_digit(b) {
            let c = if is_upper(b) {
                (b + 32) as u8
            } else {
                b
            };
            (if started && pending {
                seq![95u8, c]
            } else {
                seq![c]
            }) + snake_case(tag, k + 1, true, false)
        } else {
            snake_case(tag, k + 1, started, true)
        }
    }
}

/// A name that does not start with a digit: the name itself, or the name
/// behind `_`.
pub open spec fn identifier_of(s: Seq<u8>) -> Seq<u8> {
    if s.len() > 0 && is_digit(s[0]) {
        seq![95u8] + s
    } else {
        s
    }
}

/// The name synthesized for an anonymous declaration under `tag`, and for
/// the variant of a sum type that carries `tag`.
pub open spec fn derived_name(tag: Seq<u8>) -> Seq<u8> {
    identifier_of(camel_case(tag, 0, true))
}

/// The name synthesized for an anonymous member that carries `tag`.
pub open spec fn derived_field(tag: Seq<u8>) -> Seq<u8> {
    identifier_of(snake_case(tag, 0, false, false))
}

/// The name synthesized for the anonymous member of index `k` of a struct
/// under `tag`: the field name of the tag, `_`, and the number of the
/// member, counted from 1.
pub open spec fn member_fallback(tag: Seq<u8>, k: int) -> Seq<u8> {
    derived_field(tag) + seq![95u8] + digits((k + 1) as nat)
}

fn as_identifier(s: Vec<u8>) -> (r: Vec<u8>)
    ensures
        r@ == identifier_of(s@),
{
    if s.len() > 0 && 48 <= s[0] && s[0] <= 57 {
        let mut out: Vec<u8> = Vec::new();
        out.push(95);
        push_bytes(&mut out, &s);
        assert(out@ =~= seq![95u8] + s@);
        out
    } else {
        s
    }
}

/// Computes the name synthesized for an anonymous declaration under `tag`.
pub fn synthesize_name(tag: &Vec<u8>) -> (r: Vec<u8>)
    ensures
        r@ == derived_name(tag@),
{
    as_identifier(camel(tag))
}

/// Computes the name synthesized for an anonymous member that carries
/// `tag`.
pub fn synthesize_field(tag: &Vec<u8>) -> (r: Vec<u8>)
    ensures
        r@ == derived_field(tag@),
{
    let mut out: Vec<u8> = Vec::new();
    let mut started = false;
    let mut pending = false;
    let mut i: usize = 0;
    assert(out@ + snake_case(tag@, 0, false, false) =~= snake_case(tag@, 0, false, false));
    while i < tag.len()
        invariant
            i <= tag.len(),
            snake_case(tag@, 0, false, false) == out@ + snake_case(
                tag@,
                i as int,
                started,
                pending,
            ),
        decreases tag.len() - i,
    {
        let b = tag[i];
        let ghost before = out@;
        let ghost rest = snake_case(tag@, i + 1, true, false);
        if (65 <= b && b <= 90) || (97 <= b && b <= 122) || (48 <= b && b <= 57) {
            let c: u8 = if 65 <= b && b <= 90 {
                b + 32
            } else {
                b
            };
            if started && pending {
                out.push(95);
                out.push(c);
                assert(out@ + rest =~= before + (seq![95u8, c] + rest));
            } else {
                out.push(c);
                assert(out@ + rest =~= before + (seq![c] + rest));
            }
            started = true;
            pending = false;
        } else {
            pending = true;
        }
        i += 1;
    }
    assert(out@ + Seq::<u8>::empty() =~= out@);
    as_identifier(out)
}

/// Computes the name synthesized for the anonymous member of index `k`
/// of a struct under `tag`.
pub fn synthesize_member(tag: &Vec<u8>, k: usize) -> (r: Vec<u8>)
    requires
        k < usize::MAX,
    ensures
        r@ == member_fallback(tag@, k as int),
{
    let mut out = synthesize_field(tag);
    out.push(95);
    push_digits((k + 1) as u64, &mut out);
    assert(out@ =~= member_fallback(tag@, k as int));
    out
}

fn camel(tag: &Vec<u8>) -> (r: Vec<u8>)
    ensures
        r@ == camel_case(tag@, 0, true),
{
    let mut out: Vec<u8> = Vec::new();
    let mut start = true;
    let mut i: usize = 0;
    assert(out@ + camel_case(tag@, 0, true) =~= camel_case(tag@, 0, true));
    while i < tag.len()
        invariant
            i <= tag.len(),
            camel_case(tag@, 0, true) == out@ + camel_case(tag@, i as int, start),
        decreases tag.len() - i,
    {
        let b = tag[i];
        let ghost before = out@;
        if 65 <= b && b <= 90 {
            let c: u8 = if start { b } else { b + 32 };
            out.push(c);
            assert(out@ + camel_case(tag@, i + 1, false) =~= before + (seq![c] + camel_case(
                tag@,
                i + 1,
                false,
            )));
            start = false;
        } else if 97 <= b && b <= 122 {
            let c: u8 = if start { b - 32 } else { b };
            out.push(c);
            assert(out@ + camel_case(tag@, i + 1, false) =~= before + (seq![c] + camel_case(
                tag@,
                i + 1,
                false,
            )));
            start = false;
        } else if 48 <= b && b <= 57 {
            out.push(b);
            assert(out@ + camel_case(tag@, i + 1, false) =~= before + (seq![b] + camel_case(
                tag@,
                i + 1,
                false,
            )));
            start = false;
        } else {
            start = true;
        }
        i += 1;
    }
    assert(out@ + Seq::<u8>::empty() =~= out@);
    out
}

/// The models of a list of optional keys.
pub open spec fn keys_model(l: Seq<Option<Vec<u8>>>) -> Seq<Option<Seq<u8>>> {
    Seq::new(l.len(), |i: int| opt_bytes(l[i]))
}

/// The first index from `k` on at which `s` holds `x`.
pub open spec fn first_index(s: Seq<Option<Seq<u8>>>, x: Option<Seq<u8>>, k: int) -> Option<int>
    decreases s.len() - k,
{
    if k < 0 || k >= s.len() {
        None
    } else if s[k] == x {
        Some(k)
    } else {
        first_index(s, x, k + 1)
    }
}

/// The first key from index `j` on that is present and equal to an earlier
/// key, with the first index of that earlier key: `(first, second)`.
pub open spec fn find_repeat(s: Seq<Option<Seq<u8>>>, j: int) -> Option<(int, int)>
    decreases s.len() - j,
{
    if j < 0 || j >= s.len() {
        None
    } else if s[j] is None {
        find_repeat(s, j + 1)
    } else {
        match first_index(s.take(j), s[j], 0) {
            Some(i) => Some((i, j)),
            None => find_repeat(s, j + 1),
        }
    }
}

/// No two present keys are equal.
pub open spec fn distinct_keys(s: Seq<Option<Seq<u8>>>) -> bool {
    forall|i: int, j: int| 0 <= i < j < s.len() && s[j] is Some ==> s[i] != s[j]
}

/// No two byte strings of the list are equal.
pub open spec fn distinct(s: Seq<Seq<u8>>) -> bool {
    forall|i: int, j: int| 0 <= i < j < s.len() ==> s[i] != s[j]
}

/// Every byte string as a present key.
pub open spec fn present(s: Seq<Seq<u8>>) -> Seq<Option<Seq<u8>>> {
    Seq::new(s.len(), |i: int| Some(s[i]))
}

/// What `first_index` returns: the least index from `k` on at which `s`
/// holds `x`, or nothing where `s` does not hold `x` from `k` on.
pub proof fn lemma_first_index(s: Seq<Option<Seq<u8>>>, x: Option<Seq<u8>>, k: int)
    requires
        0 <= k,
    ensures
        match first_index(s, x, k) {
            Some(i) => k <= i < s.len() && s[i] == x && forall|m: int| k <= m < i ==> s[m] != x,
            None => forall|m: int| k <= m < s.len() ==> s[m] != x,
        },
    decreases s.len() - k,
{
    if k < s.len() && s[k] != x {
        lemma_first_index(s, x, k + 1);
    }
}

/// What `find_repeat` returns: the least second index of a repeated key with
/// the least index of its first occurrence, or nothing where no key repeats
/// from `j` on.
pub proof fn lemma_find_repeat(s: Seq<Option<Seq<u8>>>, j: int)
    requires
        0 <= j,
    ensures
        match find_repeat(s, j) {
            Some((a, b)) => {
                &&& 0 <= a < b < s.len()
                &&& j <= b
                &&& s[b] is Some
                &&& s[a] == s[b]
                &&& forall|m: int| 0 <= m < a ==> s[m] != s[b]
                &&& forall|m: int, n: int| 0 <= m < n < b && j <= n && s[n] is Some ==> s[m] != s[n]
            },
            None => forall|m: int, n: int| 0 <= m < n < s.len() && j <= n && s[n] is Some ==> s[m] != s[n],
        },
    decreases s.len() - j,
{
    if j < s.len() {
        if s[j] is None {
            lemma_find_repeat(s, j + 1);
        } else {
            lemma_first_index(s.take(j), s[j], 0);
            match first_index(s.take(j), s[j], 0) {
                Some(i) => {
                    assert(s.take(j)[i] == s[i]);
                    assert forall|m: int| 0 <= m < i implies s[m] != s[j] by {
                        assert(s.take(j)[m] == s[m]);
                    }
                },
                None => {
                    assert forall|m: int| 0 <= m < j implies s[m] != s[j] by {
                        assert(s.take(j)[m] == s[m]);
                    }
                    lemma_find_repeat(s, j + 1);
                },
            }
        }
    }
}

/// `find_repeat` finds nothing exactly where the present keys are distinct.
pub proof fn lemma_no_repeat(s: Seq<Option<Seq<u8>>>)
    ensures
        find_repeat(s, 0) is None <==> distinct_keys(s),
{
    lemma_find_repeat(s, 0);
}

/// On a list of tags, `find_repeat` finds nothing exactly where no tag occurs
/// twice.
pub proof fn lemma_no_repeat_present(s: Seq<Seq<u8>>)
    ensures
        find_repeat(present(s), 0) is None <==> distinct(s),
{
    lemma_find_repeat(present(s), 0);
    if distinct(s) {
        assert forall|i: int, j: int| 0 <= i < j < s.len() implies present(s)[i] != present(s)[j] by {
            assert(s[i] != s[j]);
        }
    }
    if find_repeat(present(s), 0) is None {
        assert forall|i: int, j: int| 0 <= i < j < s.len() implies s[i] != s[j] by {
            assert(present(s)[i] != present(s)[j]);
        }
    }
}

/// Whether two optional keys are both present and hold the same bytes.
fn same_key(a: &Option<Vec<u8>>, b: &Option<Vec<u8>>) -> (r: bool)
    requires
        b is Some,
    ensures
        r == (opt_bytes(*a) == opt_bytes(*b)),
{
    match (a, b) {
        (Some(x), Some(y)) => bytes_eq(x, y),
        _ => false,
    }
}

/// Finds the first key that repeats an earlier one: the indices of the
/// earlier and of the repeating key.
pub fn find_duplicate(keys: &Vec<Option<Vec<u8>>>) -> (r: Option<(usize, usize)>)
    ensures
        match r {
            Some((a, b)) => find_repeat(keys_model(keys@), 0) == Some((a as int, b as int)),
            None => find_repeat(keys_model(keys@), 0) is None,
        },
        r is None <==> distinct_keys(keys_model(keys@)),
        r matches Some((a, b)) ==> a < b < keys.len() && keys@[b as int] is Some && opt_bytes(
            keys@[a as int],
        ) == opt_bytes(keys@[b as int]),
{
    let ghost s = keys_model(keys@);
    proof {
        lemma_find_repeat(s, 0);
        lemma_no_repeat(s);
    }
    let mut j: usize = 0;
    while j < keys.len()
        invariant
            j <= keys.len(),
            s == keys_model(keys@),
            find_repeat(s, 0) == find_repeat(s, j as int),
        decreases keys.len() - j,
    {
        if keys[j].is_some() {
            let mut i: usize = 0;
            while i < j
                invariant
                    i <= j < keys.len(),
                    s == keys_model(keys@),
                    s[j as int] is Some,
                    find_repeat(s, 0) == find_repeat(s, j as int),
                    first_index(s.take(j as int), s[j as int], 0) == first_index(
                        s.take(j as int),
                        s[j as int],
                        i as int,
                    ),
                decreases j - i,
            {
                assert(s.take(j as int)[i as int] == s[i as int]);
                if same_key(&keys[i], &keys[j]) {
                    assert(first_index(s.take(j as int), s[j as int], i as int) == Some(i as int));
                    assert(find_repeat(s, j as int) == Some((i as int, j as int)));
                    return Some((i, j));
                }
                i += 1;
            }
        }
        j += 1;
    }
    None
}

} // verus!
