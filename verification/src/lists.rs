//! Results that hold a list, built from the front.

use vstd::prelude::*;

verus! {

/// `pre` followed by what `r` holds, or the error of `r`.
pub open spec fn prepend<T, E>(pre: Seq<T>, r: Result<Seq<T>, E>) -> Result<Seq<T>, E> {
    match r {
        Ok(rest) => Ok(pre + rest),
        Err(e) => Err(e),
    }
}

/// `pre` followed by what `r` holds, or nothing where `r` holds nothing.
pub open spec fn prepend_some<T>(pre: Seq<T>, r: Option<Seq<T>>) -> Option<Seq<T>> {
    match r {
        Some(rest) => Some(pre + rest),
        None => None,
    }
}

/// Nothing before a result is that result.
pub proof fn lemma_prepend_start<T, E>(r: Result<Seq<T>, E>)
    ensures
        prepend(Seq::empty(), r) == r,
{
    if let Ok(rest) = r {
        assert(Seq::<T>::empty() + rest =~= rest);
    }
}

/// A list before one item before a result is the list with the item
/// pushed onto it before the result.
pub proof fn lemma_prepend_step<T, E>(pre: Seq<T>, t: T, r: Result<Seq<T>, E>)
    ensures
        prepend(pre, prepend(seq![t], r)) == prepend(pre.push(t), r),
{
    if let Ok(rest) = r {
        assert(pre + (seq![t] + rest) =~= pre.push(t) + rest);
    }
}

/// A list before the empty list is that list.
pub proof fn lemma_prepend_end<T, E>(pre: Seq<T>)
    ensures
        prepend::<T, E>(pre, Ok(Seq::empty())) == Ok::<Seq<T>, E>(pre),
{
    assert(pre + Seq::<T>::empty() =~= pre);
}

/// Nothing before an optional list is that optional list.
pub proof fn lemma_prepend_some_start<T>(r: Option<Seq<T>>)
    ensures
        prepend_some(Seq::empty(), r) == r,
{
    if let Some(rest) = r {
        assert(Seq::<T>::empty() + rest =~= rest);
    }
}

/// A list before one item before an optional list is the list with the
/// item pushed onto it before the optional list.
pub proof fn lemma_prepend_some_step<T>(pre: Seq<T>, t: T, r: Option<Seq<T>>)
    ensures
        prepend_some(pre, prepend_some(seq![t], r)) == prepend_some(pre.push(t), r),
{
    if let Some(rest) = r {
        assert(pre + (seq![t] + rest) =~= pre.push(t) + rest);
    }
}

/// A list before a second list before an optional list is the two lists
/// joined before the optional list.
pub proof fn lemma_prepend_some_join<T>(pre: Seq<T>, mid: Seq<T>, r: Option<Seq<T>>)
    ensures
        prepend_some(pre, prepend_some(mid, r)) == prepend_some(pre + mid, r),
{
    if let Some(rest) = r {
        assert(pre + (mid + rest) =~= (pre + mid) + rest);
    }
}

/// A list before the empty list is that list.
pub proof fn lemma_prepend_some_end<T>(pre: Seq<T>)
    ensures
        prepend_some(pre, Some(Seq::empty())) == Some(pre),
{
    assert(pre + Seq::<T>::empty() =~= pre);
}

} // verus!
