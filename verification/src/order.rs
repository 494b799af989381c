//! Subsequences: what is left of a sequence when elements are left out.

use vstd::prelude::*;

verus! {

/// Whether `a` can be had from `b` by leaving elements out, the rest keeping
/// their order.
pub open spec fn is_subsequence<T>(a: Seq<T>, b: Seq<T>) -> bool
    decreases b.len(),
{
    if a.len() == 0 {
        true
    } else if b.len() == 0 {
        false
    } else {
        ||| (a.last() == b.last() && is_subsequence(a.drop_last(), b.drop_last()))
        ||| is_subsequence(a, b.drop_last())
    }
}

/// Adding the same element at the end of both keeps the relation.
pub proof fn subsequence_push_both<T>(a: Seq<T>, b: Seq<T>, last: T)
    requires
        is_subsequence(a, b),
    ensures
        is_subsequence(a.push(last), b.push(last)),
{
    assert(a.push(last).drop_last() =~= a);
    assert(b.push(last).drop_last() =~= b);
}

/// Adding an element at the end of the longer one keeps the relation.
pub proof fn subsequence_push_right<T>(a: Seq<T>, b: Seq<T>, last: T)
    requires
        is_subsequence(a, b),
    ensures
        is_subsequence(a, b.push(last)),
{
    assert(b.push(last).drop_last() =~= b);
}

/// Every sequence is a subsequence of itself.
pub proof fn subsequence_reflexive<T>(a: Seq<T>)
    ensures
        is_subsequence(a, a),
    decreases a.len(),
{
    if a.len() > 0 {
        subsequence_reflexive(a.drop_last());
    }
}

/// A sequence is a subsequence of itself followed by anything.
pub proof fn subsequence_of_extension<T>(a: Seq<T>, more: Seq<T>)
    ensures
        is_subsequence(a, a + more),
    decreases more.len(),
{
    if more.len() == 0 {
        assert(a + more =~= a);
        subsequence_reflexive(a);
    } else {
        subsequence_of_extension(a, more.drop_last());
        assert(a + more =~= (a + more.drop_last()).push(more.last()));
        subsequence_push_right(a, a + more.drop_last(), more.last());
    }
}

/// Leaving one more element out keeps the relation.
pub proof fn subsequence_remove<T>(a: Seq<T>, at: int, b: Seq<T>)
    requires
        is_subsequence(a, b),
        0 <= at < a.len(),
    ensures
        is_subsequence(a.remove(at), b),
    decreases b.len(),
{
    let rest = a.remove(at);
    let front = b.drop_last();
    assert(b =~= front.push(b.last()));
    if a.last() == b.last() && is_subsequence(a.drop_last(), front) {
        if at == a.len() - 1 {
            assert(rest =~= a.drop_last());
            subsequence_push_right(rest, front, b.last());
        } else {
            subsequence_remove(a.drop_last(), at, front);
            assert(rest.drop_last() =~= a.drop_last().remove(at));
            assert(rest.last() == a.last());
        }
    } else {
        subsequence_remove(a, at, front);
        subsequence_push_right(rest, front, b.last());
    }
}

/// A subsequence of a subsequence is a subsequence.
pub proof fn subsequence_transitive<T>(a: Seq<T>, b: Seq<T>, c: Seq<T>)
    requires
        is_subsequence(a, b),
        is_subsequence(b, c),
    ensures
        is_subsequence(a, c),
    decreases c.len(),
{
    if a.len() == 0 {
    } else {
        let front = c.drop_last();
        assert(c =~= front.push(c.last()));
        if b.last() == c.last() && is_subsequence(b.drop_last(), front) {
            if a.last() == b.last() && is_subsequence(a.drop_last(), b.drop_last()) {
                subsequence_transitive(a.drop_last(), b.drop_last(), front);
            } else {
                subsequence_transitive(a, b.drop_last(), front);
                subsequence_push_right(a, front, c.last());
            }
        } else {
            subsequence_transitive(a, b, front);
            subsequence_push_right(a, front, c.last());
        }
    }
}

} // verus!
