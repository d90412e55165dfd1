//! Counting and summing over sequences, for the puzzle answers.
use vstd::prelude::*;

verus! {

/// How many elements of `s` satisfy `f`.
pub open spec fn count_where<A>(s: Seq<A>, f: spec_fn(A) -> bool) -> nat
    decreases s.len(),
{
    if s.len() == 0 {
        0
    } else {
        count_where(s.drop_last(), f) + if f(s.last()) {
            1nat
        } else {
            0nat
        }
    }
}

/// The sum of `f` over the elements of `s`.
pub open spec fn sum_of<A>(s: Seq<A>, f: spec_fn(A) -> nat) -> nat
    decreases s.len(),
{
    if s.len() == 0 {
        0
    } else {
        sum_of(s.drop_last(), f) + f(s.last())
    }
}

/// Extending a prefix by one element adds that element's count.
pub proof fn lemma_count_prefix<A>(s: Seq<A>, f: spec_fn(A) -> bool, i: int)
    requires
        0 <= i < s.len(),
    ensures
        count_where(s.subrange(0, i + 1), f) == count_where(s.subrange(0, i), f) + if f(s[i]) {
            1nat
        } else {
            0nat
        },
        count_where(s.subrange(0, i + 1), f) <= i + 1,
    decreases i,
{
    assert(s.subrange(0, i + 1).drop_last() =~= s.subrange(0, i));
    if i > 0 {
        lemma_count_prefix(s, f, i - 1);
    }
}

/// Extending a prefix by one element adds that element's value.
pub proof fn lemma_sum_prefix<A>(s: Seq<A>, f: spec_fn(A) -> nat, i: int)
    requires
        0 <= i < s.len(),
    ensures
        sum_of(s.subrange(0, i + 1), f) == sum_of(s.subrange(0, i), f) + f(s[i]),
{
    assert(s.subrange(0, i + 1).drop_last() =~= s.subrange(0, i));
}

/// A sum over a prefix is at most the sum over a longer prefix.
pub proof fn lemma_sum_grows<A>(s: Seq<A>, f: spec_fn(A) -> nat, i: int, j: int)
    requires
        0 <= i <= j <= s.len(),
    ensures
        sum_of(s.subrange(0, i), f) <= sum_of(s.subrange(0, j), f),
    decreases j - i,
{
    if i < j {
        lemma_sum_grows(s, f, i, j - 1);
        lemma_sum_prefix(s, f, j - 1);
    }
}

} // verus!
