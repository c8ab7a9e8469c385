//! Laws of the median, by counts.

use crate::float::binary32::Binary32;
use crate::laws::pitch::law_median_is_in_the_middle;
use crate::pitch::middle;
use crate::sorting::{
    all_ranked, law_sorting_exists, lemma_same_things, sorting, tied, ties, Ranked,
};
use vstd::prelude::*;

verus! {

/// The same things in another order hold as many of any kind.
proof fn lemma_same_count<T>(s: Seq<T>, t: Seq<T>, p: spec_fn(T) -> bool)
    requires
        s.to_multiset() == t.to_multiset(),
    ensures
        s.filter(p).len() == t.filter(p).len(),
    decreases s.len(),
{
    broadcast use vstd::seq_lib::group_to_multiset_ensures;
    broadcast use vstd::multiset::group_multiset_axioms;

    reveal(Seq::filter);
    lemma_same_things(s, t);
    if s.len() > 0 {
        let x = s.last();
        assert(s[s.len() - 1] == x);
        assert(t.contains(x));
        let j = choose|j: int| 0 <= j < t.len() && t[j] == x;
        let fewer = s.drop_last();
        let rest = t.remove(j);
        assert(fewer =~= s.remove(s.len() - 1));
        assert(fewer.to_multiset() =~= s.to_multiset().remove(x));
        assert(rest.to_multiset() =~= t.to_multiset().remove(x));
        lemma_same_count(fewer, rest, p);
        let a = t.take(j);
        let b = t.skip(j + 1);
        let one = seq![x];
        assert(rest =~= a + b);
        assert(t =~= (a + one) + b);
        Seq::filter_distributes_over_add(a, b, p);
        Seq::filter_distributes_over_add(a + one, b, p);
        Seq::filter_distributes_over_add(a, one, p);
        assert(one.drop_last() =~= Seq::empty());
        assert(one.last() == x);
        assert(Seq::<T>::empty().filter(p).len() == 0);
        assert(one.filter(p).len() == if p(x) {
            1int
        } else {
            0
        });
        assert(s.filter(p).len() == fewer.filter(p).len() + one.filter(p).len());
    }
}

/// What is of a kind only before `k` is so at most `k` times.
proof fn lemma_count_before<T>(s: Seq<T>, p: spec_fn(T) -> bool, k: nat)
    requires
        forall|i: int| k <= i < s.len() ==> !p(#[trigger] s[i]),
    ensures
        s.filter(p).len() <= k,
        s.filter(p).len() <= s.len(),
    decreases s.len(),
{
    reveal(Seq::filter);
    if s.len() > 0 {
        let rest = s.drop_last();
        assert forall|i: int| k <= i < rest.len() implies !p(#[trigger] rest[i]) by {
            assert(!p(s[i]));
        }
        lemma_count_before(rest, p, k);
        if k < s.len() {
            assert(!p(s[s.len() - 1]));
        }
    }
}

/// What is of a kind only after `k` is so at most as often as there is something after `k`.
proof fn lemma_count_after<T>(s: Seq<T>, p: spec_fn(T) -> bool, k: nat)
    requires
        forall|i: int| 0 <= i <= k && i < s.len() ==> !p(#[trigger] s[i]),
    ensures
        s.filter(p).len() <= if s.len() > k {
            s.len() - 1 - k
        } else {
            0
        },
    decreases s.len(),
{
    reveal(Seq::filter);
    if s.len() > 0 {
        let rest = s.drop_last();
        assert forall|i: int| 0 <= i <= k && i < rest.len() implies !p(#[trigger] rest[i]) by {
            assert(!p(s[i]));
        }
        lemma_count_after(rest, p, k);
        if s.len() - 1 <= k {
            assert(!p(s[s.len() - 1]));
        }
    }
}

/// The median is one of the numbers. At most half of them are below it, and of an even number less
/// than half are above it. Nothing has no median.
pub proof fn law_median_by_count(numbers: Seq<Binary32>)
    requires
        all_ranked(numbers),
    ensures
        numbers.len() == 0 ==> middle(numbers) is None,
        numbers.len() > 0 ==> (middle(numbers) matches Some(m) && {
            &&& numbers.contains(m)
            &&& 2 * numbers.filter(|x: Binary32| x@.lt(m@)).len() <= numbers.len()
            &&& 2 * numbers.filter(|x: Binary32| m@.lt(x@)).len() < numbers.len()
        }),
{
    if numbers.len() > 0 {
        let n = numbers.len();
        let k = n / 2;
        let ordered = sorting(numbers);
        let m = middle(numbers).unwrap();
        let below = |x: Binary32| x@.lt(m@);
        let above = |x: Binary32| m@.lt(x@);
        law_sorting_exists(numbers);
        law_median_is_in_the_middle(numbers);
        lemma_same_count(ordered, numbers, below);
        lemma_same_count(ordered, numbers, above);
        assert forall|i: int| k <= i < n implies !below(#[trigger] ordered[i]) by {
            assert(m@.le(ordered[i]@));
        }
        lemma_count_before(ordered, below, k);
        assert forall|i: int| 0 <= i <= k && i < n implies !above(#[trigger] ordered[i]) by {
            if i < k {
                assert(ordered[i]@.le(m@));
            }
        }
        lemma_count_after(ordered, above, k);
    }
}

/// Numbers in order: the same numbers, each at most as large as those that follow; equal ones, of
/// which there may be two zeros, stand as they stood.
pub proof fn law_numbers_are_put_in_order(numbers: Seq<Binary32>, i: int, j: int, x: Binary32)
    requires
        all_ranked(numbers),
        0 <= i < j < numbers.len(),
        !x@.is_nan(),
    ensures
        sorting(numbers).to_multiset() == numbers.to_multiset(),
        sorting(numbers).len() == numbers.len(),
        sorting(numbers)[i]@.le(sorting(numbers)[j]@),
        sorting(numbers).filter(|y: Binary32| y@.le(x@) && x@.le(y@)) == numbers.filter(
            |y: Binary32| y@.le(x@) && x@.le(y@),
        ),
{
    let ordered = sorting(numbers);
    law_sorting_exists(numbers);
    assert(ordered[i].ranked(ordered[j]));
    assert(x.has_rank());
    assert(ties(ordered, x) == ties(numbers, x));
    let same = |y: Binary32| y@.le(x@) && x@.le(y@);
    let equal = |y: Binary32| tied(y, x);
    assert(same =~= equal);
}

} // verus!
