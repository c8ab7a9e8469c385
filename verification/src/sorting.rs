//! Sorting.

use vstd::prelude::*;
use vstd::seq_lib::lemma_multiset_commutative;

verus! {

/// Things that can be put in order. Two of them may be equally ranked without being the same.
pub trait Ranked: Copy {
    /// Whether the thing has a place in the order at all.
    spec fn has_rank(self) -> bool;

    /// Whether `self` may stand before `other`.
    spec fn ranked(self, other: Self) -> bool;

    /// Of two things, one may stand before the other.
    proof fn lemma_total(a: Self, b: Self)
        requires
            a.has_rank(),
            b.has_rank(),
        ensures
            a.ranked(b) || b.ranked(a),
    ;

    /// Standing before is transitive.
    proof fn lemma_transitive(a: Self, b: Self, c: Self)
        requires
            a.has_rank(),
            b.has_rank(),
            c.has_rank(),
            a.ranked(b),
            b.ranked(c),
        ensures
            a.ranked(c),
    ;

    /// Whether `self` may stand before `other`.
    fn may_precede(&self, other: &Self) -> (r: bool)
        requires
            self.has_rank(),
            other.has_rank(),
        ensures
            r == self.ranked(*other),
    ;
}

/// Everything has a place in the order.
pub open spec fn all_ranked<T: Ranked>(s: Seq<T>) -> bool {
    forall|i: int| 0 <= i < s.len() ==> (#[trigger] s[i]).has_rank()
}

/// Whether things can be put in order: fewer than two always can.
pub open spec fn sortable<T: Ranked>(s: Seq<T>) -> bool {
    s.len() < 2 || all_ranked(s)
}

/// Nothing stands before something that ranks before it.
pub open spec fn in_order<T: Ranked>(s: Seq<T>) -> bool {
    forall|i: int, j: int| 0 <= i < j < s.len() ==> (#[trigger] s[i]).ranked(#[trigger] s[j])
}

/// Whether two things are equally ranked.
pub open spec fn tied<T: Ranked>(a: T, b: T) -> bool {
    a.ranked(b) && b.ranked(a)
}

/// The members that are equally ranked with a thing, as they stand.
pub open spec fn ties<T: Ranked>(s: Seq<T>, x: T) -> Seq<T> {
    s.filter(|y: T| tied(y, x))
}

/// Equally ranked members stand in `s` as they stand in `t`.
pub open spec fn keeps_ties<T: Ranked>(s: Seq<T>, t: Seq<T>) -> bool {
    forall|x: T| x.has_rank() ==> #[trigger] ties(s, x) == ties(t, x)
}

/// `s` holds the same things as `t`, in order; equally ranked things stay as they stand in `t`.
pub open spec fn is_sorting_of<T: Ranked>(s: Seq<T>, t: Seq<T>) -> bool {
    &&& s.to_multiset() == t.to_multiset()
    &&& in_order(s)
    &&& keeps_ties(s, t)
}

/// The members of `t` in order; equally ranked ones stay as they stand.
pub open spec fn sorting<T: Ranked>(t: Seq<T>) -> Seq<T> {
    choose|s: Seq<T>| is_sorting_of(s, t)
}

/// The members that are tied with a thing, of two sequences put together.
proof fn lemma_ties_of_both<T: Ranked>(a: Seq<T>, b: Seq<T>, x: T)
    ensures
        ties(a + b, x) == ties(a, x) + ties(b, x),
{
    Seq::filter_distributes_over_add(a, b, |y: T| tied(y, x));
}

/// One more member is one more that is tied with a thing, or none.
proof fn lemma_ties_push<T: Ranked>(s: Seq<T>, y: T, x: T)
    ensures
        ties(s.push(y), x) == if tied(y, x) {
            ties(s, x).push(y)
        } else {
            ties(s, x)
        },
{
    reveal(Seq::filter);
    assert(s.push(y).drop_last() =~= s);
}

/// The members that are tied with a thing, of a sequence with a first member.
proof fn lemma_ties_of_first<T: Ranked>(s: Seq<T>, x: T)
    requires
        s.len() > 0,
    ensures
        ties(s, x) == if tied(s[0], x) {
            seq![s[0]] + ties(s.drop_first(), x)
        } else {
            ties(s.drop_first(), x)
        },
{
    let head = Seq::<T>::empty().push(s[0]);
    assert(head + s.drop_first() =~= s);
    lemma_ties_of_both(head, s.drop_first(), x);
    lemma_ties_push(Seq::<T>::empty(), s[0], x);
    lemma_no_ties(Seq::<T>::empty(), x);
    assert(ties(s, x) =~= if tied(s[0], x) {
        seq![s[0]] + ties(s.drop_first(), x)
    } else {
        ties(s.drop_first(), x)
    });
}

/// Where no member is tied with a thing, none is found.
proof fn lemma_no_ties<T: Ranked>(s: Seq<T>, x: T)
    requires
        forall|i: int| 0 <= i < s.len() ==> !tied(#[trigger] s[i], x),
    ensures
        ties(s, x) == Seq::<T>::empty(),
    decreases s.len(),
{
    reveal(Seq::filter);
    if s.len() > 0 {
        lemma_no_ties(s.drop_last(), x);
        assert(!tied(s[s.len() - 1], x));
    }
    assert(ties(s, x) =~= Seq::<T>::empty());
}

/// A member that ranks is tied with itself, so it is found wherever the ties are the same.
proof fn lemma_found<T: Ranked>(s: Seq<T>, t: Seq<T>, i: int)
    requires
        all_ranked(s),
        keeps_ties(s, t),
        0 <= i < s.len(),
    ensures
        t.contains(s[i]),
{
    let x = s[i];
    let pred = |y: T| tied(y, x);
    assert(x.has_rank());
    T::lemma_total(x, x);
    s.lemma_filter_contains(pred, i);
    assert(ties(s, x) == ties(t, x));
    t.lemma_filter_contains_rev(pred, x);
}

/// Sequences in order whose ties are the same are the same.
proof fn lemma_same_order<T: Ranked>(s: Seq<T>, t: Seq<T>)
    requires
        all_ranked(s),
        all_ranked(t),
        in_order(s),
        in_order(t),
        keeps_ties(s, t),
    ensures
        s == t,
    decreases s.len(),
{
    if s.len() == 0 {
        if t.len() > 0 {
            lemma_found(t, s, 0);
        }
    } else {
        lemma_found(s, t, 0);
        let j = choose|j: int| 0 <= j < t.len() && t[j] == s[0];
        lemma_found(t, s, 0);
        let i = choose|i: int| 0 <= i < s.len() && s[i] == t[0];
        let x = s[0];
        let y = t[0];
        assert(x.has_rank() && y.has_rank());
        T::lemma_total(x, x);
        assert(x.ranked(y)) by {
            if i > 0 {
                assert(s[0].ranked(s[i]));
            }
        }
        assert(y.ranked(x)) by {
            if j > 0 {
                assert(t[0].ranked(t[j]));
            }
        }
        lemma_ties_of_first(s, x);
        lemma_ties_of_first(t, x);
        assert(ties(s, x)[0] == x);
        assert(ties(t, x)[0] == y);
        let s1 = s.drop_first();
        let t1 = t.drop_first();
        assert forall|z: T| z.has_rank() implies #[trigger] ties(s1, z) == ties(t1, z) by {
            lemma_ties_of_first(s, z);
            lemma_ties_of_first(t, z);
            assert(ties(s, z) == ties(t, z));
            if tied(x, z) {
                assert(ties(s1, z) =~= ties(s, z).drop_first());
                assert(ties(t1, z) =~= ties(t, z).drop_first());
            }
        }
        assert forall|k: int| 0 <= k < s1.len() implies (#[trigger] s1[k]).has_rank() by {
            assert(s[k + 1].has_rank());
        }
        assert forall|k: int| 0 <= k < t1.len() implies (#[trigger] t1[k]).has_rank() by {
            assert(t[k + 1].has_rank());
        }
        assert forall|k: int, l: int| 0 <= k < l < s1.len() implies (#[trigger] s1[k]).ranked(
            #[trigger] s1[l],
        ) by {
            assert(s[k + 1].ranked(s[l + 1]));
        }
        assert forall|k: int, l: int| 0 <= k < l < t1.len() implies (#[trigger] t1[k]).ranked(
            #[trigger] t1[l],
        ) by {
            assert(t[k + 1].ranked(t[l + 1]));
        }
        lemma_same_order(s1, t1);
        assert(s =~= seq![x] + s1);
        assert(t =~= seq![y] + t1);
    }
}

/// There is one way to put things in order.
pub proof fn law_sorting_is_unique<T: Ranked>(s: Seq<T>, t: Seq<T>)
    requires
        sortable(t),
        is_sorting_of(s, t),
    ensures
        s == sorting(t),
        is_sorting_of(sorting(t), t),
{
    let other = sorting(t);
    lemma_same_things(s, t);
    lemma_same_things(other, t);
    if t.len() < 2 {
        if t.len() == 1 {
            assert(t.contains(s[0]) && t.contains(other[0]));
        }
        assert(s =~= other);
    } else {
        assert forall|i: int| 0 <= i < s.len() implies (#[trigger] s[i]).has_rank() by {
            let j = choose|j: int| 0 <= j < t.len() && t[j] == s[i];
            assert(t.contains(s[i]));
            assert(t[j].has_rank());
        }
        assert forall|i: int| 0 <= i < other.len() implies (#[trigger] other[i]).has_rank() by {
            let j = choose|j: int| 0 <= j < t.len() && t[j] == other[i];
            assert(t.contains(other[i]));
            assert(t[j].has_rank());
        }
        assert forall|x: T| x.has_rank() implies #[trigger] ties(s, x) == ties(other, x) by {
            assert(ties(s, x) == ties(t, x));
            assert(ties(other, x) == ties(t, x));
        }
        lemma_same_order(s, other);
    }
}

/// The same things make sequences of the same length, whose members are the same.
pub proof fn lemma_same_things<T>(s: Seq<T>, t: Seq<T>)
    requires
        s.to_multiset() == t.to_multiset(),
    ensures
        s.len() == t.len(),
        forall|i: int| 0 <= i < s.len() ==> t.contains(#[trigger] s[i]),
        forall|i: int| 0 <= i < t.len() ==> s.contains(#[trigger] t[i]),
{
    broadcast use vstd::seq_lib::group_to_multiset_ensures;

    assert(s.len() == s.to_multiset().len());
    assert(t.len() == t.to_multiset().len());
    assert forall|i: int| 0 <= i < s.len() implies t.contains(#[trigger] s[i]) by {
        assert(s.contains(s[i]));
        assert(s.to_multiset().count(s[i]) > 0);
    }
    assert forall|i: int| 0 <= i < t.len() implies s.contains(#[trigger] t[i]) by {
        assert(t.contains(t[i]));
        assert(t.to_multiset().count(t[i]) > 0);
    }
}

/// One more thing put where it belongs: after everything that may stand before it.
proof fn lemma_inserted<T: Ranked>(s: Seq<T>, x: T) -> (r: Seq<T>)
    requires
        all_ranked(s),
        in_order(s),
        x.has_rank(),
    ensures
        all_ranked(r),
        is_sorting_of(r, s.push(x)),
    decreases s.len(),
{
    broadcast use vstd::seq_lib::group_to_multiset_ensures;
    broadcast use vstd::multiset::group_multiset_axioms;

    if s.len() == 0 {
        s.push(x)
    } else if s.last().ranked(x) {
        let r = s.push(x);
        assert forall|i: int| 0 <= i < s.len() implies (#[trigger] s[i]).ranked(x) by {
            if i < s.len() - 1 {
                assert(s[i].ranked(s[s.len() - 1]));
                T::lemma_transitive(s[i], s.last(), x);
            }
        }
        r
    } else {
        let y = s.last();
        let front = s.drop_last();
        assert forall|i: int| 0 <= i < front.len() implies (#[trigger] front[i]).has_rank() by {
            assert(s[i].has_rank());
        }
        assert(s[s.len() - 1].has_rank());
        let rest = lemma_inserted(front, x);
        let r = rest.push(y);
        assert(front.push(y) =~= s);
        lemma_same_things(rest, front.push(x));
        assert forall|i: int| 0 <= i < rest.len() implies (#[trigger] rest[i]).ranked(y) by {
            assert(front.push(x).contains(rest[i]));
            let j = choose|j: int| 0 <= j < front.push(x).len() && front.push(x)[j] == rest[i];
            if j < front.len() {
                assert(s[j].ranked(s[s.len() - 1]));
            } else {
                T::lemma_total(x, y);
            }
        }
        assert(r.to_multiset() =~= s.push(x).to_multiset()) by {
            assert(front.to_multiset().insert(x).insert(y) =~= front.to_multiset().insert(
                y,
            ).insert(x));
        }
        assert forall|q: T| q.has_rank() implies #[trigger] ties(r, q) == ties(s.push(x), q) by {
            lemma_ties_push(rest, y, q);
            lemma_ties_push(front, x, q);
            lemma_ties_push(front, y, q);
            lemma_ties_push(s, x, q);
            assert(ties(rest, q) == ties(front.push(x), q));
            if tied(x, q) && tied(y, q) {
                T::lemma_transitive(y, q, x);
            }
        }
        r
    }
}

/// Things that rank can be put in order.
proof fn lemma_some_sorting<T: Ranked>(t: Seq<T>) -> (s: Seq<T>)
    requires
        all_ranked(t),
    ensures
        all_ranked(s),
        is_sorting_of(s, t),
    decreases t.len(),
{
    broadcast use vstd::seq_lib::group_to_multiset_ensures;

    if t.len() == 0 {
        t
    } else {
        let front = t.drop_last();
        let x = t.last();
        assert forall|i: int| 0 <= i < front.len() implies (#[trigger] front[i]).has_rank() by {
            assert(t[i].has_rank());
        }
        assert(t[t.len() - 1].has_rank());
        assert(front.push(x) =~= t);
        let rest = lemma_some_sorting(front);
        let s = lemma_inserted(rest, x);
        assert forall|q: T| q.has_rank() implies #[trigger] ties(s, q) == ties(t, q) by {
            assert(ties(s, q) == ties(rest.push(x), q));
            lemma_ties_push(rest, x, q);
            lemma_ties_push(front, x, q);
            assert(ties(rest, q) == ties(front, q));
        }
        s
    }
}

/// Whatever can be put in order has one order.
pub proof fn law_sorting_exists<T: Ranked>(t: Seq<T>)
    requires
        sortable(t),
    ensures
        is_sorting_of(sorting(t), t),
        sorting(t).len() == t.len(),
{
    if t.len() < 2 {
        assert(is_sorting_of(t, t));
    } else {
        let s = lemma_some_sorting(t);
        assert(is_sorting_of(s, t));
    }
    lemma_same_things(sorting(t), t);
}

/// One more thing in either of two sequences is one more in what they hold together.
proof fn lemma_one_more<T>(s: Seq<T>, a: Seq<T>, b: Seq<T>, x: T)
    requires
        s.to_multiset() == (a + b).to_multiset(),
    ensures
        s.push(x).to_multiset() == (a.push(x) + b).to_multiset(),
        s.push(x).to_multiset() == (a + b.push(x)).to_multiset(),
{
    broadcast use vstd::seq_lib::group_to_multiset_ensures;
    broadcast use vstd::multiset::group_multiset_axioms;

    lemma_multiset_commutative(a, b);
    lemma_multiset_commutative(a.push(x), b);
    lemma_multiset_commutative(a, b.push(x));
    assert(a.to_multiset().insert(x).add(b.to_multiset()) =~= a.to_multiset().add(
        b.to_multiset(),
    ).insert(x));
    assert(a.to_multiset().add(b.to_multiset().insert(x)) =~= a.to_multiset().add(
        b.to_multiset(),
    ).insert(x));
}

/// Merges two sequences that are in order; of equally ranked things those of the first come first.
fn merged<T: Ranked>(a: &Vec<T>, b: &Vec<T>) -> (out: Vec<T>)
    requires
        all_ranked(a@),
        all_ranked(b@),
        in_order(a@),
        in_order(b@),
    ensures
        is_sorting_of(out@, a@ + b@),
        all_ranked(out@),
{
    broadcast use vstd::seq_lib::group_to_multiset_ensures;

    let mut out: Vec<T> = Vec::new();
    let mut i: usize = 0;
    let mut j: usize = 0;
    proof {
        assert(a@.take(0) + b@.take(0) =~= Seq::<T>::empty());
        assert forall|x: T| x.has_rank() implies #[trigger] ties(out@, x) == ties(a@.take(0), x)
            + ties(b@.take(0), x) by {
            lemma_no_ties(out@, x);
            lemma_no_ties(a@.take(0), x);
            lemma_no_ties(b@.take(0), x);
            assert(Seq::<T>::empty() + Seq::<T>::empty() =~= Seq::<T>::empty());
        }
    }
    while i < a.len() || j < b.len()
        invariant
            i <= a@.len(),
            j <= b@.len(),
            all_ranked(a@),
            all_ranked(b@),
            in_order(a@),
            in_order(b@),
            all_ranked(out@),
            in_order(out@),
            forall|x: T|
                x.has_rank() ==> #[trigger] ties(out@, x) == ties(a@.take(i as int), x) + ties(
                    b@.take(j as int),
                    x,
                ),
            // What was taken from the second sequence ranks before what is left of the first.
            forall|m: int, n: int|
                i <= m < a@.len() && 0 <= n < j ==> !(#[trigger] a@[m]).ranked(
                    #[trigger] b@[n],
                ),
            out@.to_multiset() == (a@.take(i as int) + b@.take(j as int)).to_multiset(),
            forall|m: int, n: int|
                0 <= m < out@.len() && i <= n < a@.len() ==> (#[trigger] out@[m]).ranked(
                    #[trigger] a@[n],
                ),
            forall|m: int, n: int|
                0 <= m < out@.len() && j <= n < b@.len() ==> (#[trigger] out@[m]).ranked(
                    #[trigger] b@[n],
                ),
        decreases a@.len() - i + b@.len() - j,
    {
        let first: bool = if i >= a.len() {
            false
        } else if j >= b.len() {
            true
        } else {
            a[i].may_precede(&b[j])
        };
        let ghost before = out@;
        let ghost x = if first {
            a@[i as int]
        } else {
            b@[j as int]
        };
        proof {
            lemma_one_more(before, a@.take(i as int), b@.take(j as int), x);
            if first {
                assert(a@.take(i + 1) =~= a@.take(i as int).push(x));
                // What is left of the second sequence does not rank before `x`.
                assert forall|n: int| j <= n < b@.len() implies x.ranked(#[trigger] b@[n]) by {
                    if n > j {
                        T::lemma_transitive(x, b@[j as int], b@[n]);
                    }
                }
                assert forall|q: T| q.has_rank() implies #[trigger] ties(before.push(x), q) == ties(
                    a@.take(i + 1),
                    q,
                ) + ties(b@.take(j as int), q) by {
                    let taken = b@.take(j as int);
                    lemma_ties_push(before, x, q);
                    lemma_ties_push(a@.take(i as int), x, q);
                    assert(ties(before, q) == ties(a@.take(i as int), q) + ties(taken, q));
                    if tied(x, q) {
                        assert forall|n: int| 0 <= n < taken.len() implies !tied(
                            #[trigger] taken[n],
                            q,
                        ) by {
                            assert(taken[n] == b@[n]);
                            if tied(b@[n], q) {
                                T::lemma_transitive(x, q, b@[n]);
                                assert(!a@[i as int].ranked(b@[n]));
                            }
                        }
                        lemma_no_ties(taken, q);
                        assert(ties(before.push(x), q) =~= ties(a@.take(i + 1), q) + ties(
                            taken,
                            q,
                        ));
                    }
                }
            } else {
                assert(b@.take(j + 1) =~= b@.take(j as int).push(x));
                assert forall|q: T| q.has_rank() implies #[trigger] ties(before.push(x), q) == ties(
                    a@.take(i as int),
                    q,
                ) + ties(b@.take(j + 1), q) by {
                    lemma_ties_push(before, x, q);
                    lemma_ties_push(b@.take(j as int), x, q);
                    assert(ties(before, q) == ties(a@.take(i as int), q) + ties(
                        b@.take(j as int),
                        q,
                    ));
                    assert(ties(before.push(x), q) =~= ties(a@.take(i as int), q) + ties(
                        b@.take(j + 1),
                        q,
                    ));
                }
                assert forall|m: int| i <= m < a@.len() implies !(#[trigger] a@[m]).ranked(x) by {
                    if a@[m].ranked(x) && m > i {
                        T::lemma_transitive(a@[i as int], a@[m], x);
                    }
                }
                assert forall|n: int| i <= n < a@.len() implies x.ranked(#[trigger] a@[n]) by {
                    T::lemma_total(a@[i as int], x);
                    if n > i {
                        T::lemma_transitive(x, a@[i as int], a@[n]);
                    }
                }
            }
        }
        if first {
            out.push(a[i]);
            i = i + 1;
        } else {
            out.push(b[j]);
            j = j + 1;
        }
        assert(out@ =~= before.push(x));
    }
    proof {
        assert(a@.take(i as int) =~= a@);
        assert(b@.take(j as int) =~= b@);
        assert forall|x: T| x.has_rank() implies #[trigger] ties(out@, x) == ties(a@ + b@, x) by {
            lemma_ties_of_both(a@, b@, x);
        }
    }
    out
}

/// The part of `v` from `lo` up to `hi`, sorted.
fn sorted_part<T: Ranked>(v: &Vec<T>, lo: usize, hi: usize) -> (out: Vec<T>)
    requires
        lo <= hi <= v@.len(),
        hi - lo >= 2 ==> all_ranked(v@),
    ensures
        is_sorting_of(out@, v@.subrange(lo as int, hi as int)),
        all_ranked(v@) ==> all_ranked(out@),
    decreases hi - lo,
{
    if hi - lo <= 1 {
        let mut out: Vec<T> = Vec::new();
        if hi > lo {
            out.push(v[lo]);
        }
        assert(out@ =~= v@.subrange(lo as int, hi as int));
        out
    } else {
        let mid: usize = lo + (hi - lo) / 2;
        let left: Vec<T> = sorted_part(v, lo, mid);
        let right: Vec<T> = sorted_part(v, mid, hi);
        let out: Vec<T> = merged(&left, &right);
        proof {
            let l = v@.subrange(lo as int, mid as int);
            let r = v@.subrange(mid as int, hi as int);
            assert(v@.subrange(lo as int, hi as int) =~= l + r);
            lemma_multiset_commutative(left@, right@);
            lemma_multiset_commutative(l, r);
            assert forall|x: T| x.has_rank() implies #[trigger] ties(out@, x) == ties(
                l + r,
                x,
            ) by {
                assert(ties(out@, x) == ties(left@ + right@, x));
                lemma_ties_of_both(left@, right@, x);
                lemma_ties_of_both(l, r, x);
                assert(ties(left@, x) == ties(l, x));
                assert(ties(right@, x) == ties(r, x));
            }
        }
        out
    }
}

/// The members of `v` in order; equally ranked ones stay as they stand.
pub fn sorted<T: Ranked>(v: &Vec<T>) -> (out: Vec<T>)
    requires
        sortable(v@),
    ensures
        out@ == sorting(v@),
        is_sorting_of(out@, v@),
{
    proof {
        assert(v@.subrange(0, v@.len() as int) =~= v@);
    }
    let out: Vec<T> = sorted_part(v, 0, v.len());
    proof {
        law_sorting_is_unique(out@, v@);
    }
    out
}

} // verus!
