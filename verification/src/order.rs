//! Stable ordering of sequences by a "comes before" relation.

use vstd::prelude::*;

verus! {

/// Index of the first entry at or after `i` that satisfies `pred`, or
/// `s.len()` when there is none.
pub open spec fn first_where<A>(s: Seq<A>, pred: spec_fn(A) -> bool, i: int) -> int
    decreases s.len() - i,
{
    if i < 0 || i >= s.len() {
        s.len() as int
    } else if pred(s[i]) {
        i
    } else {
        first_where(s, pred, i + 1)
    }
}

/// `first_where` is the first hit: nothing before it satisfies `pred`, and it
/// does itself unless it is the end.
pub proof fn lemma_first_where<A>(s: Seq<A>, pred: spec_fn(A) -> bool, i: int)
    requires
        0 <= i <= s.len(),
    ensures
        i <= first_where(s, pred, i) <= s.len(),
        first_where(s, pred, i) < s.len() ==> pred(s[first_where(s, pred, i)]),
        forall|j: int| i <= j < first_where(s, pred, i) ==> !pred(#[trigger] s[j]),
    decreases s.len() - i,
{
    if i < s.len() && !pred(s[i]) {
        lemma_first_where(s, pred, i + 1);
    }
}

/// Where `x` goes into `s[..n]`: behind everything it does not come before.
pub open spec fn slot<A>(s: Seq<A>, x: A, before: spec_fn(A, A) -> bool, n: int) -> int
    decreases n,
{
    if n <= 0 || n > s.len() || !before(x, s[n - 1]) {
        n
    } else {
        slot(s, x, before, n - 1)
    }
}

/// `s` with `x` put in its place.
pub open spec fn placed<A>(s: Seq<A>, x: A, before: spec_fn(A, A) -> bool) -> Seq<A> {
    s.insert(slot(s, x, before, s.len() as int), x)
}

/// The entries of `s` in order; those that come before neither of each other
/// keep the order they had.
pub open spec fn ordered<A>(s: Seq<A>, before: spec_fn(A, A) -> bool) -> Seq<A>
    decreases s.len(),
{
    if s.len() == 0 {
        Seq::empty()
    } else {
        placed(ordered(s.drop_last(), before), s.last(), before)
    }
}

/// Whether no entry stands behind one that it comes before.
pub open spec fn is_ordered<A>(s: Seq<A>, before: spec_fn(A, A) -> bool) -> bool {
    forall|i: int, j: int| 0 <= i < j < s.len() ==> !before(#[trigger] s[j], #[trigger] s[i])
}

/// Whether `before` orders strictly what `member` admits: no two come before
/// each other, and what comes before one comes before whatever does not come
/// before that one.
pub open spec fn is_strict<A>(
    before: spec_fn(A, A) -> bool,
    member: spec_fn(A) -> bool,
) -> bool {
    &&& forall|a: A, b: A|
        member(a) && member(b) && #[trigger] before(a, b) ==> !before(b, a)
    &&& forall|a: A, b: A, c: A|
        member(a) && member(b) && member(c) && #[trigger] before(a, b) && !#[trigger] before(
            c,
            b,
        ) ==> before(a, c)
}

/// Bounds of `slot`, and what stands on either side of it.
pub proof fn lemma_slot<A>(s: Seq<A>, x: A, before: spec_fn(A, A) -> bool, n: int)
    requires
        0 <= n <= s.len(),
    ensures
        0 <= slot(s, x, before, n) <= n,
        forall|j: int| slot(s, x, before, n) <= j < n ==> before(x, #[trigger] s[j]),
        slot(s, x, before, n) > 0 ==> !before(x, s[slot(s, x, before, n) - 1]),
    decreases n,
{
    if n > 0 && before(x, s[n - 1]) {
        lemma_slot(s, x, before, n - 1);
    }
}

/// What passes a filter was there before, and satisfies it.
pub proof fn lemma_filtered<A>(s: Seq<A>, pred: spec_fn(A) -> bool)
    ensures
        forall|i: int|
            0 <= i < s.filter(pred).len() ==> pred(#[trigger] s.filter(pred)[i]) && s.contains(
                s.filter(pred)[i],
            ),
    decreases s.len(),
{
    reveal(Seq::filter);
    if s.len() > 0 {
        let rest = s.drop_last();
        lemma_filtered(rest, pred);
        assert forall|i: int| 0 <= i < s.filter(pred).len() implies pred(
            #[trigger] s.filter(pred)[i],
        ) && s.contains(s.filter(pred)[i]) by {
            if i < rest.filter(pred).len() {
                let x = rest.filter(pred)[i];
                assert(s.filter(pred)[i] == x);
                let j = choose|j: int| 0 <= j < rest.len() && rest[j] == x;
                assert(s[j] == x);
            } else {
                assert(s[s.len() - 1] == s.filter(pred)[i]);
            }
        }
    }
}

/// Ordering permutes: every entry occurs as often as before.
pub proof fn lemma_ordered_permutes<A>(s: Seq<A>, before: spec_fn(A, A) -> bool)
    ensures
        ordered(s, before).to_multiset() == s.to_multiset(),
        ordered(s, before).len() == s.len(),
    decreases s.len(),
{
    broadcast use vstd::seq_lib::group_to_multiset_ensures;

    if s.len() > 0 {
        let rest = ordered(s.drop_last(), before);
        lemma_ordered_permutes(s.drop_last(), before);
        lemma_slot(rest, s.last(), before, rest.len() as int);
        let k = slot(rest, s.last(), before, rest.len() as int);
        assert(rest.insert(k, s.last()).to_multiset() =~= rest.to_multiset().insert(s.last()));
        assert(s =~= s.drop_last().push(s.last()));
    }
}

/// Ordering keeps what is there: whatever holds of every entry still does.
pub proof fn lemma_ordered_members<A>(
    s: Seq<A>,
    before: spec_fn(A, A) -> bool,
    member: spec_fn(A) -> bool,
)
    requires
        forall|i: int| 0 <= i < s.len() ==> member(#[trigger] s[i]),
    ensures
        forall|i: int|
            0 <= i < ordered(s, before).len() ==> member(#[trigger] ordered(s, before)[i]),
    decreases s.len(),
{
    if s.len() > 0 {
        let rest = ordered(s.drop_last(), before);
        assert forall|i: int| 0 <= i < s.drop_last().len() implies member(
            #[trigger] s.drop_last()[i],
        ) by {
            assert(s.drop_last()[i] == s[i]);
        }
        lemma_ordered_members(s.drop_last(), before, member);
        lemma_slot(rest, s.last(), before, rest.len() as int);
        let k = slot(rest, s.last(), before, rest.len() as int);
        let out = rest.insert(k, s.last());
        assert forall|i: int| 0 <= i < out.len() implies member(#[trigger] out[i]) by {
            if i < k {
                assert(out[i] == rest[i]);
            } else if i == k {
                assert(out[i] == s[s.len() - 1]);
            } else {
                assert(out[i] == rest[i - 1]);
            }
        }
    }
}

/// Ordering neither adds nor drops entries.
pub proof fn lemma_ordered_contains<A>(s: Seq<A>, before: spec_fn(A, A) -> bool)
    ensures
        forall|x: A| #[trigger] ordered(s, before).contains(x) <==> s.contains(x),
{
    broadcast use vstd::seq_lib::group_to_multiset_ensures;

    lemma_ordered_permutes(s, before);
    assert forall|x: A| #[trigger] ordered(s, before).contains(x) <==> s.contains(x) by {
        assert(ordered(s, before).contains(x) <==> ordered(s, before).to_multiset().count(x) > 0);
        assert(s.contains(x) <==> s.to_multiset().count(x) > 0);
    }
}

/// Ordering orders: no entry stands behind one that it comes before.
pub proof fn lemma_ordered_is_ordered<A>(
    s: Seq<A>,
    before: spec_fn(A, A) -> bool,
    member: spec_fn(A) -> bool,
)
    requires
        is_strict(before, member),
        forall|i: int| 0 <= i < s.len() ==> member(#[trigger] s[i]),
    ensures
        is_ordered(ordered(s, before), before),
    decreases s.len(),
{
    if s.len() > 0 {
        let rest = ordered(s.drop_last(), before);
        let x = s.last();
        assert forall|i: int| 0 <= i < s.drop_last().len() implies member(
            #[trigger] s.drop_last()[i],
        ) by {
            assert(s.drop_last()[i] == s[i]);
        }
        assert(member(s[s.len() - 1]));
        lemma_ordered_is_ordered(s.drop_last(), before, member);
        lemma_ordered_members(s.drop_last(), before, member);
        lemma_slot(rest, x, before, rest.len() as int);
        let k = slot(rest, x, before, rest.len() as int);
        let out = rest.insert(k, x);
        assert forall|i: int, j: int| 0 <= i < j < out.len() implies !before(
            #[trigger] out[j],
            #[trigger] out[i],
        ) by {
            if j < k {
                assert(out[i] == rest[i] && out[j] == rest[j]);
            } else if j == k {
                assert(out[i] == rest[i] && out[j] == x);
                if before(x, rest[i]) {
                    if i < k - 1 {
                        assert(!before(rest[k - 1], rest[i]));
                    }
                    assert(before(x, rest[k - 1]));
                }
            } else {
                assert(out[j] == rest[j - 1]);
                if i < k {
                    assert(out[i] == rest[i]);
                } else if i == k {
                    assert(out[i] == x);
                    assert(before(x, rest[j - 1]));
                } else {
                    assert(out[i] == rest[i - 1]);
                }
            }
        }
    }
}

/// Ordering what is in order changes nothing.
pub proof fn lemma_ordered_stays<A>(s: Seq<A>, before: spec_fn(A, A) -> bool)
    requires
        is_ordered(s, before),
    ensures
        ordered(s, before) == s,
    decreases s.len(),
{
    if s.len() > 0 {
        let rest = s.drop_last();
        let x = s.last();
        assert forall|i: int, j: int| 0 <= i < j < rest.len() implies !before(
            #[trigger] rest[j],
            #[trigger] rest[i],
        ) by {
            assert(rest[i] == s[i] && rest[j] == s[j]);
        }
        lemma_ordered_stays(rest, before);
        if rest.len() > 0 {
            assert(s[rest.len() as int] == x && s[rest.len() - 1] == rest[rest.len() - 1]);
        }
        assert(slot(rest, x, before, rest.len() as int) == rest.len());
        assert(rest.insert(rest.len() as int, x) =~= s);
    } else {
        assert(s =~= Seq::empty());
    }
}

/// A filter that everything passes changes nothing.
pub proof fn lemma_filter_all<A>(s: Seq<A>, pred: spec_fn(A) -> bool)
    requires
        forall|i: int| 0 <= i < s.len() ==> pred(#[trigger] s[i]),
    ensures
        s.filter(pred) == s,
    decreases s.len(),
{
    reveal(Seq::filter);
    if s.len() > 0 {
        assert forall|i: int| 0 <= i < s.drop_last().len() implies pred(
            #[trigger] s.drop_last()[i],
        ) by {
            assert(s.drop_last()[i] == s[i]);
        }
        lemma_filter_all(s.drop_last(), pred);
        assert(pred(s[s.len() - 1]));
        assert(s =~= s.drop_last().push(s.last()));
    } else {
        assert(s =~= Seq::empty());
    }
}

/// A filter that nothing passes leaves nothing.
pub proof fn lemma_filter_none<A>(s: Seq<A>, pred: spec_fn(A) -> bool)
    requires
        forall|i: int| 0 <= i < s.len() ==> !pred(#[trigger] s[i]),
    ensures
        s.filter(pred) == Seq::<A>::empty(),
{
    lemma_filtered(s, pred);
    if s.filter(pred).len() > 0 {
        let x = s.filter(pred)[0];
        let i = choose|i: int| 0 <= i < s.len() && s[i] == x;
        assert(!pred(s[i]));
    }
    assert(s.filter(pred) =~= Seq::<A>::empty());
}

proof fn lemma_filter_counts<A>(s: Seq<A>, pred: spec_fn(A) -> bool)
    ensures
        s.filter(pred).to_multiset() == s.to_multiset().filter(pred),
    decreases s.len(),
{
    broadcast use vstd::seq_lib::group_to_multiset_ensures;

    reveal(Seq::filter);
    if s.len() > 0 {
        lemma_filter_counts(s.drop_last(), pred);
        assert(s =~= s.drop_last().push(s.last()));
    }
    assert(s.filter(pred).to_multiset() =~= s.to_multiset().filter(pred));
}

/// The same entries in another order, filtered, are the same entries.
pub proof fn lemma_filter_permuted<A>(a: Seq<A>, b: Seq<A>, pred: spec_fn(A) -> bool)
    requires
        a.to_multiset() == b.to_multiset(),
    ensures
        a.filter(pred).to_multiset() == b.filter(pred).to_multiset(),
        a.filter(pred).len() == b.filter(pred).len(),
{
    broadcast use vstd::seq_lib::group_to_multiset_ensures;

    lemma_filter_counts(a, pred);
    lemma_filter_counts(b, pred);
    assert(a.filter(pred).len() == a.filter(pred).to_multiset().len());
    assert(b.filter(pred).len() == b.filter(pred).to_multiset().len());
}

/// What is kept of a sequence in order is in order.
pub proof fn lemma_filter_is_ordered<A>(
    s: Seq<A>,
    pred: spec_fn(A) -> bool,
    before: spec_fn(A, A) -> bool,
)
    requires
        is_ordered(s, before),
    ensures
        is_ordered(s.filter(pred), before),
    decreases s.len(),
{
    reveal(Seq::filter);
    if s.len() > 0 {
        let rest = s.drop_last();
        assert(is_ordered(rest, before)) by {
            assert forall|i: int, j: int| 0 <= i < j < rest.len() implies !before(
                #[trigger] rest[j],
                #[trigger] rest[i],
            ) by {
                assert(rest[j] == s[j] && rest[i] == s[i]);
            }
        }
        lemma_filter_is_ordered(rest, pred, before);
        let kept = s.filter(pred);
        let done = rest.filter(pred);
        lemma_filtered(rest, pred);
        assert forall|i: int, j: int| 0 <= i < j < kept.len() implies !before(
            #[trigger] kept[j],
            #[trigger] kept[i],
        ) by {
            if j < done.len() {
                assert(kept[j] == done[j] && kept[i] == done[i]);
            } else {
                assert(kept[j] == s.last() && kept[i] == done[i]);
                assert(rest.contains(done[i]));
                let k = choose|k: int| 0 <= k < rest.len() && rest[k] == done[i];
                assert(s[k] == done[i]);
                assert(!before(s[s.len() - 1], s[k]));
            }
        }
    }
}

/// A sequence is kept whole or dropped, entry by entry: what passes the test is
/// there, and nothing else.
pub proof fn lemma_filter_contains<A>(s: Seq<A>, pred: spec_fn(A) -> bool, x: A)
    ensures
        s.filter(pred).contains(x) <==> s.contains(x) && pred(x),
{
    broadcast use vstd::seq_lib::group_filter_ensures;

    lemma_filtered(s, pred);
    if s.filter(pred).contains(x) {
        let i = choose|i: int| 0 <= i < s.filter(pred).len() && s.filter(pred)[i] == x;
        assert(pred(s.filter(pred)[i]));
    }
    if s.contains(x) && pred(x) {
        let i = choose|i: int| 0 <= i < s.len() && s[i] == x;
        assert(s.filter(pred).contains(s[i]));
    }
}

/// What is kept of entries that are all different is all different.
pub proof fn lemma_filter_distinct<A>(s: Seq<A>, pred: spec_fn(A) -> bool)
    requires
        s.no_duplicates(),
    ensures
        s.filter(pred).no_duplicates(),
    decreases s.len(),
{
    reveal(Seq::filter);
    if s.len() > 0 {
        let rest = s.drop_last();
        lemma_filter_distinct(rest, pred);
        lemma_filtered(rest, pred);
        let kept = s.filter(pred);
        let done = rest.filter(pred);
        assert forall|i: int, j: int|
            0 <= i < kept.len() && 0 <= j < kept.len() && i != j implies kept[i] != kept[j] by {
            if i < done.len() {
                assert(rest.contains(done[i]));
            }
            if j < done.len() {
                assert(rest.contains(done[j]));
            }
        }
    }
}

/// Two tests that agree keep the same.
pub proof fn lemma_filter_same<A>(s: Seq<A>, a: spec_fn(A) -> bool, b: spec_fn(A) -> bool)
    requires
        forall|x: A| #[trigger] a(x) == b(x),
    ensures
        s.filter(a) == s.filter(b),
    decreases s.len(),
{
    reveal(Seq::filter);
    if s.len() > 0 {
        lemma_filter_same(s.drop_last(), a, b);
    }
}

} // verus!
