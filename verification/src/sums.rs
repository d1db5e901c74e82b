//! Sums, counts and filters over sequences, used to state what every derived
//! index owes to the sequence of chunks held by the store.

use vstd::prelude::*;

verus! {

/// Sum of `f` over all elements of `s`.
pub open spec fn seq_sum<A>(s: Seq<A>, f: spec_fn(A) -> nat) -> nat
    decreases s.len(),
{
    if s.len() == 0 {
        0
    } else {
        f(s[0]) + seq_sum(s.skip(1), f)
    }
}

/// The 0/1 weighting of a predicate.
pub open spec fn indicator<A>(p: spec_fn(A) -> bool) -> spec_fn(A) -> nat {
    |x: A|
        if p(x) {
            1nat
        } else {
            0nat
        }
}

/// Number of elements of `s` satisfying `p`.
pub open spec fn seq_count<A>(s: Seq<A>, p: spec_fn(A) -> bool) -> nat {
    seq_sum(s, indicator(p))
}

/// The elements of `s` satisfying `p`, in order.
pub open spec fn seq_filter<A>(s: Seq<A>, p: spec_fn(A) -> bool) -> Seq<A>
    decreases s.len(),
{
    if s.len() == 0 {
        s
    } else if p(s[0]) {
        seq![s[0]] + seq_filter(s.skip(1), p)
    } else {
        seq_filter(s.skip(1), p)
    }
}

/// Unfolds one step of a sum over a suffix: the sum over `s.skip(i)` is the
/// contribution of `s[i]` plus the sum over `s.skip(i + 1)`.
pub proof fn lemma_seq_sum_skip_step<A>(s: Seq<A>, i: int, f: spec_fn(A) -> nat)
    requires
        0 <= i < s.len(),
    ensures
        seq_sum(s.skip(i), f) == f(s[i]) + seq_sum(s.skip(i + 1), f),
{
    assert(s.skip(i).len() > 0);
    assert(s.skip(i)[0] == s[i]);
    assert(s.skip(i).skip(1) =~= s.skip(i + 1));
}

/// Appending one element adds its contribution to the sum.
pub proof fn lemma_seq_sum_push<A>(s: Seq<A>, x: A, f: spec_fn(A) -> nat)
    ensures
        seq_sum(s.push(x), f) == seq_sum(s, f) + f(x),
    decreases s.len(),
{
    if s.len() == 0 {
        assert(s.push(x)[0] == x);
        assert(s.push(x).skip(1) =~= Seq::<A>::empty());
        assert(seq_sum(s.push(x), f) == f(x) + seq_sum(s.push(x).skip(1), f));
        assert(seq_sum(Seq::<A>::empty(), f) == 0);
    } else {
        assert(s.push(x)[0] == s[0]);
        assert(s.push(x).skip(1) =~= s.skip(1).push(x));
        lemma_seq_sum_push(s.skip(1), x, f);
        assert(seq_sum(s.push(x), f) == f(s[0]) + seq_sum(s.skip(1).push(x), f));
        assert(seq_sum(s, f) == f(s[0]) + seq_sum(s.skip(1), f));
    }
}

/// Removing one element removes exactly its contribution from the sum.
pub proof fn lemma_seq_sum_remove<A>(s: Seq<A>, i: int, f: spec_fn(A) -> nat)
    requires
        0 <= i < s.len(),
    ensures
        seq_sum(s.remove(i), f) + f(s[i]) == seq_sum(s, f),
    decreases s.len(),
{
    if i == 0 {
        assert(s.remove(0) =~= s.skip(1));
    } else {
        assert(s.remove(i)[0] == s[0]);
        assert(s.remove(i).skip(1) =~= s.skip(1).remove(i - 1));
        lemma_seq_sum_remove(s.skip(1), i - 1, f);
    }
}

/// Prepending one element adds its contribution to the sum.
pub proof fn lemma_seq_sum_cons<A>(x: A, s: Seq<A>, f: spec_fn(A) -> nat)
    ensures
        seq_sum(seq![x] + s, f) == f(x) + seq_sum(s, f),
{
    let c = seq![x] + s;
    assert(c.len() > 0);
    assert(c[0] == x);
    assert(c.skip(1) =~= s);
}

/// If one weighting is everywhere at most another, so is its sum.
pub proof fn lemma_seq_sum_le<A>(s: Seq<A>, f: spec_fn(A) -> nat, g: spec_fn(A) -> nat)
    requires
        forall|i: int| 0 <= i < s.len() ==> f(s[i]) <= g(s[i]),
    ensures
        seq_sum(s, f) <= seq_sum(s, g),
    decreases s.len(),
{
    if s.len() > 0 {
        assert(forall|i: int|
            0 <= i < s.skip(1).len() ==> s.skip(1)[i] == s[i + 1] && f(s.skip(1)[i]) <= g(
                s.skip(1)[i],
            ));
        lemma_seq_sum_le(s.skip(1), f, g);
    }
}

/// Every element of a filtered sequence comes from the original and satisfies
/// the predicate; elements satisfying the predicate are all retained.
pub proof fn lemma_seq_filter_membership<A>(s: Seq<A>, p: spec_fn(A) -> bool)
    ensures
        forall|i: int|
            0 <= i < seq_filter(s, p).len() ==> p(#[trigger] seq_filter(s, p)[i]) && s.contains(
                seq_filter(s, p)[i],
            ),
        forall|i: int| 0 <= i < s.len() && p(#[trigger] s[i]) ==> seq_filter(s, p).contains(s[i]),
    decreases s.len(),
{
    if s.len() > 0 {
        lemma_seq_filter_membership(s.skip(1), p);
        let r = seq_filter(s, p);
        let rt = seq_filter(s.skip(1), p);
        assert(forall|i: int| 0 <= i < s.skip(1).len() ==> #[trigger] s.skip(1)[i] == s[i + 1]);
        if p(s[0]) {
            assert(r =~= seq![s[0]] + rt);
            assert(forall|i: int| 1 <= i < r.len() ==> r[i] == rt[i - 1]);
        } else {
            assert(r =~= rt);
        }
        let base: int = if p(s[0]) {
            1
        } else {
            0
        };
        assert forall|i: int| 0 <= i < r.len() implies p(#[trigger] r[i]) && s.contains(
            r[i],
        ) by {
            if p(s[0]) && i == 0 {
                assert(r[0] == s[0]);
                assert(s[0] == s[0]);
            } else {
                assert(r[i] == rt[i - base]);
                assert(s.skip(1).contains(rt[i - base]));
                let j = choose|j: int| 0 <= j < s.skip(1).len() && s.skip(1)[j] == rt[i - base];
                assert(s[j + 1] == r[i]);
            }
        }
        assert forall|i: int| 0 <= i < s.len() && p(#[trigger] s[i]) implies r.contains(
            s[i],
        ) by {
            if i == 0 {
                assert(r[0] == s[0]);
            } else {
                assert(s.skip(1)[i - 1] == s[i]);
                assert(rt.contains(s[i]));
                let j = choose|j: int| 0 <= j < rt.len() && rt[j] == s[i];
                assert(r[j + base] == s[i]);
            }
        }
    }
}

} // verus!

use vstd::seq_lib::group_to_multiset_ensures;

verus! {

/// Inserting one element anywhere adds exactly it to the sequence's multiset.
pub proof fn lemma_seq_insert_to_multiset<A>(s: Seq<A>, i: int, x: A)
    requires
        0 <= i <= s.len(),
    ensures
        s.insert(i, x).to_multiset() =~= s.to_multiset().insert(x),
{
    broadcast use group_to_multiset_ensures;

    let s2 = s.insert(i, x);
    assert(s2.remove(i) =~= s);
    assert(s2[i] == x);
    assert(s.to_multiset() =~= s2.to_multiset().remove(x));
    assert(s2.contains(x));
    assert(s2.to_multiset().count(x) > 0);
    assert(s2.to_multiset() =~= s2.to_multiset().remove(x).insert(x));
}

} // verus!

verus! {

/// Removing an element and inserting it back anywhere leaves the sequence's
/// multiset unchanged.
pub proof fn lemma_seq_remove_insert_multiset<A>(s: Seq<A>, i: int, j: int)
    requires
        0 <= i < s.len(),
        0 <= j <= s.remove(i).len(),
    ensures
        s.remove(i).insert(j, s[i]).to_multiset() =~= s.to_multiset(),
{
    broadcast use group_to_multiset_ensures;

    lemma_seq_insert_to_multiset(s.remove(i), j, s[i]);
    assert(s.remove(i).to_multiset() =~= s.to_multiset().remove(s[i]));
    assert(s.contains(s[i]));
    assert(s.to_multiset().count(s[i]) > 0);
    assert(s.to_multiset().remove(s[i]).insert(s[i]) =~= s.to_multiset());
}

} // verus!

verus! {

/// A sum splits at any cut point into the prefix sum plus the suffix sum.
pub proof fn lemma_seq_sum_take_skip<A>(s: Seq<A>, i: int, f: spec_fn(A) -> nat)
    requires
        0 <= i <= s.len(),
    ensures
        seq_sum(s, f) == seq_sum(s.take(i), f) + seq_sum(s.skip(i), f),
    decreases s.len() - i,
{
    if i == s.len() {
        assert(s.take(i) =~= s);
        assert(s.skip(i).len() == 0);
    } else {
        lemma_seq_sum_take_skip(s, i + 1, f);
        assert(s.take(i + 1) =~= s.take(i).push(s[i]));
        lemma_seq_sum_push(s.take(i), s[i], f);
        lemma_seq_sum_skip_step(s, i, f);
    }
}

} // verus!

verus! {

/// Appending one element raises a count by one exactly when it satisfies the
/// predicate.
pub proof fn lemma_seq_count_push<A>(s: Seq<A>, x: A, p: spec_fn(A) -> bool)
    ensures
        seq_count(s.push(x), p) == seq_count(s, p) + if p(x) {
            1nat
        } else {
            0nat
        },
{
    lemma_seq_sum_push(s, x, indicator(p));
}

/// A count never exceeds the sequence's length.
pub proof fn lemma_seq_count_le_len<A>(s: Seq<A>, p: spec_fn(A) -> bool)
    ensures
        seq_count(s, p) <= s.len(),
    decreases s.len(),
{
    if s.len() > 0 {
        lemma_seq_count_le_len(s.skip(1), p);
    }
}

/// Counting over a filtered sequence never exceeds the count over the
/// original.
pub proof fn lemma_seq_count_filter_le<A>(s: Seq<A>, q: spec_fn(A) -> bool, p: spec_fn(A) -> bool)
    ensures
        seq_count(seq_filter(s, q), p) <= seq_count(s, p),
    decreases s.len(),
{
    if s.len() > 0 {
        lemma_seq_count_filter_le(s.skip(1), q, p);
        if q(s[0]) {
            let tail = seq_filter(s.skip(1), q);
            assert(seq_filter(s, q) =~= seq![s[0]] + tail);
            lemma_seq_sum_cons(s[0], tail, indicator(p));
        }
    }
}

/// A filter that retains every element is the identity.
pub proof fn lemma_seq_filter_all<A>(s: Seq<A>, p: spec_fn(A) -> bool)
    requires
        forall|i: int| 0 <= i < s.len() ==> p(#[trigger] s[i]),
    ensures
        seq_filter(s, p) == s,
    decreases s.len(),
{
    if s.len() > 0 {
        assert(forall|i: int| 0 <= i < s.skip(1).len() ==> #[trigger] s.skip(1)[i] == s[i + 1]);
        lemma_seq_filter_all(s.skip(1), p);
        assert(seq_filter(s, p) =~= seq![s[0]] + s.skip(1));
        assert(seq![s[0]] + s.skip(1) =~= s);
    }
}

} // verus!

verus! {

/// A sum of all-zero weights is zero.
pub proof fn lemma_seq_sum_zero<A>(s: Seq<A>, f: spec_fn(A) -> nat)
    requires
        forall|i: int| 0 <= i < s.len() ==> f(#[trigger] s[i]) == 0,
    ensures
        seq_sum(s, f) == 0,
    decreases s.len(),
{
    if s.len() > 0 {
        assert(forall|i: int| 0 <= i < s.skip(1).len() ==> #[trigger] s.skip(1)[i] == s[i + 1]);
        lemma_seq_sum_zero(s.skip(1), f);
    }
}

/// Inserting one element adds its contribution to the sum.
pub proof fn lemma_seq_sum_insert<A>(s: Seq<A>, i: int, x: A, f: spec_fn(A) -> nat)
    requires
        0 <= i <= s.len(),
    ensures
        seq_sum(s.insert(i, x), f) == seq_sum(s, f) + f(x),
{
    let s2 = s.insert(i, x);
    assert(s2.remove(i) =~= s);
    assert(s2[i] == x);
    lemma_seq_sum_remove(s2, i, f);
}

/// A sum over a prefix never exceeds the sum over the whole sequence.
pub proof fn lemma_seq_sum_take_le<A>(s: Seq<A>, i: int, f: spec_fn(A) -> nat)
    requires
        0 <= i <= s.len(),
    ensures
        seq_sum(s.take(i), f) <= seq_sum(s, f),
{
    lemma_seq_sum_take_skip(s, i, f);
}

} // verus!

verus! {

/// A sum of weights that are everywhere at least one is at least the length.
pub proof fn lemma_seq_sum_min_one<A>(s: Seq<A>, f: spec_fn(A) -> nat)
    requires
        forall|i: int| 0 <= i < s.len() ==> f(#[trigger] s[i]) >= 1,
    ensures
        seq_sum(s, f) >= s.len(),
    decreases s.len(),
{
    if s.len() > 0 {
        assert(forall|i: int| 0 <= i < s.skip(1).len() ==> #[trigger] s.skip(1)[i] == s[i + 1]);
        lemma_seq_sum_min_one(s.skip(1), f);
    }
}

} // verus!

verus! {

/// Filtering one more element keeps it exactly when it satisfies the
/// predicate.
pub proof fn lemma_seq_filter_push<A>(s: Seq<A>, x: A, p: spec_fn(A) -> bool)
    ensures
        seq_filter(s.push(x), p) == if p(x) {
            seq_filter(s, p).push(x)
        } else {
            seq_filter(s, p)
        },
    decreases s.len(),
{
    if s.len() == 0 {
        let pushed = s.push(x);
        assert(pushed[0] == x);
        assert(pushed.skip(1) =~= Seq::<A>::empty());
        assert(seq_filter(pushed.skip(1), p) == pushed.skip(1));
        assert(seq_filter(s, p) == s);
        if p(x) {
            assert(seq_filter(pushed, p) == seq![x] + pushed.skip(1));
            assert(seq![x] + pushed.skip(1) =~= seq_filter(s, p).push(x));
        } else {
            assert(seq_filter(pushed, p) =~= seq_filter(s, p));
        }
    } else {
        let pushed = s.push(x);
        assert(pushed[0] == s[0]);
        assert(pushed.skip(1) =~= s.skip(1).push(x));
        lemma_seq_filter_push(s.skip(1), x, p);
        if p(s[0]) {
            if p(x) {
                assert(seq_filter(pushed, p) =~= (seq![s[0]] + seq_filter(s.skip(1), p)).push(x));
            }
        }
    }
}

/// Two predicates that agree on a sequence's elements filter it identically.
pub proof fn lemma_seq_filter_congruence<A>(s: Seq<A>, p: spec_fn(A) -> bool, q: spec_fn(A) -> bool)
    requires
        forall|i: int| 0 <= i < s.len() ==> p(#[trigger] s[i]) == q(s[i]),
    ensures
        seq_filter(s, p) == seq_filter(s, q),
    decreases s.len(),
{
    if s.len() > 0 {
        assert(forall|i: int| 0 <= i < s.skip(1).len() ==> #[trigger] s.skip(1)[i] == s[i + 1]);
        lemma_seq_filter_congruence(s.skip(1), p, q);
    }
}

} // verus!
