//! General facts about sequences.

use vstd::prelude::*;

verus! {

/// An element of a flattened map stands in one of its parts.
pub proof fn lemma_flat_map_contains<A, B>(s: Seq<A>, f: spec_fn(A) -> Seq<B>, x: B)
    ensures
        s.flat_map(f).contains(x) <==> exists|i: int|
            0 <= i < s.len() && #[trigger] f(s[i]).contains(x),
    decreases s.len(),
{
    if s.len() == 0 {
        assert(s.flat_map(f) =~= Seq::<B>::empty());
    } else {
        let n = (s.len() - 1) as int;
        s.lemma_flat_map_take_append(f, n);
        assert(s.take(n + 1) =~= s);
        let front = s.take(n);
        lemma_flat_map_contains(front, f, x);
        let a = front.flat_map(f);
        let b = f(s[n]);
        assert(s.flat_map(f) =~= a + b);
        if a.contains(x) {
            let k = choose|k: int| 0 <= k < a.len() && a[k] == x;
            assert((a + b)[k] == x);
            let i = choose|i: int| 0 <= i < front.len() && #[trigger] f(front[i]).contains(x);
            assert(f(s[i]).contains(x));
        }
        if b.contains(x) {
            let k = choose|k: int| 0 <= k < b.len() && b[k] == x;
            assert((a + b)[a.len() + k] == x);
            assert(f(s[n]).contains(x));
        }
        if exists|i: int| 0 <= i < s.len() && #[trigger] f(s[i]).contains(x) {
            let i = choose|i: int| 0 <= i < s.len() && #[trigger] f(s[i]).contains(x);
            if i < n {
                assert(f(front[i]).contains(x));
            }
        }
    }
}

/// Filtering a list without repeats gives a list without repeats.
pub proof fn lemma_filter_keeps_distinct<A>(s: Seq<A>, p: spec_fn(A) -> bool)
    requires
        s.no_duplicates(),
    ensures
        s.filter(p).no_duplicates(),
    decreases s.len(),
{
    if s.len() == 0 {
        assert(s.filter(p).len() == 0) by {
            s.lemma_filter_len(p);
        }
    } else {
        let front = s.drop_last();
        let x = s.last();
        assert(s =~= front.push(x));
        front.lemma_filter_push(x, p);
        lemma_filter_keeps_distinct(front, p);
        if p(x) {
            let kept = front.filter(p);
            assert(!kept.contains(x)) by {
                if kept.contains(x) {
                    front.lemma_filter_contains_rev(p, x);
                    let k = choose|k: int| 0 <= k < front.len() && front[k] == x;
                    assert(s[k] == s[s.len() - 1]);
                }
            }
            assert(kept.push(x).no_duplicates());
        }
    }
}

/// A filtered list holds exactly the elements that pass.
pub proof fn lemma_filter_contains_iff<A>(s: Seq<A>, p: spec_fn(A) -> bool, x: A)
    ensures
        s.filter(p).contains(x) <==> s.contains(x) && p(x),
{
    if s.filter(p).contains(x) {
        let k = choose|k: int| 0 <= k < s.filter(p).len() && s.filter(p)[k] == x;
        s.lemma_filter_pred(p, k);
        s.lemma_filter_contains_rev(p, x);
    }
    if s.contains(x) && p(x) {
        let k = choose|k: int| 0 <= k < s.len() && s[k] == x;
        s.lemma_filter_contains(p, k);
    }
}

/// A flattened map is no longer than its parts allow.
pub proof fn lemma_flat_map_len<A, B>(s: Seq<A>, f: spec_fn(A) -> Seq<B>, bound: nat)
    requires
        forall|i: int| 0 <= i < s.len() ==> (#[trigger] f(s[i])).len() <= bound,
    ensures
        s.flat_map(f).len() <= s.len() * bound,
    decreases s.len(),
{
    if s.len() == 0 {
        assert(s.flat_map(f) =~= Seq::<B>::empty());
    } else {
        let n = (s.len() - 1) as int;
        let front = s.take(n);
        s.lemma_flat_map_take_append(f, n);
        assert(s.take(n + 1) =~= s);
        assert forall|i: int| 0 <= i < front.len() implies (#[trigger] f(front[i])).len()
            <= bound by {
            assert(f(s[i]).len() <= bound);
        }
        lemma_flat_map_len(front, f, bound);
        assert(f(s[n]).len() <= bound);
        assert(s.len() * bound == n * bound + bound) by (nonlinear_arith)
            requires
                s.len() == n + 1,
        ;
    }
}

/// Where exactly one of three properties holds of everything that has a fourth, and none of
/// anything else, the elements with the fourth are as many as those with the three together.
pub proof fn lemma_filter_three_ways<A>(
    s: Seq<A>,
    whole: spec_fn(A) -> bool,
    p: spec_fn(A) -> bool,
    q: spec_fn(A) -> bool,
    r: spec_fn(A) -> bool,
)
    requires
        forall|x: A| #[trigger]
            whole(x) == (p(x) || q(x) || r(x)) && !(p(x) && q(x)) && !(p(x) && r(x)) && !(q(x)
                && r(x)),
    ensures
        s.filter(whole).len() == s.filter(p).len() + s.filter(q).len() + s.filter(r).len(),
    decreases s.len(),
{
    if s.len() == 0 {
        s.lemma_filter_len(whole);
        s.lemma_filter_len(p);
        s.lemma_filter_len(q);
        s.lemma_filter_len(r);
    } else {
        let front = s.drop_last();
        let x = s.last();
        lemma_filter_three_ways(front, whole, p, q, r);
        assert(s =~= front.push(x));
        front.lemma_filter_push(x, whole);
        front.lemma_filter_push(x, p);
        front.lemma_filter_push(x, q);
        front.lemma_filter_push(x, r);
        assert(whole(x) == (p(x) || q(x) || r(x)));
    }
}

/// A stronger property holds of no more elements.
pub proof fn lemma_filter_fewer<A>(s: Seq<A>, p: spec_fn(A) -> bool, q: spec_fn(A) -> bool)
    requires
        forall|x: A| #[trigger] p(x) ==> q(x),
    ensures
        s.filter(p).len() <= s.filter(q).len(),
    decreases s.len(),
{
    if s.len() == 0 {
        s.lemma_filter_len(p);
    } else {
        let front = s.drop_last();
        let x = s.last();
        lemma_filter_fewer(front, p, q);
        assert(s =~= front.push(x));
        front.lemma_filter_push(x, p);
        front.lemma_filter_push(x, q);
        assert(p(x) ==> q(x));
    }
}

/// An element put behind those that may stand before it.
pub open spec fn placed_by<A>(sorted: Seq<A>, x: A, le: spec_fn(A, A) -> bool) -> Seq<A>
    decreases sorted.len(),
{
    if sorted.len() == 0 || le(sorted.last(), x) {
        sorted.push(x)
    } else {
        placed_by(sorted.drop_last(), x, le).push(sorted.last())
    }
}

/// The elements in order; of two that may stand either way the earlier stays first.
pub open spec fn sorted_by<A>(s: Seq<A>, le: spec_fn(A, A) -> bool) -> Seq<A>
    decreases s.len(),
{
    if s.len() == 0 {
        Seq::empty()
    } else {
        placed_by(sorted_by(s.drop_last(), le), s.last(), le)
    }
}

/// Where an element is put.
pub proof fn lemma_placed_by<A>(sorted: Seq<A>, x: A, le: spec_fn(A, A) -> bool, n: int)
    requires
        0 <= n <= sorted.len(),
        n == 0 || le(sorted[n - 1], x),
        forall|k: int| n <= k < sorted.len() ==> !le(#[trigger] sorted[k], x),
    ensures
        placed_by(sorted, x, le) == sorted.insert(n, x),
    decreases sorted.len(),
{
    if n < sorted.len() {
        assert(!le(sorted[sorted.len() - 1], x));
        let front = sorted.drop_last();
        assert forall|k: int| n <= k < front.len() implies !le(#[trigger] front[k], x) by {
            assert(!le(sorted[k], x));
        }
        lemma_placed_by(front, x, le, n);
        assert(front.insert(n, x).push(sorted.last()) =~= sorted.insert(n, x));
    } else {
        assert(sorted.push(x) =~= sorted.insert(n, x));
    }
}

/// Sorting keeps the number of elements.
pub proof fn lemma_sorted_by_len<A>(s: Seq<A>, le: spec_fn(A, A) -> bool)
    ensures
        sorted_by(s, le).len() == s.len(),
    decreases s.len(),
{
    if s.len() > 0 {
        lemma_sorted_by_len(s.drop_last(), le);
        lemma_placed_by_len(sorted_by(s.drop_last(), le), s.last(), le);
    }
}

proof fn lemma_placed_by_len<A>(sorted: Seq<A>, x: A, le: spec_fn(A, A) -> bool)
    ensures
        placed_by(sorted, x, le).len() == sorted.len() + 1,
    decreases sorted.len(),
{
    if sorted.len() != 0 && !le(sorted.last(), x) {
        lemma_placed_by_len(sorted.drop_last(), x, le);
    }
}

/// Sorting keeps the elements, each as often as it was there.
pub proof fn lemma_sorted_by_keeps<A>(s: Seq<A>, le: spec_fn(A, A) -> bool)
    ensures
        sorted_by(s, le).to_multiset() == s.to_multiset(),
    decreases s.len(),
{
    if s.len() > 0 {
        lemma_sorted_by_keeps(s.drop_last(), le);
        lemma_placed_by_keeps(sorted_by(s.drop_last(), le), s.last(), le);
        s.drop_last().to_multiset_ensures();
        assert(s =~= s.drop_last().push(s.last()));
    } else {
        assert(s =~= Seq::<A>::empty());
    }
}

proof fn lemma_placed_by_keeps<A>(sorted: Seq<A>, x: A, le: spec_fn(A, A) -> bool)
    ensures
        placed_by(sorted, x, le).to_multiset() == sorted.to_multiset().insert(x),
    decreases sorted.len(),
{
    sorted.to_multiset_ensures();
    if sorted.len() != 0 && !le(sorted.last(), x) {
        let front = sorted.drop_last();
        lemma_placed_by_keeps(front, x, le);
        front.to_multiset_ensures();
        placed_by(front, x, le).to_multiset_ensures();
        assert(sorted =~= front.push(sorted.last()));
        assert(front.to_multiset().insert(x).insert(sorted.last())
            =~= front.to_multiset().insert(sorted.last()).insert(x));
    }
}

/// Where of any two one may stand before the other, and that goes on from one to the next, sorting
/// leaves every element where it may stand before all that follow.
pub proof fn lemma_sorted_by_orders<A>(s: Seq<A>, le: spec_fn(A, A) -> bool)
    requires
        forall|a: A, b: A| #[trigger] le(a, b) || le(b, a),
        forall|a: A, b: A, c: A| #[trigger] le(a, b) && #[trigger] le(b, c) ==> le(a, c),
    ensures
        forall|i: int, j: int|
            0 <= i < j < s.len() ==> le(
                #[trigger] sorted_by(s, le)[i],
                #[trigger] sorted_by(s, le)[j],
            ),
        sorted_by(s, le).len() == s.len(),
    decreases s.len(),
{
    lemma_sorted_by_len(s, le);
    if s.len() > 0 {
        lemma_sorted_by_orders(s.drop_last(), le);
        lemma_placed_by_orders(sorted_by(s.drop_last(), le), s.last(), le);
    }
}

proof fn lemma_placed_by_orders<A>(sorted: Seq<A>, x: A, le: spec_fn(A, A) -> bool)
    requires
        forall|a: A, b: A| #[trigger] le(a, b) || le(b, a),
        forall|a: A, b: A, c: A| #[trigger] le(a, b) && #[trigger] le(b, c) ==> le(a, c),
        forall|i: int, j: int|
            0 <= i < j < sorted.len() ==> le(#[trigger] sorted[i], #[trigger] sorted[j]),
    ensures
        placed_by(sorted, x, le).len() == sorted.len() + 1,
        forall|i: int, j: int|
            0 <= i < j < placed_by(sorted, x, le).len() ==> le(
                #[trigger] placed_by(sorted, x, le)[i],
                #[trigger] placed_by(sorted, x, le)[j],
            ),
    decreases sorted.len(),
{
    let out = placed_by(sorted, x, le);
    if sorted.len() == 0 {
    } else if le(sorted.last(), x) {
        assert forall|i: int, j: int| 0 <= i < j < out.len() implies le(
            #[trigger] out[i],
            #[trigger] out[j],
        ) by {
            if j == sorted.len() && i < sorted.len() - 1 {
                assert(le(sorted[i], sorted[sorted.len() - 1]));
            }
        }
    } else {
        let front = sorted.drop_last();
        let last = sorted.last();
        assert forall|i: int, j: int| 0 <= i < j < front.len() implies le(
            #[trigger] front[i],
            #[trigger] front[j],
        ) by {
            assert(le(sorted[i], sorted[j]));
        }
        lemma_placed_by_orders(front, x, le);
        lemma_placed_by_keeps(front, x, le);
        let head = placed_by(front, x, le);
        assert forall|i: int| 0 <= i < head.len() implies le(#[trigger] head[i], last) by {
            head.to_multiset_ensures();
            front.to_multiset_ensures();
            assert(head.contains(head[i]));
            assert(head.to_multiset().count(head[i]) > 0);
            if head[i] != x {
                assert(front.to_multiset().count(head[i]) > 0);
                assert(front.contains(head[i]));
                let k = choose|k: int| 0 <= k < front.len() && front[k] == head[i];
                assert(le(sorted[k], sorted[sorted.len() - 1]));
            } else {
                assert(le(last, x) || le(x, last));
            }
        }
    }
}

/// Counts the elements with a property.
pub fn count_if<T, F: Fn(&T) -> bool>(list: &Vec<T>, test: F, Ghost(p): Ghost<spec_fn(T) -> bool>) -> (res:
    usize)
    requires
        forall|x: T| #[trigger] call_requires(test, (&x,)),
        forall|x: T, b: bool| #[trigger] call_ensures(test, (&x,), b) ==> b == p(x),
    ensures
        res == list@.filter(p).len(),
        res <= list@.len(),
{
    let mut n: usize = 0;
    let mut i: usize = 0;
    proof {
        list@.take(0).lemma_filter_len(p);
    }
    while i < list.len()
        invariant
            i <= list@.len(),
            n <= i,
            n == list@.take(i as int).filter(p).len(),
            forall|x: T| #[trigger] call_requires(test, (&x,)),
            forall|x: T, b: bool| #[trigger] call_ensures(test, (&x,), b) ==> b == p(x),
        decreases list@.len() - i,
    {
        proof {
            assert(list@.take(i + 1) =~= list@.take(i as int).push(list@[i as int]));
            list@.take(i as int).lemma_filter_push(list@[i as int], p);
        }
        if test(&list[i]) {
            n += 1;
        }
        i += 1;
    }
    assert(list@.take(i as int) =~= list@);
    n
}

/// Two lists of the same elements, both in order, are one list where two elements that may stand
/// either way are the same.
pub proof fn lemma_ordered_once<A>(s: Seq<A>, t: Seq<A>, le: spec_fn(A, A) -> bool)
    requires
        s.to_multiset() == t.to_multiset(),
        forall|i: int, j: int| 0 <= i < j < s.len() ==> le(#[trigger] s[i], #[trigger] s[j]),
        forall|i: int, j: int| 0 <= i < j < t.len() ==> le(#[trigger] t[i], #[trigger] t[j]),
        forall|i: int, j: int|
            0 <= i < s.len() && 0 <= j < s.len() && le(#[trigger] s[i], #[trigger] s[j]) && le(
                s[j],
                s[i],
            ) ==> s[i] == s[j],
    ensures
        s == t,
    decreases s.len(),
{
    s.to_multiset_ensures();
    t.to_multiset_ensures();
    assert(s.len() == t.len());
    if s.len() == 0 {
        assert(s =~= t);
    } else {
        let n = (s.len() - 1) as int;
        assert(s.contains(s[n]));
        assert(t.to_multiset().count(s[n]) > 0);
        assert(t.contains(s[n]));
        let k = choose|k: int| 0 <= k < t.len() && t[k] == s[n];
        assert(t.contains(t[n]));
        assert(s.to_multiset().count(t[n]) > 0);
        assert(s.contains(t[n]));
        let m = choose|m: int| 0 <= m < s.len() && s[m] == t[n];
        if k < n && m < n {
            assert(le(t[k], t[n]));
            assert(le(s[m], s[n]));
            assert(le(s[n], s[m]));
            assert(s[m] == s[n]);
        }
        assert(s[n] == t[n]);
        let a = s.drop_last();
        let b = t.drop_last();
        assert(a =~= s.remove(n));
        assert(b =~= t.remove(n));
        assert(s.remove(n).to_multiset() =~= s.to_multiset().remove(s[n]));
        assert(t.remove(n).to_multiset() =~= t.to_multiset().remove(t[n]));
        assert forall|i: int, j: int| 0 <= i < j < a.len() implies le(
            #[trigger] a[i],
            #[trigger] a[j],
        ) by {
            assert(le(s[i], s[j]));
        }
        assert forall|i: int, j: int| 0 <= i < j < b.len() implies le(
            #[trigger] b[i],
            #[trigger] b[j],
        ) by {
            assert(le(t[i], t[j]));
        }
        assert forall|i: int, j: int|
            0 <= i < a.len() && 0 <= j < a.len() && le(#[trigger] a[i], #[trigger] a[j]) && le(
                a[j],
                a[i],
            ) implies a[i] == a[j] by {
            assert(s[i] == a[i] && s[j] == a[j]);
        }
        lemma_ordered_once(a, b, le);
        assert(s =~= a.push(s[n]));
        assert(t =~= b.push(t[n]));
    }
}

/// What a filter keeps, it keeps as often as it was there.
pub proof fn lemma_filter_keeps<A>(s: Seq<A>, p: spec_fn(A) -> bool)
    ensures
        s.filter(p).to_multiset() == s.to_multiset().filter(p),
    decreases s.len(),
{
    broadcast use vstd::multiset::group_multiset_axioms;

    s.to_multiset_ensures();
    if s.len() == 0 {
        s.lemma_filter_len(p);
        s.filter(p).to_multiset_ensures();
        assert(s.filter(p) =~= s);
        assert(s.to_multiset().filter(p) =~= s.to_multiset()) by {
            assert forall|x: A| s.to_multiset().filter(p).count(x) == s.to_multiset().count(x) by {
                assert(!s.contains(x));
            }
        }
    } else {
        let front = s.drop_last();
        let x = s.last();
        lemma_filter_keeps(front, p);
        front.to_multiset_ensures();
        front.filter(p).to_multiset_ensures();
        assert(s =~= front.push(x));
        front.lemma_filter_push(x, p);
        assert(s.to_multiset().filter(p) =~= s.filter(p).to_multiset());
    }
}

/// One more item in a list is one more in the selection where it fits, else none.
pub proof fn lemma_filter_push<A>(s: Seq<A>, x: A, p: spec_fn(A) -> bool)
    ensures
        s.push(x).filter(p) == (if p(x) {
            s.filter(p).push(x)
        } else {
            s.filter(p)
        }),
{
    reveal(Seq::filter);
    assert(s.push(x).drop_last() =~= s);
}

proof fn lemma_placed_by_stable<A>(
    sorted: Seq<A>,
    x: A,
    le: spec_fn(A, A) -> bool,
    p: spec_fn(A) -> bool,
)
    requires
        forall|a: A, b: A| p(a) && p(b) ==> #[trigger] le(a, b),
    ensures
        placed_by(sorted, x, le).filter(p) == sorted.push(x).filter(p),
    decreases sorted.len(),
{
    if sorted.len() != 0 && !le(sorted.last(), x) {
        let head = sorted.drop_last();
        let last = sorted.last();
        lemma_placed_by_stable(head, x, le, p);
        assert(head.push(last) =~= sorted);
        lemma_filter_push(placed_by(head, x, le), last, p);
        lemma_filter_push(head, x, p);
        lemma_filter_push(head, last, p);
        lemma_filter_push(sorted, x, p);
    }
}

/// Elements that may stand either way keep their order when a list is sorted.
pub proof fn lemma_sorted_by_stable<A>(s: Seq<A>, le: spec_fn(A, A) -> bool, p: spec_fn(A) -> bool)
    requires
        forall|a: A, b: A| p(a) && p(b) ==> #[trigger] le(a, b),
    ensures
        sorted_by(s, le).filter(p) == s.filter(p),
    decreases s.len(),
{
    if s.len() > 0 {
        let head = s.drop_last();
        let last = s.last();
        lemma_sorted_by_stable(head, le, p);
        lemma_placed_by_stable(sorted_by(head, le), last, le, p);
        assert(head.push(last) =~= s);
        lemma_filter_push(sorted_by(head, le), last, p);
        lemma_filter_push(head, last, p);
    }
}

} // verus!
