//! Stable sorting.
use vstd::prelude::*;

use crate::text::views;

verus! {

/// `s` with `x` put in behind everything it does not go before.
pub open spec fn inserted<V>(s: Seq<V>, x: V, first: spec_fn(V, V) -> bool) -> Seq<V>
    decreases s.len(),
{
    if s.len() > 0 && first(x, s.last()) {
        inserted(s.drop_last(), x, first).push(s.last())
    } else {
        s.push(x)
    }
}

/// `s` in the order of `first`, equals staying in the order they came in.
pub open spec fn sorted_by<V>(s: Seq<V>, first: spec_fn(V, V) -> bool) -> Seq<V>
    decreases s.len(),
{
    if s.len() == 0 {
        s
    } else {
        inserted(sorted_by(s.drop_last(), first), s.last(), first)
    }
}

/// No member goes before one that stands ahead of it.
pub open spec fn in_order<V>(s: Seq<V>, first: spec_fn(V, V) -> bool) -> bool {
    forall|i: int, j: int| 0 <= i < j < s.len() ==> !first(#[trigger] s[j], #[trigger] s[i])
}

/// Among some values `first` never contradicts itself: two that neither goes
/// before the other are interchangeable to it.
pub open spec fn weak_order<V>(first: spec_fn(V, V) -> bool, among: spec_fn(V) -> bool) -> bool {
    &&& forall|a: V, b: V| among(a) && among(b) && #[trigger] first(a, b) ==> !first(b, a)
    &&& forall|a: V, b: V, c: V|
        among(a) && among(b) && among(c) && !(#[trigger] first(a, b)) && !(#[trigger] first(b, c))
            ==> !first(a, c)
}

/// What can be put in order.
pub trait Ranked: View + Sized {
    /// Whether `a` goes strictly before `b`.
    spec fn goes_first(a: Self::V, b: Self::V) -> bool;

    fn is_first(&self, other: &Self) -> (r: bool)
        ensures
            r == Self::goes_first(self@, other@),
    ;
}

/// The order of a ranked type, as a relation.
pub open spec fn order<T: Ranked>() -> spec_fn(T::V, T::V) -> bool {
    |a: T::V, b: T::V| T::goes_first(a, b)
}

proof fn lemma_inserted_at<V>(s: Seq<V>, x: V, at: int, first: spec_fn(V, V) -> bool)
    requires
        0 <= at <= s.len(),
        forall|j: int| at <= j < s.len() ==> first(x, #[trigger] s[j]),
        at > 0 ==> !first(x, s[at - 1]),
    ensures
        inserted(s, x, first) == s.insert(at, x),
    decreases s.len(),
{
    if s.len() > at {
        lemma_inserted_at(s.drop_last(), x, at, first);
        assert(s.drop_last().insert(at, x).push(s.last()) =~= s.insert(at, x));
    } else {
        assert(s.push(x) =~= s.insert(at, x));
    }
}

/// Put `x` into `out`, behind everything it does not go before.
fn place<T: Ranked>(out: &mut Vec<T>, x: T)
    ensures
        views(final(out)@) == inserted(views(old(out)@), x@, order::<T>()),
{
    let mut at: usize = out.len();
    while at > 0 && x.is_first(&out[at - 1])
        invariant
            at <= out.len(),
            forall|j: int|
                at <= j < out.len() ==> T::goes_first(x@, #[trigger] views(out@)[j]),
        decreases at,
    {
        assert(views(out@)[at - 1] == out[at - 1]@);
        at = at - 1;
    }
    proof {
        assert forall|j: int| at <= j < views(out@).len() implies order::<T>()(
            x@,
            #[trigger] views(out@)[j],
        ) by {
            assert(T::goes_first(x@, views(out@)[j]));
        }
        lemma_inserted_at(views(out@), x@, at as int, order::<T>());
        assert(views(out@.insert(at as int, x)) =~= views(out@).insert(at as int, x@));
    }
    out.insert(at, x);
}

/// Sort, stably.
pub fn sort<T: Ranked>(items: Vec<T>) -> (out: Vec<T>)
    ensures
        views(out@) == sorted_by(views(items@), order::<T>()),
{
    let ghost all = views(items@);
    let mut items = items;
    let mut out: Vec<T> = Vec::new();
    // Taken from the back and turned round, so that each item can be moved out.
    let mut stack: Vec<T> = Vec::new();
    let n: usize = items.len();
    let mut i: usize = 0;
    assert(views(items@) =~= all.take(n as int));
    while i < n
        invariant
            i <= n,
            n == all.len(),
            items.len() == n - i,
            stack.len() == i,
            views(items@) == all.take(n - i),
            forall|j: int| 0 <= j < i ==> (#[trigger] stack[j])@ == all[n - 1 - j],
        decreases n - i,
    {
        let ghost held = items@;
        match items.pop() {
            Some(x) => {
                assert(views(held)[n - i - 1] == all[n - i - 1]);
                assert(x@ == views(held)[n - i - 1]);
                assert(views(items@) =~= all.take(n - i - 1)) by {
                    assert(forall|j: int|
                        0 <= j < n - i - 1 ==> views(items@)[j] == all.take(n - i)[j]);
                }
                stack.push(x);
            },
            None => {},
        }
        i = i + 1;
    }
    let mut k: usize = 0;
    assert(views(out@) =~= sorted_by(all.take(0), order::<T>()));
    while k < n
        invariant
            k <= n,
            n == all.len(),
            stack.len() == n - k,
            out.len() == k,
            forall|j: int| 0 <= j < n - k ==> (#[trigger] stack[j])@ == all[n - 1 - j],
            views(out@) == sorted_by(all.take(k as int), order::<T>()),
        decreases n - k,
    {
        match stack.pop() {
            Some(x) => {
                assert(x@ == all[k as int]);
                place(&mut out, x);
                proof {
                    lemma_inserted_len(
                        sorted_by(all.take(k as int), order::<T>()),
                        x@,
                        order::<T>(),
                    );
                    assert(all.take(k + 1).drop_last() =~= all.take(k as int));
                    assert(views(out@).len() == out.len());
                }
            },
            None => {},
        }
        k = k + 1;
    }
    assert(all.take(n as int) =~= all);
    out
}

proof fn lemma_inserted_len<V>(s: Seq<V>, x: V, first: spec_fn(V, V) -> bool)
    ensures
        inserted(s, x, first).len() == s.len() + 1,
    decreases s.len(),
{
    if s.len() > 0 && first(x, s.last()) {
        lemma_inserted_len(s.drop_last(), x, first);
    }
}

proof fn lemma_inserted_members<V>(s: Seq<V>, x: V, first: spec_fn(V, V) -> bool)
    ensures
        forall|i: int|
            0 <= i < inserted(s, x, first).len() ==> (#[trigger] inserted(s, x, first)[i]) == x
                || s.contains(inserted(s, x, first)[i]),
    decreases s.len(),
{
    let r = inserted(s, x, first);
    if s.len() > 0 && first(x, s.last()) {
        let front = s.drop_last();
        lemma_inserted_members(front, x, first);
        lemma_inserted_len(front, x, first);
        assert forall|i: int| 0 <= i < r.len() implies (#[trigger] r[i]) == x || s.contains(
            r[i],
        ) by {
            if i == r.len() - 1 {
                assert(s[s.len() - 1] == r[i]);
            } else {
                let y = inserted(front, x, first)[i];
                assert(r[i] == y);
                if y != x {
                    let k = choose|k: int| 0 <= k < front.len() && front[k] == y;
                    assert(s[k] == y);
                }
            }
        }
    } else {
        assert forall|i: int| 0 <= i < r.len() implies (#[trigger] r[i]) == x || s.contains(
            r[i],
        ) by {
            if i < s.len() {
                assert(s[i] == r[i]);
            }
        }
    }
}

/// Whatever the order, a sorted sequence holds members of the sequence it came
/// from.
pub proof fn lemma_sorted_members<V>(s: Seq<V>, first: spec_fn(V, V) -> bool)
    ensures
        forall|i: int|
            0 <= i < sorted_by(s, first).len() ==> s.contains(#[trigger] sorted_by(s, first)[i]),
    decreases s.len(),
{
    if s.len() > 0 {
        let front = s.drop_last();
        lemma_sorted_members(front, first);
        lemma_inserted_members(sorted_by(front, first), s.last(), first);
        let r = sorted_by(s, first);
        assert forall|i: int| 0 <= i < r.len() implies s.contains(#[trigger] r[i]) by {
            let y = inserted(sorted_by(front, first), s.last(), first)[i];
            assert(r[i] == y);
            if y == s.last() {
                assert(s[s.len() - 1] == y);
            } else {
                assert(sorted_by(front, first).contains(y));
                let k = choose|k: int|
                    0 <= k < sorted_by(front, first).len() && sorted_by(front, first)[k] == y;
                assert(front.contains(sorted_by(front, first)[k]));
                let m = choose|m: int| 0 <= m < front.len() && front[m] == y;
                assert(s[m] == y);
            }
        }
    }
}

/// Sorting keeps the length.
pub proof fn lemma_sorted_len<V>(s: Seq<V>, first: spec_fn(V, V) -> bool)
    ensures
        sorted_by(s, first).len() == s.len(),
    decreases s.len(),
{
    if s.len() > 0 {
        lemma_sorted_len(s.drop_last(), first);
        lemma_inserted_len(sorted_by(s.drop_last(), first), s.last(), first);
    }
}

proof fn lemma_inserted_in_order<V>(
    s: Seq<V>,
    x: V,
    first: spec_fn(V, V) -> bool,
    among: spec_fn(V) -> bool,
)
    requires
        weak_order(first, among),
        forall|i: int| 0 <= i < s.len() ==> among(#[trigger] s[i]),
        among(x),
        in_order(s, first),
    ensures
        in_order(inserted(s, x, first), first),
        forall|y: V|
            inserted(s, x, first).to_multiset().count(y) == s.to_multiset().insert(x).count(y),
        forall|y: V| inserted(s, x, first).contains(y) ==> y == x || s.contains(y),
    decreases s.len(),
{
    broadcast use vstd::seq_lib::group_to_multiset_ensures;

    let r = inserted(s, x, first);
    if s.len() > 0 && first(x, s.last()) {
        let front = s.drop_last();
        lemma_inserted_in_order(front, x, first, among);
        let put = inserted(front, x, first);
        assert(s =~= front.push(s.last()));
        assert(r == put.push(s.last()));
        assert forall|i: int, j: int| 0 <= i < j < r.len() implies !first(
            #[trigger] r[j],
            #[trigger] r[i],
        ) by {
            if j == r.len() - 1 {
                let y = r[i];
                assert(put.contains(y)) by {
                    assert(put[i] == y);
                }
                if y != x {
                    assert(front.contains(y));
                    let at = choose|at: int| 0 <= at < front.len() && front[at] == y;
                    assert(s[at] == y);
                    assert(!first(s[s.len() - 1], s[at]));
                }
            } else {
                assert(!first(put[j], put[i]));
            }
        }
        assert forall|y: V| r.contains(y) implies y == x || s.contains(y) by {
            let at = choose|at: int| 0 <= at < r.len() && r[at] == y;
            if at == r.len() - 1 {
                assert(s[s.len() - 1] == y);
            } else {
                assert(put[at] == y);
                if y != x {
                    assert(front.contains(y));
                    let k = choose|k: int| 0 <= k < front.len() && front[k] == y;
                    assert(s[k] == y);
                }
            }
        }
        assert forall|y: V| r.to_multiset().count(y) == s.to_multiset().insert(x).count(y) by {
            assert(put.to_multiset().count(y) == front.to_multiset().insert(x).count(y));
        }
    } else {
        assert forall|i: int, j: int| 0 <= i < j < r.len() implies !first(
            #[trigger] r[j],
            #[trigger] r[i],
        ) by {
            if j == s.len() {
                if i < s.len() - 1 {
                    assert(!first(s[s.len() - 1], s[i]));
                    assert(!first(x, s[s.len() - 1]));
                }
            } else {
                assert(!first(s[j], s[i]));
            }
        }
        assert forall|y: V| r.contains(y) implies y == x || s.contains(y) by {
            let at = choose|at: int| 0 <= at < r.len() && r[at] == y;
            if at < s.len() {
                assert(s[at] == y);
            }
        }
    }
}

/// Sorting puts everything in order and loses nothing.
pub proof fn law_sorting<V>(
    s: Seq<V>,
    first: spec_fn(V, V) -> bool,
    among: spec_fn(V) -> bool,
)
    requires
        weak_order(first, among),
        forall|i: int| 0 <= i < s.len() ==> among(#[trigger] s[i]),
    ensures
        in_order(sorted_by(s, first), first),
        sorted_by(s, first).to_multiset() == s.to_multiset(),
    decreases s.len(),
{
    broadcast use vstd::seq_lib::group_to_multiset_ensures;

    if s.len() > 0 {
        let front = s.drop_last();
        law_sorting(front, first, among);
        lemma_sorted_members(front, first);
        assert forall|i: int| 0 <= i < sorted_by(front, first).len() implies among(
            #[trigger] sorted_by(front, first)[i],
        ) by {
            let y = sorted_by(front, first)[i];
            assert(front.contains(y));
            let k = choose|k: int| 0 <= k < front.len() && front[k] == y;
            assert(among(s[k]));
        }
        lemma_inserted_in_order(sorted_by(front, first), s.last(), first, among);
        assert(s =~= s.drop_last().push(s.last()));
        assert(sorted_by(s, first).to_multiset() =~= s.to_multiset());
    }
}

/// Members that neither goes before the other are one and the same.
pub open spec fn ties_are_equal<V>(s: Seq<V>, first: spec_fn(V, V) -> bool) -> bool {
    forall|i: int, j: int|
        0 <= i < s.len() && 0 <= j < s.len() && !first(#[trigger] s[i], #[trigger] s[j]) && !first(
            s[j],
            s[i],
        ) ==> s[i] == s[j]
}

/// There is one way to put things in order, where only equals tie.
pub proof fn law_one_order<V>(a: Seq<V>, b: Seq<V>, first: spec_fn(V, V) -> bool)
    requires
        in_order(a, first),
        in_order(b, first),
        a.to_multiset() == b.to_multiset(),
        ties_are_equal(a, first),
    ensures
        a == b,
    decreases a.len(),
{
    broadcast use vstd::seq_lib::group_to_multiset_ensures;

    assert(a.len() == a.to_multiset().len() && b.len() == b.to_multiset().len());
    if a.len() > 0 {
        let x = a.last();
        let y = b.last();
        assert(a.to_multiset().contains(y)) by {
            assert(b.contains(y));
        }
        let i = choose|i: int| 0 <= i < a.len() && a[i] == y;
        assert(b.to_multiset().contains(x)) by {
            assert(a.contains(x));
        }
        let j = choose|j: int| 0 <= j < b.len() && b[j] == x;
        if x != y {
            assert(!first(a[a.len() - 1], a[i]));
            assert(!first(b[b.len() - 1], b[j]));
            assert(a[a.len() - 1] == a[i]);
        }
        assert(a =~= a.drop_last().push(x));
        assert(b =~= b.drop_last().push(y));
        assert(a.drop_last().to_multiset() =~= a.to_multiset().remove(x));
        assert(b.drop_last().to_multiset() =~= b.to_multiset().remove(x));
        law_one_order(a.drop_last(), b.drop_last(), first);
    }
}

/// Where only equals tie, what is sorted does not depend on how it came in.
pub proof fn law_arrival_does_not_matter<V>(
    a: Seq<V>,
    b: Seq<V>,
    first: spec_fn(V, V) -> bool,
    among: spec_fn(V) -> bool,
)
    requires
        weak_order(first, among),
        forall|i: int| 0 <= i < a.len() ==> among(#[trigger] a[i]),
        a.to_multiset() == b.to_multiset(),
        ties_are_equal(a, first),
    ensures
        sorted_by(a, first) == sorted_by(b, first),
{
    broadcast use vstd::seq_lib::group_to_multiset_ensures;

    assert forall|i: int| 0 <= i < b.len() implies among(#[trigger] b[i]) by {
        assert(b.contains(b[i]));
        assert(a.to_multiset().contains(b[i]));
        let k = choose|k: int| 0 <= k < a.len() && a[k] == b[i];
        assert(among(a[k]));
    }
    law_sorting(a, first, among);
    law_sorting(b, first, among);
    lemma_sorted_members(a, first);
    let r = sorted_by(a, first);
    assert forall|i: int, j: int|
        0 <= i < r.len() && 0 <= j < r.len() && !first(#[trigger] r[i], #[trigger] r[j]) && !first(
            r[j],
            r[i],
        ) implies r[i] == r[j] by {
        assert(a.contains(r[i]) && a.contains(r[j]));
        let k = choose|k: int| 0 <= k < a.len() && a[k] == r[i];
        let m = choose|m: int| 0 <= m < a.len() && a[m] == r[j];
        assert(!first(a[k], a[m]) && !first(a[m], a[k]));
    }
    law_one_order(r, sorted_by(b, first), first);
}

/// What is put in afterwards finds the same place among the same things.
pub proof fn lemma_sorted_append<V>(
    a: Seq<V>,
    b: Seq<V>,
    rest: Seq<V>,
    first: spec_fn(V, V) -> bool,
)
    requires
        sorted_by(a, first) == sorted_by(b, first),
    ensures
        sorted_by(a + rest, first) == sorted_by(b + rest, first),
    decreases rest.len(),
{
    if rest.len() == 0 {
        assert(a + rest =~= a);
        assert(b + rest =~= b);
    } else {
        lemma_sorted_append(a, b, rest.drop_last(), first);
        assert((a + rest).drop_last() =~= a + rest.drop_last());
        assert((b + rest).drop_last() =~= b + rest.drop_last());
    }
}

proof fn lemma_inserted_map<V>(
    s: Seq<V>,
    x: V,
    f: spec_fn(V) -> V,
    first: spec_fn(V, V) -> bool,
)
    requires
        forall|a: V, b: V| #[trigger] first(f(a), f(b)) == first(a, b),
    ensures
        inserted(s.map_values(f), f(x), first) == inserted(s, x, first).map_values(f),
    decreases s.len(),
{
    if s.len() > 0 && first(x, s.last()) {
        lemma_inserted_map(s.drop_last(), x, f, first);
        assert(s.map_values(f).drop_last() =~= s.drop_last().map_values(f));
        assert(inserted(s, x, first).map_values(f) =~= inserted(
            s.drop_last(),
            x,
            first,
        ).map_values(f).push(f(s.last())));
    } else {
        assert(s.push(x).map_values(f) =~= s.map_values(f).push(f(x)));
    }
}

/// A change that the order does not see does not change the order.
pub proof fn lemma_sorted_map<V>(s: Seq<V>, f: spec_fn(V) -> V, first: spec_fn(V, V) -> bool)
    requires
        forall|a: V, b: V| #[trigger] first(f(a), f(b)) == first(a, b),
    ensures
        sorted_by(s.map_values(f), first) == sorted_by(s, first).map_values(f),
    decreases s.len(),
{
    if s.len() > 0 {
        lemma_sorted_map(s.drop_last(), f, first);
        lemma_inserted_map(sorted_by(s.drop_last(), first), s.last(), f, first);
        assert(s.map_values(f).drop_last() =~= s.drop_last().map_values(f));
    } else {
        assert(s.map_values(f) =~= s);
    }
}

} // verus!
