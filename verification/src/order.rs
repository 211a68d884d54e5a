//! Lists in order, and the first entries of one.

use vstd::prelude::*;

verus! {

/// A type whose values can be put in order.
pub trait Ranked: Sized {
    type V;

    /// What the value says.
    spec fn rank_view(&self) -> Self::V;

    /// `a` must stand before `b`.
    spec fn first(a: Self::V, b: Self::V) -> bool;

    /// Where `a` must stand before `b` and `b` before `c`, `a` must stand before `c`.
    proof fn first_is_transitive(a: Self::V, b: Self::V, c: Self::V)
        requires
            Self::first(a, b),
            Self::first(b, c),
        ensures
            Self::first(a, c),
    ;

    /// No value must stand before itself.
    proof fn first_is_irreflexive(a: Self::V)
        ensures
            !Self::first(a, a),
    ;

    /// Whether this value must stand before `other`.
    fn goes_first(&self, other: &Self) -> (r: bool)
        ensures
            r == Self::first(self.rank_view(), other.rank_view()),
    ;
}

/// What a list of values says.
pub open spec fn rank_views<T: Ranked>(s: Seq<T>) -> Seq<T::V> {
    s.map_values(|t: T| t.rank_view())
}

/// No value stands after one that it must stand before.
pub open spec fn is_ordered<T: Ranked>(s: Seq<T::V>) -> bool {
    forall|i: int, j: int| 0 <= i < j < s.len() ==> !T::first(#[trigger] s[j], #[trigger] s[i])
}

/// Where `x` goes in `s`: before the first value that it must stand before.
pub open spec fn place<T: Ranked>(s: Seq<T::V>, x: T::V) -> int
    decreases s.len(),
{
    if s.len() == 0 {
        0
    } else {
        let k = place::<T>(s.drop_last(), x);
        if k < s.len() - 1 {
            k
        } else if T::first(x, s.last()) {
            s.len() - 1
        } else {
            s.len() as int
        }
    }
}

/// The values in order; those that may stand either way stay as they were.
pub open spec fn in_order<T: Ranked>(s: Seq<T::V>) -> Seq<T::V>
    decreases s.len(),
{
    if s.len() == 0 {
        Seq::empty()
    } else {
        let before = in_order::<T>(s.drop_last());
        before.insert(place::<T>(before, s.last()), s.last())
    }
}

/// The first `n` of the values in order.
pub open spec fn top<T: Ranked>(s: Seq<T::V>, n: int) -> Seq<T::V> {
    let all = in_order::<T>(s);
    if all.len() > n {
        all.take(n)
    } else {
        all
    }
}

pub proof fn lemma_place<T: Ranked>(s: Seq<T::V>, x: T::V)
    ensures
        0 <= place::<T>(s, x) <= s.len(),
        forall|j: int| 0 <= j < place::<T>(s, x) ==> !T::first(x, #[trigger] s[j]),
        place::<T>(s, x) < s.len() ==> T::first(x, s[place::<T>(s, x)]),
    decreases s.len(),
{
    if s.len() > 0 {
        lemma_place::<T>(s.drop_last(), x);
        assert(forall|j: int| 0 <= j < s.len() - 1 ==> s.drop_last()[j] == #[trigger] s[j]);
    }
}

/// The place of a value does not depend on what comes after it.
proof fn lemma_place_in_part<T: Ranked>(s: Seq<T::V>, x: T::V, n: int)
    requires
        0 <= n <= s.len(),
    ensures
        place::<T>(s.take(n), x) == if place::<T>(s, x) < n {
            place::<T>(s, x)
        } else {
            n
        },
    decreases s.len(),
{
    lemma_place::<T>(s, x);
    if n == s.len() {
        assert(s.take(n) =~= s);
    } else {
        lemma_place_in_part::<T>(s.drop_last(), x, n);
        assert(s.drop_last().take(n) =~= s.take(n));
        lemma_place::<T>(s.drop_last(), x);
    }
}

/// Putting values in order loses none and adds none, and puts them in order.
pub proof fn order_is_kept<T: Ranked>(s: Seq<T::V>)
    ensures
        in_order::<T>(s).len() == s.len(),
        in_order::<T>(s).to_multiset() == s.to_multiset(),
        is_ordered::<T>(in_order::<T>(s)),
    decreases s.len(),
{
    broadcast use vstd::seq_lib::group_to_multiset_ensures;

    if s.len() > 0 {
        let rest = s.drop_last();
        let x = s.last();
        order_is_kept::<T>(rest);
        let before = in_order::<T>(rest);
        let k = place::<T>(before, x);
        lemma_place::<T>(before, x);
        let after = before.insert(k, x);
        assert(s =~= rest.push(x));
        assert(after.to_multiset() == before.to_multiset().insert(x)) by {
            vstd::seq_lib::to_multiset_insert(before, k, x);
        }
        assert forall|i: int, j: int| 0 <= i < j < after.len() implies !T::first(
            #[trigger] after[j],
            #[trigger] after[i],
        ) by {
            if j < k {
                assert(after[i] == before[i] && after[j] == before[j]);
            } else if j == k {
                assert(after[i] == before[i]);
            } else if i < k {
                assert(after[i] == before[i] && after[j] == before[j - 1]);
            } else if i == k {
                assert(after[j] == before[j - 1]);
                if T::first(before[j - 1], x) {
                    T::first_is_transitive(before[j - 1], x, before[k]);
                    if j - 1 == k {
                        T::first_is_irreflexive(before[k]);
                    }
                }
            } else {
                assert(after[i] == before[i - 1] && after[j] == before[j - 1]);
            }
        }
    }
}

/// `p` names every index below `n` once.
pub open spec fn rearranges(p: Seq<int>, n: int) -> bool {
    &&& p.len() == n
    &&& p.no_duplicates()
    &&& forall|i: int| 0 <= i < n ==> 0 <= #[trigger] p[i] < n
    &&& forall|x: int| 0 <= x < n ==> #[trigger] p.contains(x)
}

/// From where in the list each of the values in order has come.
pub open spec fn origins<T: Ranked>(s: Seq<T::V>) -> Seq<int>
    decreases s.len(),
{
    if s.len() == 0 {
        Seq::empty()
    } else {
        origins::<T>(s.drop_last()).insert(
            place::<T>(in_order::<T>(s.drop_last()), s.last()),
            s.len() - 1,
        )
    }
}

/// Every value in order comes from one place in the list, and from every place comes one.
pub proof fn order_rearranges<T: Ranked>(s: Seq<T::V>)
    ensures
        rearranges(origins::<T>(s), s.len() as int),
        in_order::<T>(s).len() == s.len(),
        forall|i: int|
            0 <= i < s.len() ==> #[trigger] in_order::<T>(s)[i] == s[origins::<T>(s)[i]],
    decreases s.len(),
{
    if s.len() > 0 {
        let rest = s.drop_last();
        order_rearranges::<T>(rest);
        let was = origins::<T>(rest);
        let before = in_order::<T>(rest);
        let k = place::<T>(before, s.last());
        lemma_place::<T>(before, s.last());
        let p = was.insert(k, rest.len() as int);
        assert(p == origins::<T>(s));
        assert forall|i: int| 0 <= i < s.len() implies 0 <= #[trigger] p[i] < s.len() by {
            if i < k {
                assert(p[i] == was[i]);
            } else if i > k {
                assert(p[i] == was[i - 1]);
            }
        }
        assert forall|i: int, j: int| 0 <= i < s.len() && 0 <= j < s.len() && i != j implies p[i]
            != p[j] by {
            let a = if i < k { i } else { i - 1 };
            let b = if j < k { j } else { j - 1 };
            if i != k {
                assert(p[i] == was[a]);
            }
            if j != k {
                assert(p[j] == was[b]);
            }
        }
        assert forall|x: int| 0 <= x < s.len() implies #[trigger] p.contains(x) by {
            if x == rest.len() {
                assert(p[k] == x);
            } else {
                assert(was.contains(x));
                let i = choose|i: int| 0 <= i < was.len() && was[i] == x;
                if i < k {
                    assert(p[i] == x);
                } else {
                    assert(p[i + 1] == x);
                }
            }
        }
        assert forall|i: int| 0 <= i < s.len() implies #[trigger] in_order::<T>(s)[i] == s[p[i]] by {
            if i < k {
                assert(in_order::<T>(s)[i] == before[i]);
                assert(p[i] == was[i]);
            } else if i > k {
                assert(in_order::<T>(s)[i] == before[i - 1]);
                assert(p[i] == was[i - 1]);
            }
        }
    }
}

/// The first `n` values are as many as there are, but no more than `n`; they stand in order; each
/// comes from one place in the list; and none that is left out must stand before one of them.
pub proof fn top_takes_the_first<T: Ranked>(s: Seq<T::V>, n: int)
    requires
        n >= 0,
    ensures
        top::<T>(s, n).len() == if s.len() < n {
            s.len() as int
        } else {
            n
        },
        rearranges(origins::<T>(s), s.len() as int),
        is_ordered::<T>(top::<T>(s, n)),
        forall|i: int|
            0 <= i < top::<T>(s, n).len() ==> #[trigger] top::<T>(s, n)[i] == s[origins::<T>(s)[i]],
        forall|i: int, j: int|
            #![trigger top::<T>(s, n)[i], origins::<T>(s)[j]]
            0 <= i < top::<T>(s, n).len() && top::<T>(s, n).len() <= j < s.len() ==> !T::first(
                s[origins::<T>(s)[j]],
                top::<T>(s, n)[i],
            ),
{
    order_rearranges::<T>(s);
    order_is_kept::<T>(s);
    let all = in_order::<T>(s);
    let some = top::<T>(s, n);
    assert forall|i: int| 0 <= i < some.len() implies #[trigger] some[i] == all[i] by {}
    assert forall|i: int, j: int|
        #![trigger some[i], origins::<T>(s)[j]]
        0 <= i < some.len() && some.len() <= j < s.len() implies !T::first(
        s[origins::<T>(s)[j]],
        some[i],
    ) by {
        assert(all[j] == s[origins::<T>(s)[j]]);
        assert(all[i] == some[i]);
    }
    assert forall|i: int, j: int| 0 <= i < j < some.len() implies !T::first(
        #[trigger] some[j],
        #[trigger] some[i],
    ) by {
        assert(all[i] == some[i] && all[j] == some[j]);
    }
}

/// Puts the value in its place in the list, of which at most `n` stay.
fn put<T: Ranked>(list: &mut Vec<T>, x: T, n: usize)
    requires
        old(list)@.len() <= n,
    ensures
        ({
            let before = rank_views(old(list)@);
            let after = before.insert(place::<T>(before, x.rank_view()), x.rank_view());
            rank_views(final(list)@) == if after.len() > n {
                after.take(n as int)
            } else {
                after
            }
        }),
{
    let ghost before = rank_views(list@);
    proof {
        lemma_place::<T>(before, x.rank_view());
    }
    let mut k: usize = 0;
    while k < list.len() && !x.goes_first(&list[k])
        invariant
            k <= list@.len(),
            before == rank_views(list@),
            forall|j: int| 0 <= j < k ==> !T::first(x.rank_view(), #[trigger] before[j]),
        decreases list@.len() - k,
    {
        assert(before[k as int] == list@[k as int].rank_view());
        k = k + 1;
    }
    assert(k < list@.len() ==> before[k as int] == list@[k as int].rank_view());
    assert(k == place::<T>(before, x.rank_view())) by {
        let p = place::<T>(before, x.rank_view());
        if p < k {
            assert(!T::first(x.rank_view(), before[p]));
        }
    }
    let ghost view = x.rank_view();
    list.insert(k, x);
    let ghost after = before.insert(k as int, view);
    assert(rank_views(list@) =~= after);
    if list.len() > n {
        list.truncate(n);
        assert(rank_views(list@) =~= after.take(n as int));
    }
}

/// The first `n` of the values in order.
pub fn first_in_order<T: Ranked>(items: Vec<T>, n: usize) -> (r: Vec<T>)
    ensures
        rank_views(r@) == top::<T>(rank_views(items@), n as int),
{
    let ghost all = rank_views(items@);
    let mut rest = items;
    let count: usize = rest.len();
    // The items are turned round, so that they can be taken from the back in their order.
    let mut taken: Vec<T> = Vec::new();
    assert(all.take(count as int) =~= all);
    while rest.len() > 0
        invariant
            count == all.len(),
            rest@.len() + taken@.len() == count,
            rank_views(rest@) == all.take(rest@.len() as int),
            forall|j: int|
                0 <= j < taken@.len() ==> (#[trigger] taken@[j]).rank_view() == all[count - 1 - j],
        decreases rest@.len(),
    {
        let ghost before = rest@;
        let x = rest.pop();
        if let Some(item) = x {
            proof {
                assert(rank_views(before)[before.len() - 1] == item.rank_view());
                assert(rank_views(rest@) =~= all.take(rest@.len() as int));
            }
            taken.push(item);
        }
    }
    let mut out: Vec<T> = Vec::new();
    let mut i: usize = 0;
    proof {
        assert(all.take(0) =~= Seq::<T::V>::empty());
        assert(rank_views(out@) =~= Seq::<T::V>::empty());
    }
    while i < count
        invariant
            i <= count,
            count == all.len(),
            taken@.len() == count - i,
            forall|j: int|
                0 <= j < taken@.len() ==> (#[trigger] taken@[j]).rank_view() == all[count - 1 - j],
            out@.len() <= n,
            rank_views(out@) == top::<T>(all.take(i as int), n as int),
        decreases count - i,
    {
        let x = taken.pop();
        if let Some(item) = x {
            proof {
                let here = all.take(i as int);
                let next = all.take(i as int + 1);
                assert(next.drop_last() =~= here);
                assert(next.last() == item.rank_view());
                lemma_top_step::<T>(here, item.rank_view(), n as int);
                assert(next =~= here.push(item.rank_view()));
            }
            put(&mut out, item, n);
        }
        i = i + 1;
        assert(rank_views(out@).len() == out@.len());
    }
    out
}

/// One more value changes the first `n` by being put in its place among them.
proof fn lemma_top_step<T: Ranked>(s: Seq<T::V>, x: T::V, n: int)
    requires
        n >= 0,
    ensures
        ({
            let before = top::<T>(s, n);
            let after = before.insert(place::<T>(before, x), x);
            top::<T>(s.push(x), n) == if after.len() > n {
                after.take(n)
            } else {
                after
            }
        }),
{
    let all = in_order::<T>(s);
    lemma_place::<T>(all, x);
    assert(s.push(x).drop_last() =~= s);
    let k = place::<T>(all, x);
    let more = all.insert(k, x);
    assert(in_order::<T>(s.push(x)) == more);
    if all.len() > n {
        let before = all.take(n);
        lemma_place_in_part::<T>(all, x, n);
        let p = place::<T>(before, x);
        assert(before.insert(p, x).take(n) =~= more.take(n));
    } else {
        assert(all.insert(k, x).len() == all.len() + 1);
    }
}

} // verus!
