//! Stable sorting.

use vstd::prelude::*;

use crate::ratio::Ratio;
use crate::text::views;

verus! {

/// Values with an order on what they stand for.
pub trait Ranked: View + Sized {
    /// `a` may stand before `b`.
    spec fn ordered(a: Self::V, b: Self::V) -> bool;

    fn not_after(&self, other: &Self) -> (r: bool)
        ensures
            r == Self::ordered(self@, other@),
    ;
}

impl Ranked for Ratio {
    open spec fn ordered(a: real, b: real) -> bool {
        a <= b
    }

    fn not_after(&self, other: &Self) -> (r: bool) {
        self.at_most(other)
    }
}

/// `x` put into `s` behind everything that may stand before it, looking from the end.
pub open spec fn inserted<T: Ranked>(s: Seq<T::V>, x: T::V) -> Seq<T::V>
    decreases s.len(),
{
    if s.len() == 0 || T::ordered(s.last(), x) {
        s.push(x)
    } else {
        inserted::<T>(s.drop_last(), x).push(s.last())
    }
}

/// `s` in order; values that may stand on either side of each other keep their places.
pub open spec fn sorted<T: Ranked>(s: Seq<T::V>) -> Seq<T::V>
    decreases s.len(),
{
    if s.len() == 0 {
        s
    } else {
        inserted::<T>(sorted::<T>(s.drop_last()), s.last())
    }
}

/// No value stands before one that must stand before it.
pub open spec fn in_order<T: Ranked>(s: Seq<T::V>) -> bool {
    forall|i: int, j: int| 0 <= i < j < s.len() ==> T::ordered(#[trigger] s[i], #[trigger] s[j])
}

/// The order relates any two values one way or the other, and is transitive.
pub open spec fn is_order<T: Ranked>() -> bool {
    &&& forall|a: T::V, b: T::V| #[trigger] T::ordered(a, b) || T::ordered(b, a)
    &&& forall|a: T::V, b: T::V, c: T::V|
        #[trigger] T::ordered(a, b) && #[trigger] T::ordered(b, c) ==> T::ordered(a, c)
}

proof fn lemma_inserted<T: Ranked>(s: Seq<T::V>, x: T::V)
    ensures
        inserted::<T>(s, x).len() == s.len() + 1,
        inserted::<T>(s, x).to_multiset() == s.to_multiset().insert(x),
        is_order::<T>() && in_order::<T>(s) ==> in_order::<T>(inserted::<T>(s, x)),
        forall|k: int|
            0 <= k < inserted::<T>(s, x).len() ==> #[trigger] inserted::<T>(s, x)[k] == x
                || s.contains(inserted::<T>(s, x)[k]),
    decreases s.len(),
{
    broadcast use vstd::seq_lib::group_to_multiset_ensures;

    let r = inserted::<T>(s, x);
    if s.len() == 0 || T::ordered(s.last(), x) {
        assert forall|k: int| 0 <= k < r.len() implies #[trigger] r[k] == x || s.contains(r[k]) by {
            if k < s.len() {
                assert(s[k] == r[k]);
            }
        }
        if is_order::<T>() && in_order::<T>(s) {
            assert forall|i: int, j: int| 0 <= i < j < r.len() implies T::ordered(
                #[trigger] r[i],
                #[trigger] r[j],
            ) by {
                if j == s.len() && i < s.len() - 1 {
                    assert(T::ordered(s[i], s.last()));
                }
            }
        }
    } else {
        let d = s.drop_last();
        let q = inserted::<T>(d, x);
        lemma_inserted::<T>(d, x);
        assert(s =~= d.push(s.last()));
        assert(r.to_multiset() =~= s.to_multiset().insert(x));
        assert forall|k: int| 0 <= k < r.len() implies #[trigger] r[k] == x || s.contains(r[k]) by {
            if k < q.len() {
                assert(r[k] == q[k]);
                if q[k] != x {
                    let m = choose|m: int| 0 <= m < d.len() && d[m] == q[k];
                    assert(s[m] == r[k]);
                }
            } else {
                assert(s[s.len() - 1] == r[k]);
            }
        }
        if is_order::<T>() && in_order::<T>(s) {
            assert(in_order::<T>(d));
            assert forall|i: int, j: int| 0 <= i < j < r.len() implies T::ordered(
                #[trigger] r[i],
                #[trigger] r[j],
            ) by {
                assert(r[i] == q[i]);
                if j < q.len() {
                    assert(r[j] == q[j]);
                } else {
                    assert(T::ordered(x, s.last()) || T::ordered(s.last(), x));
                    if q[i] != x {
                        let m = choose|m: int| 0 <= m < d.len() && d[m] == q[i];
                        assert(s[m] == r[i]);
                    }
                }
            }
        }
    }
}

/// Sorting keeps every value as often as it occurs, and puts the values in order.
pub proof fn sorting_keeps_and_orders<T: Ranked>(s: Seq<T::V>)
    requires
        is_order::<T>(),
    ensures
        sorted::<T>(s).to_multiset() == s.to_multiset(),
        in_order::<T>(sorted::<T>(s)),
    decreases s.len(),
{
    broadcast use vstd::seq_lib::group_to_multiset_ensures;

    if s.len() > 0 {
        sorting_keeps_and_orders::<T>(s.drop_last());
        lemma_inserted::<T>(sorted::<T>(s.drop_last()), s.last());
        assert(s =~= s.drop_last().push(s.last()));
    }
}

proof fn lemma_inserted_stable<T: Ranked>(s: Seq<T::V>, x: T::V, y: T::V)
    requires
        is_order::<T>(),
    ensures
        ({
            let same = |z: T::V| T::ordered(y, z) && T::ordered(z, y);
            inserted::<T>(s, x).filter(same) == s.push(x).filter(same)
        }),
    decreases s.len(),
{
    broadcast use Seq::lemma_filter_push;

    let same = |z: T::V| T::ordered(y, z) && T::ordered(z, y);
    if s.len() > 0 && !T::ordered(s.last(), x) {
        let d = s.drop_last();
        lemma_inserted_stable::<T>(d, x, y);
        assert(s =~= d.push(s.last()));
        assert(inserted::<T>(s, x) == inserted::<T>(d, x).push(s.last()));
        if same(x) && same(s.last()) {
            assert(T::ordered(s.last(), y) && T::ordered(y, x));
        }
        assert(d.push(x).filter(same) == if same(x) {
            d.filter(same).push(x)
        } else {
            d.filter(same)
        });
        assert(s.push(x).filter(same) == if same(x) {
            s.filter(same).push(x)
        } else {
            s.filter(same)
        });
        assert(s.filter(same) == d.push(s.last()).filter(same));
    }
}

/// Sorting leaves values that may stand on either side of each other in their places to each other.
pub proof fn sorting_is_stable<T: Ranked>(s: Seq<T::V>, y: T::V)
    requires
        is_order::<T>(),
    ensures
        ({
            let same = |z: T::V| T::ordered(y, z) && T::ordered(z, y);
            sorted::<T>(s).filter(same) == s.filter(same)
        }),
    decreases s.len(),
{
    broadcast use Seq::lemma_filter_push;

    if s.len() > 0 {
        let same = |z: T::V| T::ordered(y, z) && T::ordered(z, y);
        let d = s.drop_last();
        sorting_is_stable::<T>(d, y);
        lemma_inserted_stable::<T>(sorted::<T>(d), s.last(), y);
        assert(s =~= d.push(s.last()));
        assert(d.push(s.last()).filter(same) == if same(s.last()) {
            d.filter(same).push(s.last())
        } else {
            d.filter(same)
        });
    }
}

pub proof fn lemma_sorted_len<T: Ranked>(s: Seq<T::V>)
    ensures
        sorted::<T>(s).len() == s.len(),
    decreases s.len(),
{
    if s.len() > 0 {
        lemma_sorted_len::<T>(s.drop_last());
        lemma_inserted::<T>(sorted::<T>(s.drop_last()), s.last());
    }
}

fn insert_ranked<T: Ranked>(out: &mut Vec<T>, x: T)
    ensures
        views(final(out)@) == inserted::<T>(views(old(out)@), x@),
{
    let ghost s = views(out@);
    let mut p: usize = out.len();
    assert(s.take(p as int) =~= s);
    assert(inserted::<T>(s.take(p as int), x@) + s.skip(p as int) =~= inserted::<T>(s, x@));
    while p > 0 && !out[p - 1].not_after(&x)
        invariant
            p <= out@.len(),
            s == views(out@),
            inserted::<T>(s.take(p as int), x@) + s.skip(p as int) == inserted::<T>(s, x@),
        decreases p,
    {
        proof {
            let t = s.take(p as int);
            assert(t.last() == out@[p - 1]@);
            assert(t.drop_last() =~= s.take(p - 1));
            assert(inserted::<T>(s.take(p - 1), x@).push(t.last()) + s.skip(p as int) =~= inserted::<
                T,
            >(s.take(p - 1), x@) + s.skip(p - 1));
        }
        p -= 1;
    }
    proof {
        let t = s.take(p as int);
        if p > 0 {
            assert(t.last() == out@[p - 1]@);
        }
        assert(inserted::<T>(t, x@) == t.push(x@));
        assert(views(out@.insert(p as int, x)) =~= t.push(x@) + s.skip(p as int));
    }
    out.insert(p, x);
}

/// Sort, keeping the places of values that may stand on either side of each other.
pub fn sort<T: Ranked>(v: Vec<T>) -> (r: Vec<T>)
    ensures
        views(r@) == sorted::<T>(views(v@)),
{
    let ghost all = views(v@);
    let mut out: Vec<T> = Vec::new();
    assert(views(out@) =~= sorted::<T>(all.take(0)));
    for x in it: v
        invariant
            it.seq() == v@,
            all == views(v@),
            views(out@) == sorted::<T>(all.take(it.index())),
    {
        proof {
            let k = it.index();
            assert(all.take(k + 1).drop_last() =~= all.take(k));
            assert(all.take(k + 1).last() == x@);
        }
        insert_ranked(&mut out, x);
    }
    assert(all.take(all.len() as int) =~= all);
    out
}

} // verus!
