//! Stable sorting.

use vstd::prelude::*;

verus! {

/// A type whose values are put in order.
pub trait Ordered: Sized {
    /// Whether a value goes before another.
    spec fn precedes(&self, other: &Self) -> bool;

    /// Values are put in a line, where some may share a place.
    proof fn order_is_weak(a: &Self, b: &Self, c: &Self)
        ensures
            !(a.precedes(b) && b.precedes(a)),
            !b.precedes(a) && !c.precedes(b) ==> !c.precedes(a),
    ;

    fn goes_before(&self, other: &Self) -> (r: bool)
        ensures
            r == self.precedes(other),
    ;
}

/// A value put into a line behind all that it does not precede.
pub open spec fn inserted<T: Ordered>(s: Seq<T>, x: T) -> Seq<T>
    decreases s.len(),
{
    if s.len() == 0 || !x.precedes(&s.last()) {
        s.push(x)
    } else {
        inserted(s.drop_last(), x).push(s.last())
    }
}

/// Values in order. Values that share a place stay in the order in which they
/// came.
pub open spec fn in_order<T: Ordered>(s: Seq<T>) -> Seq<T>
    decreases s.len(),
{
    if s.len() == 0 {
        Seq::empty()
    } else {
        inserted(in_order(s.drop_last()), s.last())
    }
}

/// Whether no value stands behind one that it precedes.
pub open spec fn is_ordered<T: Ordered>(s: Seq<T>) -> bool {
    forall|i: int, j: int|
        #![trigger s[i], s[j]]
        0 <= i < j < s.len() ==> !s[j].precedes(&s[i])
}

proof fn lemma_inserted<T: Ordered>(s: Seq<T>, x: T)
    requires
        is_ordered(s),
    ensures
        is_ordered(inserted(s, x)),
        inserted(s, x).to_multiset() == s.to_multiset().insert(x),
        inserted(s, x).len() == s.len() + 1,
        forall|i: int|
            0 <= i < inserted(s, x).len() ==> (#[trigger] inserted(s, x)[i] == x || exists|k: int|
                0 <= k < s.len() && s[k] == inserted(s, x)[i]),
    decreases s.len(),
{
    broadcast use vstd::seq_lib::group_to_multiset_ensures;

    let r = inserted(s, x);
    if s.len() == 0 || !x.precedes(&s.last()) {
        assert forall|i: int, j: int|
            #![trigger r[i], r[j]]
            0 <= i < j < r.len() implies !r[j].precedes(&r[i]) by {
            if j == s.len() {
                if i < s.len() - 1 {
                    assert(!s[s.len() - 1].precedes(&s[i]));
                    T::order_is_weak(&s[i], &s.last(), &x);
                }
            }
        }
        assert forall|i: int| 0 <= i < r.len() implies (#[trigger] r[i] == x || exists|k: int|
            0 <= k < s.len() && s[k] == r[i]) by {
            if i < s.len() {
                assert(s[i] == r[i]);
            }
        }
    } else {
        let t = s.drop_last();
        assert(is_ordered(t)) by {
            assert forall|i: int, j: int|
            #![trigger t[i], t[j]]
            0 <= i < j < t.len() implies !t[j].precedes(&t[i]) by {
                assert(t[j] == s[j] && t[i] == s[i]);
            }
        }
        lemma_inserted(t, x);
        let q = inserted(t, x);
        assert(r == q.push(s.last()));
        assert forall|i: int, j: int|
            #![trigger r[i], r[j]]
            0 <= i < j < r.len() implies !r[j].precedes(&r[i]) by {
            if j == q.len() {
                assert(r[i] == q[i]);
                if q[i] == x {
                    T::order_is_weak(&x, &s.last(), &s.last());
                } else {
                    let k = choose|k: int| 0 <= k < t.len() && t[k] == q[i];
                    assert(s[k] == t[k]);
                    assert(!s[s.len() - 1].precedes(&s[k]));
                }
            } else {
                assert(r[j] == q[j] && r[i] == q[i]);
            }
        }
        assert forall|i: int| 0 <= i < r.len() implies (#[trigger] r[i] == x || exists|k: int|
            0 <= k < s.len() && s[k] == r[i]) by {
            if i < q.len() {
                assert(r[i] == q[i]);
                if q[i] != x {
                    let k = choose|k: int| 0 <= k < t.len() && t[k] == q[i];
                    assert(s[k] == r[i]);
                }
            } else {
                assert(s[s.len() - 1] == r[i]);
            }
        }
        assert(t.push(s.last()) =~= s);
        assert(r.to_multiset() =~= s.to_multiset().insert(x));
    }
}

/// Sorting loses nothing, adds nothing, and puts no value behind one that it
/// precedes.
pub proof fn sorting_orders_and_keeps_all<T: Ordered>(s: Seq<T>)
    ensures
        is_ordered(in_order(s)),
        in_order(s).to_multiset() == s.to_multiset(),
        in_order(s).len() == s.len(),
    decreases s.len(),
{
    broadcast use vstd::seq_lib::group_to_multiset_ensures;

    if s.len() > 0 {
        sorting_orders_and_keeps_all(s.drop_last());
        lemma_inserted(in_order(s.drop_last()), s.last());
        assert(s.drop_last().push(s.last()) =~= s);
    } else {
        assert(s =~= Seq::<T>::empty());
    }
}

fn insert_ordered<T: Ordered>(v: &mut Vec<T>, x: T)
    ensures
        final(v)@ == inserted(old(v)@, x),
{
    let ghost s = v@;
    let mut i: usize = v.len();
    let ghost mut tail: Seq<T> = Seq::empty();
    proof {
        assert(s.take(i as int) =~= s);
        assert(inserted(s, x) =~= inserted(s.take(i as int), x) + tail);
    }
    while i > 0 && x.goes_before(&v[i - 1])
        invariant
            i <= s.len(),
            v@ == s,
            tail == s.skip(i as int),
            inserted(s, x) == inserted(s.take(i as int), x) + tail,
        ensures
            i <= s.len(),
            v@ == s,
            inserted(s, x) == inserted(s.take(i as int), x) + s.skip(i as int),
            i == 0 || !x.precedes(&s[i - 1]),
        decreases i,
    {
        proof {
            let head = s.take(i as int);
            assert(head.last() == s[i - 1]);
            assert(head.drop_last() =~= s.take(i - 1));
            tail = s.skip(i - 1);
            assert(inserted(head, x) + s.skip(i as int) =~= inserted(s.take(i - 1), x) + tail);
        }
        i -= 1;
    }
    proof {
        let head = s.take(i as int);
        if i > 0 {
            assert(head.last() == s[i - 1]);
        }
        assert(inserted(head, x) == head.push(x));
        assert(inserted(s, x) =~= s.insert(i as int, x));
    }
    v.insert(i, x);
}

/// Sorts values; those that share a place stay in the order in which they came.
pub fn sort_stable<T: Ordered>(values: Vec<T>) -> (r: Vec<T>)
    ensures
        r@ == in_order(values@),
{
    let ghost s = values@;
    let mut rest = values;
    let mut turned: Vec<T> = Vec::new();
    while rest.len() > 0
        invariant
            turned@.len() + rest@.len() == s.len(),
            rest@ == s.take(rest@.len() as int),
            forall|k: int| 0 <= k < turned@.len() ==> #[trigger] turned@[k] == s[s.len() - 1 - k],
        decreases rest@.len(),
    {
        match rest.pop() {
            Some(x) => turned.push(x),
            None => {},
        }
    }
    let mut r: Vec<T> = Vec::new();
    let ghost mut n: int = 0;
    assert(s.take(0) =~= Seq::<T>::empty());
    while turned.len() > 0
        invariant
            0 <= n <= s.len(),
            turned@.len() == s.len() - n,
            forall|k: int| 0 <= k < turned@.len() ==> #[trigger] turned@[k] == s[s.len() - 1 - k],
            r@ == in_order(s.take(n)),
        decreases turned@.len(),
    {
        match turned.pop() {
            Some(x) => {
                proof {
                    assert(s.take(n + 1).drop_last() =~= s.take(n));
                    assert(s.take(n + 1).last() == x);
                    n = n + 1;
                }
                insert_ordered(&mut r, x);
            },
            None => {},
        }
    }
    assert(s.take(n) =~= s);
    r
}

/// The values that are marked.
pub open spec fn marked<T>(s: Seq<T>, keep: Seq<bool>) -> Seq<T>
    decreases s.len(),
{
    if s.len() == 0 {
        Seq::empty()
    } else if keep[s.len() - 1] {
        marked(s.drop_last(), keep).push(s.last())
    } else {
        marked(s.drop_last(), keep)
    }
}

/// Keeps the values that are marked, in their order.
pub fn keep_marked<T>(values: Vec<T>, keep: &Vec<bool>) -> (r: Vec<T>)
    requires
        values@.len() <= keep@.len(),
    ensures
        r@ == marked(values@, keep@),
{
    let ghost s = values@;
    let mut rest = values;
    let mut turned: Vec<T> = Vec::new();
    while rest.len() > 0
        invariant
            turned@.len() + rest@.len() == s.len(),
            rest@ == s.take(rest@.len() as int),
            forall|k: int| 0 <= k < turned@.len() ==> #[trigger] turned@[k] == s[s.len() - 1 - k],
        decreases rest@.len(),
    {
        match rest.pop() {
            Some(x) => turned.push(x),
            None => {},
        }
    }
    let mut r: Vec<T> = Vec::new();
    let most = keep.len();
    let mut n: usize = 0;
    assert(s.take(0) =~= Seq::<T>::empty());
    while turned.len() > 0
        invariant
            n <= s.len() <= most == keep@.len(),
            turned@.len() == s.len() - n,
            forall|k: int| 0 <= k < turned@.len() ==> #[trigger] turned@[k] == s[s.len() - 1 - k],
            r@ == marked(s.take(n as int), keep@),
        decreases turned@.len(),
    {
        match turned.pop() {
            Some(x) => {
                proof {
                    assert(s.take(n + 1).drop_last() =~= s.take(n as int));
                    assert(s.take(n + 1).last() == x);
                }
                if keep[n] {
                    r.push(x);
                }
                n += 1;
            },
            None => {},
        }
    }
    assert(s.take(n as int) =~= s);
    r
}

/// Whether two values share a place.
pub open spec fn share_place<T: Ordered>(a: T, b: T) -> bool {
    !a.precedes(&b) && !b.precedes(&a)
}

/// The values of a line that share a place with one, in their order.
pub open spec fn beside<T: Ordered>(s: Seq<T>, v: T) -> Seq<T> {
    s.filter(|y: T| share_place(y, v))
}

proof fn lemma_beside<T: Ordered>(s: Seq<T>, x: T, v: T)
    ensures
        beside(s.push(x), v) == if share_place(x, v) {
            beside(s, v).push(x)
        } else {
            beside(s, v)
        },
{
    reveal(Seq::filter);
    assert(s.push(x).drop_last() =~= s);
}

proof fn lemma_insertion_is_stable<T: Ordered>(s: Seq<T>, x: T, v: T)
    ensures
        beside(inserted(s, x), v) == beside(s.push(x), v),
    decreases s.len(),
{
    if s.len() > 0 && x.precedes(&s.last()) {
        let t = s.drop_last();
        lemma_insertion_is_stable(t, x, v);
        T::order_is_weak(&s.last(), &v, &x);
        lemma_beside(s, x, v);
        lemma_beside(t, x, v);
        lemma_beside(t, s.last(), v);
        lemma_beside(inserted(t, x), s.last(), v);
        assert(t.push(s.last()) =~= s);
    }
}

/// Sorting is stable: values that share a place come in the order in which they
/// stood before.
pub proof fn sorting_is_stable<T: Ordered>(s: Seq<T>, v: T)
    ensures
        beside(in_order(s), v) == beside(s, v),
    decreases s.len(),
{
    if s.len() > 0 {
        let t = s.drop_last();
        let x = s.last();
        sorting_is_stable(t, v);
        lemma_insertion_is_stable(in_order(t), x, v);
        lemma_beside(in_order(t), x, v);
        lemma_beside(t, x, v);
        assert(t.push(x) =~= s);
    } else {
        assert(in_order(s) =~= s);
    }
}

} // verus!
