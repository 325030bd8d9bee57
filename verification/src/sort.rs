//! Stable sorting. An order is a type with a total, transitive comparison;
//! what sorting by it means is a function on sequences.
use vstd::prelude::*;

verus! {

/// A total order (ties allowed) on the values of `T`.
pub trait Order<T> {
    /// `a` may stand before `b`.
    spec fn le(a: T, b: T) -> bool;

    proof fn total(a: T, b: T)
        ensures
            Self::le(a, b) || Self::le(b, a),
    ;

    proof fn transitive(a: T, b: T, c: T)
        requires
            Self::le(a, b),
            Self::le(b, c),
        ensures
            Self::le(a, c),
    ;
}

/// An order that can be computed.
pub trait Compare<T>: Order<T> {
    /// May `a` stand before `b`?
    fn before(a: &T, b: &T) -> (r: bool)
        ensures
            r == Self::le(*a, *b),
    ;
}

/// A sorted sequence with one more element: it goes after everything that may
/// stand before it.
pub open spec fn inserted<T, O: Order<T>>(s: Seq<T>, x: T) -> Seq<T>
    decreases s.len(),
{
    if s.len() == 0 {
        seq![x]
    } else if O::le(s.last(), x) {
        s.push(x)
    } else {
        inserted::<T, O>(s.drop_last(), x).push(s.last())
    }
}

/// The sequence in order; what ties keeps the order it came in.
pub open spec fn sorted<T, O: Order<T>>(s: Seq<T>) -> Seq<T>
    decreases s.len(),
{
    if s.len() == 0 {
        s
    } else {
        inserted::<T, O>(sorted::<T, O>(s.drop_last()), s.last())
    }
}

/// Two sorted sequences as one; where the two tie, `s` comes first.
spec fn merged<T, O: Order<T>>(s: Seq<T>, t: Seq<T>) -> Seq<T>
    decreases s.len() + t.len(),
{
    if t.len() == 0 {
        s
    } else if s.len() == 0 {
        t
    } else if O::le(s.last(), t.last()) {
        merged::<T, O>(s, t.drop_last()).push(t.last())
    } else {
        merged::<T, O>(s.drop_last(), t).push(s.last())
    }
}

proof fn lemma_insert_into_merged<T, O: Order<T>>(s: Seq<T>, t: Seq<T>, x: T)
    ensures
        inserted::<T, O>(merged::<T, O>(s, t), x) == merged::<T, O>(s, inserted::<T, O>(t, x)),
    decreases s.len() + t.len(),
{
    if t.len() == 0 {
        let one = seq![x];
        assert(one.drop_last() =~= Seq::<T>::empty());
        assert(inserted::<T, O>(t, x) == one);
        assert(one.last() == x);
        if s.len() > 0 {
            assert(merged::<T, O>(s, one.drop_last()) == s);
            if !O::le(s.last(), x) {
                lemma_insert_into_merged::<T, O>(s.drop_last(), t, x);
            }
        }
    } else if s.len() == 0 {
        assert(inserted::<T, O>(t, x).len() > 0);
    } else {
        let a = s.last();
        let b = t.last();
        if O::le(b, x) {
            assert(t.push(x).drop_last() =~= t);
            if O::le(a, b) {
                O::transitive(a, b, x);
                let m = merged::<T, O>(s, t.drop_last());
                assert(merged::<T, O>(s, t) == m.push(b));
            } else {
                let m = merged::<T, O>(s.drop_last(), t);
                assert(m.push(a).drop_last() =~= m);
                if !O::le(a, x) {
                    lemma_insert_into_merged::<T, O>(s.drop_last(), t, x);
                }
            }
        } else {
            let u = inserted::<T, O>(t.drop_last(), x);
            assert(u.push(b).drop_last() =~= u);
            if O::le(a, b) {
                let m = merged::<T, O>(s, t.drop_last());
                assert(m.push(b).drop_last() =~= m);
                lemma_insert_into_merged::<T, O>(s, t.drop_last(), x);
            } else {
                O::total(x, b);
                if O::le(a, x) {
                    O::transitive(a, x, b);
                }
                let m = merged::<T, O>(s.drop_last(), t);
                assert(m.push(a).drop_last() =~= m);
                lemma_insert_into_merged::<T, O>(s.drop_last(), t, x);
            }
        }
    }
}

proof fn lemma_merge_of_sorted<T, O: Order<T>>(s: Seq<T>, t: Seq<T>)
    ensures
        merged::<T, O>(sorted::<T, O>(s), sorted::<T, O>(t)) == sorted::<T, O>(s + t),
    decreases t.len(),
{
    if t.len() == 0 {
        assert(s + t =~= s);
    } else {
        lemma_merge_of_sorted::<T, O>(s, t.drop_last());
        assert((s + t).drop_last() =~= s + t.drop_last());
        lemma_insert_into_merged::<T, O>(
            sorted::<T, O>(s),
            sorted::<T, O>(t.drop_last()),
            t.last(),
        );
    }
}

fn reverse<T>(v: Vec<T>) -> (r: Vec<T>)
    ensures
        r@ == v@.reverse(),
{
    let ghost all = v@;
    let mut v = v;
    let mut out: Vec<T> = Vec::new();
    while v.len() > 0
        invariant
            out@ == all.skip(v@.len() as int).reverse(),
            v@ == all.take(v@.len() as int),
            v@.len() <= all.len(),
        decreases v@.len(),
    {
        let ghost n = v@.len() as int;
        if let Some(x) = v.pop() {
            out.push(x);
            assert(all.skip(n - 1).reverse() =~= all.skip(n).reverse().push(x));
        }
    }
    assert(all.skip(0) =~= all);
    out
}

fn merge<T, O: Compare<T>>(a: Vec<T>, b: Vec<T>) -> (r: Vec<T>)
    ensures
        r@ == merged::<T, O>(a@, b@),
{
    let ghost all = merged::<T, O>(a@, b@);
    let mut a = a;
    let mut b = b;
    let mut tail: Vec<T> = Vec::new();
    while a.len() > 0 && b.len() > 0
        invariant
            all == merged::<T, O>(a@, b@) + tail@.reverse(),
        decreases a@.len() + b@.len(),
    {
        let ghost before = tail@;
        let ghost (s, t) = (a@, b@);
        let from_b = O::before(&a[a.len() - 1], &b[b.len() - 1]);
        let taken = if from_b {
            b.pop()
        } else {
            a.pop()
        };
        if let Some(x) = taken {
            tail.push(x);
            assert(merged::<T, O>(s, t) == merged::<T, O>(a@, b@).push(x));
            assert(merged::<T, O>(a@, b@).push(x) + before.reverse() =~= merged::<T, O>(a@, b@)
                + tail@.reverse());
        }
    }
    let mut out = if b.len() == 0 {
        a
    } else {
        b
    };
    let mut tail = reverse(tail);
    out.append(&mut tail);
    out
}

/// Sort a vector; what ties keeps the order it came in.
pub fn sort<T, O: Compare<T>>(v: Vec<T>) -> (r: Vec<T>)
    ensures
        r@ == sorted::<T, O>(v@),
    decreases v@.len(),
{
    let ghost all = v@;
    let n: usize = v.len();
    if n <= 1 {
        proof {
            if n == 1 {
                assert(all.drop_last() =~= Seq::<T>::empty());
                assert(sorted::<T, O>(all.drop_last()).len() == 0);
                assert(seq![all.last()] =~= all);
            }
        }
        return v;
    }
    let mut left = v;
    let right = left.split_off(n / 2);
    proof {
        assert(left@ + right@ =~= all);
        lemma_merge_of_sorted::<T, O>(left@, right@);
    }
    merge::<T, O>(sort::<T, O>(left), sort::<T, O>(right))
}

// ---------------------------------------------------------------------------
// what sorting promises
// ---------------------------------------------------------------------------

/// Every element may stand before every later one.
pub open spec fn in_order<T, O: Order<T>>(s: Seq<T>) -> bool {
    forall|i: int, j: int| 0 <= i < j < s.len() ==> O::le(#[trigger] s[i], #[trigger] s[j])
}

/// The two values tie.
pub open spec fn ties<T, O: Order<T>>(a: T, b: T) -> bool {
    O::le(a, b) && O::le(b, a)
}

/// The elements that tie with `e`, in the order they stand in.
pub open spec fn tied_with<T, O: Order<T>>(s: Seq<T>, e: T) -> Seq<T>
    decreases s.len(),
{
    if s.len() == 0 {
        s
    } else if ties::<T, O>(s.last(), e) {
        tied_with::<T, O>(s.drop_last(), e).push(s.last())
    } else {
        tied_with::<T, O>(s.drop_last(), e)
    }
}

proof fn lemma_inserted<T, O: Order<T>>(s: Seq<T>, x: T)
    requires
        in_order::<T, O>(s),
    ensures
        in_order::<T, O>(inserted::<T, O>(s, x)),
        inserted::<T, O>(s, x).to_multiset() == s.to_multiset().insert(x),
        inserted::<T, O>(s, x).len() == s.len() + 1,
        forall|i: int|
            0 <= i <= s.len() ==> {
                let y = #[trigger] inserted::<T, O>(s, x)[i];
                y == x || s.contains(y)
            },
    decreases s.len(),
{
    broadcast use vstd::seq_lib::group_to_multiset_ensures;

    if s.len() == 0 {
        assert(seq![x] =~= Seq::<T>::empty().push(x));
    } else if O::le(s.last(), x) {
        let r = s.push(x);
        assert forall|i: int, j: int| 0 <= i < j < r.len() implies O::le(
            #[trigger] r[i],
            #[trigger] r[j],
        ) by {
            if j == s.len() && i < s.len() - 1 {
                assert(O::le(s[i], s[s.len() - 1]));
                O::transitive(s[i], s.last(), x);
            }
        }
    } else {
        let front = s.drop_last();
        lemma_inserted::<T, O>(front, x);
        let t = inserted::<T, O>(front, x);
        let r = t.push(s.last());
        O::total(x, s.last());
        assert forall|i: int, j: int| 0 <= i < j < r.len() implies O::le(
            #[trigger] r[i],
            #[trigger] r[j],
        ) by {
            if j == t.len() {
                let y = t[i];
                if y != x {
                    let k = choose|k: int| 0 <= k < front.len() && front[k] == y;
                    assert(O::le(s[k], s[s.len() - 1]));
                }
            }
        }
        assert forall|i: int| 0 <= i <= s.len() implies {
            let y = #[trigger] r[i];
            y == x || s.contains(y)
        } by {
            if i < t.len() {
                let y = t[i];
                if y != x {
                    let k = choose|k: int| 0 <= k < front.len() && front[k] == y;
                    assert(s[k] == y);
                }
            } else {
                assert(s[s.len() - 1] == r[i]);
            }
        }
        assert(front.push(s.last()) =~= s);
        assert(t.to_multiset().insert(s.last()) =~= s.to_multiset().insert(x));
    }
}

/// Sorting puts the elements in order and neither drops nor adds one.
pub proof fn sorting_orders_and_permutes<T, O: Order<T>>(s: Seq<T>)
    ensures
        in_order::<T, O>(sorted::<T, O>(s)),
        sorted::<T, O>(s).to_multiset() == s.to_multiset(),
        sorted::<T, O>(s).len() == s.len(),
    decreases s.len(),
{
    broadcast use vstd::seq_lib::group_to_multiset_ensures;

    if s.len() > 0 {
        sorting_orders_and_permutes::<T, O>(s.drop_last());
        lemma_inserted::<T, O>(sorted::<T, O>(s.drop_last()), s.last());
        assert(s.drop_last().push(s.last()) =~= s);
    }
}

proof fn lemma_inserted_ties<T, O: Order<T>>(s: Seq<T>, x: T, e: T)
    ensures
        tied_with::<T, O>(inserted::<T, O>(s, x), e) == tied_with::<T, O>(s.push(x), e),
    decreases s.len(),
{
    assert(s.push(x).drop_last() =~= s);
    assert(s.push(x).last() == x);
    if s.len() == 0 {
        assert(seq![x] =~= s.push(x));
    } else if !O::le(s.last(), x) {
        let t = inserted::<T, O>(s.drop_last(), x);
        lemma_inserted_ties::<T, O>(s.drop_last(), x, e);
        assert(t.push(s.last()).drop_last() =~= t);
        assert(s.drop_last().push(x).drop_last() =~= s.drop_last());
        assert(t.push(s.last()).last() == s.last());
        assert(s.drop_last().push(x).last() == x);
        reveal_with_fuel(tied_with, 3);
        if ties::<T, O>(s.last(), e) && ties::<T, O>(x, e) {
            O::transitive(s.last(), e, x);
        }
    }
}

/// Sorting is stable: elements that tie keep the order they came in.
pub proof fn sorting_is_stable<T, O: Order<T>>(s: Seq<T>, e: T)
    ensures
        tied_with::<T, O>(sorted::<T, O>(s), e) == tied_with::<T, O>(s, e),
    decreases s.len(),
{
    if s.len() > 0 {
        let t = sorted::<T, O>(s.drop_last());
        sorting_is_stable::<T, O>(s.drop_last(), e);
        lemma_inserted_ties::<T, O>(t, s.last(), e);
        assert(t.push(s.last()).drop_last() =~= t);
    }
}

/// What is in order is left as it is; so sorting twice does what sorting once
/// does.
pub proof fn sorting_what_is_in_order_changes_nothing<T, O: Order<T>>(s: Seq<T>)
    requires
        in_order::<T, O>(s),
    ensures
        sorted::<T, O>(s) == s,
    decreases s.len(),
{
    if s.len() > 0 {
        let front = s.drop_last();
        assert forall|i: int, j: int| 0 <= i < j < front.len() implies O::le(
            #[trigger] front[i],
            #[trigger] front[j],
        ) by {
            assert(front[i] == s[i] && front[j] == s[j]);
        }
        sorting_what_is_in_order_changes_nothing::<T, O>(front);
        if front.len() > 0 {
            assert(O::le(s[s.len() - 2], s[s.len() - 1]));
        }
        assert(front.push(s.last()) =~= s);
        assert(seq![s.last()] =~= Seq::<T>::empty().push(s.last()));
    }
}

proof fn lemma_tied_contains<T, O: Order<T>>(s: Seq<T>, e: T, x: T)
    ensures
        tied_with::<T, O>(s, e).contains(x) <==> s.contains(x) && ties::<T, O>(x, e),
    decreases s.len(),
{
    if s.len() > 0 {
        let front = s.drop_last();
        let last = s.last();
        lemma_tied_contains::<T, O>(front, e, x);
        assert(front.push(last) =~= s);
        if s.contains(x) {
            let i = choose|i: int| 0 <= i < s.len() && s[i] == x;
            if i < front.len() {
                assert(front[i] == x);
            }
        }
        if front.contains(x) {
            let i = choose|i: int| 0 <= i < front.len() && front[i] == x;
            assert(s[i] == x);
        }
        assert(s[s.len() - 1] == last);
        if ties::<T, O>(last, e) {
            let kept = tied_with::<T, O>(front, e);
            let all = kept.push(last);
            assert(all[kept.len() as int] == last);
            if kept.contains(x) {
                let i = choose|i: int| 0 <= i < kept.len() && kept[i] == x;
                assert(all[i] == x);
            }
            if all.contains(x) {
                let i = choose|i: int| 0 <= i < all.len() && all[i] == x;
                if i < kept.len() {
                    assert(kept[i] == x);
                }
            }
        }
    }
}

proof fn lemma_same_ties<T, O: Order<T>>(a: Seq<T>, b: Seq<T>)
    requires
        in_order::<T, O>(a),
        in_order::<T, O>(b),
        forall|e: T| #[trigger] tied_with::<T, O>(a, e) == tied_with::<T, O>(b, e),
    ensures
        a == b,
    decreases a.len(),
{
    if a.len() == 0 {
        if b.len() > 0 {
            let y = b.last();
            O::total(y, y);
            assert(b[b.len() - 1] == y);
            lemma_tied_contains::<T, O>(b, y, y);
            assert(tied_with::<T, O>(a, y) == tied_with::<T, O>(b, y));
        }
        assert(a =~= b);
    } else {
        let x = a.last();
        O::total(x, x);
        assert(a[a.len() - 1] == x);
        lemma_tied_contains::<T, O>(a, x, x);
        lemma_tied_contains::<T, O>(b, x, x);
        assert(tied_with::<T, O>(a, x) == tied_with::<T, O>(b, x));
        let y = b.last();
        O::total(y, y);
        assert(b[b.len() - 1] == y);
        lemma_tied_contains::<T, O>(b, y, y);
        lemma_tied_contains::<T, O>(a, y, y);
        assert(tied_with::<T, O>(a, y) == tied_with::<T, O>(b, y));
        // each is the last of its sequence and stands in the other
        let i = choose|i: int| 0 <= i < a.len() && a[i] == y;
        if i < a.len() - 1 {
            assert(O::le(a[i], a[a.len() - 1]));
        }
        let j = choose|j: int| 0 <= j < b.len() && b[j] == x;
        if j < b.len() - 1 {
            assert(O::le(b[j], b[b.len() - 1]));
        }
        assert(ties::<T, O>(y, x));
        assert(tied_with::<T, O>(a, x).last() == x);
        assert(tied_with::<T, O>(b, x).last() == y);
        let (fa, fb) = (a.drop_last(), b.drop_last());
        assert forall|e: T| #[trigger] tied_with::<T, O>(fa, e) == tied_with::<T, O>(fb, e) by {
            assert(tied_with::<T, O>(a, e) == tied_with::<T, O>(b, e));
            if ties::<T, O>(x, e) {
                assert(tied_with::<T, O>(a, e).drop_last() =~= tied_with::<T, O>(fa, e));
                assert(tied_with::<T, O>(b, e).drop_last() =~= tied_with::<T, O>(fb, e));
            }
        }
        assert forall|i: int, j: int| 0 <= i < j < fa.len() implies O::le(
            #[trigger] fa[i],
            #[trigger] fa[j],
        ) by {
            assert(fa[i] == a[i] && fa[j] == a[j]);
        }
        assert forall|i: int, j: int| 0 <= i < j < fb.len() implies O::le(
            #[trigger] fb[i],
            #[trigger] fb[j],
        ) by {
            assert(fb[i] == b[i] && fb[j] == b[j]);
        }
        lemma_same_ties::<T, O>(fa, fb);
        assert(fa.push(x) =~= a);
        assert(fb.push(y) =~= b);
    }
}

/// Every element ranks below every later one.
pub open spec fn ranked<T>(s: Seq<T>, rank: spec_fn(T) -> int) -> bool {
    forall|i: int, j: int| 0 <= i < j < s.len() ==> rank(#[trigger] s[i]) < rank(#[trigger] s[j])
}

/// Of two elements that tie, the earlier one ranks below the later one.
pub open spec fn ties_ranked<T, O: Order<T>>(s: Seq<T>, rank: spec_fn(T) -> int) -> bool {
    forall|i: int, j: int|
        0 <= i < j < s.len() && ties::<T, O>(s[i], s[j]) ==> rank(#[trigger] s[i]) < rank(
            #[trigger] s[j],
        )
}

proof fn lemma_tied_ranked<T, O: Order<T>>(s: Seq<T>, e: T, rank: spec_fn(T) -> int)
    requires
        ties_ranked::<T, O>(s, rank),
    ensures
        ranked(tied_with::<T, O>(s, e), rank),
    decreases s.len(),
{
    if s.len() > 0 {
        let front = s.drop_last();
        let kept = tied_with::<T, O>(front, e);
        let all = tied_with::<T, O>(s, e);
        assert(ties_ranked::<T, O>(front, rank)) by {
            assert forall|i: int, j: int|
                0 <= i < j < front.len() && ties::<T, O>(front[i], front[j]) implies rank(
                #[trigger] front[i],
            ) < rank(#[trigger] front[j]) by {
                assert(front[i] == s[i] && front[j] == s[j]);
            }
        }
        lemma_tied_ranked::<T, O>(front, e, rank);
        if ties::<T, O>(s.last(), e) {
            assert forall|i: int, j: int| 0 <= i < j < all.len() implies rank(#[trigger] all[i])
                < rank(#[trigger] all[j]) by {
                if j == kept.len() {
                    assert(kept.contains(kept[i]));
                    lemma_tied_contains::<T, O>(front, e, kept[i]);
                    let k = choose|k: int| 0 <= k < front.len() && front[k] == kept[i];
                    O::transitive(s[k], e, s.last());
                    O::transitive(s.last(), e, s[k]);
                    assert(rank(s[k]) < rank(s[s.len() - 1]));
                } else {
                    assert(all[i] == kept[i] && all[j] == kept[j]);
                }
            }
        }
    }
}

proof fn lemma_same_ranked<T>(a: Seq<T>, b: Seq<T>, rank: spec_fn(T) -> int)
    requires
        ranked(a, rank),
        ranked(b, rank),
        forall|x: T| a.contains(x) <==> b.contains(x),
    ensures
        a == b,
    decreases a.len(),
{
    if a.len() == 0 {
        if b.len() > 0 {
            assert(b.contains(b[0]));
        }
        assert(a =~= b);
    } else {
        let x = a.last();
        assert(a[a.len() - 1] == x);
        assert(a.contains(x));
        let j = choose|j: int| 0 <= j < b.len() && b[j] == x;
        let y = b.last();
        assert(b[b.len() - 1] == y);
        assert(b.contains(y));
        let i = choose|i: int| 0 <= i < a.len() && a[i] == y;
        if i < a.len() - 1 && j < b.len() - 1 {
            assert(rank(a[i]) < rank(a[a.len() - 1]));
            assert(rank(b[j]) < rank(b[b.len() - 1]));
        }
        assert(x == y);
        let (fa, fb) = (a.drop_last(), b.drop_last());
        assert forall|z: T| fa.contains(z) <==> fb.contains(z) by {
            if fa.contains(z) {
                let k = choose|k: int| 0 <= k < fa.len() && fa[k] == z;
                assert(a[k] == z);
                assert(a.contains(z));
                assert(rank(a[k]) < rank(a[a.len() - 1]));
                let q = choose|q: int| 0 <= q < b.len() && b[q] == z;
                assert(q < b.len() - 1);
                assert(fb[q] == z);
            }
            if fb.contains(z) {
                let k = choose|k: int| 0 <= k < fb.len() && fb[k] == z;
                assert(b[k] == z);
                assert(b.contains(z));
                assert(rank(b[k]) < rank(b[b.len() - 1]));
                let q = choose|q: int| 0 <= q < a.len() && a[q] == z;
                assert(q < a.len() - 1);
                assert(fa[q] == z);
            }
        }
        assert(ranked(fa, rank)) by {
            assert forall|i: int, j: int| 0 <= i < j < fa.len() implies rank(#[trigger] fa[i])
                < rank(#[trigger] fa[j]) by {
                assert(fa[i] == a[i] && fa[j] == a[j]);
            }
        }
        assert(ranked(fb, rank)) by {
            assert forall|i: int, j: int| 0 <= i < j < fb.len() implies rank(#[trigger] fb[i])
                < rank(#[trigger] fb[j]) by {
                assert(fb[i] == b[i] && fb[j] == b[j]);
            }
        }
        lemma_same_ranked(fa, fb, rank);
        assert(fa.push(x) =~= a);
        assert(fb.push(y) =~= b);
    }
}

/// What sorting makes of a sequence is known by its order alone: a sequence of
/// the same elements that is in order, and whose ties stand as they came.
pub proof fn lemma_sorted_is<T, O: Order<T>>(s: Seq<T>, t: Seq<T>, rank: spec_fn(T) -> int)
    requires
        ranked(s, rank),
        in_order::<T, O>(t),
        ties_ranked::<T, O>(t, rank),
        forall|x: T| s.contains(x) <==> t.contains(x),
    ensures
        sorted::<T, O>(s) == t,
{
    sorting_orders_and_permutes::<T, O>(s);
    assert(ties_ranked::<T, O>(s, rank));
    assert forall|e: T| #[trigger] tied_with::<T, O>(sorted::<T, O>(s), e) == tied_with::<T, O>(
        t,
        e,
    ) by {
        sorting_is_stable::<T, O>(s, e);
        lemma_tied_ranked::<T, O>(s, e, rank);
        lemma_tied_ranked::<T, O>(t, e, rank);
        let (a, b) = (tied_with::<T, O>(s, e), tied_with::<T, O>(t, e));
        assert forall|x: T| a.contains(x) <==> b.contains(x) by {
            lemma_tied_contains::<T, O>(s, e, x);
            lemma_tied_contains::<T, O>(t, e, x);
        }
        lemma_same_ranked(a, b, rank);
    }
    lemma_same_ties::<T, O>(sorted::<T, O>(s), t);
}

// ---------------------------------------------------------------------------
// sorting and views
// ---------------------------------------------------------------------------

/// The views of the elements.
pub open spec fn views<A: View>(s: Seq<A>) -> Seq<A::V> {
    Seq::new(s.len(), |i: int| s[i]@)
}

proof fn lemma_inserted_views<A: View, O: Order<A> + Order<A::V>>(s: Seq<A>, x: A)
    requires
        forall|a: A, b: A|
            #[trigger] <O as Order<A>>::le(a, b) == <O as Order<A::V>>::le(a@, b@),
    ensures
        views(inserted::<A, O>(s, x)) == inserted::<A::V, O>(views(s), x@),
    decreases s.len(),
{
    if s.len() == 0 {
        assert(views(seq![x]) =~= seq![x@]);
    } else if <O as Order<A>>::le(s.last(), x) {
        assert(views(s.push(x)) =~= views(s).push(x@));
        assert(views(s).last() == s.last()@);
    } else {
        lemma_inserted_views::<A, O>(s.drop_last(), x);
        assert(views(s).drop_last() =~= views(s.drop_last()));
        let t = inserted::<A, O>(s.drop_last(), x);
        assert(views(t.push(s.last())) =~= views(t).push(s.last()@));
        assert(views(s).last() == s.last()@);
    }
}

/// Sorting values by an order that looks at their views alone sorts the views.
pub proof fn lemma_sorted_views<A: View, O: Order<A> + Order<A::V>>(s: Seq<A>)
    requires
        forall|a: A, b: A|
            #[trigger] <O as Order<A>>::le(a, b) == <O as Order<A::V>>::le(a@, b@),
    ensures
        views(sorted::<A, O>(s)) == sorted::<A::V, O>(views(s)),
    decreases s.len(),
{
    if s.len() == 0 {
        assert(views(s) =~= Seq::<A::V>::empty());
    } else {
        lemma_sorted_views::<A, O>(s.drop_last());
        lemma_inserted_views::<A, O>(sorted::<A, O>(s.drop_last()), s.last());
        assert(views(s).drop_last() =~= views(s.drop_last()));
        assert(views(s).last() == s.last()@);
    }
}

} // verus!
