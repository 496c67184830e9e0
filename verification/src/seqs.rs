//! Sequences and the views of their elements.

use vstd::prelude::*;

verus! {

/// The views of the elements of a sequence.
pub open spec fn views<T: View>(s: Seq<T>) -> Seq<T::V> {
    s.map_values(|x: T| x@)
}

/// The view of an optional value.
pub open spec fn opt_view<T: View>(o: Option<T>) -> Option<T::V> {
    match o {
        Some(x) => Some(x@),
        None => None,
    }
}

/// What `f` makes of the elements of `s` from index `k` on, in order.
pub open spec fn each_from<A, B>(s: Seq<A>, k: int, f: spec_fn(A) -> Seq<B>) -> Seq<B>
    decreases s.len() - k,
{
    if k < 0 || k >= s.len() {
        Seq::empty()
    } else {
        f(s[k]) + each_from(s, k + 1, f)
    }
}

/// What `f` makes of the elements of `s`, in order.
pub open spec fn each<A, B>(s: Seq<A>, f: spec_fn(A) -> Seq<B>) -> Seq<B> {
    each_from(s, 0, f)
}

/// The first value that `f` finds among the elements of `s` from index `k` on.
pub open spec fn first_from<A, B>(s: Seq<A>, k: int, f: spec_fn(A) -> Option<B>) -> Option<B>
    decreases s.len() - k,
{
    if k < 0 || k >= s.len() {
        None
    } else if f(s[k]) is Some {
        f(s[k])
    } else {
        first_from(s, k + 1, f)
    }
}

/// The first value that `f` finds among the elements of `s`.
pub open spec fn first_some<A, B>(s: Seq<A>, f: spec_fn(A) -> Option<B>) -> Option<B> {
    first_from(s, 0, f)
}

/// The elements of `s` that `p` holds of, in order.
pub open spec fn kept<A>(s: Seq<A>, p: spec_fn(A) -> bool) -> Seq<A> {
    each(s, keep(p))
}

/// An element that `p` holds of, or nothing.
pub open spec fn keep<A>(p: spec_fn(A) -> bool) -> spec_fn(A) -> Seq<A> {
    |x: A|
        if p(x) {
            seq![x]
        } else {
            Seq::empty()
        }
}

/// An optional value as a sequence of at most one element.
pub open spec fn opt_seq<A>(o: Option<A>) -> Seq<A> {
    match o {
        Some(x) => seq![x],
        None => Seq::empty(),
    }
}

pub broadcast proof fn lemma_views_push<T: View>(s: Seq<T>, x: T)
    ensures
        #[trigger] views(s.push(x)) == views(s).push(x@),
{
    assert(views(s.push(x)) =~= views(s).push(x@));
}

pub broadcast proof fn lemma_views_empty<T: View>(s: Seq<T>)
    requires
        s.len() == 0,
    ensures
        #[trigger] views(s) == Seq::<T::V>::empty(),
{
    assert(views(s) =~= Seq::<T::V>::empty());
}

pub broadcast proof fn lemma_views_add<T: View>(s: Seq<T>, t: Seq<T>)
    ensures
        #[trigger] views(s + t) == views(s) + views(t),
{
    assert(views(s + t) =~= views(s) + views(t));
}

pub broadcast proof fn lemma_push_add<A>(a: Seq<A>, x: A, b: Seq<A>)
    ensures
        #[trigger] (a.push(x) + b) == a + (seq![x] + b),
{
    assert(a.push(x) + b =~= a + (seq![x] + b));
}

pub broadcast proof fn lemma_add_assoc<A>(a: Seq<A>, b: Seq<A>, c: Seq<A>)
    ensures
        #[trigger] ((a + b) + c) == a + (b + c),
{
    assert((a + b) + c =~= a + (b + c));
}

pub broadcast proof fn lemma_add_empty<A>(a: Seq<A>, b: Seq<A>)
    ensures
        b.len() == 0 ==> #[trigger] (a + b) == a,
        a.len() == 0 ==> a + b == b,
{
    if b.len() == 0 {
        assert(a + b =~= a);
    }
    if a.len() == 0 {
        assert(a + b =~= b);
    }
}

pub broadcast proof fn lemma_set_push<A>(s: Seq<A>, x: A)
    ensures
        #[trigger] s.push(x).to_set() == s.to_set().insert(x),
{
    let t = s.push(x);
    assert(t.to_set() =~= s.to_set().insert(x)) by {
        assert forall|y: A| s.to_set().insert(x).contains(y) implies t.to_set().contains(y) by {
            if y == x {
                assert(t[s.len() as int] == x);
            } else {
                let i = choose|i: int| 0 <= i < s.len() && s[i] == y;
                assert(t[i] == y);
            }
        }
    }
}

pub broadcast proof fn lemma_set_empty<A>(s: Seq<A>)
    requires
        s.len() == 0,
    ensures
        #[trigger] s.to_set() == Set::<A>::empty(),
{
    assert(s.to_set() =~= Set::<A>::empty());
}

/// What `f` makes of `s` holds `y` where `f` makes it of some element.
pub proof fn lemma_each<A, B>(s: Seq<A>, k: int, f: spec_fn(A) -> Seq<B>, y: B)
    requires
        k >= 0,
    ensures
        each_from(s, k, f).contains(y) <==> exists|i: int| k <= i < s.len() && f(#[trigger] s[i]).contains(y),
    decreases s.len() - k,
{
    if k < s.len() {
        lemma_each(s, k + 1, f, y);
        let head = f(s[k]);
        let rest = each_from(s, k + 1, f);
        let all = each_from(s, k, f);
        assert(all == head + rest);
        if all.contains(y) {
            let m = choose|m: int| 0 <= m < all.len() && all[m] == y;
            if m < head.len() {
                assert(head[m] == y);
                assert(f(s[k]).contains(y));
            } else {
                assert(rest[m - head.len()] == y);
            }
        }
        if exists|i: int| k <= i < s.len() && f(#[trigger] s[i]).contains(y) {
            let i = choose|i: int| k <= i < s.len() && f(#[trigger] s[i]).contains(y);
            if i == k {
                let m = choose|m: int| 0 <= m < head.len() && head[m] == y;
                assert(all[m] == y);
            } else {
                assert(rest.contains(y));
                let m = choose|m: int| 0 <= m < rest.len() && rest[m] == y;
                assert(all[head.len() + m] == y);
            }
        }
    }
}

/// The elements that are kept are those that `p` holds of.
pub proof fn lemma_kept<A>(s: Seq<A>, p: spec_fn(A) -> bool, x: A)
    ensures
        kept(s, p).contains(x) <==> s.contains(x) && p(x),
{
    lemma_each(s, 0, keep(p), x);
    if kept(s, p).contains(x) {
        let i = choose|i: int| 0 <= i < s.len() && keep(p)(#[trigger] s[i]).contains(x);
        assert(s[i] == x);
    }
    if s.contains(x) && p(x) {
        let i = choose|i: int| 0 <= i < s.len() && s[i] == x;
        assert(keep(p)(s[i])[0] == x);
    }
}

/// Where `p` holds of one element only, that one is kept.
pub proof fn lemma_kept_one<A>(s: Seq<A>, k: int, p: spec_fn(A) -> bool, i: int)
    requires
        0 <= k <= s.len(),
        0 <= i < s.len(),
        p(s[i]),
        forall|j: int| 0 <= j < s.len() && j != i ==> !p(#[trigger] s[j]),
    ensures
        each_from(s, k, keep(p)) == (if k <= i {
            seq![s[i]]
        } else {
            Seq::empty()
        }),
    decreases s.len() - k,
{
    if k < s.len() {
        lemma_kept_one(s, k + 1, p, i);
        if k == i {
            assert(seq![s[i]] + Seq::<A>::empty() =~= seq![s[i]]);
        } else {
            assert(each_from(s, k, keep(p)) =~= each_from(s, k + 1, keep(p)));
        }
    }
}

/// At least as many elements are kept as there are places at which `p` holds.
pub proof fn lemma_kept_some<A>(s: Seq<A>, k: int, p: spec_fn(A) -> bool, i: int, j: int)
    requires
        0 <= k,
        i <= j < s.len(),
        k <= j ==> p(s[j]),
        k <= i ==> p(s[i]),
    ensures
        k <= j ==> each_from(s, k, keep(p)).len() >= 1,
        k <= i < j ==> each_from(s, k, keep(p)).len() >= 2,
    decreases s.len() - k,
{
    if k < s.len() {
        lemma_kept_some(s, k + 1, p, i, j);
    }
}

proof fn lemma_filter_cons<A>(x: A, s: Seq<A>, p: spec_fn(A) -> bool)
    ensures
        (seq![x] + s).filter(p) == keep(p)(x) + s.filter(p),
    decreases s.len(),
{
    reveal(Seq::filter);
    let all = seq![x] + s;
    if s.len() == 0 {
        assert(all =~= seq![x]);
        assert(all.drop_last() =~= Seq::<A>::empty());
        assert(all.last() == x);
        assert(Seq::<A>::empty().filter(p) =~= Seq::<A>::empty());
        assert(s.filter(p) =~= Seq::<A>::empty());
        assert(all.filter(p) =~= keep(p)(x) + s.filter(p));
    } else {
        lemma_filter_cons(x, s.drop_last(), p);
        assert(all.drop_last() =~= seq![x] + s.drop_last());
        assert(all.last() == s.last());
        assert(all.filter(p) =~= keep(p)(x) + s.filter(p));
    }
}

proof fn lemma_kept_filter<A>(s: Seq<A>, k: int, p: spec_fn(A) -> bool)
    requires
        0 <= k <= s.len(),
    ensures
        each_from(s, k, keep(p)) == s.skip(k).filter(p),
    decreases s.len() - k,
{
    if k < s.len() {
        lemma_kept_filter(s, k + 1, p);
        assert(s.skip(k) =~= seq![s[k]] + s.skip(k + 1));
        lemma_filter_cons(s[k], s.skip(k + 1), p);
    } else {
        reveal(Seq::filter);
        assert(s.skip(k).len() == 0);
        assert(s.skip(k).filter(p) =~= Seq::<A>::empty());
    }
}

/// The elements that are kept are those that `p` holds of, each as often as it stands
/// there, and in their order.
pub proof fn what_is_kept_is_filtered<A>(s: Seq<A>, p: spec_fn(A) -> bool)
    ensures
        kept(s, p) == s.filter(p),
{
    lemma_kept_filter(s, 0, p);
    assert(s.skip(0) =~= s);
}

/// What each element gives stands in the order of the elements.
pub proof fn what_each_gives_is_in_order<A, B>(s: Seq<A>, f: spec_fn(A) -> Seq<B>)
    ensures
        each(s, f) == s.map_values(f).flatten(),
{
    lemma_each_flat(s, 0, f);
    assert(s.skip(0) =~= s);
}

proof fn lemma_each_flat<A, B>(s: Seq<A>, k: int, f: spec_fn(A) -> Seq<B>)
    requires
        0 <= k <= s.len(),
    ensures
        each_from(s, k, f) == s.skip(k).map_values(f).flatten(),
    decreases s.len() - k,
{
    let rest = s.skip(k).map_values(f);
    if k < s.len() {
        lemma_each_flat(s, k + 1, f);
        assert(rest.first() == f(s[k]));
        assert(rest.drop_first() =~= s.skip(k + 1).map_values(f));
    } else {
        assert(rest.len() == 0);
    }
}

/// What the scanners use of sequences and of their views.
pub broadcast group group_text {
    lemma_views_push,
    lemma_views_empty,
    lemma_views_add,
    lemma_push_add,
    lemma_add_assoc,
    lemma_add_empty,
    lemma_set_push,
    lemma_set_empty,
}

} // verus!
