//! Ordering texts: by code point, like the strings that hold them.

use vstd::prelude::*;

use crate::seqs;
use crate::text::chars_of;

verus! {

/// `a` comes before `b` in the order of their characters from index `i` on.
pub open spec fn less_from(a: Seq<char>, b: Seq<char>, i: int) -> bool
    decreases b.len() - i,
{
    if i < 0 || i >= b.len() {
        false
    } else if i >= a.len() {
        true
    } else if a[i] != b[i] {
        a[i] < b[i]
    } else {
        less_from(a, b, i + 1)
    }
}

/// `a` comes before `b` in lexicographic order.
pub open spec fn less(a: Seq<char>, b: Seq<char>) -> bool {
    less_from(a, b, 0)
}

/// Whether `a` comes before `b` in lexicographic order.
pub fn is_less(a: &[char], b: &[char]) -> (r: bool)
    ensures
        r == less(a@, b@),
{
    let mut i: usize = 0;
    while i < b.len()
        invariant
            i <= b@.len(),
            less_from(a@, b@, i as int) == less(a@, b@),
        decreases b@.len() - i,
    {
        if i >= a.len() {
            return true;
        }
        if a[i] != b[i] {
            return a[i] < b[i];
        }
        i += 1;
    }
    false
}

proof fn lemma_less_irreflexive(a: Seq<char>, i: int)
    requires
        i >= 0,
    ensures
        !less_from(a, a, i),
    decreases a.len() - i,
{
    if i < a.len() {
        lemma_less_irreflexive(a, i + 1);
    }
}

proof fn lemma_less_transitive(a: Seq<char>, b: Seq<char>, c: Seq<char>, i: int)
    requires
        i >= 0,
        less_from(a, b, i),
        less_from(b, c, i),
    ensures
        less_from(a, c, i),
    decreases c.len() - i,
{
    if i < a.len() && i < b.len() && i < c.len() && a[i] == b[i] && b[i] == c[i] {
        lemma_less_transitive(a, b, c, i + 1);
    }
}

proof fn lemma_less_total(a: Seq<char>, b: Seq<char>, i: int)
    requires
        i >= 0,
        !less_from(a, b, i),
        !less_from(b, a, i),
        forall|j: int| 0 <= j < i && j < a.len() && j < b.len() ==> a[j] == b[j],
        i <= a.len(),
        i <= b.len(),
    ensures
        a == b,
    decreases a.len() - i,
{
    if i < a.len() && i < b.len() {
        lemma_less_total(a, b, i + 1);
    } else {
        assert(a =~= b);
    }
}

/// The order of texts is a strict total order.
pub proof fn less_is_a_strict_total_order(a: Seq<char>, b: Seq<char>, c: Seq<char>)
    ensures
        !less(a, a),
        less(a, b) && less(b, c) ==> less(a, c),
        less(a, b) || less(b, a) || a == b,
{
    lemma_less_irreflexive(a, 0);
    if less(a, b) && less(b, c) {
        lemma_less_transitive(a, b, c, 0);
    }
    if !less(a, b) && !less(b, a) {
        lemma_less_total(a, b, 0);
    }
}

/// Position `i` comes before position `j`: by key, and by position where the
/// keys are equal.
pub open spec fn before(keys: Seq<Seq<char>>, i: int, j: int) -> bool {
    less(keys[i], keys[j]) || (keys[i] == keys[j] && i < j)
}

proof fn lemma_before_transitive(keys: Seq<Seq<char>>, i: int, j: int, k: int)
    ensures
        before(keys, i, j) && before(keys, j, k) ==> before(keys, i, k),
{
    less_is_a_strict_total_order(keys[i], keys[j], keys[k]);
}

/// `r` lists the positions `lo` to `hi` in the order of their keys; positions
/// with equal keys stay in order.
pub open spec fn is_order_of(keys: Seq<Seq<char>>, lo: int, hi: int, r: Seq<int>) -> bool {
    &&& r.len() == hi - lo
    &&& forall|i: int| 0 <= i < r.len() ==> lo <= (#[trigger] r[i]) < hi
    &&& forall|i: int, j: int| 0 <= i < j < r.len() ==> before(keys, #[trigger] r[i], #[trigger] r[j])
    &&& forall|x: int| lo <= x < hi ==> #[trigger] r.contains(x)
}

/// `r` lists every position in the order of the keys, stably.
pub open spec fn is_order(keys: Seq<Seq<char>>, r: Seq<int>) -> bool {
    is_order_of(keys, 0, keys.len() as int, r)
}

/// The stable order of a sequence of keys is unique.
pub proof fn order_is_unique(keys: Seq<Seq<char>>, a: Seq<int>, b: Seq<int>)
    requires
        is_order(keys, a),
        is_order(keys, b),
    ensures
        a == b,
{
    assert forall|i: int| 0 <= i < a.len() implies a[i] == b[i] by {
        lemma_order_unique(keys, a, b, i);
    }
    assert(a =~= b);
}

proof fn lemma_order_unique(keys: Seq<Seq<char>>, a: Seq<int>, b: Seq<int>, i: int)
    requires
        is_order(keys, a),
        is_order(keys, b),
        0 <= i < a.len(),
    ensures
        a[i] == b[i],
    decreases i,
{
    if a[i] != b[i] {
        let n = keys.len() as int;
        assert(b.contains(a[i]));
        let j = choose|j: int| 0 <= j < b.len() && b[j] == a[i];
        assert(a.contains(b[i]));
        let k = choose|k: int| 0 <= k < a.len() && a[k] == b[i];
        if j < i {
            lemma_order_unique(keys, a, b, j);
            assert(before(keys, a[j], a[i]));
            less_is_a_strict_total_order(keys[a[i]], keys[a[i]], keys[a[i]]);
        } else if k < i {
            lemma_order_unique(keys, a, b, k);
            assert(before(keys, b[k], b[i]));
            less_is_a_strict_total_order(keys[b[i]], keys[b[i]], keys[b[i]]);
        } else {
            assert(before(keys, a[i], a[k]));
            assert(before(keys, b[i], b[j]));
            lemma_before_transitive(keys, a[i], b[i], a[i]);
            less_is_a_strict_total_order(keys[a[i]], keys[a[i]], keys[a[i]]);
        }
    }
}

/// The positions that the elements of a vector stand for.
spec fn at(v: Seq<usize>) -> Seq<int> {
    v.map_values(|x: usize| x as int)
}

/// Merges two ordered runs, the second of later positions than the first.
fn merge(keys: &[Vec<char>], left: &[usize], right: &[usize], Ghost(lo): Ghost<int>, Ghost(mid): Ghost<int>, Ghost(
    hi,
): Ghost<int>) -> (r: Vec<usize>)
    requires
        0 <= lo <= mid <= hi <= keys@.len(),
        is_order_of(seqs::views(keys@), lo, mid, at(left@)),
        is_order_of(seqs::views(keys@), mid, hi, at(right@)),
    ensures
        is_order_of(seqs::views(keys@), lo, hi, at(r@)),
{
    let ghost ks = seqs::views(keys@);
    let ghost a = at(left@);
    let ghost b = at(right@);
    let mut out: Vec<usize> = Vec::new();
    let mut i: usize = 0;
    let mut j: usize = 0;
    while i < left.len() || j < right.len()
        invariant
            0 <= lo <= mid <= hi <= keys@.len(),
            ks == seqs::views(keys@),
            a == at(left@),
            b == at(right@),
            is_order_of(ks, lo, mid, a),
            is_order_of(ks, mid, hi, b),
            i <= left@.len(),
            j <= right@.len(),
            out@.len() == i + j,
            forall|k: int| 0 <= k < out@.len() ==> lo <= (#[trigger] at(out@)[k]) < hi,
            forall|k: int, m: int|
                0 <= k < m < out@.len() ==> before(ks, #[trigger] at(out@)[k], #[trigger] at(out@)[m]),
            forall|k: int, m: int|
                0 <= k < out@.len() && i <= m < a.len() ==> before(ks, #[trigger] at(out@)[k], #[trigger] a[m]),
            forall|k: int, m: int|
                0 <= k < out@.len() && j <= m < b.len() ==> before(ks, #[trigger] at(out@)[k], #[trigger] b[m]),
            forall|m: int| 0 <= m < i ==> at(out@).contains(#[trigger] a[m]),
            forall|m: int| 0 <= m < j ==> at(out@).contains(#[trigger] b[m]),
        decreases left@.len() - i + right@.len() - j,
    {
        let ghost old_out = at(out@);
        let from_left = if i >= left.len() {
            false
        } else if j >= right.len() {
            true
        } else {
            assert(a[i as int] == left@[i as int] && b[j as int] == right@[j as int]);
            assert(ks[a[i as int]] == keys@[a[i as int]]@);
            assert(ks[b[j as int]] == keys@[b[j as int]]@);
            !is_less(&keys[right[j]], &keys[left[i]])
        };
        let next = if from_left {
            left[i]
        } else {
            right[j]
        };
        proof {
            if from_left {
                assert(a[i as int] == next);
                if j < right@.len() {
                    less_is_a_strict_total_order(ks[a[i as int]], ks[b[j as int]], ks[b[j as int]]);
                    assert(before(ks, a[i as int], b[j as int]));
                    assert forall|m: int| j <= m < b.len() implies before(ks, a[i as int], #[trigger] b[m]) by {
                        lemma_before_transitive(ks, a[i as int], b[j as int], b[m]);
                    }
                }
            } else {
                assert(b[j as int] == next);
                if i < left@.len() {
                    assert(before(ks, b[j as int], a[i as int]));
                    assert forall|m: int| i <= m < a.len() implies before(ks, b[j as int], #[trigger] a[m]) by {
                        lemma_before_transitive(ks, b[j as int], a[i as int], a[m]);
                    }
                }
            }
        }
        out.push(next);
        proof {
            assert(at(out@) =~= old_out.push(next as int));
            assert forall|x: int| old_out.contains(x) implies at(out@).contains(x) by {
                let k = choose|k: int| 0 <= k < old_out.len() && old_out[k] == x;
                assert(at(out@)[k] == x);
            }
            assert(at(out@)[old_out.len() as int] == next);
            assert(at(out@).contains(next as int));
        }
        if from_left {
            i += 1;
        } else {
            j += 1;
        }
    }
    proof {
        assert forall|x: int| lo <= x < hi implies #[trigger] at(out@).contains(x) by {
            if x < mid {
                assert(a.contains(x));
                let m = choose|m: int| 0 <= m < a.len() && a[m] == x;
                assert(at(out@).contains(a[m]));
            } else {
                assert(b.contains(x));
                let m = choose|m: int| 0 <= m < b.len() && b[m] == x;
                assert(at(out@).contains(b[m]));
            }
        }
    }
    out
}

/// The positions `lo` to `hi` in the order of their keys, stably.
fn order_range(keys: &[Vec<char>], lo: usize, hi: usize) -> (r: Vec<usize>)
    requires
        lo <= hi <= keys@.len(),
    ensures
        is_order_of(seqs::views(keys@), lo as int, hi as int, at(r@)),
    decreases hi - lo,
{
    let mut out: Vec<usize> = Vec::new();
    if lo == hi {
        return out;
    }
    if hi - lo == 1 {
        out.push(lo);
        assert(at(out@) =~= seq![lo as int]);
        assert(seq![lo as int][0] == lo);
        assert forall|x: int| lo <= x < hi implies #[trigger] at(out@).contains(x) by {
            assert(at(out@)[0] == x);
        }
        return out;
    }
    let mid = lo + (hi - lo) / 2;
    let left = order_range(keys, lo, mid);
    let right = order_range(keys, mid, hi);
    merge(keys, &left, &right, Ghost(lo as int), Ghost(mid as int), Ghost(hi as int))
}

/// The positions that `r` lists.
pub open spec fn positions(r: Seq<usize>) -> Seq<int> {
    r.map_values(|x: usize| x as int)
}

/// The positions of the keys in their order, stably.
pub fn order(keys: &[Vec<char>]) -> (r: Vec<usize>)
    ensures
        is_order(seqs::views(keys@), positions(r@)),
        r@.len() == keys@.len(),
        forall|i: int| 0 <= i < r@.len() ==> (#[trigger] r@[i]) < keys@.len(),
{
    let r = order_range(keys, 0, keys.len());
    proof {
        assert(at(r@) =~= positions(r@));
        assert forall|i: int| 0 <= i < r@.len() implies (#[trigger] r@[i]) < keys@.len() by {
            assert(at(r@)[i] == r@[i]);
        }
    }
    r
}

/// The texts in the stable order of their keys.
pub open spec fn arranged(lines: Seq<Seq<char>>, keys: Seq<Seq<char>>) -> Seq<Seq<char>> {
    let ks = choose|ks: Seq<int>| is_order(keys, ks);
    ks.map_values(|k: int| lines[k])
}

/// The given strings in the stable order of their keys.
pub fn arrange(lines: &[String], keys: &[Vec<char>]) -> (r: Vec<String>)
    requires
        lines@.len() == keys@.len(),
    ensures
        seqs::views(r@) == arranged(seqs::views(lines@), seqs::views(keys@)),
{
    let ghost all = seqs::views(lines@);
    let ranks = order(keys);
    let ghost ks = positions(ranks@);
    let ghost want = ks.map_values(|k: int| all[k]);
    let mut out: Vec<String> = Vec::new();
    let mut k: usize = 0;
    while k < ranks.len()
        invariant
            k <= ranks@.len(),
            all == seqs::views(lines@),
            ks == positions(ranks@),
            want == ks.map_values(|k: int| all[k]),
            forall|i: int| 0 <= i < ranks@.len() ==> (#[trigger] ranks@[i]) < lines@.len(),
            seqs::views(out@) == want.take(k as int),
        decreases ranks@.len() - k,
    {
        let ghost so_far = seqs::views(out@);
        out.push(lines[ranks[k]].clone());
        assert(seqs::views(out@) =~= so_far.push(want[k as int]));
        assert(want.take(k + 1) =~= want.take(k as int).push(want[k as int]));
        k += 1;
    }
    proof {
        assert(want.take(k as int) =~= want);
        let chosen = choose|o: Seq<int>| is_order(seqs::views(keys@), o);
        order_is_unique(seqs::views(keys@), chosen, ks);
    }
    out
}

/// `r` holds the texts of `s`, each once, in order.
pub open spec fn is_sorted_set(s: Seq<Seq<char>>, r: Seq<Seq<char>>) -> bool {
    &&& forall|i: int, j: int| 0 <= i < j < r.len() ==> less(#[trigger] r[i], #[trigger] r[j])
    &&& forall|x: Seq<char>| #[trigger] r.contains(x) <==> s.contains(x)
}

/// The sorted texts of a sequence, each once, are determined by it.
pub proof fn sorted_set_is_unique(s: Seq<Seq<char>>, a: Seq<Seq<char>>, b: Seq<Seq<char>>)
    requires
        is_sorted_set(s, a),
        is_sorted_set(s, b),
    ensures
        a == b,
{
    if a.len() <= b.len() {
        lemma_sorted_prefix(a, b, a.len() as int);
        if a.len() < b.len() {
            let x = b[a.len() as int];
            assert(b.contains(x));
            assert(s.contains(x));
            assert(a.contains(x));
            let k = choose|k: int| 0 <= k < a.len() && a[k] == x;
            assert(less(b[k], b[a.len() as int]));
            less_is_a_strict_total_order(x, x, x);
        }
    } else {
        lemma_sorted_prefix(b, a, b.len() as int);
        let x = a[b.len() as int];
        assert(a.contains(x));
        assert(s.contains(x));
        assert(b.contains(x));
        let k = choose|k: int| 0 <= k < b.len() && b[k] == x;
        assert(less(a[k], a[b.len() as int]));
        less_is_a_strict_total_order(x, x, x);
    }
    assert(a =~= b);
}

proof fn lemma_sorted_prefix(a: Seq<Seq<char>>, b: Seq<Seq<char>>, n: int)
    requires
        0 <= n <= a.len(),
        a.len() <= b.len(),
        forall|i: int, j: int| 0 <= i < j < a.len() ==> less(#[trigger] a[i], #[trigger] a[j]),
        forall|i: int, j: int| 0 <= i < j < b.len() ==> less(#[trigger] b[i], #[trigger] b[j]),
        forall|x: Seq<char>| #[trigger] a.contains(x) <==> b.contains(x),
    ensures
        forall|i: int| 0 <= i < n ==> a[i] == b[i],
    decreases n,
{
    if n > 0 {
        lemma_sorted_prefix(a, b, n - 1);
        let i = n - 1;
        assert(a.contains(a[i]));
        assert(b.contains(a[i]));
        assert(b.contains(b[i]));
        assert(a.contains(b[i]));
        let j = choose|j: int| 0 <= j < b.len() && b[j] == a[i];
        let k = choose|k: int| 0 <= k < a.len() && a[k] == b[i];
        less_is_a_strict_total_order(a[i], b[i], a[i]);
        if j < i {
            assert(less(a[j], a[i]));
        } else if k < i {
            assert(less(b[k], b[i]));
            less_is_a_strict_total_order(b[i], b[i], b[i]);
        } else if j > i {
            assert(less(b[i], b[j]));
            if k > i {
                assert(less(a[i], a[k]));
            }
        }
    }
}

/// The texts of `s`, each once, in order.
pub open spec fn sorted_set(s: Seq<Seq<char>>) -> Seq<Seq<char>> {
    choose|r: Seq<Seq<char>>| is_sorted_set(s, r)
}

spec fn is_increasing(r: Seq<Seq<char>>) -> bool {
    forall|i: int, j: int| 0 <= i < j < r.len() ==> less(#[trigger] r[i], #[trigger] r[j])
}

proof fn lemma_insert(r: Seq<Seq<char>>, x: Seq<char>) -> (t: Seq<Seq<char>>)
    requires
        is_increasing(r),
    ensures
        is_increasing(t),
        forall|y: Seq<char>| #[trigger] t.contains(y) <==> r.contains(y) || y == x,
    decreases r.len(),
{
    if r.len() == 0 {
        let t = seq![x];
        assert(t[0] == x);
        t
    } else {
        let init = r.drop_last();
        let last = r.last();
        less_is_a_strict_total_order(x, last, x);
        less_is_a_strict_total_order(last, x, x);
        if last == x {
            assert(r[r.len() - 1] == x);
            r
        } else if less(last, x) {
            let t = r.push(x);
            assert forall|i: int, j: int| 0 <= i < j < t.len() implies less(#[trigger] t[i], #[trigger] t[j]) by {
                if j == r.len() && i < r.len() - 1 {
                    less_is_a_strict_total_order(r[i], last, x);
                }
            }
            assert forall|y: Seq<char>| #[trigger] t.contains(y) <==> r.contains(y) || y == x by {
                if r.contains(y) {
                    let k = choose|k: int| 0 <= k < r.len() && r[k] == y;
                    assert(t[k] == y);
                }
                assert(t[r.len() as int] == x);
            }
            t
        } else {
            let s = lemma_insert(init, x);
            let t = s.push(last);
            assert forall|i: int, j: int| 0 <= i < j < t.len() implies less(#[trigger] t[i], #[trigger] t[j]) by {
                if j == s.len() {
                    assert(s.contains(s[i]));
                    if s[i] != x {
                        let k = choose|k: int| 0 <= k < init.len() && init[k] == s[i];
                        assert(r[k] == s[i]);
                        assert(less(r[k], r[r.len() - 1]));
                    }
                }
            }
            assert forall|y: Seq<char>| #[trigger] t.contains(y) <==> r.contains(y) || y == x by {
                if r.contains(y) {
                    let k = choose|k: int| 0 <= k < r.len() && r[k] == y;
                    if k < init.len() {
                        assert(init[k] == y);
                        assert(init.contains(y));
                        assert(s.contains(y));
                        let m = choose|m: int| 0 <= m < s.len() && s[m] == y;
                        assert(t[m] == y);
                    } else {
                        assert(t[s.len() as int] == y);
                    }
                }
                if y == x {
                    assert(s.contains(y));
                    let m = choose|m: int| 0 <= m < s.len() && s[m] == y;
                    assert(t[m] == y);
                }
                if t.contains(y) {
                    let m = choose|m: int| 0 <= m < t.len() && t[m] == y;
                    if m < s.len() {
                        assert(s[m] == y);
                        assert(s.contains(y));
                        if y != x {
                            let k = choose|k: int| 0 <= k < init.len() && init[k] == y;
                            assert(r[k] == y);
                        }
                    } else {
                        assert(r[r.len() - 1] == y);
                    }
                }
            }
            t
        }
    }
}

proof fn lemma_sorted(s: Seq<Seq<char>>) -> (r: Seq<Seq<char>>)
    ensures
        is_sorted_set(s, r),
    decreases s.len(),
{
    if s.len() == 0 {
        Seq::empty()
    } else {
        let before = lemma_sorted(s.drop_last());
        let r = lemma_insert(before, s.last());
        assert forall|x: Seq<char>| #[trigger] r.contains(x) <==> s.contains(x) by {
            if s.contains(x) {
                let k = choose|k: int| 0 <= k < s.len() && s[k] == x;
                if k < s.len() - 1 {
                    assert(s.drop_last()[k] == x);
                    assert(s.drop_last().contains(x));
                    assert(before.contains(x));
                }
            }
            if r.contains(x) {
                if before.contains(x) {
                    assert(s.drop_last().contains(x));
                    let k = choose|k: int| 0 <= k < s.drop_last().len() && s.drop_last()[k] == x;
                    assert(s[k] == x);
                } else {
                    assert(s[s.len() - 1] == x);
                }
            }
        }
        r
    }
}

/// Every sequence of texts has its sorted texts.
pub proof fn sorted_set_exists(s: Seq<Seq<char>>)
    ensures
        is_sorted_set(s, sorted_set(s)),
{
    let r = lemma_sorted(s);
}

/// The texts of `v`, each once, in order.
pub fn sort_unique(v: Vec<String>) -> (r: Vec<String>)
    ensures
        is_sorted_set(seqs::views(v@), seqs::views(r@)),
        seqs::views(r@) == sorted_set(seqs::views(v@)),
{
    let ghost all = seqs::views(v@);
    let mut keys: Vec<Vec<char>> = Vec::new();
    let mut k: usize = 0;
    while k < v.len()
        invariant
            k <= v@.len(),
            all == seqs::views(v@),
            seqs::views(keys@) == all.take(k as int),
        decreases v@.len() - k,
    {
        let key = chars_of(&v[k]);
        let ghost so_far = seqs::views(keys@);
        keys.push(key);
        assert(seqs::views(keys@) =~= so_far.push(key@));
        assert(all.take(k + 1) =~= all.take(k as int).push(all[k as int]));
        k += 1;
    }
    assert(all.take(k as int) =~= all);
    let ranks = order(&keys);
    let ghost ps = positions(ranks@);
    let mut out: Vec<String> = Vec::new();
    let mut last: usize = 0;
    let mut k: usize = 0;
    while k < ranks.len()
        invariant
            k <= ranks@.len(),
            ranks@.len() == v@.len(),
            all == seqs::views(v@),
            all == seqs::views(keys@),
            ps == positions(ranks@),
            is_order(all, ps),
            forall|i: int| 0 <= i < ranks@.len() ==> (#[trigger] ranks@[i]) < v@.len(),
            out@.len() == 0 <==> k == 0,
            k > 0 ==> last == ranks@[k - 1] && seqs::views(out@).last() == all[last as int],
            forall|i: int, j: int|
                0 <= i < j < out@.len() ==> less(#[trigger] seqs::views(out@)[i], #[trigger] seqs::views(out@)[j]),
            forall|i: int| 0 <= i < out@.len() ==> all.contains(#[trigger] seqs::views(out@)[i]),
            forall|i: int| 0 <= i < k ==> seqs::views(out@).contains(all[#[trigger] ps[i]]),
        decreases ranks@.len() - k,
    {
        let i = ranks[k];
        let ghost so_far = seqs::views(out@);
        proof {
            assert(ps[k as int] == i);
            assert(all[i as int] == v@[i as int]@);
            assert(keys@[i as int]@ == all[i as int]);
            if k > 0 {
                assert(ps[k - 1] == last);
                assert(keys@[last as int]@ == all[last as int]);
                assert(before(all, ps[k - 1], ps[k as int]));
            }
        }
        if k == 0 || is_less(&keys[last], &keys[i]) {
            out.push(v[i].clone());
            proof {
                assert(seqs::views(out@) =~= so_far.push(all[i as int]));
                assert(all.contains(all[i as int]));
                assert forall|a: int, b: int| 0 <= a < b < out@.len() implies less(
                    #[trigger] seqs::views(out@)[a],
                    #[trigger] seqs::views(out@)[b],
                ) by {
                    if b == so_far.len() {
                        less_is_a_strict_total_order(so_far[a], so_far.last(), all[i as int]);
                    }
                }
                assert forall|x: Seq<char>| so_far.contains(x) implies seqs::views(out@).contains(x) by {
                    let m = choose|m: int| 0 <= m < so_far.len() && so_far[m] == x;
                    assert(seqs::views(out@)[m] == x);
                }
                assert(seqs::views(out@)[so_far.len() as int] == all[i as int]);
            }
        } else {
            assert(all[i as int] == so_far.last());
            assert(so_far.contains(so_far[so_far.len() - 1]));
        }
        last = i;
        k += 1;
    }
    proof {
        assert forall|x: Seq<char>| #[trigger] seqs::views(out@).contains(x) <==> all.contains(x) by {
            if all.contains(x) {
                let p = choose|p: int| 0 <= p < all.len() && all[p] == x;
                assert(ps.contains(p));
                let m = choose|m: int| 0 <= m < ps.len() && ps[m] == p;
                assert(seqs::views(out@).contains(all[ps[m]]));
            }
            if seqs::views(out@).contains(x) {
                let m = choose|m: int| 0 <= m < out@.len() && seqs::views(out@)[m] == x;
                assert(all.contains(seqs::views(out@)[m]));
            }
        }
        assert(is_sorted_set(all, seqs::views(out@)));
        sorted_set_is_unique(all, sorted_set(all), seqs::views(out@));
    }
    out
}

/// The stable order of a sequence of keys exists.
pub proof fn order_exists(keys: Seq<Seq<char>>) -> (r: Seq<int>)
    ensures
        is_order(keys, r),
    decreases keys.len(),
{
    if keys.len() == 0 {
        Seq::empty()
    } else {
        let n = keys.len() - 1;
        let front = keys.drop_last();
        let ks = order_exists(front);
        assert forall|i: int, j: int| 0 <= i < n && 0 <= j < n implies #[trigger] before(front, i, j) == before(
            keys,
            i,
            j,
        ) by {}
        lemma_place(keys, ks, ks.len() as int)
    }
}

proof fn lemma_place(keys: Seq<Seq<char>>, ks: Seq<int>, k: int) -> (r: Seq<int>)
    requires
        keys.len() > 0,
        is_order(keys.drop_last(), ks),
        0 <= k <= ks.len(),
        forall|j: int| k <= j < ks.len() ==> before(keys, keys.len() - 1, #[trigger] ks[j]),
    ensures
        is_order(keys, r),
    decreases k,
{
    let n = keys.len() - 1;
    let front = keys.drop_last();
    if k > 0 && before(keys, n, ks[k - 1]) {
        lemma_place(keys, ks, k - 1)
    } else {
        let r = ks.take(k).push(n) + ks.skip(k);
        assert forall|i: int| 0 <= i < r.len() implies 0 <= (#[trigger] r[i]) < keys.len() by {
            if i < k {
                assert(r[i] == ks[i]);
            } else if i > k {
                assert(r[i] == ks[i - 1]);
            }
        }
        assert forall|i: int| 0 <= i < k implies before(keys, #[trigger] ks[i], n) by {
            less_is_a_strict_total_order(keys[ks[k - 1]], keys[n], keys[n]);
            if i < k - 1 {
                assert(before(front, ks[i], ks[k - 1]));
                lemma_before_transitive(keys, ks[i], ks[k - 1], n);
            }
        }
        assert forall|i: int, j: int| 0 <= i < j < r.len() implies before(
            keys,
            #[trigger] r[i],
            #[trigger] r[j],
        ) by {
            let a = if i < k { i } else { i - 1 };
            let b = if j < k { j } else { j - 1 };
            if i == k {
                assert(r[j] == ks[j - 1]);
            } else if j == k {
                assert(r[i] == ks[i]);
            } else {
                assert(r[i] == ks[a]);
                assert(r[j] == ks[b]);
                assert(before(front, ks[a], ks[b]));
            }
        }
        assert forall|x: int| 0 <= x < keys.len() implies #[trigger] r.contains(x) by {
            if x == n {
                assert(r[k] == n);
            } else {
                assert(ks.contains(x));
                let j = choose|j: int| 0 <= j < ks.len() && ks[j] == x;
                assert(r[if j < k { j } else { j + 1 }] == x);
            }
        }
        r
    }
}

/// The texts are arranged by their keys: each stands once, by its key, and by its
/// place where keys are equal.
pub proof fn arranged_texts_are_in_order(lines: Seq<Seq<char>>, keys: Seq<Seq<char>>)
    requires
        lines.len() == keys.len(),
    ensures
        exists|ks: Seq<int>| #[trigger]
            is_order(keys, ks) && arranged(lines, keys) == ks.map_values(|k: int| lines[k]),
        arranged(lines, keys).len() == lines.len(),
        forall|x: Seq<char>| #[trigger] arranged(lines, keys).contains(x) <==> lines.contains(x),
{
    let found = order_exists(keys);
    assert(is_order(keys, found));
    let ks = choose|ks: Seq<int>| is_order(keys, ks);
    assert(is_order(keys, ks));
    let all = arranged(lines, keys);
    assert forall|x: Seq<char>| #[trigger] all.contains(x) <==> lines.contains(x) by {
        if all.contains(x) {
            let i = choose|i: int| 0 <= i < all.len() && all[i] == x;
            assert(lines[ks[i]] == x);
        }
        if lines.contains(x) {
            let k = choose|k: int| 0 <= k < lines.len() && lines[k] == x;
            assert(ks.contains(k));
            let i = choose|i: int| 0 <= i < ks.len() && ks[i] == k;
            assert(all[i] == x);
        }
    }
}

} // verus!
