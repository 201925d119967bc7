//! Stable sorting.

use vstd::prelude::*;

verus! {

/// What can be sorted: a strict weak order.
pub trait Ranked: Sized {
    /// Whether one value is to stand before another.
    spec fn before(self, other: Self) -> bool;

    /// Decides whether this value is to stand before another.
    fn is_before(&self, other: &Self) -> (yes: bool)
        ensures
            yes == self.before(*other),
    ;

    /// Two values cannot both stand before each other.
    proof fn lemma_asymmetric(a: Self, b: Self)
        requires
            a.before(b),
        ensures
            !b.before(a),
    ;

    /// A value between two that are ordered is ordered with one of them.
    proof fn lemma_between(a: Self, b: Self, c: Self)
        requires
            a.before(c),
        ensures
            a.before(b) || b.before(c),
    ;
}

/// Whether neither of two values is to stand before the other.
pub open spec fn tied<T: Ranked>(a: T, b: T) -> bool {
    !a.before(b) && !b.before(a)
}

/// Whether no value stands behind one that it is to stand before.
pub open spec fn is_sorted<T: Ranked>(s: Seq<T>) -> bool {
    forall|i: int, j: int| 0 <= i < j < s.len() ==> !(#[trigger] s[j]).before(#[trigger] s[i])
}

/// The values of a sequence that are tied with `x`, in order.
pub open spec fn ties<T: Ranked>(s: Seq<T>, x: T) -> Seq<T> {
    s.filter(|y: T| tied(x, y))
}

/// Whether `t` is `s` sorted, with tied values in the same order.
pub open spec fn stably_sorted<T: Ranked>(s: Seq<T>, t: Seq<T>) -> bool {
    &&& is_sorted(t)
    &&& s.to_multiset() == t.to_multiset()
    &&& forall|x: T| #[trigger] ties(t, x) == ties(s, x)
}

/// Putting a value behind all that it is not to stand before keeps a sequence
/// sorted, and adds the value at the end of its ties.
proof fn lemma_insert<T: Ranked>(t: Seq<T>, p: int, x: T)
    requires
        is_sorted(t),
        0 <= p <= t.len(),
        forall|i: int| 0 <= i < p ==> !x.before(#[trigger] t[i]),
        forall|j: int| p <= j < t.len() ==> x.before(#[trigger] t[j]),
    ensures
        is_sorted(t.insert(p, x)),
        t.insert(p, x).to_multiset() == t.push(x).to_multiset(),
        forall|k: T| #[trigger] ties(t.insert(p, x), k) == ties(t.push(x), k),
{
    let u = t.insert(p, x);
    assert forall|i: int, j: int| 0 <= i < j < u.len() implies !(#[trigger] u[j]).before(
        #[trigger] u[i],
    ) by {
        if i == p {
            T::lemma_asymmetric(x, t[j - 1]);
        } else if i < p && j > p {
            assert(u[j] == t[j - 1]);
        } else if i > p {
            assert(u[i] == t[i - 1]);
            assert(u[j] == t[j - 1]);
        }
    }
    assert(u.to_multiset() == t.push(x).to_multiset()) by {
        broadcast use vstd::seq_lib::group_to_multiset_ensures;

        t.insert_ensures(p, x);
        assert(u =~= t.insert(p, x));
        vstd::seq_lib::lemma_multiset_commutative(t.take(p).push(x), t.skip(p));
        vstd::seq_lib::lemma_multiset_commutative(t.take(p), t.skip(p));
        assert(u =~= t.take(p).push(x) + t.skip(p));
        assert(t =~= t.take(p) + t.skip(p));
    }
    assert forall|k: T| #[trigger] ties(u, k) == ties(t.push(x), k) by {
        let f = |y: T| tied(k, y);
        let a = t.take(p);
        let b = t.skip(p);
        let one = seq![x];
        assert(u =~= a + one + b);
        assert(t.push(x) =~= a + b + one);
        Seq::filter_distributes_over_add(a + one, b, f);
        Seq::filter_distributes_over_add(a, one, f);
        Seq::filter_distributes_over_add(a + b, one, f);
        Seq::filter_distributes_over_add(a, b, f);
        if f(x) {
            assert forall|j: int| 0 <= j < b.len() implies !f(#[trigger] b[j]) by {
                assert(x.before(t[p + j]));
                T::lemma_between(x, k, t[p + j]);
            }
            lemma_filter_none(b, f);
            assert(b.filter(f) =~= Seq::empty());
            assert(ties(u, k) =~= ties(t.push(x), k));
        } else {
            assert forall|j: int| 0 <= j < one.len() implies !f(#[trigger] one[j]) by {}
            lemma_filter_none(one, f);
            assert(one.filter(f) =~= Seq::empty());
            assert(ties(u, k) =~= ties(t.push(x), k));
        }
    }
}

proof fn lemma_filter_none<T>(s: Seq<T>, f: spec_fn(T) -> bool)
    requires
        forall|i: int| 0 <= i < s.len() ==> !f(#[trigger] s[i]),
    ensures
        s.filter(f).len() == 0,
    decreases s.len(),
{
    reveal(Seq::filter);
    if s.len() > 0 {
        let front = s.drop_last();
        assert forall|i: int| 0 <= i < front.len() implies !f(#[trigger] front[i]) by {
            assert(front[i] == s[i]);
        }
        lemma_filter_none(front, f);
        assert(!f(s[s.len() - 1]));
    }
}

/// Appending the same value keeps two sequences related.
proof fn lemma_sorted_push<T: Ranked>(s: Seq<T>, t: Seq<T>, x: T)
    requires
        stably_sorted(s, t),
    ensures
        s.push(x).to_multiset() == t.push(x).to_multiset(),
        forall|k: T| #[trigger] ties(t.push(x), k) == ties(s.push(x), k),
{
    broadcast use vstd::seq_lib::group_to_multiset_ensures;

    let one = seq![x];
    assert forall|k: T| #[trigger] ties(t.push(x), k) == ties(s.push(x), k) by {
        let f = |y: T| tied(k, y);
        assert(t.push(x) =~= t + one);
        assert(s.push(x) =~= s + one);
        Seq::filter_distributes_over_add(t, one, f);
        Seq::filter_distributes_over_add(s, one, f);
        assert(ties(t, k) == ties(s, k));
    }
}

/// Sorts a vector. Tied values stay in order. Takes linear time on a vector that
/// is sorted already.
pub fn stable_sort<T: Ranked>(v: &mut Vec<T>)
    ensures
        stably_sorted(old(v)@, final(v)@),
{
    let ghost start = v@;
    let mut n: usize = 0;
    proof {
        assert(start.take(0) =~= v@.take(0));
        assert(is_sorted(v@.take(0)));
    }
    while n < v.len()
        invariant
            n <= v@.len(),
            v@.len() == start.len(),
            stably_sorted(start.take(n as int), v@.take(n as int)),
            v@.skip(n as int) == start.skip(n as int),
        decreases v@.len() - n,
    {
        let ghost before = v@;
        let ghost t = v@.take(n as int);
        let ghost x = v@[n as int];
        proof {
            assert(x == v@.skip(n as int)[0]);
            assert(x == start.skip(n as int)[0]);
            assert(start.take(n + 1) =~= start.take(n as int).push(x));
            lemma_sorted_push(start.take(n as int), t, x);
        }
        let mut p: usize = n;
        while p > 0 && v[n].is_before(&v[p - 1])
            invariant
                p <= n,
                n < v@.len(),
                v@ == before,
                t == before.take(n as int),
                x == before[n as int],
                is_sorted(t),
                forall|j: int| p <= j < n ==> x.before(#[trigger] t[j]),
            decreases p,
        {
            p -= 1;
        }
        proof {
            assert forall|i: int| 0 <= i < p implies !x.before(#[trigger] t[i]) by {
                assert(!x.before(t[p - 1]));
                if i < p - 1 && x.before(t[i]) {
                    assert(!t[p - 1].before(t[i]));
                    T::lemma_between(x, t[p - 1], t[i]);
                }
            }
            lemma_insert(t, p as int, x);
        }
        if p < n {
            let moved = v.remove(n);
            v.insert(p, moved);
        }
        proof {
            assert(v@.take(n + 1) =~= t.insert(p as int, x));
            assert forall|k: T| #[trigger] ties(v@.take(n + 1), k) == ties(
                start.take(n + 1),
                k,
            ) by {
                assert(ties(t.insert(p as int, x), k) == ties(t.push(x), k));
                assert(ties(t.push(x), k) == ties(start.take(n as int).push(x), k));
            }
            assert(v@.skip(n + 1) =~= before.skip(n as int).skip(1));
            assert(start.skip(n + 1) =~= start.skip(n as int).skip(1));
        }
        n += 1;
    }
    assert(v@.take(n as int) =~= v@);
    assert(start.take(n as int) =~= start);
}

/// Whether one byte string comes before another in the order of a dictionary.
pub open spec fn bytes_before(a: Seq<u8>, b: Seq<u8>) -> bool
    decreases a.len(),
{
    if b.len() == 0 {
        false
    } else if a.len() == 0 {
        true
    } else if a[0] != b[0] {
        a[0] < b[0]
    } else {
        bytes_before(a.drop_first(), b.drop_first())
    }
}

/// Two byte strings cannot both come before each other.
pub proof fn lemma_bytes_asymmetric(a: Seq<u8>, b: Seq<u8>)
    requires
        bytes_before(a, b),
    ensures
        !bytes_before(b, a),
    decreases a.len(),
{
    if a.len() > 0 && b.len() > 0 && a[0] == b[0] {
        lemma_bytes_asymmetric(a.drop_first(), b.drop_first());
    }
}

/// A byte string between two that are ordered is ordered with one of them.
pub proof fn lemma_bytes_between(a: Seq<u8>, b: Seq<u8>, c: Seq<u8>)
    requires
        bytes_before(a, c),
    ensures
        bytes_before(a, b) || bytes_before(b, c),
    decreases a.len(),
{
    if a.len() > 0 && b.len() > 0 && c.len() > 0 && a[0] == b[0] && b[0] == c[0] {
        lemma_bytes_between(a.drop_first(), b.drop_first(), c.drop_first());
    }
}

/// Compares two byte strings in the order of a dictionary.
pub fn is_bytes_before(a: &[u8], b: &[u8]) -> (yes: bool)
    ensures
        yes == bytes_before(a@, b@),
{
    let mut i: usize = 0;
    assert(a@.skip(0) =~= a@);
    assert(b@.skip(0) =~= b@);
    loop
        invariant
            i <= a@.len(),
            i <= b@.len(),
            bytes_before(a@, b@) == bytes_before(a@.skip(i as int), b@.skip(i as int)),
        decreases a@.len() - i,
    {
        if i == b.len() {
            return false;
        }
        if i == a.len() {
            return true;
        }
        if a[i] != b[i] {
            return a[i] < b[i];
        }
        assert(a@.skip(i as int).drop_first() =~= a@.skip(i + 1));
        assert(b@.skip(i as int).drop_first() =~= b@.skip(i + 1));
        i += 1;
    }
}

/// One byte string comes before another if it is a proper prefix of it, or has the
/// smaller byte where the two first differ.
pub proof fn law_dictionary_order(a: Seq<u8>, b: Seq<u8>, p: int)
    requires
        0 <= p <= a.len(),
        p <= b.len(),
        forall|i: int| 0 <= i < p ==> a[i] == b[i],
        p == a.len() || p == b.len() || a[p] != b[p],
    ensures
        bytes_before(a, b) == (p < b.len() && (p == a.len() || a[p] < b[p])),
    decreases p,
{
    if p > 0 {
        let x = a.drop_first();
        let y = b.drop_first();
        assert forall|i: int| 0 <= i < p - 1 implies x[i] == y[i] by {
            assert(x[i] == a[i + 1] && y[i] == b[i + 1]);
        }
        law_dictionary_order(x, y, p - 1);
    }
}

proof fn lemma_ties_first<T: Ranked>(s: Seq<T>, x: T)
    requires
        s.len() > 0,
    ensures
        ties(s, x) == (if tied(x, s[0]) {
            seq![s[0]]
        } else {
            Seq::empty()
        }) + ties(s.drop_first(), x),
{
    let f = |y: T| tied(x, y);
    let one = seq![s[0]];
    let rest = s.drop_first();
    assert(s =~= one + rest);
    Seq::filter_distributes_over_add(one, rest, f);
    reveal(Seq::filter);
    assert(one.drop_last() =~= Seq::empty());
    assert(one.drop_last().filter(f) =~= Seq::empty());
    assert(one.filter(f) =~= if f(s[0]) {
        seq![s[0]]
    } else {
        Seq::empty()
    });
}

/// Sorting what is sorted changes nothing: values that are tied keep their places.
pub proof fn law_sorted_lists_stay<T: Ranked>(s: Seq<T>, t: Seq<T>)
    requires
        is_sorted(s),
        stably_sorted(s, t),
    ensures
        s == t,
    decreases s.len(),
{
    broadcast use vstd::seq_lib::group_to_multiset_ensures;

    assert(s.len() == s.to_multiset().len());
    assert(t.len() == t.to_multiset().len());
    if s.len() == 0 {
        assert(s =~= t);
    } else {
        let x = s[0];
        let y = t[0];
        assert(s.contains(x) && t.contains(y));
        assert(s.to_multiset().count(x) > 0 && t.to_multiset().count(y) > 0);
        assert(t.contains(x) && s.contains(y));
        let j = choose|j: int| 0 <= j < t.len() && t[j] == x;
        let k = choose|k: int| 0 <= k < s.len() && s[k] == y;
        if x.before(x) {
            T::lemma_asymmetric(x, x);
        }
        assert(!x.before(y)) by {
            if j > 0 {
                assert(!t[j].before(t[0]));
            }
        }
        assert(!y.before(x)) by {
            if k > 0 {
                assert(!s[k].before(s[0]));
            }
        }
        lemma_ties_first(s, x);
        lemma_ties_first(t, x);
        assert(ties(t, x) == ties(s, x));
        assert(ties(s, x)[0] == x);
        assert(ties(t, x)[0] == y);
        let u = s.drop_first();
        let v = t.drop_first();
        assert(u =~= s.remove(0));
        assert(v =~= t.remove(0));
        assert(is_sorted(u)) by {
            assert forall|i: int, j: int| 0 <= i < j < u.len() implies !(#[trigger] u[j]).before(
                #[trigger] u[i],
            ) by {
                assert(u[i] == s[i + 1] && u[j] == s[j + 1]);
            }
        }
        assert(is_sorted(v)) by {
            assert forall|i: int, j: int| 0 <= i < j < v.len() implies !(#[trigger] v[j]).before(
                #[trigger] v[i],
            ) by {
                assert(v[i] == t[i + 1] && v[j] == t[j + 1]);
            }
        }
        assert forall|k: T| #[trigger] ties(v, k) == ties(u, k) by {
            lemma_ties_first(s, k);
            lemma_ties_first(t, k);
            assert(ties(t, k) == ties(s, k));
            let a = ties(s, k);
            if tied(k, x) {
                assert(ties(u, k) =~= a.drop_first());
                assert(ties(v, k) =~= a.drop_first());
            } else {
                assert(ties(u, k) =~= a);
                assert(ties(v, k) =~= a);
            }
        }
        law_sorted_lists_stay(u, v);
        assert(s =~= seq![x] + u);
        assert(t =~= seq![y] + v);
    }
}

} // verus!
