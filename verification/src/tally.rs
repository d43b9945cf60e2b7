//! Sums over finite maps, and the facts about them that the statistics use.
use vstd::prelude::*;

verus! {

/// The sum of `f` over the values of the finite map `m`.
pub open spec fn sum_of<K, V>(m: Map<K, V>, f: spec_fn(V) -> int) -> int
    decreases m.dom().len(),
    when m.dom().finite()
{
    if m.dom().len() == 0 {
        0
    } else {
        let k = m.dom().choose();
        f(m[k]) + sum_of(m.remove(k), f)
    }
}

/// Removing any one key takes its value out of the sum.
pub proof fn lemma_sum_remove<K, V>(m: Map<K, V>, f: spec_fn(V) -> int, k: K)
    requires
        m.dom().finite(),
        m.dom().contains(k),
    ensures
        sum_of(m, f) == f(m[k]) + sum_of(m.remove(k), f),
    decreases m.dom().len(),
{
    let c = m.dom().choose();
    assert(m.dom().len() != 0);
    if c != k {
        let mc = m.remove(c);
        let mk = m.remove(k);
        lemma_sum_remove(mc, f, k);
        lemma_sum_remove(mk, f, c);
        assert(mc.remove(k) =~= mk.remove(c));
    }
}

/// Setting `k` to `v` replaces whatever `k` held in the sum by `f(v)`.
pub proof fn lemma_sum_insert<K, V>(m: Map<K, V>, f: spec_fn(V) -> int, k: K, v: V)
    requires
        m.dom().finite(),
    ensures
        sum_of(m.insert(k, v), f) == f(v) + sum_of(m.remove(k), f),
{
    let mi = m.insert(k, v);
    lemma_sum_remove(mi, f, k);
    assert(mi.remove(k) =~= m.remove(k));
}

/// Where `k` is absent, removing it changes nothing.
pub proof fn lemma_sum_remove_absent<K, V>(m: Map<K, V>, f: spec_fn(V) -> int, k: K)
    requires
        m.dom().finite(),
        !m.dom().contains(k),
    ensures
        sum_of(m.remove(k), f) == sum_of(m, f),
{
    assert(m.remove(k) =~= m);
}

/// The empty map sums to zero.
pub proof fn lemma_sum_empty<K, V>(f: spec_fn(V) -> int)
    ensures
        sum_of(Map::<K, V>::empty(), f) == 0,
{
    assert(Map::<K, V>::empty().dom().len() == 0);
}

/// A sum of values that are never negative is at least each of its terms.
pub proof fn lemma_sum_bounds_term<K, V>(m: Map<K, V>, f: spec_fn(V) -> int, k: K)
    requires
        m.dom().finite(),
        m.dom().contains(k),
        forall|v: V| #[trigger] f(v) >= 0,
    ensures
        0 <= f(m[k]) <= sum_of(m, f),
{
    lemma_sum_remove(m, f, k);
    lemma_sum_nonneg(m.remove(k), f);
}

/// A sum of values that are never negative is not negative.
pub proof fn lemma_sum_nonneg<K, V>(m: Map<K, V>, f: spec_fn(V) -> int)
    requires
        m.dom().finite(),
        forall|v: V| #[trigger] f(v) >= 0,
    ensures
        sum_of(m, f) >= 0,
    decreases m.dom().len(),
{
    if m.dom().len() != 0 {
        let k = m.dom().choose();
        lemma_sum_nonneg(m.remove(k), f);
    }
}

/// The sum of `f` over the elements of `s`.
pub open spec fn seq_sum<A>(s: Seq<A>, f: spec_fn(A) -> int) -> int
    decreases s.len(),
{
    if s.len() == 0 {
        0
    } else {
        seq_sum(s.drop_last(), f) + f(s.last())
    }
}

/// Replacing one element replaces its term in the sum.
pub proof fn lemma_seq_sum_update<A>(s: Seq<A>, f: spec_fn(A) -> int, i: int, x: A)
    requires
        0 <= i < s.len(),
    ensures
        seq_sum(s.update(i, x), f) == seq_sum(s, f) - f(s[i]) + f(x),
    decreases s.len(),
{
    let t = s.update(i, x);
    if i == s.len() - 1 {
        assert(t.drop_last() =~= s.drop_last());
    } else {
        lemma_seq_sum_update(s.drop_last(), f, i, x);
        assert(t.drop_last() =~= s.drop_last().update(i, x));
    }
}

/// Inserting one element adds its term to the sum.
pub proof fn lemma_seq_sum_insert<A>(s: Seq<A>, f: spec_fn(A) -> int, i: int, x: A)
    requires
        0 <= i <= s.len(),
    ensures
        seq_sum(s.insert(i, x), f) == seq_sum(s, f) + f(x),
    decreases s.len(),
{
    let t = s.insert(i, x);
    if i == s.len() {
        assert(t.drop_last() =~= s);
    } else {
        lemma_seq_sum_insert(s.drop_last(), f, i, x);
        assert(t.drop_last() =~= s.drop_last().insert(i, x));
    }
}

/// A sum of terms that are never negative bounds each of its terms.
pub proof fn lemma_seq_sum_bounds_term<A>(s: Seq<A>, f: spec_fn(A) -> int, i: int)
    requires
        0 <= i < s.len(),
        forall|a: A| #[trigger] f(a) >= 0,
    ensures
        0 <= f(s[i]) <= seq_sum(s, f),
    decreases s.len(),
{
    lemma_seq_sum_nonneg(s.drop_last(), f);
    if i < s.len() - 1 {
        lemma_seq_sum_bounds_term(s.drop_last(), f, i);
    }
}

/// A sum of terms that are never negative is not negative.
pub proof fn lemma_seq_sum_nonneg<A>(s: Seq<A>, f: spec_fn(A) -> int)
    requires
        forall|a: A| #[trigger] f(a) >= 0,
    ensures
        seq_sum(s, f) >= 0,
    decreases s.len(),
{
    if s.len() > 0 {
        lemma_seq_sum_nonneg(s.drop_last(), f);
    }
}

/// A sequence that lists each entry of a finite map exactly once sums, term by
/// term, to the sum over the map.
pub proof fn lemma_listing_sum<K, V, A>(
    m: Map<K, V>,
    s: Seq<A>,
    key: spec_fn(A) -> K,
    f: spec_fn(V) -> int,
    g: spec_fn(A) -> int,
)
    requires
        m.dom().finite(),
        s.len() == m.dom().len(),
        forall|i: int| 0 <= i < s.len() ==> #[trigger] m.dom().contains(key(s[i])),
        forall|i: int| 0 <= i < s.len() ==> #[trigger] g(s[i]) == f(m[key(s[i])]),
        forall|i: int, j: int|
            0 <= i < j < s.len() ==> #[trigger] key(s[i]) != #[trigger] key(s[j]),
    ensures
        seq_sum(s, g) == sum_of(m, f),
    decreases s.len(),
{
    if s.len() == 0 {
        assert(m.dom().len() == 0);
    } else {
        let n = s.len() - 1;
        let k = key(s[n]);
        let t = s.drop_last();
        let r = m.remove(k);
        assert(m.dom().contains(k));
        assert forall|i: int| 0 <= i < t.len() implies #[trigger] r.dom().contains(key(t[i])) by {
            assert(t[i] == s[i]);
            assert(key(s[i]) != key(s[n]));
            assert(m.dom().contains(key(s[i])));
        }
        assert forall|i: int| 0 <= i < t.len() implies #[trigger] g(t[i]) == f(r[key(t[i])]) by {
            assert(t[i] == s[i]);
            assert(key(s[i]) != key(s[n]));
            assert(g(s[i]) == f(m[key(s[i])]));
        }
        assert forall|i: int, j: int| 0 <= i < j < t.len() implies #[trigger] key(t[i])
            != #[trigger] key(t[j]) by {
            assert(t[i] == s[i] && t[j] == s[j]);
        }
        lemma_listing_sum(r, t, key, f, g);
        lemma_sum_remove(m, f, k);
        assert(g(s[n]) == f(m[key(s[n])]));
    }
}

/// A sequence of distinct elements of a finite set, as long as the set,
/// holds every element of the set.
pub proof fn lemma_listing_covers<A>(s: Seq<A>, d: Set<A>)
    requires
        d.finite(),
        s.len() == d.len(),
        forall|i: int| 0 <= i < s.len() ==> d.contains(#[trigger] s[i]),
        forall|i: int, j: int| 0 <= i < j < s.len() ==> #[trigger] s[i] != #[trigger] s[j],
    ensures
        forall|x: A| d.contains(x) ==> s.contains(x),
{
    assert(s.no_duplicates()) by {
        assert forall|i: int, j: int| 0 <= i < s.len() && 0 <= j < s.len() && i != j implies s[i]
            != s[j] by {
            if i < j {
                assert(s[i] != s[j]);
            } else {
                assert(s[j] != s[i]);
            }
        }
    }
    s.unique_seq_to_set();
    assert(s.to_set().subset_of(d));
    vstd::set_lib::lemma_subset_equality(s.to_set(), d);
    assert forall|x: A| d.contains(x) implies s.contains(x) by {
        assert(s.to_set().contains(x));
    }
}

/// Two strictly increasing sequences of integers that hold the same numbers
/// are equal.
pub proof fn lemma_increasing_same_equal(s: Seq<int>, t: Seq<int>)
    requires
        forall|i: int, j: int| 0 <= i < j < s.len() ==> #[trigger] s[i] < #[trigger] s[j],
        forall|i: int, j: int| 0 <= i < j < t.len() ==> #[trigger] t[i] < #[trigger] t[j],
        forall|x: int| s.contains(x) <==> t.contains(x),
    ensures
        s == t,
    decreases s.len(),
{
    if s.len() == 0 {
        if t.len() > 0 {
            assert(t.contains(t[0]));
        }
        assert(s =~= t);
    } else {
        assert(s.contains(s.last()));
        assert(t.len() > 0);
        assert(t.contains(t.last()));
        let a = s.last();
        let b = t.last();
        let i = choose|i: int| 0 <= i < s.len() && s[i] == b;
        let j = choose|j: int| 0 <= j < t.len() && t[j] == a;
        if i < s.len() - 1 {
            assert(s[i] < s[s.len() - 1]);
        }
        if j < t.len() - 1 {
            assert(t[j] < t[t.len() - 1]);
        }
        let s1 = s.drop_last();
        let t1 = t.drop_last();
        assert forall|x: int| s1.contains(x) <==> t1.contains(x) by {
            if s1.contains(x) {
                let k = choose|k: int| 0 <= k < s1.len() && s1[k] == x;
                assert(s[k] == x && s[k] < s[s.len() - 1]);
                assert(t.contains(x));
                let m = choose|m: int| 0 <= m < t.len() && t[m] == x;
                assert(t1[m] == x);
            }
            if t1.contains(x) {
                let k = choose|k: int| 0 <= k < t1.len() && t1[k] == x;
                assert(t[k] == x && t[k] < t[t.len() - 1]);
                assert(s.contains(x));
                let m = choose|m: int| 0 <= m < s.len() && s[m] == x;
                assert(s1[m] == x);
            }
        }
        lemma_increasing_same_equal(s1, t1);
        assert(s =~= s1.push(a));
        assert(t =~= t1.push(b));
    }
}

} // verus!
