//! The order of names: lexicographic over characters, which is the order in
//! which Rust compares `String`s (UTF-8 keeps the order of code points).
use vstd::prelude::*;

verus! {

/// `a` comes strictly before `b`.
pub open spec fn seq_lt(a: Seq<char>, b: Seq<char>) -> bool
    decreases a.len(),
{
    if a.len() == 0 {
        b.len() > 0
    } else if b.len() == 0 {
        false
    } else if a[0] != b[0] {
        (a[0] as int) < (b[0] as int)
    } else {
        seq_lt(a.drop_first(), b.drop_first())
    }
}

/// No name comes before itself.
pub proof fn lemma_seq_lt_irreflexive(a: Seq<char>)
    ensures
        !seq_lt(a, a),
    decreases a.len(),
{
    if a.len() > 0 {
        lemma_seq_lt_irreflexive(a.drop_first());
    }
}

/// Of two different names exactly one comes first.
pub proof fn lemma_seq_lt_trichotomy(a: Seq<char>, b: Seq<char>)
    ensures
        a != b ==> (seq_lt(a, b) || seq_lt(b, a)),
        !(seq_lt(a, b) && seq_lt(b, a)),
    decreases a.len(),
{
    if a.len() > 0 && b.len() > 0 && a[0] == b[0] {
        lemma_seq_lt_trichotomy(a.drop_first(), b.drop_first());
        if a.drop_first() == b.drop_first() {
            assert forall|i: int| 0 <= i < a.len() implies a[i] == b[i] by {
                if i > 0 {
                    assert(a[i] == a.drop_first()[i - 1]);
                    assert(b[i] == b.drop_first()[i - 1]);
                }
            }
            assert(a =~= b);
        }
    } else if a.len() == 0 && b.len() == 0 {
        assert(a =~= b);
    } else if a.len() > 0 && b.len() > 0 {
        assert((a[0] as int) != (b[0] as int));
    }
}

/// The order is transitive.
pub proof fn lemma_seq_lt_transitive(a: Seq<char>, b: Seq<char>, c: Seq<char>)
    requires
        seq_lt(a, b),
        seq_lt(b, c),
    ensures
        seq_lt(a, c),
    decreases a.len(),
{
    if a.len() > 0 && b.len() > 0 && c.len() > 0 && a[0] == b[0] && b[0] == c[0] {
        lemma_seq_lt_transitive(a.drop_first(), b.drop_first(), c.drop_first());
    }
}

/// Past an equal prefix of length `i`, the comparison is that of the rests.
proof fn lemma_seq_lt_skip(a: Seq<char>, b: Seq<char>, i: int)
    requires
        0 <= i < a.len(),
        i < b.len(),
    ensures
        a[i] != b[i] ==> (seq_lt(a.skip(i), b.skip(i)) <==> (a[i] as int) < (b[i] as int)),
        a[i] == b[i] ==> (seq_lt(a.skip(i), b.skip(i)) <==> seq_lt(a.skip(i + 1), b.skip(i + 1))),
{
    assert(a.skip(i).drop_first() =~= a.skip(i + 1));
    assert(b.skip(i).drop_first() =~= b.skip(i + 1));
}

/// Whether `a` comes strictly before `b`.
pub fn str_lt(a: &str, b: &str) -> (r: bool)
    ensures
        r == seq_lt(a@, b@),
{
    let la = a.unicode_len();
    let lb = b.unicode_len();
    let mut i: usize = 0;
    assert(a@.skip(0) =~= a@);
    assert(b@.skip(0) =~= b@);
    while i < la && i < lb
        invariant
            la == a@.len(),
            lb == b@.len(),
            i <= la,
            i <= lb,
            seq_lt(a@, b@) == seq_lt(a@.skip(i as int), b@.skip(i as int)),
        decreases la - i,
    {
        let ca = a.get_char(i);
        let cb = b.get_char(i);
        proof {
            lemma_seq_lt_skip(a@, b@, i as int);
        }
        if (ca as u32) != (cb as u32) {
            return (ca as u32) < (cb as u32);
        }
        i = i + 1;
    }
    i < lb
}

/// Every name of `s` comes strictly before each name after it.
pub open spec fn strictly_sorted(s: Seq<Seq<char>>) -> bool {
    forall|i: int, j: int| 0 <= i < j < s.len() ==> seq_lt(#[trigger] s[i], #[trigger] s[j])
}

/// The names of the entries of `s`.
pub open spec fn names<T>(s: Seq<(String, T)>) -> Seq<Seq<char>> {
    s.map_values(|p: (String, T)| p.0@)
}

/// How many names of `s` come strictly before `x`: where `x` stands, or
/// would stand, in a sorted `s`.
pub open spec fn count_less(s: Seq<Seq<char>>, x: Seq<char>) -> nat
    decreases s.len(),
{
    if s.len() == 0 {
        0
    } else {
        count_less(s.drop_last(), x) + if seq_lt(s.last(), x) {
            1nat
        } else {
            0nat
        }
    }
}

/// In a sorted sequence, the names before `count_less` come before `x`, and
/// the others do not.
pub proof fn lemma_count_less_splits(s: Seq<Seq<char>>, x: Seq<char>)
    requires
        strictly_sorted(s),
    ensures
        count_less(s, x) <= s.len(),
        forall|j: int| 0 <= j < count_less(s, x) ==> seq_lt(#[trigger] s[j], x),
        forall|j: int| count_less(s, x) <= j < s.len() ==> !seq_lt(#[trigger] s[j], x),
    decreases s.len(),
{
    if s.len() > 0 {
        let t = s.drop_last();
        assert(strictly_sorted(t)) by {
            assert forall|i: int, j: int| 0 <= i < j < t.len() implies seq_lt(
                #[trigger] t[i],
                #[trigger] t[j],
            ) by {
                assert(t[i] == s[i] && t[j] == s[j]);
            }
        }
        lemma_count_less_splits(t, x);
        let c = count_less(t, x);
        if seq_lt(s.last(), x) {
            assert forall|j: int| 0 <= j < t.len() implies seq_lt(#[trigger] t[j], x) by {
                assert(t[j] == s[j]);
                assert(seq_lt(s[j], s[s.len() - 1]));
                lemma_seq_lt_transitive(s[j], s.last(), x);
            }
            if c < t.len() {
                assert(seq_lt(t[c as int], x));
            }
        }
        assert forall|j: int| 0 <= j < count_less(s, x) implies seq_lt(#[trigger] s[j], x) by {
            if j < t.len() {
                assert(t[j] == s[j]);
            }
        }
        assert forall|j: int| count_less(s, x) <= j < s.len() implies !seq_lt(
            #[trigger] s[j],
            x,
        ) by {
            if j < t.len() {
                assert(t[j] == s[j]);
            }
        }
    }
}

/// A position that splits a sorted sequence around `x` is `count_less`.
pub proof fn lemma_count_less_unique(s: Seq<Seq<char>>, x: Seq<char>, p: int)
    requires
        strictly_sorted(s),
        0 <= p <= s.len(),
        forall|j: int| 0 <= j < p ==> seq_lt(#[trigger] s[j], x),
        forall|j: int| p <= j < s.len() ==> !seq_lt(#[trigger] s[j], x),
    ensures
        count_less(s, x) == p,
{
    lemma_count_less_splits(s, x);
    let c = count_less(s, x) as int;
    if c < p {
        assert(seq_lt(s[c], x));
    } else if p < c {
        assert(seq_lt(s[p], x));
    }
}

/// Where `name` stands, or would be inserted, among the sorted names of `v`.
pub fn position_of<T>(v: &Vec<(String, T)>, name: &str) -> (p: usize)
    requires
        strictly_sorted(names(v@)),
    ensures
        p == count_less(names(v@), name@),
        p <= v@.len(),
        forall|j: int| 0 <= j < p ==> seq_lt(#[trigger] names(v@)[j], name@),
        forall|j: int| p <= j < v@.len() ==> !seq_lt(#[trigger] names(v@)[j], name@),
{
    let ghost s = names(v@);
    let mut i: usize = 0;
    while i < v.len() && str_lt(v[i].0.as_str(), name)
        invariant
            s == names(v@),
            strictly_sorted(s),
            i <= v@.len(),
            forall|j: int| 0 <= j < i ==> seq_lt(#[trigger] s[j], name@),
        decreases v@.len() - i,
    {
        i = i + 1;
    }
    proof {
        assert forall|j: int| i <= j < v@.len() implies !seq_lt(#[trigger] s[j], name@) by {
            if j > i && seq_lt(s[j], name@) {
                assert(seq_lt(s[i as int], s[j]));
                lemma_seq_lt_transitive(s[i as int], s[j], name@);
            }
        }
        lemma_count_less_unique(s, name@, i as int);
    }
    i
}

/// Inserting `x`, absent from sorted `s`, at `count_less` keeps `s` sorted.
pub proof fn lemma_insert_keeps_sorted(s: Seq<Seq<char>>, x: Seq<char>)
    requires
        strictly_sorted(s),
        !s.contains(x),
    ensures
        strictly_sorted(s.insert(count_less(s, x) as int, x)),
{
    lemma_count_less_splits(s, x);
    let p = count_less(s, x) as int;
    let t = s.insert(p, x);
    assert forall|i: int, j: int| 0 <= i < j < t.len() implies seq_lt(
        #[trigger] t[i],
        #[trigger] t[j],
    ) by {
        if j < p {
            assert(t[i] == s[i] && t[j] == s[j]);
        } else if j == p {
            assert(t[i] == s[i]);
        } else if i < p {
            assert(t[i] == s[i] && t[j] == s[j - 1]);
            lemma_seq_lt_trichotomy(s[j - 1], x);
            lemma_seq_lt_transitive(s[i], x, s[j - 1]);
        } else if i == p {
            assert(t[j] == s[j - 1]);
            assert(s[j - 1] != x);
            lemma_seq_lt_trichotomy(s[j - 1], x);
        } else {
            assert(t[i] == s[i - 1] && t[j] == s[j - 1]);
        }
    }
}

/// Two sorted sequences of names that hold the same names are equal.
pub proof fn lemma_sorted_same_names_equal(s: Seq<Seq<char>>, t: Seq<Seq<char>>)
    requires
        strictly_sorted(s),
        strictly_sorted(t),
        forall|x: Seq<char>| s.contains(x) <==> t.contains(x),
    ensures
        s == t,
    decreases s.len(),
{
    if s.len() == 0 {
        if t.len() > 0 {
            assert(t.contains(t[0]));
        }
        assert(s =~= t);
    } else {
        assert(s.contains(s.last()));
        assert(t.len() > 0);
        assert(t.contains(t.last()));
        let a = s.last();
        let b = t.last();
        let i = choose|i: int| 0 <= i < s.len() && s[i] == b;
        let j = choose|j: int| 0 <= j < t.len() && t[j] == a;
        if a != b {
            lemma_seq_lt_trichotomy(a, b);
            if seq_lt(a, b) {
                assert(i < s.len() - 1);
                assert(seq_lt(s[i], s[s.len() - 1]));
                lemma_seq_lt_trichotomy(b, a);
            } else {
                assert(j < t.len() - 1);
                assert(seq_lt(t[j], t[t.len() - 1]));
                lemma_seq_lt_trichotomy(a, b);
            }
        }
        let s1 = s.drop_last();
        let t1 = t.drop_last();
        assert(strictly_sorted(s1)) by {
            assert forall|x: int, y: int| 0 <= x < y < s1.len() implies seq_lt(
                #[trigger] s1[x],
                #[trigger] s1[y],
            ) by {
                assert(s1[x] == s[x] && s1[y] == s[y]);
            }
        }
        assert(strictly_sorted(t1)) by {
            assert forall|x: int, y: int| 0 <= x < y < t1.len() implies seq_lt(
                #[trigger] t1[x],
                #[trigger] t1[y],
            ) by {
                assert(t1[x] == t[x] && t1[y] == t[y]);
            }
        }
        assert forall|x: Seq<char>| s1.contains(x) <==> t1.contains(x) by {
            if s1.contains(x) {
                let k = choose|k: int| 0 <= k < s1.len() && s1[k] == x;
                assert(s[k] == x);
                assert(seq_lt(s[k], s[s.len() - 1]));
                lemma_seq_lt_irreflexive(x);
                assert(t.contains(x));
                let m = choose|m: int| 0 <= m < t.len() && t[m] == x;
                assert(m != t.len() - 1);
                assert(t1[m] == x);
            }
            if t1.contains(x) {
                let k = choose|k: int| 0 <= k < t1.len() && t1[k] == x;
                assert(t[k] == x);
                assert(seq_lt(t[k], t[t.len() - 1]));
                lemma_seq_lt_irreflexive(x);
                assert(s.contains(x));
                let m = choose|m: int| 0 <= m < s.len() && s[m] == x;
                assert(m != s.len() - 1);
                assert(s1[m] == x);
            }
        }
        lemma_sorted_same_names_equal(s1, t1);
        assert(s =~= s1.push(a));
        assert(t =~= t1.push(b));
    }
}

} // verus!
