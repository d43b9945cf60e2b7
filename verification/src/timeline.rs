//! Per-second buckets of the statistics: requests, errors and bytes of each
//! second, with the count of each endpoint, kept in the order of names.
use vstd::prelude::*;

use crate::order::{count_less, lemma_insert_keeps_sorted, names, position_of, strictly_sorted};
use crate::tally::{lemma_seq_sum_bounds_term, lemma_seq_sum_insert, lemma_seq_sum_update, seq_sum};

verus! {

/// The traffic of one second.
pub struct TimeseriesBucket {
    pub requests: u64,
    pub errors: u64,
    pub bytes: u64,
    /// The requests of each endpoint in this second, sorted by name, each
    /// name once.
    pub by_endpoint: Vec<(String, u64)>,
}

/// A bucket as numbers, the endpoints by the characters of their names.
pub struct BucketTally {
    pub requests: u64,
    pub errors: u64,
    pub bytes: u64,
    pub by_endpoint: Seq<(Seq<char>, u64)>,
}

/// The pairs of `s`, each name taken by its characters.
pub open spec fn pairs_view(s: Seq<(String, u64)>) -> Seq<(Seq<char>, u64)> {
    s.map_values(|p: (String, u64)| (p.0@, p.1))
}

/// The names of the pairs of `s`.
pub open spec fn key_names(s: Seq<(Seq<char>, u64)>) -> Seq<Seq<char>> {
    s.map_values(|p: (Seq<char>, u64)| p.0)
}

/// The count of a pair.
pub open spec fn pair_count() -> spec_fn((Seq<char>, u64)) -> int {
    |p: (Seq<char>, u64)| p.1 as int
}

/// The count of `name` raised by one in the sorted list `s`: in place where
/// the name is listed, else as a new pair with count one at its place in the
/// order.
pub open spec fn bump(s: Seq<(Seq<char>, u64)>, name: Seq<char>) -> Seq<(Seq<char>, u64)> {
    let p = count_less(key_names(s), name) as int;
    if p < s.len() && s[p].0 == name {
        s.update(p, (name, (s[p].1 + 1) as u64))
    } else {
        s.insert(p, (name, 1u64))
    }
}

/// A bucket's list of endpoints is sorted by name and its counts add up to
/// the bucket's requests, of which the errors are a part.
pub open spec fn bucket_wf(b: BucketTally) -> bool {
    &&& strictly_sorted(key_names(b.by_endpoint))
    &&& seq_sum(b.by_endpoint, pair_count()) == b.requests
    &&& b.errors <= b.requests
}

impl View for TimeseriesBucket {
    type V = BucketTally;

    open spec fn view(&self) -> BucketTally {
        BucketTally {
            requests: self.requests,
            errors: self.errors,
            bytes: self.bytes,
            by_endpoint: pairs_view(self.by_endpoint@),
        }
    }
}

/// The bucket of a second without traffic yet.
pub open spec fn empty_bucket() -> BucketTally {
    BucketTally { requests: 0, errors: 0, bytes: 0, by_endpoint: Seq::empty() }
}

/// The bucket after one more request of `name`, an error or not, of `bytes`.
pub open spec fn bucket_after(b: BucketTally, name: Seq<char>, is_error: bool, bytes: u64) -> BucketTally {
    BucketTally {
        requests: (b.requests + 1) as u64,
        errors: if is_error {
            (b.errors + 1) as u64
        } else {
            b.errors
        },
        bytes: (b.bytes + bytes) as u64,
        by_endpoint: bump(b.by_endpoint, name),
    }
}

proof fn lemma_names_of_pairs(s: Seq<(String, u64)>)
    ensures
        key_names(pairs_view(s)) =~= names(s),
{
}

impl TimeseriesBucket {
    /// A bucket without traffic.
    pub fn new() -> (r: Self)
        ensures
            r@ == empty_bucket(),
    {
        let r = TimeseriesBucket { requests: 0, errors: 0, bytes: 0, by_endpoint: Vec::new() };
        assert(r@.by_endpoint =~= Seq::empty());
        r
    }

    /// Counts one more request of `name`.
    pub fn add(&mut self, name: &str, is_error: bool, bytes: u64)
        requires
            bucket_wf(old(self)@),
            old(self).requests < u64::MAX,
            old(self).bytes + bytes <= u64::MAX,
        ensures
            final(self)@ == bucket_after(old(self)@, name@, is_error, bytes),
            bucket_wf(final(self)@),
    {
        let ghost s0 = self.by_endpoint@;
        proof {
            lemma_names_of_pairs(s0);
        }
        let p = position_of(&self.by_endpoint, name);
        let ghost pv = pairs_view(s0);
        let found = p < self.by_endpoint.len() && str_eq(self.by_endpoint[p].0.as_str(), name);
        if found {
            let c = self.by_endpoint[p].1;
            proof {
                lemma_seq_sum_bounds_term(pv, pair_count(), p as int);
            }
            let key = self.by_endpoint[p].0.clone();
            self.by_endpoint.set(p, (key, c + 1));
            proof {
                lemma_seq_sum_update(pv, pair_count(), p as int, (name@, (c + 1) as u64));
                assert(pairs_view(self.by_endpoint@) =~= pv.update(p as int, (name@, (c + 1) as u64)));
                assert(key_names(pairs_view(self.by_endpoint@)) =~= key_names(pv));
            }
        } else {
            proof {
                assert(!names(s0).contains(name@)) by {
                    if names(s0).contains(name@) {
                        let j = choose|j: int| 0 <= j < names(s0).len() && names(s0)[j] == name@;
                        crate::order::lemma_seq_lt_irreflexive(name@);
                        if j < p {
                        } else if j > p {
                            assert(crate::order::seq_lt(names(s0)[p as int], names(s0)[j]));
                            crate::order::lemma_seq_lt_trichotomy(names(s0)[p as int], name@);
                        }
                    }
                }
                lemma_insert_keeps_sorted(names(s0), name@);
            }
            self.by_endpoint.insert(p, (String::from_str(name), 1));
            proof {
                lemma_seq_sum_insert(pv, pair_count(), p as int, (name@, 1u64));
                assert(pairs_view(self.by_endpoint@) =~= pv.insert(p as int, (name@, 1u64)));
                assert(key_names(pairs_view(self.by_endpoint@)) =~= names(s0).insert(p as int, name@));
            }
        }
        self.requests = self.requests + 1;
        self.bytes = self.bytes + bytes;
        if is_error {
            self.errors = self.errors + 1;
        }
    }
}

/// Whether two names are equal.
pub fn str_eq(a: &str, b: &str) -> (r: bool)
    ensures
        r == (a@ == b@),
{
    let la = a.unicode_len();
    let lb = b.unicode_len();
    if la != lb {
        return false;
    }
    let mut i: usize = 0;
    while i < la
        invariant
            la == a@.len(),
            lb == b@.len(),
            la == lb,
            i <= la,
            forall|j: int| 0 <= j < i ==> a@[j] == b@[j],
        decreases la - i,
    {
        let ca = a.get_char(i);
        let cb = b.get_char(i);
        if (ca as u32) != (cb as u32) {
            return false;
        }
        i = i + 1;
    }
    assert(a@ =~= b@);
    true
}

/// The count that a pair gives the name `k`: its count if it is `k`'s pair.
pub open spec fn count_for(k: Seq<char>) -> spec_fn((Seq<char>, u64)) -> int {
    |p: (Seq<char>, u64)|
        if p.0 == k {
            p.1 as int
        } else {
            0int
        }
}

/// Raising the count of `name` keeps the list sorted, adds `name` to its
/// names, and adds one to `name`'s count and to the total.
pub proof fn lemma_bump(s: Seq<(Seq<char>, u64)>, name: Seq<char>)
    requires
        strictly_sorted(key_names(s)),
        seq_sum(s, pair_count()) < u64::MAX,
    ensures
        strictly_sorted(key_names(bump(s, name))),
        seq_sum(bump(s, name), pair_count()) == seq_sum(s, pair_count()) + 1,
        forall|k: Seq<char>|
            #[trigger] key_names(bump(s, name)).contains(k) <==> key_names(s).contains(k) || k
                == name,
        forall|k: Seq<char>|
            #[trigger] seq_sum(bump(s, name), count_for(k)) == seq_sum(s, count_for(k)) + if k
                == name {
                1int
            } else {
                0int
            },
{
    let ks = key_names(s);
    crate::order::lemma_count_less_splits(ks, name);
    let p = count_less(ks, name) as int;
    if p < s.len() && s[p].0 == name {
        lemma_seq_sum_bounds_term(s, pair_count(), p);
        let x = (name, (s[p].1 + 1) as u64);
        lemma_seq_sum_update(s, pair_count(), p, x);
        assert(key_names(s.update(p, x)) =~= ks);
        assert forall|k: Seq<char>| #[trigger] seq_sum(bump(s, name), count_for(k)) == seq_sum(
            s,
            count_for(k),
        ) + if k == name {
            1int
        } else {
            0int
        } by {
            lemma_seq_sum_update(s, count_for(k), p, x);
        }
        assert forall|k: Seq<char>| #[trigger] key_names(bump(s, name)).contains(k) <==> ks.contains(k)
            || k == name by {
            assert(ks[p] == name);
        }
    } else {
        assert(!ks.contains(name)) by {
            if ks.contains(name) {
                let j = choose|j: int| 0 <= j < ks.len() && ks[j] == name;
                crate::order::lemma_seq_lt_irreflexive(name);
                if j > p {
                    assert(crate::order::seq_lt(ks[p], ks[j]));
                }
                assert(ks[p] == s[p].0);
            }
        }
        lemma_insert_keeps_sorted(ks, name);
        let x = (name, 1u64);
        lemma_seq_sum_insert(s, pair_count(), p, x);
        assert(key_names(s.insert(p, x)) =~= ks.insert(p, name));
        assert forall|k: Seq<char>| #[trigger] seq_sum(bump(s, name), count_for(k)) == seq_sum(
            s,
            count_for(k),
        ) + if k == name {
            1int
        } else {
            0int
        } by {
            lemma_seq_sum_insert(s, count_for(k), p, x);
        }
        assert forall|k: Seq<char>| #[trigger] key_names(bump(s, name)).contains(k) <==> ks.contains(k)
            || k == name by {
            let t = ks.insert(p, name);
            if t.contains(k) {
                let j = choose|j: int| 0 <= j < t.len() && t[j] == k;
                if j < p {
                    assert(ks[j] == k);
                } else if j > p {
                    assert(ks[j - 1] == k);
                }
            }
            if ks.contains(k) {
                let j = choose|j: int| 0 <= j < ks.len() && ks[j] == k;
                if j < p {
                    assert(t[j] == k);
                } else {
                    assert(t[j + 1] == k);
                }
            }
            if k == name {
                assert(t[p] == k);
            }
        }
    }
}

/// One more request keeps a bucket consistent.
pub proof fn lemma_bucket_after_wf(b: BucketTally, name: Seq<char>, is_error: bool, bytes: u64)
    requires
        bucket_wf(b),
        b.requests < u64::MAX,
        b.bytes + bytes <= u64::MAX,
    ensures
        bucket_wf(bucket_after(b, name, is_error, bytes)),
{
    lemma_bump(b.by_endpoint, name);
}

/// A name absent from a list counts zero in it.
proof fn lemma_count_absent(s: Seq<(Seq<char>, u64)>, k: Seq<char>)
    requires
        !key_names(s).contains(k),
    ensures
        seq_sum(s, count_for(k)) == 0,
    decreases s.len(),
{
    if s.len() > 0 {
        let t = s.drop_last();
        assert(key_names(t) =~= key_names(s).drop_last());
        if key_names(t).contains(k) {
            let j = choose|j: int| 0 <= j < key_names(t).len() && key_names(t)[j] == k;
            assert(key_names(s)[j] == k);
        }
        lemma_count_absent(t, k);
        assert(key_names(s)[s.len() - 1] == s.last().0);
    }
}

/// In a sorted list, the count of a listed name is the count of its pair.
proof fn lemma_count_present(s: Seq<(Seq<char>, u64)>, i: int)
    requires
        strictly_sorted(key_names(s)),
        0 <= i < s.len(),
    ensures
        seq_sum(s, count_for(s[i].0)) == s[i].1,
    decreases s.len(),
{
    let t = s.drop_last();
    let n = s.len() - 1;
    assert(key_names(t) =~= key_names(s).drop_last());
    assert(strictly_sorted(key_names(t))) by {
        assert forall|x: int, y: int| 0 <= x < y < key_names(t).len() implies crate::order::seq_lt(
            #[trigger] key_names(t)[x],
            #[trigger] key_names(t)[y],
        ) by {
            assert(key_names(t)[x] == key_names(s)[x] && key_names(t)[y] == key_names(s)[y]);
        }
    }
    if i == n {
        if key_names(t).contains(s[i].0) {
            let j = choose|j: int| 0 <= j < key_names(t).len() && key_names(t)[j] == s[i].0;
            assert(key_names(s)[j] == s[i].0 && key_names(s)[n] == s[i].0);
            assert(crate::order::seq_lt(key_names(s)[j], key_names(s)[n]));
            crate::order::lemma_seq_lt_irreflexive(s[i].0);
        }
        lemma_count_absent(t, s[i].0);
    } else {
        assert(t[i] == s[i]);
        lemma_count_present(t, i);
        assert(key_names(s)[i] == s[i].0 && key_names(s)[n] == s[n].0);
        assert(crate::order::seq_lt(key_names(s)[i], key_names(s)[n]));
        crate::order::lemma_seq_lt_irreflexive(s[i].0);
    }
}

/// Two sorted lists with the same names and the same count for each name are
/// equal.
proof fn lemma_sorted_lists_equal(s: Seq<(Seq<char>, u64)>, t: Seq<(Seq<char>, u64)>)
    requires
        strictly_sorted(key_names(s)),
        strictly_sorted(key_names(t)),
        forall|k: Seq<char>| key_names(s).contains(k) <==> key_names(t).contains(k),
        forall|k: Seq<char>| #[trigger] seq_sum(s, count_for(k)) == seq_sum(t, count_for(k)),
    ensures
        s == t,
{
    crate::order::lemma_sorted_same_names_equal(key_names(s), key_names(t));
    assert(s.len() == key_names(s).len() && t.len() == key_names(t).len());
    assert forall|i: int| 0 <= i < s.len() implies s[i] == t[i] by {
        assert(key_names(s)[i] == s[i].0 && key_names(t)[i] == t[i].0);
        lemma_count_present(s, i);
        lemma_count_present(t, i);
        assert(seq_sum(s, count_for(s[i].0)) == seq_sum(t, count_for(s[i].0)));
    }
    assert(s =~= t);
}

/// Raising the counts of two names gives the same list in either order.
pub proof fn lemma_bump_commutes(s: Seq<(Seq<char>, u64)>, a: Seq<char>, b: Seq<char>)
    requires
        strictly_sorted(key_names(s)),
        seq_sum(s, pair_count()) + 2 <= u64::MAX,
    ensures
        bump(bump(s, a), b) == bump(bump(s, b), a),
{
    lemma_bump(s, a);
    lemma_bump(bump(s, a), b);
    lemma_bump(s, b);
    lemma_bump(bump(s, b), a);
    let x = bump(bump(s, a), b);
    let y = bump(bump(s, b), a);
    assert forall|k: Seq<char>| key_names(x).contains(k) <==> key_names(y).contains(k) by {
        assert(key_names(x).contains(k) == key_names(bump(s, a)).contains(k) || k == b);
        assert(key_names(y).contains(k) == key_names(bump(s, b)).contains(k) || k == a);
        assert(key_names(bump(s, a)).contains(k) == key_names(s).contains(k) || k == a);
        assert(key_names(bump(s, b)).contains(k) == key_names(s).contains(k) || k == b);
    }
    assert forall|k: Seq<char>| #[trigger] seq_sum(x, count_for(k)) == seq_sum(y, count_for(k)) by {
        assert(seq_sum(x, count_for(k)) == seq_sum(bump(s, a), count_for(k)) + if k == b { 1int } else { 0int });
        assert(seq_sum(y, count_for(k)) == seq_sum(bump(s, b), count_for(k)) + if k == a { 1int } else { 0int });
        assert(seq_sum(bump(s, a), count_for(k)) == seq_sum(s, count_for(k)) + if k == a { 1int } else { 0int });
        assert(seq_sum(bump(s, b), count_for(k)) == seq_sum(s, count_for(k)) + if k == b { 1int } else { 0int });
    }
    lemma_sorted_lists_equal(x, y);
}

} // verus!
