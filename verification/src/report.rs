//! Read-outs of the statistics: the summary, with endpoints in the order of
//! their names and status codes in increasing order, and the time series in
//! increasing order of seconds.
use vstd::prelude::*;

use crate::latency::{tally_of, EndpointCounters, EndpointTally, LatencyHistogram};
use crate::order::{
    lemma_insert_keeps_sorted, lemma_seq_lt_irreflexive, names, position_of, seq_lt,
    strictly_sorted,
};
use crate::tables::{lists_endpoints, lists_statuses};

verus! {

/// The counters of one endpoint in a summary.
pub struct EndpointSnapshot {
    pub endpoint: String,
    pub requests: u64,
    pub errors: u64,
    pub bytes: u64,
    pub latency_us: LatencyHistogram,
}

impl EndpointSnapshot {
    /// The counters as numbers.
    pub open spec fn tally(&self) -> EndpointTally {
        tally_of(self.requests, self.errors, self.bytes, self.latency_us)
    }
}

/// How many responses had a status code.
pub struct StatusCount {
    pub status: u16,
    pub count: u64,
}

/// The entries of `entries`, sorted by name.
pub(crate) fn sort_by_name(entries: Vec<(String, EndpointCounters)>, Ghost(t): Ghost<Map<Seq<char>, EndpointTally>>) -> (r: Vec<(String, EndpointCounters)>)
    requires
        lists_endpoints(entries@, t),
    ensures
        lists_endpoints(r@, t),
        strictly_sorted(names(r@)),
{
    let ghost orig = entries@;
    let mut rest = entries;
    let mut out: Vec<(String, EndpointCounters)> = Vec::new();
    while rest.len() > 0
        invariant
            lists_endpoints(orig, t),
            rest@ == orig.take(rest@.len() as int),
            rest@.len() <= orig.len(),
            out@.len() + rest@.len() == orig.len(),
            strictly_sorted(names(out@)),
            forall|j: int|
                0 <= j < out@.len() ==> #[trigger] t.dom().contains(out@[j].0@) && t[out@[j].0@]
                    == out@[j].1@,
            forall|j: int|
                0 <= j < out@.len() ==> exists|k: int|
                    rest@.len() <= k < orig.len() && #[trigger] out@[j].0@ == orig[k].0@,
        decreases rest@.len(),
    {
        let ghost n = (rest@.len() - 1) as int;
        let ghost before = out@;
        let entry = rest.pop().unwrap();
        assert(entry == orig[n]);
        let p = position_of(&out, entry.0.as_str());
        proof {
            assert(!names(before).contains(entry.0@)) by {
                if names(before).contains(entry.0@) {
                    let j = choose|j: int| 0 <= j < names(before).len() && names(before)[j] == entry.0@;
                    assert(before[j].0@ == entry.0@);
                    let k = choose|k: int| n + 1 <= k < orig.len() && before[j].0@ == orig[k].0@;
                    assert(orig[n].0@ != orig[k].0@);
                }
            }
            lemma_insert_keeps_sorted(names(before), entry.0@);
        }
        out.insert(p, entry);
        proof {
            assert(names(out@) =~= names(before).insert(p as int, orig[n].0@));
            assert forall|j: int| 0 <= j < out@.len() implies exists|k: int|
                rest@.len() <= k < orig.len() && #[trigger] out@[j].0@ == orig[k].0@ by {
                if j < p {
                    assert(out@[j] == before[j]);
                    let k = choose|k: int| n + 1 <= k < orig.len() && before[j].0@ == orig[k].0@;
                    assert(rest@.len() <= k);
                } else if j == p {
                    assert(out@[j].0@ == orig[n].0@);
                } else {
                    assert(out@[j] == before[j - 1]);
                    let k = choose|k: int| n + 1 <= k < orig.len() && before[j - 1].0@ == orig[k].0@;
                    assert(rest@.len() <= k);
                }
            }
            assert(rest@ =~= orig.take(rest@.len() as int));
        }
    }
    proof {
        assert forall|i: int, j: int| 0 <= i < j < out@.len() implies #[trigger] out@[i].0@
            != #[trigger] out@[j].0@ by {
            assert(names(out@)[i] == out@[i].0@ && names(out@)[j] == out@[j].0@);
            assert(seq_lt(names(out@)[i], names(out@)[j]));
            lemma_seq_lt_irreflexive(out@[i].0@);
        }
    }
    out
}

/// Every status of `s` is smaller than each status after it.
pub open spec fn statuses_increasing(s: Seq<StatusCount>) -> bool {
    forall|i: int, j: int| 0 <= i < j < s.len() ==> #[trigger] s[i].status < #[trigger] s[j].status
}

/// `s` lists every entry of `t` once.
pub open spec fn lists_counts(s: Seq<StatusCount>, t: Map<u16, u64>) -> bool {
    &&& s.len() == t.dom().len()
    &&& forall|i: int| 0 <= i < s.len() ==> #[trigger] t.dom().contains(s[i].status) && t[s[i].status] == s[i].count
    &&& forall|i: int, j: int| 0 <= i < j < s.len() ==> #[trigger] s[i].status != #[trigger] s[j].status
}

/// The entries of `entries`, in increasing order of status.
pub(crate) fn sort_by_status(entries: Vec<(u16, u64)>, Ghost(t): Ghost<Map<u16, u64>>) -> (r: Vec<StatusCount>)
    requires
        lists_statuses(entries@, t),
    ensures
        lists_counts(r@, t),
        statuses_increasing(r@),
{
    let mut out: Vec<StatusCount> = Vec::new();
    let mut i: usize = 0;
    while i < entries.len()
        invariant
            lists_statuses(entries@, t),
            i <= entries@.len(),
            out@.len() == i,
            statuses_increasing(out@),
            forall|j: int|
                0 <= j < out@.len() ==> #[trigger] t.dom().contains(out@[j].status) && t[out@[j].status]
                    == out@[j].count,
            forall|j: int|
                0 <= j < out@.len() ==> exists|k: int| 0 <= k < i && #[trigger] out@[j].status == entries@[k].0,
        decreases entries@.len() - i,
    {
        let (status, count) = entries[i];
        let mut p: usize = 0;
        while p < out.len() && out[p].status < status
            invariant
                p <= out@.len(),
                forall|j: int| 0 <= j < p ==> #[trigger] out@[j].status < status,
            decreases out@.len() - p,
        {
            p = p + 1;
        }
        let ghost before = out@;
        proof {
            assert forall|j: int| p <= j < before.len() implies #[trigger] before[j].status > status by {
                let k = choose|k: int| 0 <= k < i && before[j].status == entries@[k].0;
                assert(entries@[k].0 != entries@[i as int].0);
                if j > p {
                    assert(before[p as int].status < before[j].status);
                }
            }
        }
        let x = StatusCount { status, count };
        proof {
            assert(t.dom().contains(entries@[i as int].0));
            lemma_status_insert(before, p as int, x, t);
        }
        out.insert(p, x);
        proof {
            assert(out@ == before.insert(p as int, x));
            assert forall|j: int| 0 <= j < out@.len() implies exists|k: int|
                0 <= k < i + 1 && #[trigger] out@[j].status == entries@[k].0 by {
                if j < p {
                    assert(out@[j] == before[j]);
                    let k = choose|k: int| 0 <= k < i && before[j].status == entries@[k].0;
                } else if j == p {
                    assert(out@[j].status == entries@[i as int].0);
                } else {
                    assert(out@[j] == before[j - 1]);
                    let k = choose|k: int| 0 <= k < i && before[j - 1].status == entries@[k].0;
                }
            }
        }
        i = i + 1;
    }
    out
}

/// Inserting a status at its place keeps the counts increasing and listed.
proof fn lemma_status_insert(before: Seq<StatusCount>, p: int, x: StatusCount, t: Map<u16, u64>)
    requires
        0 <= p <= before.len(),
        statuses_increasing(before),
        forall|j: int| 0 <= j < p ==> #[trigger] before[j].status < x.status,
        forall|j: int| p <= j < before.len() ==> #[trigger] before[j].status > x.status,
        forall|j: int|
            0 <= j < before.len() ==> #[trigger] t.dom().contains(before[j].status) && t[before[j].status]
                == before[j].count,
        t.dom().contains(x.status),
        t[x.status] == x.count,
    ensures
        statuses_increasing(before.insert(p, x)),
        forall|j: int|
            0 <= j < before.len() + 1 ==> #[trigger] t.dom().contains(before.insert(p, x)[j].status)
                && t[before.insert(p, x)[j].status] == before.insert(p, x)[j].count,
{
    let out = before.insert(p, x);
    assert forall|a: int, b: int| 0 <= a < b < out.len() implies #[trigger] out[a].status
        < #[trigger] out[b].status by {
        if b < p {
            assert(out[a] == before[a] && out[b] == before[b]);
        } else if b == p {
            assert(out[a] == before[a]);
        } else if a < p {
            assert(out[a] == before[a] && out[b] == before[b - 1]);
        } else if a == p {
            assert(out[b] == before[b - 1]);
        } else {
            assert(out[a] == before[a - 1] && out[b] == before[b - 1]);
        }
    }
    assert forall|j: int| 0 <= j < out.len() implies #[trigger] t.dom().contains(out[j].status)
        && t[out[j].status] == out[j].count by {
        if j < p {
            assert(out[j] == before[j]);
        } else if j > p {
            assert(out[j] == before[j - 1]);
        }
    }
}

} // verus!
