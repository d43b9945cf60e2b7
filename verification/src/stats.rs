//! In-memory statistics of the requests served: totals, counters by
//! endpoint, counts by status code, and a per-second time series.
//!
//! Times come in as readings of a monotonic clock in nanoseconds, from an
//! origin of the caller's choosing, and of the wall clock in milliseconds
//! since the Unix epoch.
use vstd::prelude::*;

use dashmap::DashMap;
use std::collections::BTreeMap;

use crate::latency::{clamp_latency, slot_floor, EndpointCounters, EndpointTally, LATENCY_SIGFIG, MAX_LATENCY_US};
use crate::tables::{
    lists_endpoints, endpoint_table, endpoint_table_clear, endpoint_table_insert, endpoint_table_new,
    endpoint_table_take, status_table, status_table_clear, status_table_insert, status_table_new,
    status_table_take,
};
use crate::tally::{
    lemma_sum_bounds_term, lemma_sum_empty, lemma_sum_insert, lemma_sum_remove,
    lemma_sum_remove_absent, sum_of,
};
use crate::order::{names, seq_lt, strictly_sorted};
use crate::report::{lists_counts, sort_by_name, sort_by_status, statuses_increasing, EndpointSnapshot, StatusCount};
use crate::tables::endpoint_table_entries;
use crate::tables::status_table_entries;
use crate::tally::{lemma_listing_sum, seq_sum};
use crate::timeline::{
    bucket_after, bucket_wf, empty_bucket, lemma_bucket_after_wf, pairs_view, BucketTally, TimeseriesBucket,
};

verus! {

/// One request that was served: which endpoint, the status answered, the
/// bytes of the body, how long it took (microseconds) and when it completed
/// (monotonic clock, nanoseconds).
pub struct RequestEvent {
    pub endpoint: &'static str,
    pub status: u16,
    pub bytes: u64,
    pub latency_us: u128,
    pub completed_at_ns: u64,
}

impl RequestEvent {
    /// The event of the given parts.
    pub fn new(
        endpoint: &'static str,
        status: u16,
        bytes: u64,
        latency_us: u128,
        completed_at_ns: u64,
    ) -> (r: Self)
        ensures
            r == (RequestEvent { endpoint, status, bytes, latency_us, completed_at_ns }),
    {
        RequestEvent { endpoint, status, bytes, latency_us, completed_at_ns }
    }
}

/// A status code that counts as an error.
pub open spec fn is_error_status(status: u16) -> bool {
    status >= 400
}

/// Whole seconds from `start_ns` to `at_ns`, zero when `at_ns` is earlier.
pub open spec fn seconds_between(start_ns: u64, at_ns: u64) -> u64 {
    if at_ns >= start_ns {
        ((at_ns - start_ns) / 1_000_000_000) as u64
    } else {
        0
    }
}

/// The statistics as numbers.
pub struct StatsView {
    pub started_at_unix_ms: u128,
    pub start_ns: u64,
    pub total_requests: u64,
    pub total_errors: u64,
    pub total_bytes: u64,
    pub endpoints: Map<Seq<char>, EndpointTally>,
    pub statuses: Map<u16, u64>,
    pub buckets: Map<u64, BucketTally>,
}

/// Requests of an endpoint.
pub open spec fn tally_requests() -> spec_fn(EndpointTally) -> int {
    |t: EndpointTally| t.requests as int
}

/// Errors of an endpoint.
pub open spec fn tally_errors() -> spec_fn(EndpointTally) -> int {
    |t: EndpointTally| t.errors as int
}

/// Bytes of an endpoint.
pub open spec fn tally_bytes() -> spec_fn(EndpointTally) -> int {
    |t: EndpointTally| t.bytes as int
}

/// A count of a status code.
pub open spec fn status_count() -> spec_fn(u64) -> int {
    |c: u64| c as int
}

/// Requests of a second.
pub open spec fn bucket_requests() -> spec_fn(BucketTally) -> int {
    |b: BucketTally| b.requests as int
}

/// Errors of a second.
pub open spec fn bucket_errors() -> spec_fn(BucketTally) -> int {
    |b: BucketTally| b.errors as int
}

/// Bytes of a second.
pub open spec fn bucket_bytes() -> spec_fn(BucketTally) -> int {
    |b: BucketTally| b.bytes as int
}

/// The counts of the status codes that are errors.
pub open spec fn error_statuses(m: Map<u16, u64>) -> Map<u16, u64> {
    m.restrict(m.dom().filter(|s: u16| is_error_status(s)))
}

/// The counters of an endpoint that has seen no request.
pub open spec fn fresh_tally() -> EndpointTally {
    EndpointTally {
        requests: 0,
        errors: 0,
        bytes: 0,
        latencies: vstd::multiset::Multiset::empty(),
        low: 1,
        sigfig: LATENCY_SIGFIG,
        ceiling: MAX_LATENCY_US,
    }
}

/// The latency that a request's duration records: at least 1 µs, at most
/// `MAX_LATENCY_US`.
pub open spec fn recorded_latency(latency_us: u128) -> u64 {
    clamp_latency(
        if latency_us > MAX_LATENCY_US as u128 {
            MAX_LATENCY_US
        } else {
            latency_us as u64
        },
    )
}

/// The counters of an endpoint after one more request, an error or not, of
/// `bytes`, that took `latency_us`: its recorded latency is counted in its
/// slot of the endpoint's histogram.
pub open spec fn tally_after(t: EndpointTally, is_error: bool, bytes: u64, latency_us: u128) -> EndpointTally {
    EndpointTally {
        requests: (t.requests + 1) as u64,
        errors: if is_error {
            (t.errors + 1) as u64
        } else {
            t.errors
        },
        bytes: (t.bytes + bytes) as u64,
        latencies: t.latencies.insert(slot_floor(t.low, t.sigfig, recorded_latency(latency_us))),
        low: t.low,
        sigfig: t.sigfig,
        ceiling: t.ceiling,
    }
}

impl StatsView {
    /// The consistency of the statistics: the totals are the sums of the
    /// counters by endpoint, of the counts by status (errors: of the error
    /// statuses) and of the seconds; each endpoint keeps one latency sample
    /// per request in a histogram of the agreed bounds; each second that is
    /// kept saw a request, and keeps its endpoints sorted, counted in full.
    pub open spec fn wf(self) -> bool {
        &&& self.endpoints.dom().finite()
        &&& self.statuses.dom().finite()
        &&& self.buckets.dom().finite()
        &&& self.total_requests == sum_of(self.endpoints, tally_requests())
        &&& self.total_requests == sum_of(self.statuses, status_count())
        &&& self.total_requests == sum_of(self.buckets, bucket_requests())
        &&& self.total_errors <= self.total_requests
        &&& self.total_errors == sum_of(self.endpoints, tally_errors())
        &&& self.total_errors == sum_of(error_statuses(self.statuses), status_count())
        &&& self.total_errors == sum_of(self.buckets, bucket_errors())
        &&& self.total_bytes == sum_of(self.endpoints, tally_bytes())
        &&& self.total_bytes == sum_of(self.buckets, bucket_bytes())
        &&& forall|name: Seq<char>| #[trigger]
            self.endpoints.dom().contains(name) ==> {
                let t = self.endpoints[name];
                &&& t.errors <= t.requests
                &&& t.latencies.len() == t.requests
                &&& t.ceiling == MAX_LATENCY_US
                &&& t.low == 1
                &&& t.sigfig == LATENCY_SIGFIG
            }
        &&& forall|sec: u64| #[trigger]
            self.buckets.dom().contains(sec) ==> bucket_wf(self.buckets[sec])
                && self.buckets[sec].requests >= 1
    }

    /// Whether one more request of `bytes` still fits the counters.
    pub open spec fn has_room_for(self, bytes: u64) -> bool {
        &&& self.total_requests < u64::MAX
        &&& self.total_bytes + bytes <= u64::MAX
    }

    /// The statistics after recording `e`.
    pub open spec fn after_record(self, e: RequestEvent) -> StatsView {
        let name = e.endpoint@;
        let err = is_error_status(e.status);
        let t0 = if self.endpoints.dom().contains(name) {
            self.endpoints[name]
        } else {
            fresh_tally()
        };
        let c0: u64 = if self.statuses.dom().contains(e.status) {
            self.statuses[e.status]
        } else {
            0
        };
        let sec = seconds_between(self.start_ns, e.completed_at_ns);
        let b0 = if self.buckets.dom().contains(sec) {
            self.buckets[sec]
        } else {
            empty_bucket()
        };
        StatsView {
            total_requests: (self.total_requests + 1) as u64,
            total_errors: if err {
                (self.total_errors + 1) as u64
            } else {
                self.total_errors
            },
            total_bytes: (self.total_bytes + e.bytes) as u64,
            endpoints: self.endpoints.insert(name, tally_after(t0, err, e.bytes, e.latency_us)),
            statuses: self.statuses.insert(e.status, (c0 + 1) as u64),
            buckets: self.buckets.insert(sec, bucket_after(b0, name, err, e.bytes)),
            ..self
        }
    }

    /// Statistics without any request, started at the given clock readings.
    pub open spec fn empty(started_at_unix_ms: u128, start_ns: u64) -> StatsView {
        StatsView {
            started_at_unix_ms,
            start_ns,
            total_requests: 0,
            total_errors: 0,
            total_bytes: 0,
            endpoints: Map::empty(),
            statuses: Map::empty(),
            buckets: Map::empty(),
        }
    }
}

/// The statistics of the requests served since creation or the last reset.
pub struct Stats {
    started_at_unix_ms: u128,
    start_ns: u64,
    total_requests: u64,
    total_errors: u64,
    total_bytes: u64,
    by_endpoint: DashMap<String, EndpointCounters>,
    by_status: DashMap<u16, u64>,
    timeseries: BTreeMap<u64, TimeseriesBucket>,
}

impl View for Stats {
    type V = StatsView;

    closed spec fn view(&self) -> StatsView {
        StatsView {
            started_at_unix_ms: self.started_at_unix_ms,
            start_ns: self.start_ns,
            total_requests: self.total_requests,
            total_errors: self.total_errors,
            total_bytes: self.total_bytes,
            endpoints: endpoint_table(self.by_endpoint),
            statuses: status_table(self.by_status),
            buckets: self.timeseries@.map_values(|b: TimeseriesBucket| b@),
        }
    }
}

/// Recording a request keeps the statistics consistent.
proof fn lemma_record_keeps_wf(v: StatsView, e: RequestEvent)
    requires
        v.wf(),
        v.has_room_for(e.bytes),
    ensures
        v.after_record(e).wf(),
{
    let w = v.after_record(e);
    let name = e.endpoint@;
    let err = is_error_status(e.status);
    let sec = seconds_between(v.start_ns, e.completed_at_ns);
    lemma_record_bounds(v, e);
    // by endpoint
    let t0 = if v.endpoints.dom().contains(name) {
        v.endpoints[name]
    } else {
        fresh_tally()
    };
    let t1 = tally_after(t0, err, e.bytes, e.latency_us);
    lemma_sum_insert(v.endpoints, tally_requests(), name, t1);
    lemma_sum_insert(v.endpoints, tally_errors(), name, t1);
    lemma_sum_insert(v.endpoints, tally_bytes(), name, t1);
    if v.endpoints.dom().contains(name) {
        lemma_sum_remove(v.endpoints, tally_requests(), name);
        lemma_sum_remove(v.endpoints, tally_errors(), name);
        lemma_sum_remove(v.endpoints, tally_bytes(), name);
    } else {
        lemma_sum_remove_absent(v.endpoints, tally_requests(), name);
        lemma_sum_remove_absent(v.endpoints, tally_errors(), name);
        lemma_sum_remove_absent(v.endpoints, tally_bytes(), name);
    }
    assert forall|n: Seq<char>| #[trigger] w.endpoints.dom().contains(n) implies {
        let t = w.endpoints[n];
        &&& t.errors <= t.requests
        &&& t.latencies.len() == t.requests
        &&& t.ceiling == MAX_LATENCY_US
        &&& t.low == 1
        &&& t.sigfig == LATENCY_SIGFIG
    } by {
        if n != name {
            assert(v.endpoints.dom().contains(n));
        }
    }
    // by status
    let c0: u64 = if v.statuses.dom().contains(e.status) {
        v.statuses[e.status]
    } else {
        0
    };
    let c1 = (c0 + 1) as u64;
    lemma_sum_insert(v.statuses, status_count(), e.status, c1);
    if v.statuses.dom().contains(e.status) {
        lemma_sum_remove(v.statuses, status_count(), e.status);
    } else {
        lemma_sum_remove_absent(v.statuses, status_count(), e.status);
    }
    let ev = error_statuses(v.statuses);
    let ew = error_statuses(w.statuses);
    v.statuses.dom().lemma_len_filter(|s: u16| is_error_status(s));
    assert(ev.dom() =~= v.statuses.dom().filter(|s: u16| is_error_status(s)));
    if err {
        assert(ew =~= ev.insert(e.status, c1));
        lemma_sum_insert(ev, status_count(), e.status, c1);
        if v.statuses.dom().contains(e.status) {
            assert(ev.dom().contains(e.status));
            lemma_sum_remove(ev, status_count(), e.status);
        } else {
            lemma_sum_remove_absent(ev, status_count(), e.status);
        }
    } else {
        assert(ew =~= ev);
    }
    // by second
    let b0 = if v.buckets.dom().contains(sec) {
        v.buckets[sec]
    } else {
        empty_bucket()
    };
    let b1 = bucket_after(b0, name, err, e.bytes);
    assert(bucket_wf(empty_bucket())) by {
        assert(crate::timeline::key_names(Seq::<(Seq<char>, u64)>::empty()) =~= Seq::empty());
    }
    lemma_bucket_after_wf(b0, name, err, e.bytes);
    lemma_sum_insert(v.buckets, bucket_requests(), sec, b1);
    lemma_sum_insert(v.buckets, bucket_errors(), sec, b1);
    lemma_sum_insert(v.buckets, bucket_bytes(), sec, b1);
    if v.buckets.dom().contains(sec) {
        lemma_sum_remove(v.buckets, bucket_requests(), sec);
        lemma_sum_remove(v.buckets, bucket_errors(), sec);
        lemma_sum_remove(v.buckets, bucket_bytes(), sec);
    } else {
        lemma_sum_remove_absent(v.buckets, bucket_requests(), sec);
        lemma_sum_remove_absent(v.buckets, bucket_errors(), sec);
        lemma_sum_remove_absent(v.buckets, bucket_bytes(), sec);
    }
    assert forall|s: u64| #[trigger] w.buckets.dom().contains(s) implies bucket_wf(w.buckets[s]) by {
        if s != sec {
            assert(v.buckets.dom().contains(s));
        }
    }
}

/// The counters that a request touches are no larger than the totals.
proof fn lemma_record_bounds(v: StatsView, e: RequestEvent)
    requires
        v.wf(),
    ensures
        v.endpoints.dom().contains(e.endpoint@) ==> {
            &&& v.endpoints[e.endpoint@].requests <= v.total_requests
            &&& v.endpoints[e.endpoint@].bytes <= v.total_bytes
        },
        v.statuses.dom().contains(e.status) ==> v.statuses[e.status] <= v.total_requests,
        v.buckets.dom().contains(seconds_between(v.start_ns, e.completed_at_ns)) ==> {
            &&& v.buckets[seconds_between(v.start_ns, e.completed_at_ns)].requests
                <= v.total_requests
            &&& v.buckets[seconds_between(v.start_ns, e.completed_at_ns)].bytes <= v.total_bytes
        },
{
    let name = e.endpoint@;
    let sec = seconds_between(v.start_ns, e.completed_at_ns);
    if v.endpoints.dom().contains(name) {
        lemma_sum_bounds_term(v.endpoints, tally_requests(), name);
        lemma_sum_bounds_term(v.endpoints, tally_bytes(), name);
    }
    if v.statuses.dom().contains(e.status) {
        lemma_sum_bounds_term(v.statuses, status_count(), e.status);
    }
    if v.buckets.dom().contains(sec) {
        lemma_sum_bounds_term(v.buckets, bucket_requests(), sec);
        lemma_sum_bounds_term(v.buckets, bucket_bytes(), sec);
    }
}

/// Statistics without requests are consistent.
proof fn lemma_empty_wf(started_at_unix_ms: u128, start_ns: u64)
    ensures
        StatsView::empty(started_at_unix_ms, start_ns).wf(),
{
    let v = StatsView::empty(started_at_unix_ms, start_ns);
    lemma_sum_empty::<Seq<char>, EndpointTally>(tally_requests());
    lemma_sum_empty::<Seq<char>, EndpointTally>(tally_errors());
    lemma_sum_empty::<Seq<char>, EndpointTally>(tally_bytes());
    lemma_sum_empty::<u16, u64>(status_count());
    lemma_sum_empty::<u64, BucketTally>(bucket_requests());
    lemma_sum_empty::<u64, BucketTally>(bucket_errors());
    lemma_sum_empty::<u64, BucketTally>(bucket_bytes());
    assert(error_statuses(v.statuses) =~= Map::<u16, u64>::empty());
}

impl Stats {
    /// Statistics without requests, with the clock started at the given
    /// readings.
    pub fn new(started_at_unix_ms: u128, now_ns: u64) -> (r: Self)
        ensures
            r@ == StatsView::empty(started_at_unix_ms, now_ns),
            r@.wf(),
    {
        let r = Stats {
            started_at_unix_ms,
            start_ns: now_ns,
            total_requests: 0,
            total_errors: 0,
            total_bytes: 0,
            by_endpoint: endpoint_table_new(),
            by_status: status_table_new(),
            timeseries: BTreeMap::new(),
        };
        proof {
            lemma_empty_wf(started_at_unix_ms, now_ns);
            assert(r@.buckets =~= Map::<u64, BucketTally>::empty());
        }
        r
    }

    /// Whether one more request of `bytes` still fits the counters.
    pub fn has_room_for(&self, bytes: u64) -> (r: bool)
        ensures
            r == self@.has_room_for(bytes),
    {
        self.total_requests < u64::MAX && bytes <= u64::MAX - self.total_bytes
    }

    /// Counts one request everywhere it belongs.
    pub fn record(&mut self, event: RequestEvent)
        requires
            old(self)@.wf(),
            old(self)@.has_room_for(event.bytes),
        ensures
            final(self)@ == old(self)@.after_record(event),
            final(self)@.wf(),
            event.completed_at_ns >= old(self)@.start_ns ==> final(self)@.buckets.dom().contains(
                ((event.completed_at_ns - old(self)@.start_ns) / 1_000_000_000) as u64,
            ),
            event.completed_at_ns >= old(self)@.start_ns ==> final(self)@.buckets.remove(
                ((event.completed_at_ns - old(self)@.start_ns) / 1_000_000_000) as u64,
            ) == old(self)@.buckets.remove(
                ((event.completed_at_ns - old(self)@.start_ns) / 1_000_000_000) as u64,
            ),
            1 <= event.latency_us <= 60_000_000 ==> final(self)@.endpoints[event.endpoint@].latencies == (
            if old(self)@.endpoints.dom().contains(event.endpoint@) {
                old(self)@.endpoints[event.endpoint@].latencies
            } else {
                vstd::multiset::Multiset::empty()
            }).insert(slot_floor(1, 3, event.latency_us as u64)),
    {
        let ghost v0 = self@;
        proof {
            lemma_record_bounds(v0, event);
            lemma_record_latency(v0, event);
            if event.completed_at_ns >= v0.start_ns {
                let k: u64 = ((event.completed_at_ns - v0.start_ns) / 1_000_000_000) as u64;
                assert(v0.after_record(event).buckets.remove(k) =~= v0.buckets.remove(k));
            }
        }
        let is_error = event.status >= 400;
        self.total_requests = self.total_requests + 1;
        self.total_bytes = self.total_bytes + event.bytes;

        let mut counters = match endpoint_table_take(&mut self.by_endpoint, event.endpoint) {
            Some(c) => c,
            None => EndpointCounters::new(),
        };
        counters.requests = counters.requests + 1;
        counters.bytes = counters.bytes + event.bytes;
        if is_error {
            self.total_errors = self.total_errors + 1;
            counters.errors = counters.errors + 1;
        }
        let latency_us: u64 = if event.latency_us > MAX_LATENCY_US as u128 {
            MAX_LATENCY_US
        } else {
            event.latency_us as u64
        };
        counters.record_latency_us(if latency_us < 1 {
            1
        } else {
            latency_us
        });
        endpoint_table_insert(&mut self.by_endpoint, String::from_str(event.endpoint), counters);

        let count = match status_table_take(&mut self.by_status, event.status) {
            Some(c) => c,
            None => 0,
        };
        status_table_insert(&mut self.by_status, event.status, count + 1);

        let second: u64 = if event.completed_at_ns >= self.start_ns {
            (event.completed_at_ns - self.start_ns) / 1_000_000_000
        } else {
            0
        };
        let ghost sec = second;
        assert(sec == seconds_between(v0.start_ns, event.completed_at_ns));
        let mut bucket = match self.timeseries.remove(&second) {
            Some(b) => {
                assert(v0.buckets.dom().contains(sec));
                assert(b@ == v0.buckets[sec]);
                b
            },
            None => TimeseriesBucket::new(),
        };
        bucket.add(event.endpoint, is_error, event.bytes);
        self.timeseries.insert(second, bucket);
        proof {
            lemma_record_keeps_wf(v0, event);
            assert(self@.buckets =~= v0.after_record(event).buckets);
            assert(self@.endpoints =~= v0.after_record(event).endpoints);
            assert(self@.statuses =~= v0.after_record(event).statuses);
        }
    }

    /// Forgets every request and restarts the clock at the given readings.
    pub fn reset(&mut self, started_at_unix_ms: u128, now_ns: u64)
        ensures
            final(self)@ == StatsView::empty(started_at_unix_ms, now_ns),
            final(self)@.wf(),
    {
        self.total_requests = 0;
        self.total_errors = 0;
        self.total_bytes = 0;
        endpoint_table_clear(&mut self.by_endpoint);
        status_table_clear(&mut self.by_status);
        self.timeseries.clear();
        self.started_at_unix_ms = started_at_unix_ms;
        self.start_ns = now_ns;
        proof {
            lemma_empty_wf(started_at_unix_ms, now_ns);
            assert(self@.buckets =~= Map::<u64, BucketTally>::empty());
        }
    }
}

/// The summary of the statistics at one moment.
pub struct Summary {
    pub started_at_unix_ms: u128,
    pub uptime_seconds: u64,
    pub uptime_ns: u64,
    pub total_requests: u64,
    pub total_errors: u64,
    pub total_bytes: u64,
    pub by_endpoint: Vec<EndpointSnapshot>,
    pub by_status: Vec<StatusCount>,
}

/// `s` lists every entry of `t` once, in the order of names.
pub open spec fn lists_snapshots(s: Seq<EndpointSnapshot>, t: Map<Seq<char>, EndpointTally>) -> bool {
    &&& s.len() == t.dom().len()
    &&& forall|i: int|
        0 <= i < s.len() ==> #[trigger] t.dom().contains(s[i].endpoint@) && t[s[i].endpoint@]
            == s[i].tally()
    &&& forall|i: int, j: int|
        0 <= i < j < s.len() ==> seq_lt(#[trigger] s[i].endpoint@, #[trigger] s[j].endpoint@)
}

/// Nanoseconds from `start_ns` to `now_ns`, zero when `now_ns` is earlier.
pub open spec fn elapsed_ns(start_ns: u64, now_ns: u64) -> u64 {
    if now_ns >= start_ns {
        (now_ns - start_ns) as u64
    } else {
        0
    }
}

/// The name of an endpoint in a summary.
pub open spec fn snapshot_name() -> spec_fn(EndpointSnapshot) -> Seq<char> {
    |s: EndpointSnapshot| s.endpoint@
}

/// Requests of an endpoint in a summary.
pub open spec fn snapshot_requests() -> spec_fn(EndpointSnapshot) -> int {
    |s: EndpointSnapshot| s.requests as int
}

/// Errors of an endpoint in a summary.
pub open spec fn snapshot_errors() -> spec_fn(EndpointSnapshot) -> int {
    |s: EndpointSnapshot| s.errors as int
}

/// Bytes of an endpoint in a summary.
pub open spec fn snapshot_bytes() -> spec_fn(EndpointSnapshot) -> int {
    |s: EndpointSnapshot| s.bytes as int
}

/// The status code of a count.
pub open spec fn count_status() -> spec_fn(StatusCount) -> u16 {
    |c: StatusCount| c.status
}

/// The count of a status code.
pub open spec fn count_value() -> spec_fn(StatusCount) -> int {
    |c: StatusCount| c.count as int
}

/// The traffic of one second of the time series.
pub struct TimeseriesPoint {
    pub second_offset: u64,
    pub requests: u64,
    pub errors: u64,
    pub bytes: u64,
    /// The requests of each endpoint in that second, sorted by name.
    pub by_endpoint: Vec<(String, u64)>,
}

impl TimeseriesPoint {
    /// The point as numbers.
    pub open spec fn tally(&self) -> BucketTally {
        BucketTally {
            requests: self.requests,
            errors: self.errors,
            bytes: self.bytes,
            by_endpoint: pairs_view(self.by_endpoint@),
        }
    }
}

/// The time series, one point per second that saw a request.
pub struct TimeseriesResponse {
    pub points: Vec<TimeseriesPoint>,
}

/// The second of a point.
pub open spec fn point_second() -> spec_fn(TimeseriesPoint) -> u64 {
    |p: TimeseriesPoint| p.second_offset
}

/// Requests of a point.
pub open spec fn point_requests() -> spec_fn(TimeseriesPoint) -> int {
    |p: TimeseriesPoint| p.requests as int
}

/// Errors of a point.
pub open spec fn point_errors() -> spec_fn(TimeseriesPoint) -> int {
    |p: TimeseriesPoint| p.errors as int
}

/// Bytes of a point.
pub open spec fn point_bytes() -> spec_fn(TimeseriesPoint) -> int {
    |p: TimeseriesPoint| p.bytes as int
}

/// `s` lists every second of `t` once, in increasing order.
pub open spec fn lists_points(s: Seq<TimeseriesPoint>, t: Map<u64, BucketTally>) -> bool {
    &&& s.len() == t.dom().len()
    &&& forall|i: int|
        0 <= i < s.len() ==> #[trigger] t.dom().contains(s[i].second_offset) && t[s[i].second_offset]
            == s[i].tally()
    &&& forall|i: int, j: int|
        0 <= i < j < s.len() ==> #[trigger] s[i].second_offset < #[trigger] s[j].second_offset
}

/// A copy of a list of endpoint counts.
fn copy_pairs(v: &Vec<(String, u64)>) -> (r: Vec<(String, u64)>)
    ensures
        pairs_view(r@) == pairs_view(v@),
{
    let mut r: Vec<(String, u64)> = Vec::new();
    let mut i: usize = 0;
    while i < v.len()
        invariant
            i <= v@.len(),
            r@.len() == i,
            forall|j: int| 0 <= j < i ==> (#[trigger] r@[j]).0@ == v@[j].0@ && r@[j].1 == v@[j].1,
        decreases v@.len() - i,
    {
        r.push((v[i].0.clone(), v[i].1));
        i = i + 1;
    }
    assert(pairs_view(r@) =~= pairs_view(v@));
    r
}

impl Stats {
    /// Totals, counters by endpoint (in the order of names) and counts by
    /// status (in increasing order), with the time since the clock started
    /// as read at `now_ns`.
    pub fn summary(&self, now_ns: u64) -> (r: Summary)
        requires
            self@.wf(),
        ensures
            r.started_at_unix_ms == self@.started_at_unix_ms,
            r.uptime_ns == elapsed_ns(self@.start_ns, now_ns),
            r.uptime_seconds == r.uptime_ns / 1_000_000_000,
            now_ns >= self@.start_ns ==> r.uptime_ns == now_ns - self@.start_ns,
            now_ns < self@.start_ns ==> r.uptime_ns == 0,
            r.uptime_seconds * 1_000_000_000 <= r.uptime_ns < (r.uptime_seconds + 1) * 1_000_000_000,
            r.total_requests == self@.total_requests,
            r.total_errors == self@.total_errors,
            r.total_bytes == self@.total_bytes,
            lists_snapshots(r.by_endpoint@, self@.endpoints),
            lists_counts(r.by_status@, self@.statuses),
            statuses_increasing(r.by_status@),
            seq_sum(r.by_endpoint@, snapshot_requests()) == r.total_requests,
            seq_sum(r.by_endpoint@, snapshot_errors()) == r.total_errors,
            seq_sum(r.by_endpoint@, snapshot_bytes()) == r.total_bytes,
            seq_sum(r.by_status@, count_value()) == r.total_requests,
            seq_sum(r.by_status@, count_if_error()) == r.total_errors,
    {
        let uptime_ns: u64 = if now_ns >= self.start_ns {
            now_ns - self.start_ns
        } else {
            0
        };
        let ghost table = endpoint_table(self.by_endpoint);
        let entries = endpoint_table_entries(&self.by_endpoint);
        let mut sorted = sort_by_name(entries, Ghost(table));
        let ghost srt = sorted@;
        let mut by_endpoint: Vec<EndpointSnapshot> = Vec::new();
        while sorted.len() > 0
            invariant
                lists_endpoints(srt, table),
                strictly_sorted(names(srt)),
                sorted@ == srt.take(sorted@.len() as int),
                sorted@.len() <= srt.len(),
                by_endpoint@.len() + sorted@.len() == srt.len(),
                forall|j: int|
                    0 <= j < by_endpoint@.len() ==> (#[trigger] by_endpoint@[j]).endpoint@
                        == srt[sorted@.len() + j].0@ && by_endpoint@[j].tally()
                        == srt[sorted@.len() + j].1@,
            decreases sorted@.len(),
        {
            let ghost before = by_endpoint@;
            let ghost n = sorted@.len();
            let (name, c) = sorted.pop().unwrap();
            by_endpoint.insert(
                0,
                EndpointSnapshot {
                    endpoint: name,
                    requests: c.requests,
                    errors: c.errors,
                    bytes: c.bytes,
                    latency_us: c.latency_us,
                },
            );
            proof {
                assert(sorted@ =~= srt.take(sorted@.len() as int));
                assert forall|j: int| 0 <= j < by_endpoint@.len() implies (
                #[trigger] by_endpoint@[j]).endpoint@ == srt[sorted@.len() + j].0@
                    && by_endpoint@[j].tally() == srt[sorted@.len() + j].1@ by {
                    if j > 0 {
                        assert(by_endpoint@[j] == before[j - 1]);
                    }
                }
            }
        }
        proof {
            assert forall|i: int| 0 <= i < by_endpoint@.len() implies #[trigger] table.dom().contains(
                by_endpoint@[i].endpoint@,
            ) && table[by_endpoint@[i].endpoint@] == by_endpoint@[i].tally() by {
                assert(table.dom().contains(srt[i].0@));
            }
            assert forall|i: int, j: int| 0 <= i < j < by_endpoint@.len() implies seq_lt(
                #[trigger] by_endpoint@[i].endpoint@,
                #[trigger] by_endpoint@[j].endpoint@,
            ) by {
                assert(names(srt)[i] == srt[i].0@ && names(srt)[j] == srt[j].0@);
            }
            assert forall|i: int, j: int| 0 <= i < j < by_endpoint@.len() implies #[trigger] snapshot_name()(by_endpoint@[i])
                != #[trigger] snapshot_name()(by_endpoint@[j]) by {
                assert(names(srt)[i] == srt[i].0@ && names(srt)[j] == srt[j].0@);
                crate::order::lemma_seq_lt_irreflexive(srt[i].0@);
            }
            assert forall|i: int| 0 <= i < by_endpoint@.len() implies #[trigger] snapshot_requests()(
                by_endpoint@[i],
            ) == tally_requests()(table[snapshot_name()(by_endpoint@[i])]) by {
                assert(table.dom().contains(by_endpoint@[i].endpoint@));
            }
            assert forall|i: int| 0 <= i < by_endpoint@.len() implies #[trigger] snapshot_errors()(
                by_endpoint@[i],
            ) == tally_errors()(table[snapshot_name()(by_endpoint@[i])]) by {
                assert(table.dom().contains(by_endpoint@[i].endpoint@));
            }
            assert forall|i: int| 0 <= i < by_endpoint@.len() implies #[trigger] snapshot_bytes()(
                by_endpoint@[i],
            ) == tally_bytes()(table[snapshot_name()(by_endpoint@[i])]) by {
                assert(table.dom().contains(by_endpoint@[i].endpoint@));
            }
            lemma_listing_sum(table, by_endpoint@, snapshot_name(), tally_requests(), snapshot_requests());
            lemma_listing_sum(table, by_endpoint@, snapshot_name(), tally_errors(), snapshot_errors());
            lemma_listing_sum(table, by_endpoint@, snapshot_name(), tally_bytes(), snapshot_bytes());
        }
        let ghost stable = status_table(self.by_status);
        let by_status = sort_by_status(status_table_entries(&self.by_status), Ghost(stable));
        proof {
            assert forall|i: int| 0 <= i < by_status@.len() implies #[trigger] count_value()(
                by_status@[i],
            ) == status_count()(stable[count_status()(by_status@[i])]) by {
                assert(stable.dom().contains(by_status@[i].status));
            }
            assert forall|i: int| 0 <= i < by_status@.len() implies #[trigger] stable.dom().contains(
                count_status()(by_status@[i]),
            ) by {
                assert(stable.dom().contains(by_status@[i].status));
            }
            lemma_listing_sum(stable, by_status@, count_status(), status_count(), count_value());
            lemma_listing_error_sum(stable, by_status@);
        }
        Summary {
            started_at_unix_ms: self.started_at_unix_ms,
            uptime_seconds: uptime_ns / 1_000_000_000,
            uptime_ns,
            total_requests: self.total_requests,
            total_errors: self.total_errors,
            total_bytes: self.total_bytes,
            by_endpoint,
            by_status,
        }
    }
}

impl Stats {
    /// One point per second that saw a request, in increasing order of
    /// seconds since the clock started.
    pub fn timeseries(&self) -> (r: TimeseriesResponse)
        requires
            self@.wf(),
        ensures
            lists_points(r.points@, self@.buckets),
            seq_sum(r.points@, point_requests()) == self@.total_requests,
            seq_sum(r.points@, point_errors()) == self@.total_errors,
            seq_sum(r.points@, point_bytes()) == self@.total_bytes,
            forall|i: int|
                0 <= i < r.points@.len() ==> bucket_wf(#[trigger] r.points@[i].tally())
                    && r.points@[i].requests >= 1,
    {
        let mut points: Vec<TimeseriesPoint> = Vec::new();
        let ghost m = self.timeseries@;
        for (sec, bucket) in it: self.timeseries.iter()
            invariant
                m == self.timeseries@,
                it.seq().len() == m.dom().len(),
                forall|j: int|
                    0 <= j < it.seq().len() ==> #[trigger] m.dom().contains(*it.seq()[j].0) && m[*it.seq()[j].0]
                        == *it.seq()[j].1,
                vstd::std_specs::btree::increasing_seq(
                    it.seq().map_values(|kv: (&u64, &TimeseriesBucket)| *kv.0),
                ),
                points@.len() == it.index(),
                forall|j: int|
                    0 <= j < it.index() ==> (#[trigger] points@[j]).second_offset == *it.seq()[j].0
                        && points@[j].tally() == (*it.seq()[j].1)@,
                forall|j: int|
                    0 <= j < points@.len() ==> #[trigger] m.dom().contains(points@[j].second_offset)
                        && m[points@[j].second_offset]@ == points@[j].tally(),
                forall|i: int, j: int|
                    0 <= i < j < points@.len() ==> (#[trigger] points@[i]).second_offset < (
                    #[trigger] points@[j]).second_offset,
        {
            proof {
                let ks = it.seq().map_values(|kv: (&u64, &TimeseriesBucket)| *kv.0);
                crate::keys::lemma_increasing_u64(ks);
                assert forall|k: int| 0 <= k < it.index() implies *(#[trigger] it.seq()[k]).0 < *it.seq()[it.index()].0 by {
                    assert(ks[k] == *it.seq()[k].0);
                    assert(ks[it.index()] == *it.seq()[it.index()].0);
                }
                assert(m.dom().contains(*it.seq()[it.index()].0));
            }
            let ghost before = points@;
            points.push(
                TimeseriesPoint {
                    second_offset: *sec,
                    requests: bucket.requests,
                    errors: bucket.errors,
                    bytes: bucket.bytes,
                    by_endpoint: copy_pairs(&bucket.by_endpoint),
                },
            );
        }
        assert(points@.len() == m.dom().len());
        assert(self@.buckets =~= m.map_values(|b: TimeseriesBucket| b@));
        assert forall|i: int| 0 <= i < points@.len() implies #[trigger] self@.buckets.dom().contains(
            points@[i].second_offset,
        ) && self@.buckets[points@[i].second_offset] == points@[i].tally() by {
            assert(m.dom().contains(points@[i].second_offset));
        }
        assert(self@.buckets.dom() =~= m.dom());
        let ghost b = self@.buckets;
        assert forall|i: int| 0 <= i < points@.len() implies bucket_wf(#[trigger] points@[i].tally())
            && points@[i].requests >= 1 by {
            assert(b.dom().contains(points@[i].second_offset));
        }
        assert forall|i: int, j: int| 0 <= i < j < points@.len() implies #[trigger] point_second()(
            points@[i],
        ) != #[trigger] point_second()(points@[j]) by {
            assert(points@[i].second_offset < points@[j].second_offset);
        }
        assert forall|i: int| 0 <= i < points@.len() implies #[trigger] b.dom().contains(
            point_second()(points@[i]),
        ) by {
            assert(b.dom().contains(points@[i].second_offset));
        }
        assert forall|i: int| 0 <= i < points@.len() implies #[trigger] point_requests()(points@[i])
            == bucket_requests()(b[point_second()(points@[i])]) by {
            assert(b.dom().contains(points@[i].second_offset));
        }
        proof {
            lemma_listing_sum(b, points@, point_second(), bucket_requests(), point_requests());
        }
        assert forall|i: int| 0 <= i < points@.len() implies #[trigger] point_errors()(points@[i])
            == bucket_errors()(b[point_second()(points@[i])]) by {
            assert(b.dom().contains(points@[i].second_offset));
        }
        proof {
            lemma_listing_sum(b, points@, point_second(), bucket_errors(), point_errors());
        }
        assert forall|i: int| 0 <= i < points@.len() implies #[trigger] point_bytes()(points@[i])
            == bucket_bytes()(b[point_second()(points@[i])]) by {
            assert(b.dom().contains(points@[i].second_offset));
        }
        proof {
            lemma_listing_sum(b, points@, point_second(), bucket_bytes(), point_bytes());
        }
        TimeseriesResponse { points }
    }
}

/// The statistics after recording each of `events` in turn, starting from
/// `v`.
pub open spec fn replay(v: StatsView, events: Seq<RequestEvent>) -> StatsView
    decreases events.len(),
{
    if events.len() == 0 {
        v
    } else {
        replay(v, events.drop_last()).after_record(events.last())
    }
}

/// The bytes of a request.
pub open spec fn event_bytes() -> spec_fn(RequestEvent) -> int {
    |e: RequestEvent| e.bytes as int
}

/// One for a request answered with an error status, zero otherwise.
pub open spec fn event_error() -> spec_fn(RequestEvent) -> int {
    |e: RequestEvent|
        if is_error_status(e.status) {
            1int
        } else {
            0int
        }
}

/// Recorded one after another from fresh statistics, requests are each
/// counted once: the totals are the number of requests, the number of those
/// with an error status, and the sum of their bytes; the statistics stay
/// consistent (so the counters by endpoint, by status and by second add up to
/// the same totals) and the clock is the one they started with.
pub proof fn lemma_replay_totals(started_at_unix_ms: u128, start_ns: u64, events: Seq<RequestEvent>)
    requires
        events.len() <= u64::MAX,
        seq_sum(events, event_bytes()) <= u64::MAX,
    ensures
        replay(StatsView::empty(started_at_unix_ms, start_ns), events).wf(),
        replay(StatsView::empty(started_at_unix_ms, start_ns), events).total_requests
            == events.len(),
        replay(StatsView::empty(started_at_unix_ms, start_ns), events).total_errors == seq_sum(
            events,
            event_error(),
        ),
        replay(StatsView::empty(started_at_unix_ms, start_ns), events).total_bytes == seq_sum(
            events,
            event_bytes(),
        ),
        replay(StatsView::empty(started_at_unix_ms, start_ns), events).started_at_unix_ms
            == started_at_unix_ms,
        replay(StatsView::empty(started_at_unix_ms, start_ns), events).start_ns == start_ns,
    decreases events.len(),
{
    if events.len() == 0 {
        lemma_empty_wf(started_at_unix_ms, start_ns);
    } else {
        let rest = events.drop_last();
        let e = events.last();
        assert(seq_sum(rest, event_bytes()) <= u64::MAX);
        lemma_replay_totals(started_at_unix_ms, start_ns, rest);
        let v = replay(StatsView::empty(started_at_unix_ms, start_ns), rest);
        lemma_record_keeps_wf(v, e);
    }
}

/// One for a request of the endpoint `name`, zero otherwise.
pub open spec fn endpoint_hit(name: Seq<char>) -> spec_fn(RequestEvent) -> int {
    |e: RequestEvent|
        if e.endpoint@ == name {
            1int
        } else {
            0int
        }
}

/// One for a request answered with `status`, zero otherwise.
pub open spec fn status_hit(status: u16) -> spec_fn(RequestEvent) -> int {
    |e: RequestEvent|
        if e.status == status {
            1int
        } else {
            0int
        }
}

/// Recorded one after another from fresh statistics, the counters of an
/// endpoint count exactly the requests of that endpoint, and the count of a
/// status exactly the responses with that status; an endpoint or a status is
/// listed if and only if some request had it.
pub proof fn lemma_replay_per_key(started_at_unix_ms: u128, start_ns: u64, events: Seq<RequestEvent>)
    requires
        events.len() <= u64::MAX,
        seq_sum(events, event_bytes()) <= u64::MAX,
    ensures
        forall|name: Seq<char>|
            #![trigger replay(StatsView::empty(started_at_unix_ms, start_ns), events).endpoints.dom().contains(name)]
            if replay(StatsView::empty(started_at_unix_ms, start_ns), events).endpoints.dom().contains(name) {
                replay(StatsView::empty(started_at_unix_ms, start_ns), events).endpoints[name].requests
                    == seq_sum(events, endpoint_hit(name)) && seq_sum(events, endpoint_hit(name)) > 0
            } else {
                seq_sum(events, endpoint_hit(name)) == 0
            },
        forall|status: u16|
            #![trigger replay(StatsView::empty(started_at_unix_ms, start_ns), events).statuses.dom().contains(status)]
            if replay(StatsView::empty(started_at_unix_ms, start_ns), events).statuses.dom().contains(status) {
                replay(StatsView::empty(started_at_unix_ms, start_ns), events).statuses[status]
                    == seq_sum(events, status_hit(status)) && seq_sum(events, status_hit(status)) > 0
            } else {
                seq_sum(events, status_hit(status)) == 0
            },
    decreases events.len(),
{
    let z = StatsView::empty(started_at_unix_ms, start_ns);
    if events.len() > 0 {
        let rest = events.drop_last();
        let e = events.last();
        assert(seq_sum(rest, event_bytes()) <= u64::MAX);
        lemma_replay_totals(started_at_unix_ms, start_ns, rest);
        lemma_replay_per_key(started_at_unix_ms, start_ns, rest);
        let v = replay(z, rest);
        lemma_record_bounds(v, e);
        let w = replay(z, events);
        assert forall|name: Seq<char>| #[trigger] w.endpoints.dom().contains(name) || !w.endpoints.dom().contains(name) implies
            if w.endpoints.dom().contains(name) {
                w.endpoints[name].requests == seq_sum(events, endpoint_hit(name)) && seq_sum(events, endpoint_hit(name)) > 0
            } else {
                seq_sum(events, endpoint_hit(name)) == 0
            } by {
            assert(v.endpoints.dom().contains(name) || !v.endpoints.dom().contains(name));
            crate::tally::lemma_seq_sum_nonneg(rest, endpoint_hit(name));
        }
        assert forall|status: u16| #[trigger] w.statuses.dom().contains(status) || !w.statuses.dom().contains(status) implies
            if w.statuses.dom().contains(status) {
                w.statuses[status] == seq_sum(events, status_hit(status)) && seq_sum(events, status_hit(status)) > 0
            } else {
                seq_sum(events, status_hit(status)) == 0
            } by {
            assert(v.statuses.dom().contains(status) || !v.statuses.dom().contains(status));
            crate::tally::lemma_seq_sum_nonneg(rest, status_hit(status));
        }
    }
}

/// The count of a status code when that code is an error, zero otherwise.
pub open spec fn count_if_error() -> spec_fn(StatusCount) -> int {
    |c: StatusCount|
        if is_error_status(c.status) {
            c.count as int
        } else {
            0int
        }
}

/// A listing of the counts by status sums, over the error statuses, to the
/// sum of the counts of the error statuses.
proof fn lemma_listing_error_sum(m: Map<u16, u64>, s: Seq<StatusCount>)
    requires
        m.dom().finite(),
        lists_counts(s, m),
    ensures
        seq_sum(s, count_if_error()) == sum_of(error_statuses(m), status_count()),
    decreases s.len(),
{
    let e = error_statuses(m);
    m.dom().lemma_len_filter(|st: u16| is_error_status(st));
    assert(e.dom() =~= m.dom().filter(|st: u16| is_error_status(st)));
    if s.len() == 0 {
        assert(m.dom().len() == 0);
        assert(m.dom() =~= Set::empty());
        assert(e =~= Map::empty());
        crate::tally::lemma_sum_empty::<u16, u64>(status_count());
    } else {
        let n = s.len() - 1;
        let k = s[n].status;
        let t = s.drop_last();
        let r = m.remove(k);
        assert(m.dom().contains(k));
        assert(lists_counts(t, r)) by {
            assert forall|i: int| 0 <= i < t.len() implies #[trigger] r.dom().contains(t[i].status)
                && r[t[i].status] == t[i].count by {
                assert(t[i] == s[i]);
                assert(s[i].status != s[n].status);
                assert(m.dom().contains(s[i].status));
            }
            assert forall|i: int, j: int| 0 <= i < j < t.len() implies #[trigger] t[i].status
                != #[trigger] t[j].status by {
                assert(t[i] == s[i] && t[j] == s[j]);
            }
        }
        lemma_listing_error_sum(r, t);
        if is_error_status(k) {
            assert(error_statuses(r) =~= e.remove(k));
            assert(e.dom().contains(k));
            lemma_sum_remove(e, status_count(), k);
        } else {
            assert(error_statuses(r) =~= e);
        }
    }
}

/// Two requests recorded in either order leave the same statistics: the same
/// totals, counters by endpoint, counts by status and seconds.
pub proof fn lemma_record_commutes(v: StatsView, a: RequestEvent, b: RequestEvent)
    requires
        v.wf(),
        v.total_requests + 2 <= u64::MAX,
        v.total_bytes + a.bytes + b.bytes <= u64::MAX,
    ensures
        v.after_record(a).after_record(b) == v.after_record(b).after_record(a),
{
    lemma_record_bounds(v, a);
    lemma_record_bounds(v, b);
    let x = v.after_record(a).after_record(b);
    let y = v.after_record(b).after_record(a);
    if a.endpoint@ == b.endpoint@ {
        let n = a.endpoint@;
        let t0 = if v.endpoints.dom().contains(n) {
            v.endpoints[n]
        } else {
            fresh_tally()
        };
        let la = slot_floor(t0.low, t0.sigfig, recorded_latency(a.latency_us));
        let lb = slot_floor(t0.low, t0.sigfig, recorded_latency(b.latency_us));
        assert(t0.latencies.insert(la).insert(lb) =~= t0.latencies.insert(lb).insert(la));
    }
    assert(x.endpoints =~= y.endpoints);
    assert(x.statuses =~= y.statuses);
    let sa = seconds_between(v.start_ns, a.completed_at_ns);
    let sb = seconds_between(v.start_ns, b.completed_at_ns);
    if sa == sb {
        let b0 = if v.buckets.dom().contains(sa) {
            v.buckets[sa]
        } else {
            empty_bucket()
        };
        assert(bucket_wf(b0)) by {
            if !v.buckets.dom().contains(sa) {
                assert(crate::timeline::key_names(Seq::<(Seq<char>, u64)>::empty()) =~= Seq::empty());
            }
        }
        crate::timeline::lemma_bump_commutes(b0.by_endpoint, a.endpoint@, b.endpoint@);
    }
    assert(x.buckets =~= y.buckets);
}

/// Two time series of the same statistics agree point by point: the same
/// seconds in the same order, with the same counts.
pub proof fn lemma_points_determined(
    m: Map<u64, BucketTally>,
    p: Seq<TimeseriesPoint>,
    q: Seq<TimeseriesPoint>,
)
    requires
        m.dom().finite(),
        lists_points(p, m),
        lists_points(q, m),
    ensures
        p.len() == q.len(),
        forall|i: int|
            0 <= i < p.len() ==> (#[trigger] p[i]).second_offset == q[i].second_offset
                && p[i].tally() == q[i].tally(),
{
    let pk = p.map_values(|x: TimeseriesPoint| x.second_offset);
    let qk = q.map_values(|x: TimeseriesPoint| x.second_offset);
    assert forall|i: int, j: int| 0 <= i < j < pk.len() implies #[trigger] pk[i] != #[trigger] pk[j] by {
        assert(p[i].second_offset < p[j].second_offset);
    }
    assert forall|i: int, j: int| 0 <= i < j < qk.len() implies #[trigger] qk[i] != #[trigger] qk[j] by {
        assert(q[i].second_offset < q[j].second_offset);
    }
    assert forall|i: int| 0 <= i < pk.len() implies m.dom().contains(#[trigger] pk[i]) by {
        assert(m.dom().contains(p[i].second_offset));
    }
    assert forall|i: int| 0 <= i < qk.len() implies m.dom().contains(#[trigger] qk[i]) by {
        assert(m.dom().contains(q[i].second_offset));
    }
    crate::tally::lemma_listing_covers(pk, m.dom());
    crate::tally::lemma_listing_covers(qk, m.dom());
    let pi = p.map_values(|x: TimeseriesPoint| x.second_offset as int);
    let qi = q.map_values(|x: TimeseriesPoint| x.second_offset as int);
    assert forall|x: int| pi.contains(x) <==> qi.contains(x) by {
        if pi.contains(x) {
            let k = choose|k: int| 0 <= k < pi.len() && pi[k] == x;
            assert(m.dom().contains(pk[k]));
            assert(qk.contains(pk[k]));
            let l = choose|l: int| 0 <= l < qk.len() && qk[l] == pk[k];
            assert(qi[l] == x);
        }
        if qi.contains(x) {
            let k = choose|k: int| 0 <= k < qi.len() && qi[k] == x;
            assert(m.dom().contains(qk[k]));
            assert(pk.contains(qk[k]));
            let l = choose|l: int| 0 <= l < pk.len() && pk[l] == qk[k];
            assert(pi[l] == x);
        }
    }
    assert forall|i: int, j: int| 0 <= i < j < pi.len() implies #[trigger] pi[i] < #[trigger] pi[j] by {
        assert(p[i].second_offset < p[j].second_offset);
    }
    assert forall|i: int, j: int| 0 <= i < j < qi.len() implies #[trigger] qi[i] < #[trigger] qi[j] by {
        assert(q[i].second_offset < q[j].second_offset);
    }
    crate::tally::lemma_increasing_same_equal(pi, qi);
    assert forall|i: int| 0 <= i < p.len() implies (#[trigger] p[i]).second_offset == q[i].second_offset
        && p[i].tally() == q[i].tally() by {
        assert(pi[i] == qi[i]);
        assert(m.dom().contains(p[i].second_offset));
        assert(m.dom().contains(q[i].second_offset));
    }
}

/// Two summaries of the same statistics list the same endpoints in the same
/// order, with the same counters and latency samples.
pub proof fn lemma_snapshots_determined(
    t: Map<Seq<char>, EndpointTally>,
    a: Seq<EndpointSnapshot>,
    b: Seq<EndpointSnapshot>,
)
    requires
        t.dom().finite(),
        lists_snapshots(a, t),
        lists_snapshots(b, t),
    ensures
        a.len() == b.len(),
        forall|i: int|
            0 <= i < a.len() ==> (#[trigger] a[i]).endpoint@ == b[i].endpoint@ && a[i].tally()
                == b[i].tally(),
{
    let an = a.map_values(|x: EndpointSnapshot| x.endpoint@);
    let bn = b.map_values(|x: EndpointSnapshot| x.endpoint@);
    assert forall|i: int, j: int| 0 <= i < j < an.len() implies crate::order::seq_lt(
        #[trigger] an[i],
        #[trigger] an[j],
    ) by {
        assert(seq_lt(a[i].endpoint@, a[j].endpoint@));
    }
    assert forall|i: int, j: int| 0 <= i < j < bn.len() implies crate::order::seq_lt(
        #[trigger] bn[i],
        #[trigger] bn[j],
    ) by {
        assert(seq_lt(b[i].endpoint@, b[j].endpoint@));
    }
    assert forall|i: int, j: int| 0 <= i < j < an.len() implies #[trigger] an[i] != #[trigger] an[j] by {
        assert(seq_lt(an[i], an[j]));
        crate::order::lemma_seq_lt_irreflexive(an[i]);
    }
    assert forall|i: int, j: int| 0 <= i < j < bn.len() implies #[trigger] bn[i] != #[trigger] bn[j] by {
        assert(seq_lt(bn[i], bn[j]));
        crate::order::lemma_seq_lt_irreflexive(bn[i]);
    }
    assert forall|i: int| 0 <= i < an.len() implies t.dom().contains(#[trigger] an[i]) by {
        assert(t.dom().contains(a[i].endpoint@));
    }
    assert forall|i: int| 0 <= i < bn.len() implies t.dom().contains(#[trigger] bn[i]) by {
        assert(t.dom().contains(b[i].endpoint@));
    }
    crate::tally::lemma_listing_covers(an, t.dom());
    crate::tally::lemma_listing_covers(bn, t.dom());
    assert forall|x: Seq<char>| an.contains(x) <==> bn.contains(x) by {
        if an.contains(x) {
            let k = choose|k: int| 0 <= k < an.len() && an[k] == x;
            assert(t.dom().contains(an[k]));
        }
        if bn.contains(x) {
            let k = choose|k: int| 0 <= k < bn.len() && bn[k] == x;
            assert(t.dom().contains(bn[k]));
        }
    }
    crate::order::lemma_sorted_same_names_equal(an, bn);
    assert forall|i: int| 0 <= i < a.len() implies (#[trigger] a[i]).endpoint@ == b[i].endpoint@
        && a[i].tally() == b[i].tally() by {
        assert(an[i] == bn[i]);
        assert(t.dom().contains(a[i].endpoint@));
        assert(t.dom().contains(b[i].endpoint@));
    }
}

/// Two summaries of the same statistics list the same counts by status.
pub proof fn lemma_counts_determined(m: Map<u16, u64>, a: Seq<StatusCount>, b: Seq<StatusCount>)
    requires
        m.dom().finite(),
        lists_counts(a, m),
        statuses_increasing(a),
        lists_counts(b, m),
        statuses_increasing(b),
    ensures
        a == b,
{
    let ak = a.map_values(|x: StatusCount| x.status);
    let bk = b.map_values(|x: StatusCount| x.status);
    assert forall|i: int, j: int| 0 <= i < j < ak.len() implies #[trigger] ak[i] != #[trigger] ak[j] by {
        assert(a[i].status != a[j].status);
    }
    assert forall|i: int, j: int| 0 <= i < j < bk.len() implies #[trigger] bk[i] != #[trigger] bk[j] by {
        assert(b[i].status != b[j].status);
    }
    assert forall|i: int| 0 <= i < ak.len() implies m.dom().contains(#[trigger] ak[i]) by {
        assert(m.dom().contains(a[i].status));
    }
    assert forall|i: int| 0 <= i < bk.len() implies m.dom().contains(#[trigger] bk[i]) by {
        assert(m.dom().contains(b[i].status));
    }
    crate::tally::lemma_listing_covers(ak, m.dom());
    crate::tally::lemma_listing_covers(bk, m.dom());
    let ai = a.map_values(|x: StatusCount| x.status as int);
    let bi = b.map_values(|x: StatusCount| x.status as int);
    assert forall|x: int| ai.contains(x) <==> bi.contains(x) by {
        if ai.contains(x) {
            let k = choose|k: int| 0 <= k < ai.len() && ai[k] == x;
            assert(m.dom().contains(ak[k]));
            assert(bk.contains(ak[k]));
            let l = choose|l: int| 0 <= l < bk.len() && bk[l] == ak[k];
            assert(bi[l] == x);
        }
        if bi.contains(x) {
            let k = choose|k: int| 0 <= k < bi.len() && bi[k] == x;
            assert(m.dom().contains(bk[k]));
            assert(ak.contains(bk[k]));
            let l = choose|l: int| 0 <= l < ak.len() && ak[l] == bk[k];
            assert(ai[l] == x);
        }
    }
    assert forall|i: int, j: int| 0 <= i < j < ai.len() implies #[trigger] ai[i] < #[trigger] ai[j] by {
        assert(a[i].status < a[j].status);
    }
    assert forall|i: int, j: int| 0 <= i < j < bi.len() implies #[trigger] bi[i] < #[trigger] bi[j] by {
        assert(b[i].status < b[j].status);
    }
    crate::tally::lemma_increasing_same_equal(ai, bi);
    assert forall|i: int| 0 <= i < a.len() implies a[i] == b[i] by {
        assert(ai[i] == bi[i]);
        assert(m.dom().contains(a[i].status));
    }
    assert(a =~= b);
}

/// Whole seconds: `k` is the number of whole seconds in `d` nanoseconds
/// exactly when `d` lies in the `k`-th second.
pub proof fn lemma_whole_seconds(d: int, k: int)
    by (nonlinear_arith)
    requires
        0 <= k,
        k * 1_000_000_000 <= d < (k + 1) * 1_000_000_000,
    ensures
        d / 1_000_000_000 == k,
{
}

/// The uptime of a summary is the whole time since the clock started, and
/// its seconds are the whole seconds of that time.
pub proof fn lemma_uptime_is_elapsed(start_ns: u64, now_ns: u64, k: int)
    ensures
        now_ns >= start_ns ==> elapsed_ns(start_ns, now_ns) == now_ns - start_ns,
        now_ns < start_ns ==> elapsed_ns(start_ns, now_ns) == 0,
        0 <= k && start_ns + k * 1_000_000_000 <= now_ns < start_ns + (k + 1) * 1_000_000_000
            ==> elapsed_ns(start_ns, now_ns) / 1_000_000_000 == k,
{
    if 0 <= k && start_ns + k * 1_000_000_000 <= now_ns < start_ns + (k + 1) * 1_000_000_000 {
        lemma_whole_seconds(now_ns - start_ns, k);
    }
}

/// A request that completed in the `k`-th whole second after the clock
/// started is counted in the point of second `k`, and every other second
/// stays as it was; one that completed before the clock started counts in
/// second 0.
pub proof fn lemma_record_second(v: StatsView, e: RequestEvent, k: u64)
    requires
        v.start_ns + k * 1_000_000_000 <= e.completed_at_ns < v.start_ns + (k + 1) * 1_000_000_000
            || (e.completed_at_ns < v.start_ns && k == 0),
    ensures
        v.after_record(e).buckets.dom().contains(k),
        v.after_record(e).buckets[k].requests == (if v.buckets.dom().contains(k) {
            v.buckets[k].requests
        } else {
            0
        }) + 1 || v.buckets.dom().contains(k) && v.buckets[k].requests == u64::MAX,
        v.after_record(e).buckets.remove(k) == v.buckets.remove(k),
{
    if e.completed_at_ns >= v.start_ns {
        lemma_whole_seconds(e.completed_at_ns - v.start_ns, k as int);
    }
    assert(seconds_between(v.start_ns, e.completed_at_ns) == k);
    assert(v.after_record(e).buckets.remove(k) =~= v.buckets.remove(k));
}

/// The latency a request adds to its endpoint's histogram is its duration in
/// microseconds, in the slot that holds it at the histograms' lowest value 1
/// and 3 significant figures; a duration of zero counts as 1 µs, and one above
/// `MAX_LATENCY_US` as `MAX_LATENCY_US`. Other endpoints keep their counters.
pub proof fn lemma_record_latency(v: StatsView, e: RequestEvent)
    requires
        v.wf(),
    ensures
        ({
            let name = e.endpoint@;
            let before = if v.endpoints.dom().contains(name) {
                v.endpoints[name].latencies
            } else {
                vstd::multiset::Multiset::empty()
            };
            let after = v.after_record(e).endpoints[name].latencies;
            &&& 1 <= e.latency_us <= 60_000_000 ==> after == before.insert(
                slot_floor(1, 3, e.latency_us as u64),
            )
            &&& e.latency_us > 60_000_000 ==> after == before.insert(slot_floor(1, 3, 60_000_000))
            &&& e.latency_us == 0 ==> after == before.insert(slot_floor(1, 3, 1))
            &&& v.after_record(e).endpoints.remove(name) == v.endpoints.remove(name)
        }),
{
    let name = e.endpoint@;
    if v.endpoints.dom().contains(name) {
        assert(v.endpoints[name].low == 1 && v.endpoints[name].sigfig == 3);
    }
    assert(v.after_record(e).endpoints.remove(name) =~= v.endpoints.remove(name));
}

} // verus!
