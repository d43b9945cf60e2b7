use bench_server::stats::{RequestEvent, Stats};

const SEC: u64 = 1_000_000_000;

fn ev(endpoint: &'static str, status: u16, bytes: u64, latency_us: u128, at_ns: u64) -> RequestEvent {
    RequestEvent::new(endpoint, status, bytes, latency_us, at_ns)
}

#[test]
fn request_event_new_keeps_fields() {
    let e = ev("/ok", 200, 12, 345, 6_789);
    assert_eq!(e.endpoint, "/ok");
    assert_eq!(e.status, 200);
    assert_eq!(e.bytes, 12);
    assert_eq!(e.latency_us, 345);
    assert_eq!(e.completed_at_ns, 6_789);
}

#[test]
fn fresh_stats_are_empty() {
    let s = Stats::new(1_700_000_000_000, 5 * SEC);
    let sum = s.summary(7 * SEC + 500);
    assert_eq!(sum.started_at_unix_ms, 1_700_000_000_000);
    assert_eq!(sum.uptime_seconds, 2);
    assert_eq!(sum.uptime_ns, 2 * SEC + 500);
    assert_eq!(sum.total_requests, 0);
    assert_eq!(sum.total_errors, 0);
    assert_eq!(sum.total_bytes, 0);
    assert!(sum.by_endpoint.is_empty());
    assert!(sum.by_status.is_empty());
    assert!(s.timeseries().points.is_empty());
}

#[test]
fn uptime_is_zero_for_an_earlier_reading() {
    let s = Stats::new(0, 5 * SEC);
    let sum = s.summary(SEC);
    assert_eq!(sum.uptime_ns, 0);
    assert_eq!(sum.uptime_seconds, 0);
}

#[test]
fn record_counts_everywhere() {
    let mut s = Stats::new(0, 0);
    s.record(ev("/ok", 200, 10, 1_500, SEC / 2));
    s.record(ev("/e404", 404, 20, 2_000, SEC + 1));
    s.record(ev("/ok", 200, 30, 0, SEC + 2));
    s.record(ev("/e500", 500, 40, 120_000_000, 3 * SEC));
    s.record(ev("/blob", 200, 1_000, 10, 3 * SEC + 5));

    let sum = s.summary(4 * SEC);
    assert_eq!(sum.total_requests, 5);
    assert_eq!(sum.total_errors, 2);
    assert_eq!(sum.total_bytes, 1_100);

    let names: Vec<&str> = sum.by_endpoint.iter().map(|e| e.endpoint.as_str()).collect();
    assert_eq!(names, vec!["/blob", "/e404", "/e500", "/ok"]);
    let ok = &sum.by_endpoint[3];
    assert_eq!((ok.requests, ok.errors, ok.bytes), (2, 0, 40));
    assert_eq!(ok.latency_us.histogram.len(), 2);
    assert_eq!(ok.latency_us.histogram.min(), 1);
    let e500 = &sum.by_endpoint[2];
    assert_eq!((e500.requests, e500.errors, e500.bytes), (1, 1, 40));
    assert!(e500.latency_us.histogram.max() >= 60_000_000);
    assert!(e500.latency_us.histogram.max() <= 60_100_000);

    let statuses: Vec<(u16, u64)> = sum.by_status.iter().map(|c| (c.status, c.count)).collect();
    assert_eq!(statuses, vec![(200, 3), (404, 1), (500, 1)]);

    let points = s.timeseries().points;
    let secs: Vec<u64> = points.iter().map(|p| p.second_offset).collect();
    assert_eq!(secs, vec![0, 1, 3]);
    assert_eq!((points[0].requests, points[0].errors, points[0].bytes), (1, 0, 10));
    assert_eq!((points[1].requests, points[1].errors, points[1].bytes), (2, 1, 50));
    assert_eq!(
        points[1].by_endpoint,
        vec![("/e404".to_string(), 1), ("/ok".to_string(), 1)]
    );
    assert_eq!(
        points[2].by_endpoint,
        vec![("/blob".to_string(), 1), ("/e500".to_string(), 1)]
    );
}

#[test]
fn events_before_the_start_fall_into_second_zero() {
    let mut s = Stats::new(0, 10 * SEC);
    s.record(ev("/ok", 200, 1, 1, 3 * SEC));
    s.record(ev("/ok", 200, 1, 1, 12 * SEC + 999_999_999));
    let secs: Vec<u64> = s.timeseries().points.iter().map(|p| p.second_offset).collect();
    assert_eq!(secs, vec![0, 2]);
}

#[test]
fn status_boundary_of_errors() {
    let mut s = Stats::new(0, 0);
    s.record(ev("/x", 399, 0, 1, 0));
    s.record(ev("/x", 400, 0, 1, 0));
    let sum = s.summary(0);
    assert_eq!(sum.total_errors, 1);
    assert_eq!(sum.by_endpoint[0].errors, 1);
    assert_eq!(s.timeseries().points[0].errors, 1);
}

#[test]
fn reset_forgets_everything_and_restarts_clock() {
    let mut s = Stats::new(100, 0);
    s.record(ev("/ok", 200, 10, 5, 0));
    s.record(ev("/e500", 500, 10, 5, 2 * SEC));
    s.reset(200, 50 * SEC);
    let sum = s.summary(51 * SEC);
    assert_eq!(sum.started_at_unix_ms, 200);
    assert_eq!(sum.uptime_seconds, 1);
    assert_eq!(sum.total_requests, 0);
    assert_eq!(sum.total_errors, 0);
    assert_eq!(sum.total_bytes, 0);
    assert!(sum.by_endpoint.is_empty());
    assert!(sum.by_status.is_empty());
    assert!(s.timeseries().points.is_empty());
    s.record(ev("/ok", 200, 7, 5, 52 * SEC));
    let points = s.timeseries().points;
    assert_eq!(points.len(), 1);
    assert_eq!(points[0].second_offset, 2);
}

#[test]
fn summary_sums_match_totals() {
    let mut s = Stats::new(0, 0);
    let eps = ["/ok", "/e404", "/e500", "/blob", "/slow"];
    let statuses = [200u16, 404, 500, 200, 200];
    for i in 0..200u64 {
        let k = (i % 5) as usize;
        s.record(ev(eps[k], statuses[k], i, i as u128, i * SEC / 7));
    }
    let sum = s.summary(100 * SEC);
    assert_eq!(sum.by_endpoint.iter().map(|e| e.requests).sum::<u64>(), sum.total_requests);
    assert_eq!(sum.by_endpoint.iter().map(|e| e.errors).sum::<u64>(), sum.total_errors);
    assert_eq!(sum.by_endpoint.iter().map(|e| e.bytes).sum::<u64>(), sum.total_bytes);
    assert_eq!(sum.by_status.iter().map(|c| c.count).sum::<u64>(), sum.total_requests);
    assert_eq!(
        sum.by_status.iter().filter(|c| c.status >= 400).map(|c| c.count).sum::<u64>(),
        sum.total_errors
    );
    assert_eq!(sum.total_errors, 80);
    let points = s.timeseries().points;
    assert_eq!(points.iter().map(|p| p.requests).sum::<u64>(), 200);
    assert_eq!(points.iter().map(|p| p.errors).sum::<u64>(), 80);
    for p in &points {
        assert_eq!(p.by_endpoint.iter().map(|(_, c)| *c).sum::<u64>(), p.requests);
    }
    assert!(s.has_room_for(0));
}

#[test]
fn two_records_commute() {
    let a = || ev("/ok", 200, 10, 100, 2 * SEC);
    let b = || ev("/e404", 404, 20, 300, 2 * SEC + 7);
    let mut s1 = Stats::new(0, 0);
    let mut s2 = Stats::new(0, 0);
    s1.record(a());
    s1.record(b());
    s2.record(b());
    s2.record(a());
    let (x, y) = (s1.summary(3 * SEC), s2.summary(3 * SEC));
    assert_eq!((x.total_requests, x.total_errors, x.total_bytes), (y.total_requests, y.total_errors, y.total_bytes));
    let rows = |s: &bench_server::stats::Summary| {
        s.by_endpoint
            .iter()
            .map(|e| (e.endpoint.clone(), e.requests, e.errors, e.bytes, e.latency_us.histogram.len()))
            .collect::<Vec<_>>()
    };
    assert_eq!(rows(&x), rows(&y));
    let st = |s: &bench_server::stats::Summary| s.by_status.iter().map(|c| (c.status, c.count)).collect::<Vec<_>>();
    assert_eq!(st(&x), st(&y));
    let pts = |s: &Stats| {
        s.timeseries()
            .points
            .into_iter()
            .map(|p| (p.second_offset, p.requests, p.errors, p.bytes, p.by_endpoint))
            .collect::<Vec<_>>()
    };
    assert_eq!(pts(&s1), pts(&s2));
}

#[test]
fn recorded_latency_lands_in_its_slot() {
    let mut s = Stats::new(0, 0);
    s.record(ev("/ok", 200, 0, 2_049, 0));
    s.record(ev("/ok", 200, 0, 0, 0));
    s.record(ev("/ok", 200, 0, u128::MAX, 0));
    let sum = s.summary(0);
    let h = &sum.by_endpoint[0].latency_us.histogram;
    assert_eq!(h.len(), 3);
    assert_eq!(h.count_at(2_049), 1);
    assert_eq!(h.count_at(2_048), 1);
    assert_eq!(h.count_at(1), 1);
    assert_eq!(h.count_at(60_000_000), 1);
    assert_eq!(h.lowest_equivalent(2_049), 2_048);
}
