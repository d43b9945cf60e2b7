use bench_server::config::Config;
use bench_server::payload::{blob_body, blob_range, slow_body, slow_params, slow_totals_fit_check};
use bench_server::random_source::RandomSource;

fn base() -> Config {
    Config {
        host: "0.0.0.0".to_string(),
        port: 8080,
        blob_min_bytes: 256,
        blob_max_bytes: 65_536,
        slow_min_delay_ms: 100,
        slow_max_delay_ms: 1_000,
        slow_default_chunks: 5,
        slow_min_chunk_bytes: 256,
        slow_max_chunk_bytes: 4_096,
        seed: Some(7),
    }
}

#[test]
fn seeded_values_stay_in_range() {
    let mut r = RandomSource::new(Some(42));
    for _ in 0..1000 {
        let v = r.gen_u64_inclusive(10, 20);
        assert!((10..=20).contains(&v));
        let w = r.gen_usize_inclusive(3, 3);
        assert_eq!(w, 3);
    }
}

#[test]
fn thread_local_values_stay_in_range() {
    let mut r = RandomSource::new(None);
    for _ in 0..1000 {
        let v = r.gen_u64_inclusive(0, 1);
        assert!(v <= 1);
        let w = r.gen_usize_inclusive(100, 200);
        assert!((100..=200).contains(&w));
    }
}

#[test]
fn same_seed_gives_same_draws() {
    let mut a = RandomSource::new(Some(9));
    let mut b = RandomSource::new(Some(9));
    for _ in 0..100 {
        assert_eq!(a.gen_u64_inclusive(0, 1_000_000), b.gen_u64_inclusive(0, 1_000_000));
    }
    let mut x = vec![0u8; 64];
    let mut y = vec![0u8; 64];
    a.fill_bytes(&mut x);
    b.fill_bytes(&mut y);
    assert_eq!(x, y);
}

#[test]
fn fill_keeps_length_and_writes() {
    let mut r = RandomSource::new(Some(1));
    let mut data = vec![0u8; 4096];
    r.fill_bytes(&mut data);
    assert_eq!(data.len(), 4096);
    assert!(data.iter().any(|b| *b != 0));
}

#[test]
fn blob_range_defaults_and_refusals() {
    let c = base();
    assert_eq!(blob_range(&c, None, None), Some((256, 65_536)));
    assert_eq!(blob_range(&c, Some(1), Some(2)), Some((1, 2)));
    assert_eq!(blob_range(&c, Some(0), None), None);
    assert_eq!(blob_range(&c, Some(100_000), None), None);
    assert_eq!(blob_range(&c, None, Some(10)), None);
}

#[test]
fn blob_body_size_is_within_range() {
    let c = base();
    let mut r = RandomSource::new(Some(3));
    for _ in 0..50 {
        let d = blob_body(&c, &mut r, Some(10), Some(20)).unwrap();
        assert!(d.len() >= 10 && d.len() <= 20);
    }
    let d = blob_body(&c, &mut r, Some(5), Some(5)).unwrap();
    assert_eq!(d.len(), 5);
    assert!(blob_body(&c, &mut r, Some(0), Some(5)).is_none());
    assert!(blob_body(&c, &mut r, Some(6), Some(5)).is_none());
}

#[test]
fn slow_params_defaults_and_refusals() {
    let c = base();
    assert_eq!(slow_params(&c, None, None, None), Some((5, 256, 4_096)));
    assert_eq!(slow_params(&c, Some(2), Some(1), Some(3)), Some((2, 1, 3)));
    assert_eq!(slow_params(&c, Some(0), None, None), None);
    assert_eq!(slow_params(&c, None, Some(0), None), None);
    assert_eq!(slow_params(&c, None, Some(5_000), None), None);
}

#[test]
fn slow_plan_totals_are_sums() {
    let c = base();
    let mut r = RandomSource::new(Some(11));
    let plan = slow_body(&c, &mut r, Some(4), Some(10), Some(30)).unwrap();
    assert_eq!(plan.chunks.len(), 4);
    let bytes: u64 = plan.chunks.iter().map(|ch| ch.data.len() as u64).sum();
    let delay: u64 = plan.chunks.iter().map(|ch| ch.delay_ms).sum();
    assert_eq!(plan.total_bytes, bytes);
    assert_eq!(plan.total_delay_ms, delay);
    for ch in &plan.chunks {
        assert!(ch.delay_ms >= 100 && ch.delay_ms <= 1_000);
        assert!(ch.data.len() >= 10 && ch.data.len() <= 30);
    }
    assert!(slow_body(&c, &mut r, Some(0), None, None).is_none());
}

#[test]
fn slow_totals_fit_check_detects_overflow() {
    let c = base();
    assert!(slow_totals_fit_check(&c, 5, 4_096));
    assert!(!slow_totals_fit_check(&c, usize::MAX, usize::MAX));
}

#[test]
fn refused_requests_leave_the_random_source_alone() {
    let c = base();
    let mut a = RandomSource::new(Some(5));
    let mut b = RandomSource::new(Some(5));
    assert!(blob_body(&c, &mut a, Some(0), None).is_none());
    assert!(slow_body(&c, &mut a, Some(0), None, None).is_none());
    assert_eq!(a.gen_u64_inclusive(0, u64::MAX), b.gen_u64_inclusive(0, u64::MAX));
}

#[test]
fn slow_event_adds_the_planned_delay() {
    let c = base();
    let mut r = RandomSource::new(Some(2));
    let plan = slow_body(&c, &mut r, Some(3), Some(1), Some(2)).unwrap();
    let e = bench_server::payload::slow_event("/slow", 200, &plan, 250, 1_000);
    assert_eq!(e.endpoint, "/slow");
    assert_eq!(e.status, 200);
    assert_eq!(e.bytes, plan.total_bytes);
    assert_eq!(e.latency_us, 250 + u128::from(plan.total_delay_ms) * 1_000);
    assert_eq!(e.completed_at_ns, 1_000 + plan.total_delay_ms * 1_000_000);
}

#[test]
fn seeded_payloads_are_reproducible() {
    let c = base();
    let mut a = RandomSource::new(Some(77));
    let mut b = RandomSource::new(Some(77));
    assert_eq!(blob_body(&c, &mut a, Some(1), Some(64)), blob_body(&c, &mut b, Some(1), Some(64)));
    let pa = slow_body(&c, &mut a, Some(4), Some(1), Some(16)).unwrap();
    let pb = slow_body(&c, &mut b, Some(4), Some(1), Some(16)).unwrap();
    let ca: Vec<(u64, Vec<u8>)> = pa.chunks.into_iter().map(|ch| (ch.delay_ms, ch.data)).collect();
    let cb: Vec<(u64, Vec<u8>)> = pb.chunks.into_iter().map(|ch| (ch.delay_ms, ch.data)).collect();
    assert_eq!(ca, cb);
    let mut x = vec![1u8; 32];
    let mut y = vec![2u8; 32];
    a.fill_bytes(&mut x);
    b.fill_bytes(&mut y);
    assert_eq!(x, y);
}
