use bench_server::config::Config;

fn base() -> Config {
    Config {
        host: "0.0.0.0".to_string(),
        port: 8080,
        blob_min_bytes: 256,
        blob_max_bytes: 65_536,
        slow_min_delay_ms: 100,
        slow_max_delay_ms: 1_000,
        slow_default_chunks: 5,
        slow_min_chunk_bytes: 256,
        slow_max_chunk_bytes: 4_096,
        seed: None,
    }
}

#[test]
fn default_like_config_is_valid() {
    assert_eq!(base().validate(), Ok(()));
}

#[test]
fn zero_blob_min_is_refused() {
    let mut c = base();
    c.blob_min_bytes = 0;
    assert_eq!(c.validate(), Err("blob_min_bytes must be > 0".to_string()));
}

#[test]
fn blob_min_above_max_is_refused() {
    let mut c = base();
    c.blob_min_bytes = 70_000;
    assert_eq!(c.validate(), Err("blob_min_bytes must be <= blob_max_bytes".to_string()));
}

#[test]
fn delay_bounds_reversed_are_refused() {
    let mut c = base();
    c.slow_min_delay_ms = 2_000;
    assert_eq!(c.validate(), Err("slow_min_delay_ms must be <= slow_max_delay_ms".to_string()));
}

#[test]
fn zero_default_chunks_is_refused() {
    let mut c = base();
    c.slow_default_chunks = 0;
    assert_eq!(c.validate(), Err("slow_default_chunks must be > 0".to_string()));
}

#[test]
fn zero_chunk_min_is_refused() {
    let mut c = base();
    c.slow_min_chunk_bytes = 0;
    assert_eq!(c.validate(), Err("slow_min_chunk_bytes must be > 0".to_string()));
}

#[test]
fn chunk_min_above_max_is_refused() {
    let mut c = base();
    c.slow_min_chunk_bytes = 5_000;
    assert_eq!(c.validate(), Err("slow_min_chunk_bytes must be <= slow_max_chunk_bytes".to_string()));
}

#[test]
fn first_broken_rule_is_reported() {
    let mut c = base();
    c.blob_min_bytes = 0;
    c.slow_default_chunks = 0;
    assert_eq!(c.validate(), Err("blob_min_bytes must be > 0".to_string()));
}

#[test]
fn equal_bounds_are_accepted() {
    let mut c = base();
    c.blob_min_bytes = 10;
    c.blob_max_bytes = 10;
    c.slow_min_delay_ms = 5;
    c.slow_max_delay_ms = 5;
    c.slow_min_chunk_bytes = 7;
    c.slow_max_chunk_bytes = 7;
    assert_eq!(c.validate(), Ok(()));
}

#[test]
fn bind_addr_joins_host_and_port() {
    assert_eq!(base().bind_addr(), "0.0.0.0:8080");
    let mut c = base();
    c.host = "127.0.0.1".to_string();
    c.port = 0;
    assert_eq!(c.bind_addr(), "127.0.0.1:0");
    c.port = 65_535;
    assert_eq!(c.bind_addr(), "127.0.0.1:65535");
    c.port = 10;
    assert_eq!(c.bind_addr(), "127.0.0.1:10");
}
