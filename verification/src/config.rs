//! Server configuration and its consistency rules.
use vstd::prelude::*;

use crate::text::{decimal, push_decimal};

verus! {

/// Settings of the server: where it listens, the payload bounds of the
/// `/blob` and `/slow` endpoints, and an optional seed for the random source.
#[derive(Debug, Clone)]
pub struct Config {
    pub host: String,
    pub port: u16,
    pub blob_min_bytes: usize,
    pub blob_max_bytes: usize,
    pub slow_min_delay_ms: u64,
    pub slow_max_delay_ms: u64,
    pub slow_default_chunks: usize,
    pub slow_min_chunk_bytes: usize,
    pub slow_max_chunk_bytes: usize,
    pub seed: Option<u64>,
}

/// The first rule that `c` breaks, as the message that reports it; `None`
/// when `c` is consistent. The rules are checked in this order.
pub open spec fn config_problem(c: Config) -> Option<Seq<char>> {
    if c.blob_min_bytes == 0 {
        Some("blob_min_bytes must be > 0"@)
    } else if c.blob_min_bytes > c.blob_max_bytes {
        Some("blob_min_bytes must be <= blob_max_bytes"@)
    } else if c.slow_min_delay_ms > c.slow_max_delay_ms {
        Some("slow_min_delay_ms must be <= slow_max_delay_ms"@)
    } else if c.slow_default_chunks == 0 {
        Some("slow_default_chunks must be > 0"@)
    } else if c.slow_min_chunk_bytes == 0 {
        Some("slow_min_chunk_bytes must be > 0"@)
    } else if c.slow_min_chunk_bytes > c.slow_max_chunk_bytes {
        Some("slow_min_chunk_bytes must be <= slow_max_chunk_bytes"@)
    } else {
        None
    }
}

/// A configuration that every rule of `config_problem` accepts.
pub open spec fn config_valid(c: Config) -> bool {
    &&& c.blob_min_bytes > 0
    &&& c.blob_min_bytes <= c.blob_max_bytes
    &&& c.slow_min_delay_ms <= c.slow_max_delay_ms
    &&& c.slow_default_chunks > 0
    &&& c.slow_min_chunk_bytes > 0
    &&& c.slow_min_chunk_bytes <= c.slow_max_chunk_bytes
}

/// The listening address `host:port`.
pub open spec fn bind_addr_of(c: Config) -> Seq<char> {
    c.host@ + seq![':'] + decimal(c.port as nat)
}

impl Config {
    /// Checks the configuration; the error names the first rule broken.
    pub fn validate(&self) -> (r: Result<(), String>)
        ensures
            r is Ok <==> config_problem(*self) is None,
            r is Ok <==> config_valid(*self),
            r matches Err(e) ==> config_problem(*self) == Some(e@),
    {
        if self.blob_min_bytes == 0 {
            return Err(String::from_str("blob_min_bytes must be > 0"));
        }
        if self.blob_min_bytes > self.blob_max_bytes {
            return Err(String::from_str("blob_min_bytes must be <= blob_max_bytes"));
        }
        if self.slow_min_delay_ms > self.slow_max_delay_ms {
            return Err(String::from_str("slow_min_delay_ms must be <= slow_max_delay_ms"));
        }
        if self.slow_default_chunks == 0 {
            return Err(String::from_str("slow_default_chunks must be > 0"));
        }
        if self.slow_min_chunk_bytes == 0 {
            return Err(String::from_str("slow_min_chunk_bytes must be > 0"));
        }
        if self.slow_min_chunk_bytes > self.slow_max_chunk_bytes {
            return Err(String::from_str("slow_min_chunk_bytes must be <= slow_max_chunk_bytes"));
        }
        Ok(())
    }

    /// The address to listen on, `host:port`.
    pub fn bind_addr(&self) -> (r: String)
        ensures
            r@ == bind_addr_of(*self),
    {
        let mut s = self.host.clone();
        s.append(":");
        proof {
            reveal_strlit(":");
        }
        push_decimal(&mut s, self.port as u64);
        s
    }
}

} // verus!
