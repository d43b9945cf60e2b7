//! The payloads of the load endpoints: the random blob of `/blob` and the
//! chunk plan of the streamed `/slow`, with their parameters taken from the
//! query where given and from the configuration otherwise.
use vstd::prelude::*;

use crate::config::{config_valid, Config};
use crate::random_source::{seeded_bytes, seeded_u64, seeded_usize, Draw, RandomSource};
use crate::stats::RequestEvent;
use crate::tally::seq_sum;

verus! {

/// The size bounds of a `/blob` body: the query's where given, the
/// configured ones otherwise; `None` unless `0 < min <= max`.
pub open spec fn blob_range_of(config: Config, min: Option<usize>, max: Option<usize>) -> Option<(usize, usize)> {
    let lo = match min {
        Some(v) => v,
        None => config.blob_min_bytes,
    };
    let hi = match max {
        Some(v) => v,
        None => config.blob_max_bytes,
    };
    if lo == 0 || lo > hi {
        None
    } else {
        Some((lo, hi))
    }
}

/// The size bounds of a `/blob` body, or `None` for a range that is refused.
pub fn blob_range(config: &Config, min: Option<usize>, max: Option<usize>) -> (r: Option<(usize, usize)>)
    ensures
        r == blob_range_of(*config, min, max),
        min matches Some(a) ==> (max matches Some(b) ==> (0 < a <= b ==> r == Some((a, b)))),
        r matches Some((lo, hi)) ==> (min matches Some(a) ==> lo == a) && (max matches Some(b) ==> hi
            == b) && (min is None ==> lo == config.blob_min_bytes) && (max is None ==> hi
            == config.blob_max_bytes) && 0 < lo <= hi,
{
    proof {
        lemma_blob_range_query(*config, min, max);
    }
    let lo = match min {
        Some(v) => v,
        None => config.blob_min_bytes,
    };
    let hi = match max {
        Some(v) => v,
        None => config.blob_max_bytes,
    };
    if lo == 0 || lo > hi {
        None
    } else {
        Some((lo, hi))
    }
}

/// The bounds that a `/blob` query gives are the bounds used, whatever the
/// configuration: a query that gives both, with `0 < min <= max`, is served
/// with exactly that range; a bound it leaves out is the configured one, and
/// with neither given a valid configuration's range is served. A query `min`
/// of 0, or one above the query `max`, is refused.
pub proof fn lemma_blob_range_query(config: Config, min: Option<usize>, max: Option<usize>)
    ensures
        min matches Some(a) ==> (max matches Some(b) ==> (0 < a <= b ==> blob_range_of(config, min, max)
            == Some((a, b)))),
        min matches Some(a) ==> (max matches Some(b) ==> (a > b ==> blob_range_of(config, min, max) is None)),
        min == Some(0usize) ==> blob_range_of(config, min, max) is None,
        blob_range_of(config, min, max) matches Some((lo, hi)) ==> (min matches Some(a) ==> lo == a) && (
        max matches Some(b) ==> hi == b) && (min is None ==> lo == config.blob_min_bytes) && (max is None
            ==> hi == config.blob_max_bytes) && 0 < lo <= hi,
        config_valid(config) && min is None && max is None ==> blob_range_of(config, min, max) == Some(
            (config.blob_min_bytes, config.blob_max_bytes),
        ),
{
}

/// What a seeded generator with seed `seed`, after the calls `draws`, gives
/// as a blob of a size drawn from `min..=max`: the bytes, and the calls made
/// since seeding afterwards (the size drawn, then the bytes filled).
pub open spec fn seeded_blob(seed: u64, draws: Seq<Draw>, min: usize, max: usize) -> (Seq<u8>, Seq<Draw>) {
    let size = seeded_usize(seed, draws, min, max);
    let after_size = draws.push((1u8, min as int, max as int));
    (seeded_bytes(seed, after_size, size as nat), after_size.push((2u8, size as int, 0int)))
}

/// Random bytes, as many as drawn from `min..=max`.
pub fn random_blob(random: &mut RandomSource, min: usize, max: usize) -> (r: Vec<u8>)
    requires
        min <= max,
    ensures
        min <= r@.len() <= max,
        final(random).is_seeded() == old(random).is_seeded(),
        final(random).seed() == old(random).seed(),
        old(random).is_seeded() ==> seeded_blob(old(random).seed(), old(random).draws(), min, max)
            == (r@, final(random).draws()),
{
    let size = random.gen_usize_inclusive(min, max);
    let mut data = vec![0u8; size];
    random.fill_bytes(data.as_mut_slice());
    data
}

/// The body of a `/blob` request: `None` when the range is refused, else
/// random bytes of a size within it.
pub fn blob_body(config: &Config, random: &mut RandomSource, min: Option<usize>, max: Option<usize>) -> (r: Option<Vec<u8>>)
    ensures
        r is None <==> blob_range_of(*config, min, max) is None,
        r matches Some(d) ==> blob_range_of(*config, min, max) matches Some((lo, hi)) && lo <= d@.len()
            <= hi,
        r is None ==> *final(random) == *old(random),
        r matches Some(d) ==> blob_range_of(*config, min, max) matches Some((lo, hi)) && (old(
            random,
        ).is_seeded() ==> seeded_blob(old(random).seed(), old(random).draws(), lo, hi) == (
            d@,
            final(random).draws(),
        )),
        final(random).is_seeded() == old(random).is_seeded(),
        final(random).seed() == old(random).seed(),
        min matches Some(a) ==> (max matches Some(b) ==> (0 < a <= b ==> (r matches Some(d) && a <= d@.len()
            <= b))),
{
    match blob_range(config, min, max) {
        None => None,
        Some((lo, hi)) => Some(random_blob(random, lo, hi)),
    }
}

/// The chunking of a `/slow` body: number of chunks and chunk size bounds,
/// the query's where given, the configured ones otherwise; `None` unless
/// there is a chunk and `0 < min_chunk <= max_chunk`.
pub open spec fn slow_params_of(
    config: Config,
    chunks: Option<usize>,
    min_chunk: Option<usize>,
    max_chunk: Option<usize>,
) -> Option<(usize, usize, usize)> {
    let n = match chunks {
        Some(v) => v,
        None => config.slow_default_chunks,
    };
    let lo = match min_chunk {
        Some(v) => v,
        None => config.slow_min_chunk_bytes,
    };
    let hi = match max_chunk {
        Some(v) => v,
        None => config.slow_max_chunk_bytes,
    };
    if n == 0 || lo == 0 || lo > hi {
        None
    } else {
        Some((n, lo, hi))
    }
}

/// The chunking that a `/slow` query gives is the chunking used, whatever the
/// configuration: a query of `chunks = c > 0` with chunk bounds
/// `0 < min_chunk <= max_chunk` is served in exactly `c` chunks within those
/// bounds; each part it leaves out is the configured one, so with a valid
/// configuration a query that gives only `c > 0` chunks is served in `c`
/// chunks of the configured bounds. A query of no chunks is refused.
pub proof fn lemma_slow_params_query(
    config: Config,
    chunks: Option<usize>,
    min_chunk: Option<usize>,
    max_chunk: Option<usize>,
)
    ensures
        chunks matches Some(c) ==> (min_chunk matches Some(a) ==> (max_chunk matches Some(b) ==> (0 < c
            && 0 < a <= b ==> slow_params_of(config, chunks, min_chunk, max_chunk) == Some((c, a, b))))),
        slow_params_of(config, chunks, min_chunk, max_chunk) matches Some((n, lo, hi)) ==> (chunks matches Some(
            c,
        ) ==> n == c) && (min_chunk matches Some(a) ==> lo == a) && (max_chunk matches Some(b) ==> hi
            == b) && (chunks is None ==> n == config.slow_default_chunks) && (min_chunk is None ==> lo
            == config.slow_min_chunk_bytes) && (max_chunk is None ==> hi == config.slow_max_chunk_bytes)
            && 0 < n && 0 < lo <= hi,
        chunks == Some(0usize) ==> slow_params_of(config, chunks, min_chunk, max_chunk) is None,
        config_valid(config) ==> (chunks matches Some(c) ==> (0 < c && min_chunk is None && max_chunk is None
            ==> slow_params_of(config, chunks, min_chunk, max_chunk) == Some(
            (c, config.slow_min_chunk_bytes, config.slow_max_chunk_bytes),
        ))),
        config_valid(config) && chunks is None && min_chunk is None && max_chunk is None ==> slow_params_of(
            config,
            chunks,
            min_chunk,
            max_chunk,
        ) == Some((config.slow_default_chunks, config.slow_min_chunk_bytes, config.slow_max_chunk_bytes)),
{
}

/// The chunking of a `/slow` body, or `None` for parameters that are refused.
pub fn slow_params(
    config: &Config,
    chunks: Option<usize>,
    min_chunk: Option<usize>,
    max_chunk: Option<usize>,
) -> (r: Option<(usize, usize, usize)>)
    ensures
        r == slow_params_of(*config, chunks, min_chunk, max_chunk),
        chunks matches Some(c) ==> (min_chunk matches Some(a) ==> (max_chunk matches Some(b) ==> (0 < c
            && 0 < a <= b ==> r == Some((c, a, b))))),
        r matches Some((n, lo, hi)) ==> (chunks matches Some(c) ==> n == c) && (min_chunk matches Some(
            a,
        ) ==> lo == a) && (max_chunk matches Some(b) ==> hi == b) && (chunks is None ==> n
            == config.slow_default_chunks) && (min_chunk is None ==> lo == config.slow_min_chunk_bytes)
            && (max_chunk is None ==> hi == config.slow_max_chunk_bytes) && 0 < n && 0 < lo <= hi,
        chunks == Some(0usize) ==> r is None,
{
    proof {
        lemma_slow_params_query(*config, chunks, min_chunk, max_chunk);
    }
    let n = match chunks {
        Some(v) => v,
        None => config.slow_default_chunks,
    };
    let lo = match min_chunk {
        Some(v) => v,
        None => config.slow_min_chunk_bytes,
    };
    let hi = match max_chunk {
        Some(v) => v,
        None => config.slow_max_chunk_bytes,
    };
    if n == 0 || lo == 0 || lo > hi {
        None
    } else {
        Some((n, lo, hi))
    }
}

/// One chunk of a `/slow` body, sent after its delay.
pub struct SlowChunk {
    pub delay_ms: u64,
    pub data: Vec<u8>,
}

/// The chunks of a `/slow` body, with their total size and total delay.
pub struct SlowPlan {
    pub chunks: Vec<SlowChunk>,
    pub total_bytes: u64,
    pub total_delay_ms: u64,
}

/// The size of a chunk.
pub open spec fn chunk_size() -> spec_fn(SlowChunk) -> int {
    |c: SlowChunk| c.data@.len() as int
}

/// The delay of a chunk.
pub open spec fn chunk_delay() -> spec_fn(SlowChunk) -> int {
    |c: SlowChunk| c.delay_ms as int
}

/// Whether the totals of `chunks` chunks of at most `max_chunk` bytes, each
/// after at most the configured longest delay, fit in 64 bits.
pub open spec fn slow_totals_fit(config: Config, chunks: usize, max_chunk: usize) -> bool {
    &&& chunks * max_chunk <= u64::MAX
    &&& chunks * config.slow_max_delay_ms <= u64::MAX
}

/// Whether the totals of a `/slow` plan fit in 64 bits (see `slow_totals_fit`).
pub fn slow_totals_fit_check(config: &Config, chunks: usize, max_chunk: usize) -> (r: bool)
    ensures
        r == slow_totals_fit(*config, chunks, max_chunk),
{
    let n: u64 = chunks as u64;
    let m: u64 = max_chunk as u64;
    let bytes_fit = match n.checked_mul(m) {
        Some(_) => true,
        None => false,
    };
    let delay_fit = match n.checked_mul(config.slow_max_delay_ms) {
        Some(_) => true,
        None => false,
    };
    bytes_fit && delay_fit
}

proof fn lemma_step_bound(i: int, n: int, m: int)
    by (nonlinear_arith)
    requires
        0 <= i < n,
        0 <= m,
    ensures
        i * m + m <= n * m,
        (i + 1) * m == i * m + m,
        0 <= i * m,
{
}

/// The chunks of a plan as delays and bytes.
pub open spec fn chunk_pairs(s: Seq<SlowChunk>) -> Seq<(u64, Seq<u8>)> {
    s.map_values(|c: SlowChunk| (c.delay_ms, c.data@))
}

/// What a seeded generator with seed `seed`, after the calls `draws`, gives as
/// a plan of `n` chunks: for each chunk in turn a delay drawn from
/// `dmin..=dmax`, then a size drawn from `lo..=hi`, then that many bytes; with
/// the calls made since seeding afterwards.
pub open spec fn seeded_plan(
    seed: u64,
    draws: Seq<Draw>,
    n: nat,
    dmin: u64,
    dmax: u64,
    lo: usize,
    hi: usize,
) -> (Seq<(u64, Seq<u8>)>, Seq<Draw>)
    decreases n,
{
    if n == 0 {
        (Seq::empty(), draws)
    } else {
        let (p, h1) = seeded_plan(seed, draws, (n - 1) as nat, dmin, dmax, lo, hi);
        let d = seeded_u64(seed, h1, dmin, dmax);
        let h2 = h1.push((0u8, dmin as int, dmax as int));
        let (bytes, h3) = seeded_blob(seed, h2, lo, hi);
        (p.push((d, bytes)), h3)
    }
}

/// The plan of a `/slow` body: `chunks` chunks, each of a size drawn from
/// `min_chunk..=max_chunk` and filled with random bytes, each after a delay
/// drawn from the configured delay bounds.
pub fn slow_plan(config: &Config, random: &mut RandomSource, chunks: usize, min_chunk: usize, max_chunk: usize) -> (r: SlowPlan)
    requires
        min_chunk <= max_chunk,
        config.slow_min_delay_ms <= config.slow_max_delay_ms,
        slow_totals_fit(*config, chunks, max_chunk),
    ensures
        r.chunks@.len() == chunks,
        forall|i: int|
            0 <= i < chunks ==> config.slow_min_delay_ms <= (#[trigger] r.chunks@[i]).delay_ms
                <= config.slow_max_delay_ms && min_chunk <= r.chunks@[i].data@.len() <= max_chunk,
        r.total_bytes == seq_sum(r.chunks@, chunk_size()),
        r.total_delay_ms == seq_sum(r.chunks@, chunk_delay()),
        final(random).is_seeded() == old(random).is_seeded(),
        final(random).seed() == old(random).seed(),
        old(random).is_seeded() ==> seeded_plan(
            old(random).seed(),
            old(random).draws(),
            chunks as nat,
            config.slow_min_delay_ms,
            config.slow_max_delay_ms,
            min_chunk,
            max_chunk,
        ) == (chunk_pairs(r.chunks@), final(random).draws()),
{
    let ghost seed = random.seed();
    let ghost h0 = random.draws();
    let mut planned: Vec<SlowChunk> = Vec::with_capacity(chunks);
    let mut total_bytes: u64 = 0;
    let mut planned_delay_ms: u64 = 0;
    let mut i: usize = 0;
    while i < chunks
        invariant
            i <= chunks,
            min_chunk <= max_chunk,
            config.slow_min_delay_ms <= config.slow_max_delay_ms,
            slow_totals_fit(*config, chunks, max_chunk),
            planned@.len() == i,
            forall|j: int|
                0 <= j < i ==> config.slow_min_delay_ms <= (#[trigger] planned@[j]).delay_ms
                    <= config.slow_max_delay_ms && min_chunk <= planned@[j].data@.len() <= max_chunk,
            total_bytes == seq_sum(planned@, chunk_size()),
            planned_delay_ms == seq_sum(planned@, chunk_delay()),
            total_bytes <= i * max_chunk,
            planned_delay_ms <= i * config.slow_max_delay_ms,
            random.is_seeded() == old(random).is_seeded(),
            random.seed() == seed,
            seed == old(random).seed(),
            h0 == old(random).draws(),
            random.is_seeded() ==> seeded_plan(
                seed,
                h0,
                i as nat,
                config.slow_min_delay_ms,
                config.slow_max_delay_ms,
                min_chunk,
                max_chunk,
            ) == (chunk_pairs(planned@), random.draws()),
        decreases chunks - i,
    {
        let delay_ms = random.gen_u64_inclusive(config.slow_min_delay_ms, config.slow_max_delay_ms);
        let chunk = random_blob(random, min_chunk, max_chunk);
        proof {
            lemma_step_bound(i as int, chunks as int, max_chunk as int);
            lemma_step_bound(i as int, chunks as int, config.slow_max_delay_ms as int);
        }
        planned_delay_ms = planned_delay_ms + delay_ms;
        total_bytes = total_bytes + chunk.len() as u64;
        let ghost before = planned@;
        planned.push(SlowChunk { delay_ms, data: chunk });
        proof {
            assert(planned@.drop_last() =~= before);
            assert(chunk_pairs(planned@) =~= chunk_pairs(before).push(
                (planned@[i as int].delay_ms, planned@[i as int].data@),
            ));
        }
        i = i + 1;
    }
    SlowPlan { chunks: planned, total_bytes, total_delay_ms: planned_delay_ms }
}

/// The plan of a `/slow` request: `None` when its parameters are refused.
pub fn slow_body(
    config: &Config,
    random: &mut RandomSource,
    chunks: Option<usize>,
    min_chunk: Option<usize>,
    max_chunk: Option<usize>,
) -> (r: Option<SlowPlan>)
    requires
        config.slow_min_delay_ms <= config.slow_max_delay_ms,
        slow_params_of(*config, chunks, min_chunk, max_chunk) matches Some((n, lo, hi))
            ==> slow_totals_fit(*config, n, hi),
    ensures
        r is None <==> slow_params_of(*config, chunks, min_chunk, max_chunk) is None,
        r matches Some(plan) ==> slow_params_of(*config, chunks, min_chunk, max_chunk) matches Some(
            (n, lo, hi),
        ) && plan.chunks@.len() == n && (forall|i: int|
            0 <= i < n ==> config.slow_min_delay_ms <= (#[trigger] plan.chunks@[i]).delay_ms
                <= config.slow_max_delay_ms && lo <= plan.chunks@[i].data@.len() <= hi)
            && plan.total_bytes == seq_sum(plan.chunks@, chunk_size()) && plan.total_delay_ms
            == seq_sum(plan.chunks@, chunk_delay()),
        r is None ==> *final(random) == *old(random),
        r matches Some(plan) ==> slow_params_of(*config, chunks, min_chunk, max_chunk) matches Some(
            (n, lo, hi),
        ) && (old(random).is_seeded() ==> seeded_plan(
            old(random).seed(),
            old(random).draws(),
            n as nat,
            config.slow_min_delay_ms,
            config.slow_max_delay_ms,
            lo,
            hi,
        ) == (chunk_pairs(plan.chunks@), final(random).draws())),
        final(random).is_seeded() == old(random).is_seeded(),
        final(random).seed() == old(random).seed(),
        chunks matches Some(c) ==> (r matches Some(plan) ==> plan.chunks@.len() == c),
        chunks matches Some(c) ==> (min_chunk matches Some(a) ==> (max_chunk matches Some(b) ==> (0 < c
            && 0 < a <= b ==> (r matches Some(plan) && plan.chunks@.len() == c && (forall|i: int|
            0 <= i < c ==> a <= (#[trigger] plan.chunks@[i]).data@.len() <= b))))),
{
    proof {
        lemma_slow_params_query(*config, chunks, min_chunk, max_chunk);
    }
    match slow_params(config, chunks, min_chunk, max_chunk) {
        None => None,
        Some((n, lo, hi)) => Some(slow_plan(config, random, n, lo, hi)),
    }
}

/// The request event of a streamed `/slow` response, recorded when the
/// response starts: its latency is the time spent so far (`elapsed_us`)
/// plus the planned delays, and it completes when the last chunk is due,
/// the planned delays after the monotonic reading `now_ns`.
pub fn slow_event(
    endpoint: &'static str,
    status: u16,
    plan: &SlowPlan,
    elapsed_us: u128,
    now_ns: u64,
) -> (r: RequestEvent)
    requires
        elapsed_us + plan.total_delay_ms * 1000 <= u128::MAX,
        now_ns + plan.total_delay_ms * 1_000_000 <= u64::MAX,
    ensures
        r == (RequestEvent {
            endpoint,
            status,
            bytes: plan.total_bytes,
            latency_us: (elapsed_us + plan.total_delay_ms * 1000) as u128,
            completed_at_ns: (now_ns + plan.total_delay_ms * 1_000_000) as u64,
        }),
{
    let delay_us: u128 = plan.total_delay_ms as u128 * 1000;
    let delay_ns: u64 = plan.total_delay_ms * 1_000_000;
    RequestEvent::new(endpoint, status, plan.total_bytes, elapsed_us + delay_us, now_ns + delay_ns)
}

} // verus!
