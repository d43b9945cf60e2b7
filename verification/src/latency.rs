//! Per-endpoint counters, with the latency histogram of `hdrhistogram`.
use vstd::multiset::Multiset;
use vstd::prelude::*;

use hdrhistogram::Histogram;

verus! {

/// A latency histogram of `hdrhistogram`, with `u64` counts. Verus does not
/// see inside it: what it holds is named by `latency_samples`, its bounds by
/// `latency_low`, `latency_sigfig` and `latency_ceiling`.
#[verifier::external_body]
pub struct LatencyHistogram {
    pub histogram: Histogram<u64>,
}

/// The samples of a histogram at its precision: each sample is the lowest
/// value of the slot it was counted in, as many times as that slot's count.
pub uninterp spec fn latency_samples(h: LatencyHistogram) -> Multiset<u64>;

/// The lowest discernible value a histogram was made with.
pub uninterp spec fn latency_low(h: LatencyHistogram) -> u64;

/// The significant figures a histogram was made with.
pub uninterp spec fn latency_sigfig(h: LatencyHistogram) -> u8;

/// The highest value a histogram tracks.
pub uninterp spec fn latency_ceiling(h: LatencyHistogram) -> u64;

/// `Histogram::lowest_equivalent`: the lowest value of the slot that `value`
/// is counted in, in a histogram of lowest discernible value `low` and
/// `sigfig` significant figures (the slots depend on these two alone).
pub uninterp spec fn slot_floor(low: u64, sigfig: u8, value: u64) -> u64;

/// `Histogram::<u64>::new_with_bounds(low, high, sigfig)`: an empty histogram
/// without auto-resize, of the given bounds. The `requires` leaves out every
/// input on which the crate returns an error (low of zero or above 2^45, high
/// below twice low, more than five significant figures), so the `expect`
/// never fires.
#[verifier::external_body]
fn histogram_with_bounds(low: u64, high: u64, sigfig: u8) -> (h: LatencyHistogram)
    requires
        1 <= low < 0x2000_0000_0000,
        2 * low <= high,
        sigfig <= 5,
    ensures
        latency_samples(h) =~= Multiset::empty(),
        latency_low(h) == low,
        latency_sigfig(h) == sigfig,
        latency_ceiling(h) == high,
{
    LatencyHistogram {
        histogram: Histogram::<u64>::new_with_bounds(low, high, sigfig).expect(
            "histogram bounds are valid",
        ),
    }
}

/// `Histogram::record`, its error dropped. A value up to the highest
/// trackable value is counted in its slot and the bounds stay. A larger value
/// is counted in its slot or dropped, and the highest trackable value stays or
/// (with auto-resize) grows. The lowest value and the precision never change.
/// The total count saturates at `u64::MAX` in the crate; the `requires` keeps
/// below it.
#[verifier::external_body]
fn histogram_record(h: &mut LatencyHistogram, value: u64)
    requires
        latency_samples(*old(h)).len() < u64::MAX,
    ensures
        latency_low(*final(h)) == latency_low(*old(h)),
        latency_sigfig(*final(h)) == latency_sigfig(*old(h)),
        value <= latency_ceiling(*old(h)) ==> {
            &&& latency_ceiling(*final(h)) == latency_ceiling(*old(h))
            &&& latency_samples(*final(h)) == latency_samples(*old(h)).insert(
                slot_floor(latency_low(*old(h)), latency_sigfig(*old(h)), value),
            )
        },
        value > latency_ceiling(*old(h)) ==> {
            &&& latency_ceiling(*final(h)) >= latency_ceiling(*old(h))
            &&& (latency_samples(*final(h)) == latency_samples(*old(h)) || latency_samples(
                *final(h),
            ) == latency_samples(*old(h)).insert(
                slot_floor(latency_low(*old(h)), latency_sigfig(*old(h)), value),
            ))
        },
{
    let _ = h.histogram.record(value);
}

/// `Clone::clone` of a histogram: the copy holds the same samples and bounds.
#[verifier::external_body]
fn histogram_clone(h: &LatencyHistogram) -> (r: LatencyHistogram)
    ensures
        latency_samples(r) == latency_samples(*h),
        latency_low(r) == latency_low(*h),
        latency_sigfig(r) == latency_sigfig(*h),
        latency_ceiling(r) == latency_ceiling(*h),
{
    LatencyHistogram { histogram: h.histogram.clone() }
}

/// The highest latency, in microseconds, that the statistics keep apart;
/// longer ones count as this.
pub const MAX_LATENCY_US: u64 = 60_000_000;

/// The significant figures of the latency histograms.
pub const LATENCY_SIGFIG: u8 = 3;

/// The counters of one endpoint, as numbers; the latencies as the samples of
/// the histogram, with its bounds.
pub struct EndpointTally {
    pub requests: u64,
    pub errors: u64,
    pub bytes: u64,
    pub latencies: Multiset<u64>,
    pub low: u64,
    pub sigfig: u8,
    pub ceiling: u64,
}

/// Requests, errors and bytes of one endpoint, and its latencies in
/// microseconds.
pub struct EndpointCounters {
    pub requests: u64,
    pub errors: u64,
    pub bytes: u64,
    pub latency_us: LatencyHistogram,
}

/// The counters of a histogram as numbers.
pub open spec fn tally_of(requests: u64, errors: u64, bytes: u64, h: LatencyHistogram) -> EndpointTally {
    EndpointTally {
        requests,
        errors,
        bytes,
        latencies: latency_samples(h),
        low: latency_low(h),
        sigfig: latency_sigfig(h),
        ceiling: latency_ceiling(h),
    }
}

impl View for EndpointCounters {
    type V = EndpointTally;

    open spec fn view(&self) -> EndpointTally {
        tally_of(self.requests, self.errors, self.bytes, self.latency_us)
    }
}

/// `value` clamped into `1..=MAX_LATENCY_US`.
pub open spec fn clamp_latency(value: u64) -> u64 {
    if value < 1 {
        1
    } else if value > MAX_LATENCY_US {
        MAX_LATENCY_US
    } else {
        value
    }
}

impl EndpointCounters {
    /// Zero counters, with a histogram of latencies from 1 µs up to
    /// `MAX_LATENCY_US` at three significant figures.
    pub fn new() -> (r: Self)
        ensures
            r@ == (EndpointTally {
                requests: 0,
                errors: 0,
                bytes: 0,
                latencies: Multiset::empty(),
                low: 1,
                sigfig: LATENCY_SIGFIG,
                ceiling: MAX_LATENCY_US,
            }),
    {
        EndpointCounters {
            requests: 0,
            errors: 0,
            bytes: 0,
            latency_us: histogram_with_bounds(1, MAX_LATENCY_US, LATENCY_SIGFIG),
        }
    }

    /// Records one latency, clamped into `1..=MAX_LATENCY_US`, in the slot of
    /// the histogram that holds it.
    pub fn record_latency_us(&mut self, value: u64)
        requires
            old(self)@.ceiling == MAX_LATENCY_US,
            old(self)@.latencies.len() < u64::MAX,
        ensures
            final(self)@ == (EndpointTally {
                latencies: old(self)@.latencies.insert(
                    slot_floor(old(self)@.low, old(self)@.sigfig, clamp_latency(value)),
                ),
                ..old(self)@
            }),
    {
        let clamped = if value < 1 {
            1
        } else if value > MAX_LATENCY_US {
            MAX_LATENCY_US
        } else {
            value
        };
        histogram_record(&mut self.latency_us, clamped);
    }

    /// A copy of the counters.
    pub fn duplicate(&self) -> (r: Self)
        ensures
            r@ == self@,
    {
        EndpointCounters {
            requests: self.requests,
            errors: self.errors,
            bytes: self.bytes,
            latency_us: histogram_clone(&self.latency_us),
        }
    }
}

} // verus!
