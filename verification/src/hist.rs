//! The diagnostic histogram of per-article recognized-keyword counts is
//! kept in `histogram::Histogram`. The histogram is lossy by design: a
//! recorded value lands in the bucket its configuration assigns to it,
//! and only the per-bucket counters are kept. The model therefore names
//! exactly that: the sequence of bucket counters, the bucket index the
//! configuration assigns to a value, and the largest trackable value.
use vstd::prelude::*;

verus! {

#[verifier::external_type_specification]
#[verifier::external_body]
pub struct ExHistogram(histogram::Histogram);

/// The per-bucket counters of the histogram, in bucket order: what
/// `as_slice` exposes.
pub uninterp spec fn hist_counts(h: histogram::Histogram) -> Seq<u64>;

/// The bucket index the histogram's configuration assigns to a value;
/// names the result of `Config::value_to_index`, a function of the
/// configuration and the value alone.
pub uninterp spec fn bucket_of(h: histogram::Histogram, value: u64) -> int;

/// The largest value the histogram's configuration can track.
pub uninterp spec fn hist_max(h: histogram::Histogram) -> u64;

/// A fresh histogram with every bucket counter at zero.
///
/// Relies on `histogram::Histogram::new`: it succeeds whenever
/// `grouping_power < max_value_power <= 64` (both small enough for the
/// bucket count to fit), starts all counters at zero, and with
/// `max_value_power` of 32 tracks values up to `2^32 - 1`.
#[verifier::external_body]
pub fn new_histogram(grouping_power: u8, max_value_power: u8) -> (r: Option<histogram::Histogram>)
    ensures
        r is Some ==> forall|k: int|
            0 <= k < hist_counts(r->Some_0).len() ==> hist_counts(r->Some_0)[k] == 0,
        grouping_power == 1 && max_value_power == 32 ==> r is Some && hist_max(r->Some_0)
            == 0xFFFF_FFFFu64,
{
    match histogram::Histogram::new(grouping_power, max_value_power) {
        Ok(h) => Some(h),
        Err(_) => None,
    }
}

/// Records one value in the histogram.
///
/// Relies on `histogram::Histogram::increment`: it returns `Ok` exactly
/// when the value is within the configured range, and then adds one,
/// wrapping on overflow, to the counter of the bucket holding the value;
/// an out-of-range value leaves the counters unchanged. The
/// configuration, and with it the bucket assignment and the trackable
/// range, is never changed.
#[verifier::external_body]
pub fn hist_increment(h: &mut histogram::Histogram, value: u64) -> (ok: bool)
    ensures
        ok <==> value <= hist_max(*old(h)),
        hist_max(*final(h)) == hist_max(*old(h)),
        forall|w: u64| bucket_of(*final(h), w) == bucket_of(*old(h), w),
        ok ==> 0 <= bucket_of(*old(h), value) < hist_counts(*old(h)).len() && hist_counts(
            *final(h),
        ) =~= hist_counts(*old(h)).update(
            bucket_of(*old(h), value),
            (hist_counts(*old(h))[bucket_of(*old(h), value)] + 1) as u64,
        ),
        !ok ==> hist_counts(*final(h)) =~= hist_counts(*old(h)),
{
    h.increment(value).is_ok()
}

} // verus!
