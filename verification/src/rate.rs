//! Per-call delay computation for the two provider rate-limit tiers.

use vstd::prelude::*;

verus! {

/// `a - b`, clamped at zero: underflow never wraps.
pub open spec fn clamped_sub(a: u64, b: u64) -> u64 {
    if a >= b {
        (a - b) as u64
    } else {
        0
    }
}

/// Tier-A delay: the period minus the share of the call quota each ticker
/// gets per period (integer division, so a ticker count above the quota
/// leaves the whole period as the delay).
pub open spec fn tier_a_delay(num_tickers: u64, limit: u64, period: u64) -> u64
    recommends
        num_tickers > 0,
{
    clamped_sub(period, (limit as int / num_tickers as int) as u64)
}

/// Tier-B delay: the period minus the quota headroom above the ticker
/// count (a quota below the ticker count clamps to zero, leaving the
/// whole period as the delay).
pub open spec fn tier_b_delay(num_tickers: u64, limit: u64, period: u64) -> u64 {
    clamped_sub(period, clamped_sub(limit, num_tickers))
}

pub open spec fn min_u64(a: u64, b: u64) -> u64 {
    if a <= b {
        a
    } else {
        b
    }
}

/// The stricter of the two tier delays: the binding constraint wins.
pub open spec fn combined_delay(
    num_tickers: u64,
    rate_limit1: u64,
    period_in_seconds1: u64,
    rate_limit2: u64,
    period_in_seconds2: u64,
) -> u64
    recommends
        num_tickers > 0,
{
    min_u64(
        tier_a_delay(num_tickers, rate_limit1, period_in_seconds1),
        tier_b_delay(num_tickers, rate_limit2, period_in_seconds2),
    )
}

/// Inter-call sleep for one polling cycle: `None` exactly when there is
/// nothing to schedule, otherwise the smaller of the two tier delays,
/// all arithmetic saturating at zero.
pub fn calculate_sleep_duration(
    num_tickers: usize,
    rate_limit1: u64,
    period_in_seconds1: u64,
    rate_limit2: u64,
    period_in_seconds2: u64,
) -> (r: Option<u64>)
    ensures
        (r is None) <==> num_tickers == 0,
        num_tickers > 0 ==> r == Some(
            combined_delay(
                num_tickers as u64,
                rate_limit1,
                period_in_seconds1,
                rate_limit2,
                period_in_seconds2,
            ),
        ),
{
    if num_tickers == 0 {
        return None;
    }
    let n: u64 = num_tickers as u64;
    let calls_per_ticker1: u64 = rate_limit1 / n;
    let sleep_duration1: u64 = if period_in_seconds1 >= calls_per_ticker1 {
        period_in_seconds1 - calls_per_ticker1
    } else {
        0
    };
    let quota_headroom2: u64 = if rate_limit2 >= n {
        rate_limit2 - n
    } else {
        0
    };
    let sleep_duration2: u64 = if period_in_seconds2 >= quota_headroom2 {
        period_in_seconds2 - quota_headroom2
    } else {
        0
    };
    if sleep_duration1 <= sleep_duration2 {
        Some(sleep_duration1)
    } else {
        Some(sleep_duration2)
    }
}

} // verus!
