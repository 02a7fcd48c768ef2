//! The decisions of the measurement loop: whether a finished run contributes
//! a sample, and what happens after each round.

use vstd::prelude::*;

verus! {

/// What a finished run contributes.
#[derive(Clone, Copy, Debug, PartialEq, Eq, Structural)]
pub enum RunDecision {
    /// The warmup script failed: no sample, the round goes on.
    WarmupFailed,
    /// The timed script failed: no sample, the round goes on.
    ScriptFailed,
    /// The run exceeded the configured time ceiling: no sample.
    TooSlow,
    /// Peak memory was requested but the platform reported none: fatal.
    MemUnavailable,
    /// The run contributes its measurements.
    Sample,
}

/// Judge one finished run: both scripts must have succeeded, the run must be
/// within the optional time ceiling, and where memory is measured the
/// platform must have reported a peak.
pub fn judge_run(
    warmup_ok: bool,
    script_ok: bool,
    duration_nanos: u64,
    max_time_s: Option<u32>,
    mem_requested: bool,
    maxrss_bytes: u64,
) -> (r: RunDecision)
    ensures
        r == judge_run_spec(
            warmup_ok, script_ok, duration_nanos, max_time_s, mem_requested, maxrss_bytes),
{
    if !warmup_ok {
        RunDecision::WarmupFailed
    } else if !script_ok {
        RunDecision::ScriptFailed
    } else if match max_time_s {
        Some(cap) => duration_nanos > (cap as u64) * 1_000_000_000,
        None => false,
    } {
        RunDecision::TooSlow
    } else if mem_requested && maxrss_bytes == 0 {
        RunDecision::MemUnavailable
    } else {
        RunDecision::Sample
    }
}

pub open spec fn judge_run_spec(
    warmup_ok: bool,
    script_ok: bool,
    duration_nanos: u64,
    max_time_s: Option<u32>,
    mem_requested: bool,
    maxrss_bytes: u64,
) -> RunDecision {
    if !warmup_ok {
        RunDecision::WarmupFailed
    } else if !script_ok {
        RunDecision::ScriptFailed
    } else if max_time_s is Some && duration_nanos > max_time_s->0 * 1_000_000_000 {
        RunDecision::TooSlow
    } else if mem_requested && maxrss_bytes == 0 {
        RunDecision::MemUnavailable
    } else {
        RunDecision::Sample
    }
}

/// What to do after a round: stop at the configured iteration cap, keep
/// collecting quietly until every variant has two samples, and report after
/// every round from then on.
#[derive(Clone, Copy, Debug, PartialEq, Eq, Structural)]
pub enum RoundAction {
    Stop,
    Continue,
    Report,
}

/// Decide what follows a round, from the smallest per-variant sample count.
pub fn after_round(min_count: usize, iterations: Option<u32>) -> (r: RoundAction)
    ensures
        r == after_round_spec(min_count, iterations),
{
    let capped = match iterations {
        Some(n) => min_count == n as usize,
        None => false,
    };
    if capped {
        RoundAction::Stop
    } else if min_count < 2 {
        RoundAction::Continue
    } else {
        RoundAction::Report
    }
}

pub open spec fn after_round_spec(min_count: usize, iterations: Option<u32>) -> RoundAction {
    if iterations is Some && min_count == iterations->0 {
        RoundAction::Stop
    } else if min_count < 2 {
        RoundAction::Continue
    } else {
        RoundAction::Report
    }
}

} // verus!
