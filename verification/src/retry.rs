//! The retry engine's decisions: response classification, backoff
//! computation, and a pure runner that folds a whole sequence of attempt
//! outcomes into the final result of a retried call. The waiting, the
//! outbound call and the cancellation race live with the caller; every
//! decision between them is made here.

use vstd::prelude::*;

verus! {

/// Retry configuration, built once from configuration and shared by every
/// call site.
#[derive(Clone, Copy)]
pub struct RetryPolicy {
    /// How many retries are allowed after the first attempt.
    pub max_retries: u32,
    /// The flat and base exponential delay, in seconds.
    pub base_delay_secs: u64,
}

/// What one attempt of the outbound call came back with: an HTTP response
/// (its status, and the `Retry-After` seconds if such a header was present
/// and parseable), or a network-level failure.
#[derive(Clone, Copy)]
pub enum AttemptOutcome {
    Response { status: u16, retry_after_secs: Option<u64> },
    NetworkFailure,
}

/// What to do after an attempt.
#[derive(Clone, Copy, PartialEq, Eq, Structural)]
pub enum RetryDecision {
    /// 2xx: return the response.
    Succeed,
    /// 401/400: authentication or bad request; never retried.
    FailAuth,
    /// The retry budget is spent.
    FailExhausted,
    /// Any other non-success status: a permanent client-side error.
    FailOther,
    /// A transient condition: sleep this many seconds, then try again.
    Wait { secs: u64 },
}

pub open spec fn pow2(e: nat) -> nat
    decreases e,
{
    if e == 0 {
        1
    } else {
        2 * pow2((e - 1) as nat)
    }
}

/// `base * 2^attempt`, saturating at `u64::MAX` so that a long retry budget
/// cannot overflow the wait computation.
pub open spec fn sat_mul_pow2(base: u64, attempt: u32) -> u64 {
    if base * pow2(attempt as nat) <= u64::MAX {
        (base * pow2(attempt as nat)) as u64
    } else {
        u64::MAX
    }
}

pub open spec fn sat_add(a: u64, b: u64) -> u64 {
    if a + b <= u64::MAX {
        (a + b) as u64
    } else {
        u64::MAX
    }
}

pub fn exp_backoff(base: u64, attempt: u32) -> (r: u64)
    ensures
        r == sat_mul_pow2(base, attempt),
{
    let mut w: u64 = base;
    let mut k: u32 = 0;
    proof {
        assert(pow2(0) == 1);
    }
    while k < attempt
        invariant
            0 <= k <= attempt,
            w as int == if base * pow2(k as nat) <= u64::MAX {
                base * pow2(k as nat)
            } else {
                u64::MAX as int
            },
        decreases attempt - k,
    {
        let ghost p = pow2(k as nat);
        proof {
            assert(pow2((k + 1) as nat) == 2 * p);
            assert(p >= 1) by {
                lemma_pow2_pos(k as nat);
            }
        }
        if w > u64::MAX / 2 {
            proof {
                assert(base * pow2((k + 1) as nat) == 2 * (base * p)) by (nonlinear_arith)
                    requires
                        pow2((k + 1) as nat) == 2 * p,
                ;
                if base * p <= u64::MAX {
                    assert(w == base * p);
                    assert(2 * (base * p) > u64::MAX);
                } else {
                    assert(base * p > u64::MAX);
                    assert(2 * (base * p) >= base * p) by (nonlinear_arith)
                        requires
                            base * p >= 0,
                    ;
                }
            }
            w = u64::MAX;
        } else {
            proof {
                assert(base * pow2((k + 1) as nat) == 2 * (base * p)) by (nonlinear_arith)
                    requires
                        pow2((k + 1) as nat) == 2 * p,
                ;
                assert(base * p <= u64::MAX) by {
                    if base * p > u64::MAX {
                        assert(w == u64::MAX);
                        assert(w > u64::MAX / 2);
                    }
                }
                assert(w == base * p);
            }
            w = w * 2;
        }
        k = k + 1;
    }
    w
}

proof fn lemma_pow2_pos(e: nat)
    ensures
        pow2(e) >= 1,
    decreases e,
{
    if e > 0 {
        lemma_pow2_pos((e - 1) as nat);
    }
}

/// The response classification, checked in the order the transport checks
/// it: success first, then the never-retried statuses, then the
/// retry budget, then the transient classes.
pub open spec fn spec_classify(
    policy: RetryPolicy,
    attempt: u32,
    outcome: AttemptOutcome,
) -> RetryDecision {
    match outcome {
        AttemptOutcome::Response { status, retry_after_secs } => {
            if 200 <= status < 300 {
                RetryDecision::Succeed
            } else if status == 401 || status == 400 {
                RetryDecision::FailAuth
            } else if attempt >= policy.max_retries {
                RetryDecision::FailExhausted
            } else if status == 429 {
                match retry_after_secs {
                    Some(s) => RetryDecision::Wait { secs: s },
                    None => RetryDecision::Wait {
                        secs: sat_mul_pow2(policy.base_delay_secs, attempt),
                    },
                }
            } else if 500 <= status < 600 {
                RetryDecision::Wait { secs: policy.base_delay_secs }
            } else {
                RetryDecision::FailOther
            }
        },
        AttemptOutcome::NetworkFailure => {
            if attempt >= policy.max_retries {
                RetryDecision::FailExhausted
            } else {
                RetryDecision::Wait { secs: sat_mul_pow2(1, attempt) }
            }
        },
    }
}

/// Decides what to do with the outcome of attempt number `attempt` (counted
/// from zero): succeed, fail for good, or wait and retry. A rate-limited
/// response honours its wait hint if one was given, else backs off
/// exponentially; a server error waits the flat base delay; a network
/// failure backs off exponentially from one second.
pub fn classify_attempt(policy: &RetryPolicy, attempt: u32, outcome: &AttemptOutcome) -> (r:
    RetryDecision)
    ensures
        r == spec_classify(*policy, attempt, *outcome),
{
    match outcome {
        AttemptOutcome::Response { status, retry_after_secs } => {
            let st = *status;
            if 200 <= st && st < 300 {
                RetryDecision::Succeed
            } else if st == 401 || st == 400 {
                RetryDecision::FailAuth
            } else if attempt >= policy.max_retries {
                RetryDecision::FailExhausted
            } else if st == 429 {
                match retry_after_secs {
                    Some(s) => RetryDecision::Wait { secs: *s },
                    None => RetryDecision::Wait {
                        secs: exp_backoff(policy.base_delay_secs, attempt),
                    },
                }
            } else if 500 <= st && st < 600 {
                RetryDecision::Wait { secs: policy.base_delay_secs }
            } else {
                RetryDecision::FailOther
            }
        },
        AttemptOutcome::NetworkFailure => {
            if attempt >= policy.max_retries {
                RetryDecision::FailExhausted
            } else {
                RetryDecision::Wait { secs: exp_backoff(1, attempt) }
            }
        },
    }
}

/// How a retried call may fail.
#[derive(Clone, Copy, PartialEq, Eq, Structural)]
pub enum RetryFailure {
    /// Authentication or bad request (never retried).
    Auth,
    /// The retry budget was spent on transient conditions.
    Exhausted,
    /// Another non-success status (never retried).
    Other,
}

/// The result of folding a sequence of attempt outcomes through the retry
/// loop: `retries` is how many retried attempts preceded the end, and
/// `total_wait_secs` the sum of the waits slept before it (saturating).
#[derive(Clone, Copy, PartialEq, Eq, Structural)]
pub enum TraceResult {
    Success { retries: u32, total_wait_secs: u64 },
    Failure { kind: RetryFailure, retries: u32, total_wait_secs: u64 },
    /// The outcomes ran out while the loop would still have retried.
    Pending { retries: u32, total_wait_secs: u64 },
}

pub open spec fn trace_from(
    policy: RetryPolicy,
    events: Seq<AttemptOutcome>,
    attempt: u32,
    waited: u64,
) -> TraceResult
    decreases events.len(),
{
    if events.len() == 0 {
        TraceResult::Pending { retries: attempt, total_wait_secs: waited }
    } else {
        match spec_classify(policy, attempt, events[0]) {
            RetryDecision::Succeed => TraceResult::Success {
                retries: attempt,
                total_wait_secs: waited,
            },
            RetryDecision::FailAuth => TraceResult::Failure {
                kind: RetryFailure::Auth,
                retries: attempt,
                total_wait_secs: waited,
            },
            RetryDecision::FailExhausted => TraceResult::Failure {
                kind: RetryFailure::Exhausted,
                retries: attempt,
                total_wait_secs: waited,
            },
            RetryDecision::FailOther => TraceResult::Failure {
                kind: RetryFailure::Other,
                retries: attempt,
                total_wait_secs: waited,
            },
            RetryDecision::Wait { secs } => {
                if attempt == u32::MAX {
                    TraceResult::Pending { retries: attempt, total_wait_secs: waited }
                } else {
                    trace_from(
                        policy,
                        events.drop_first(),
                        (attempt + 1) as u32,
                        sat_add(waited, secs),
                    )
                }
            },
        }
    }
}

/// The result of the whole retry loop on a given sequence of attempt
/// outcomes (first attempt first).
pub open spec fn spec_run_trace(policy: RetryPolicy, events: Seq<AttemptOutcome>) -> TraceResult {
    trace_from(policy, events, 0, 0)
}

/// Folds the outcomes of successive attempts through the classification,
/// accumulating the retries made and the seconds waited, exactly as the
/// retry loop would.
pub fn run_retry_trace(policy: &RetryPolicy, events: &Vec<AttemptOutcome>) -> (r: TraceResult)
    ensures
        r == spec_run_trace(*policy, events@),
{
    let mut attempt: u32 = 0;
    let mut waited: u64 = 0;
    let mut i: usize = 0;
    proof {
        assert(events@.skip(0) =~= events@);
    }
    while i < events.len()
        invariant
            0 <= i <= events@.len(),
            spec_run_trace(*policy, events@) == trace_from(
                *policy,
                events@.skip(i as int),
                attempt,
                waited,
            ),
        decreases events@.len() - i,
    {
        let ev = events[i];
        let d = classify_attempt(policy, attempt, &ev);
        proof {
            assert(events@.skip(i as int)[0] == events@[i as int]);
        }
        match d {
            RetryDecision::Succeed => {
                return TraceResult::Success { retries: attempt, total_wait_secs: waited };
            },
            RetryDecision::FailAuth => {
                return TraceResult::Failure {
                    kind: RetryFailure::Auth,
                    retries: attempt,
                    total_wait_secs: waited,
                };
            },
            RetryDecision::FailExhausted => {
                return TraceResult::Failure {
                    kind: RetryFailure::Exhausted,
                    retries: attempt,
                    total_wait_secs: waited,
                };
            },
            RetryDecision::FailOther => {
                return TraceResult::Failure {
                    kind: RetryFailure::Other,
                    retries: attempt,
                    total_wait_secs: waited,
                };
            },
            RetryDecision::Wait { secs } => {
                if attempt == u32::MAX {
                    return TraceResult::Pending { retries: attempt, total_wait_secs: waited };
                }
                proof {
                    assert(events@.skip(i as int).drop_first() =~= events@.skip(i + 1));
                }
                attempt = attempt + 1;
                waited = if waited <= u64::MAX - secs {
                    waited + secs
                } else {
                    u64::MAX
                };
                i = i + 1;
            },
        }
    }
    TraceResult::Pending { retries: attempt, total_wait_secs: waited }
}

} // verus!
