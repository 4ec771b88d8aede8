use mc_translator::retry::{
    classify_attempt, exp_backoff, run_retry_trace, AttemptOutcome, RetryDecision, RetryFailure,
    RetryPolicy, TraceResult,
};
use mc_translator::text::{chars_of, parse_u64_decimal};

fn policy() -> RetryPolicy {
    RetryPolicy { max_retries: 5, base_delay_secs: 10 }
}

fn resp(status: u16, retry_after_secs: Option<u64>) -> AttemptOutcome {
    AttemptOutcome::Response { status, retry_after_secs }
}

#[test]
fn success_statuses_succeed() {
    assert!(classify_attempt(&policy(), 0, &resp(200, None)) == RetryDecision::Succeed);
    assert!(classify_attempt(&policy(), 4, &resp(299, None)) == RetryDecision::Succeed);
}

#[test]
fn auth_and_bad_request_never_retry() {
    assert!(classify_attempt(&policy(), 0, &resp(401, None)) == RetryDecision::FailAuth);
    assert!(classify_attempt(&policy(), 0, &resp(400, None)) == RetryDecision::FailAuth);
    // even with budget left and a wait hint
    assert!(classify_attempt(&policy(), 0, &resp(401, Some(3))) == RetryDecision::FailAuth);
}

#[test]
fn other_client_errors_fail_immediately() {
    assert!(classify_attempt(&policy(), 0, &resp(404, None)) == RetryDecision::FailOther);
    assert!(classify_attempt(&policy(), 1, &resp(418, None)) == RetryDecision::FailOther);
}

#[test]
fn exhausted_budget_fails() {
    assert!(classify_attempt(&policy(), 5, &resp(429, Some(1))) == RetryDecision::FailExhausted);
    assert!(classify_attempt(&policy(), 7, &resp(503, None)) == RetryDecision::FailExhausted);
    assert!(
        classify_attempt(&policy(), 5, &AttemptOutcome::NetworkFailure)
            == RetryDecision::FailExhausted
    );
}

#[test]
fn rate_limit_honours_wait_hint() {
    assert!(classify_attempt(&policy(), 0, &resp(429, Some(2))) == RetryDecision::Wait { secs: 2 });
}

#[test]
fn rate_limit_without_hint_backs_off_exponentially() {
    assert!(
        classify_attempt(&policy(), 3, &resp(429, None)) == RetryDecision::Wait { secs: 80 }
    );
}

#[test]
fn server_errors_wait_flat_base_delay() {
    assert!(classify_attempt(&policy(), 0, &resp(500, None)) == RetryDecision::Wait { secs: 10 });
    assert!(classify_attempt(&policy(), 4, &resp(503, None)) == RetryDecision::Wait { secs: 10 });
}

#[test]
fn network_failures_back_off_from_one_second() {
    assert!(
        classify_attempt(&policy(), 0, &AttemptOutcome::NetworkFailure)
            == RetryDecision::Wait { secs: 1 }
    );
    assert!(
        classify_attempt(&policy(), 2, &AttemptOutcome::NetworkFailure)
            == RetryDecision::Wait { secs: 4 }
    );
}

#[test]
fn exp_backoff_exact_values() {
    assert_eq!(exp_backoff(10, 0), 10);
    assert_eq!(exp_backoff(10, 3), 80);
    assert_eq!(exp_backoff(1, 63), 1u64 << 63);
    assert_eq!(exp_backoff(0, 70), 0);
    assert_eq!(exp_backoff(2, 63), u64::MAX);
    assert_eq!(exp_backoff(1, 64), u64::MAX);
}

// Scenario: a rate-limited first attempt with Retry-After: 2, success on the
// second attempt — two seconds waited in all, exactly one retry recorded.
#[test]
fn retry_after_scenario() {
    let events = vec![resp(429, Some(2)), resp(200, None)];
    let r = run_retry_trace(&policy(), &events);
    assert!(r == TraceResult::Success { retries: 1, total_wait_secs: 2 });
}

#[test]
fn trace_exhaustion_after_budget() {
    let tight = RetryPolicy { max_retries: 1, base_delay_secs: 10 };
    let events = vec![AttemptOutcome::NetworkFailure, AttemptOutcome::NetworkFailure];
    let r = run_retry_trace(&tight, &events);
    assert!(
        r == TraceResult::Failure {
            kind: RetryFailure::Exhausted,
            retries: 1,
            total_wait_secs: 1,
        }
    );
}

#[test]
fn trace_auth_failure_stops_immediately() {
    let events = vec![resp(401, None), resp(200, None)];
    let r = run_retry_trace(&policy(), &events);
    assert!(r == TraceResult::Failure { kind: RetryFailure::Auth, retries: 0, total_wait_secs: 0 });
}

#[test]
fn trace_other_failure_stops_immediately() {
    let events = vec![resp(404, None)];
    let r = run_retry_trace(&policy(), &events);
    assert!(
        r == TraceResult::Failure { kind: RetryFailure::Other, retries: 0, total_wait_secs: 0 }
    );
}

#[test]
fn trace_pending_when_outcomes_run_out() {
    let events = vec![resp(503, None)];
    let r = run_retry_trace(&policy(), &events);
    assert!(r == TraceResult::Pending { retries: 1, total_wait_secs: 10 });
}

#[test]
fn retry_after_header_parsing() {
    assert_eq!(parse_u64_decimal(&chars_of("2")), Some(2));
    assert_eq!(parse_u64_decimal(&chars_of("120")), Some(120));
    assert_eq!(parse_u64_decimal(&chars_of("+7")), Some(7));
    assert_eq!(parse_u64_decimal(&chars_of("007")), Some(7));
    assert_eq!(parse_u64_decimal(&chars_of("")), None);
    assert_eq!(parse_u64_decimal(&chars_of("+")), None);
    assert_eq!(parse_u64_decimal(&chars_of("2s")), None);
    assert_eq!(parse_u64_decimal(&chars_of(" 2")), None);
    assert_eq!(parse_u64_decimal(&chars_of("18446744073709551615")), Some(u64::MAX));
    assert_eq!(parse_u64_decimal(&chars_of("18446744073709551616")), None);
}
