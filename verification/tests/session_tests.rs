use elm327::error::Error;
use elm327::session::write_retry_step;
use elm327::session::ConnectState;
use elm327::session::RetryStep;
use elm327::session::DEFAULT_CONNECT_ATTEMPTS;
use elm327::session::MONITOR_COMMAND;
use elm327::session::RESET_COMMAND;
use elm327::session::RESET_TIMEOUT_MS;
use elm327::session::WARMUP_READ_TIMEOUT_MS;

fn run_retry(outcomes: Vec<Result<Vec<String>, Error>>, retry: u32) -> (u32, Result<Vec<String>, Error>) {
    let mut n = 1u32;
    let mut attempts = 0u32;
    let mut it = outcomes.into_iter();
    loop {
        attempts += 1;
        let outcome = it.next().expect("script exhausted");
        match write_retry_step(outcome, n, retry) {
            RetryStep::Done(r) => return (attempts, r),
            RetryStep::Retry(n2) => n = n2,
        }
    }
}

#[test]
fn retry_exhausts_on_constant_timeouts() {
    // A transport that always times out: exactly three attempts, then a
    // timeout error.
    let outcomes = vec![
        Err(Error::TimedOut),
        Err(Error::TimedOut),
        Err(Error::TimedOut),
    ];
    let (attempts, result) = run_retry(outcomes, 3);
    assert_eq!(attempts, 3);
    assert_eq!(result, Err(Error::TimedOut));
}

#[test]
fn retry_succeeds_on_third_attempt() {
    let reply = vec!["OK".to_string()];
    let outcomes = vec![
        Err(Error::TimedOut),
        Err(Error::TimedOut),
        Ok(reply.clone()),
    ];
    let (attempts, result) = run_retry(outcomes, 3);
    assert_eq!(attempts, 3);
    assert_eq!(result, Ok(reply));
}

#[test]
fn retry_single_attempt_ceiling() {
    let (attempts, result) = run_retry(vec![Err(Error::TimedOut)], 1);
    assert_eq!(attempts, 1);
    assert_eq!(result, Err(Error::TimedOut));
}

#[test]
fn retry_aborts_on_non_timeout_error() {
    // Only timeouts are transient; a read failure surfaces at once.
    let outcomes = vec![Err(Error::Read), Err(Error::TimedOut)];
    let (attempts, result) = run_retry(outcomes, 3);
    assert_eq!(attempts, 1);
    assert_eq!(result, Err(Error::Read));
}

#[test]
fn retry_step_values() {
    assert_eq!(
        write_retry_step(Err(Error::TimedOut), 1, 3),
        RetryStep::Retry(2)
    );
    assert_eq!(
        write_retry_step(Err(Error::TimedOut), 2, 3),
        RetryStep::Retry(3)
    );
    assert_eq!(
        write_retry_step(Err(Error::TimedOut), 3, 3),
        RetryStep::Done(Err(Error::TimedOut))
    );
    assert_eq!(
        write_retry_step(Ok(vec![]), 1, 3),
        RetryStep::Done(Ok(vec![]))
    );
}

#[test]
fn connect_state_counts_failures() {
    let mut st = ConnectState::new(Some(2));
    assert_eq!(st.warmup_reads(), 0);
    assert!(st.can_attempt());
    st.record_failure();
    assert_eq!(st.warmup_reads(), 1);
    assert!(st.can_attempt());
    st.record_failure();
    assert_eq!(st.warmup_reads(), 2);
    assert!(!st.can_attempt());
}

#[test]
fn connect_state_default_ceiling() {
    let st = ConnectState::new(None);
    assert_eq!(st.retry, DEFAULT_CONNECT_ATTEMPTS);
    assert_eq!(st.retry, 3);
    assert_eq!(st.n, 0);
}

#[test]
fn connect_state_zero_ceiling_never_attempts() {
    let st = ConnectState::new(Some(0));
    assert!(!st.can_attempt());
}

#[test]
fn session_constants() {
    assert_eq!(RESET_COMMAND, "ATZ");
    assert_eq!(MONITOR_COMMAND, "ATMA");
    assert_eq!(WARMUP_READ_TIMEOUT_MS, 500);
    assert_eq!(RESET_TIMEOUT_MS, 3000);
}
