use vstd::prelude::*;
use crate::error::Error;

verus! {

/// Reset command sent to complete connection establishment.
pub const RESET_COMMAND: &'static str = "ATZ";

/// Command that puts the adapter into monitor-all-traffic mode.
pub const MONITOR_COMMAND: &'static str = "ATMA";

/// Bound on each discarded warm-up read during reconnection, in milliseconds.
pub const WARMUP_READ_TIMEOUT_MS: u64 = 500;

/// Bound on the reset exchange during connection establishment, in milliseconds.
pub const RESET_TIMEOUT_MS: u64 = 3000;

/// Default ceiling on connection attempts.
pub const DEFAULT_CONNECT_ATTEMPTS: u32 = 3;

/// What the retry policy decides after one attempt of a command/response
/// exchange: either the exchange is over with this result, or another attempt
/// (the carried number) is to be made.
#[derive(Debug, PartialEq, Eq)]
pub enum RetryStep {
    Done(Result<Vec<String>, Error>),
    Retry(u32),
}

/// The retry policy for a timed command/response exchange: a successful
/// attempt or a non-timeout failure ends the exchange with that outcome; a
/// timeout on attempt `n` (counted from 1) is retried while `n` is below the
/// ceiling `retry`, and surfaces as `TimedOut` once the ceiling is reached.
pub open spec fn spec_retry_step(
    outcome: Result<Vec<String>, Error>,
    n: u32,
    retry: u32,
) -> RetryStep {
    match outcome {
        Ok(lines) => RetryStep::Done(Ok(lines)),
        Err(e) => if e is TimedOut {
            if n >= retry {
                RetryStep::Done(Err(Error::TimedOut))
            } else {
                RetryStep::Retry((n + 1) as u32)
            }
        } else {
            RetryStep::Done(Err(e))
        },
    }
}

/// Decides what follows one attempt of a retried exchange. The caller runs
/// the attempt (bounded by its timeout), hands the outcome and the attempt
/// number `n` here, and either returns the `Done` result or tries again with
/// the `Retry` number.
pub fn write_retry_step(outcome: Result<Vec<String>, Error>, n: u32, retry: u32) -> (r: RetryStep)
    ensures
        r == spec_retry_step(outcome, n, retry),
{
    match outcome {
        Ok(lines) => RetryStep::Done(Ok(lines)),
        Err(e) => match e {
            Error::TimedOut => {
                if n >= retry {
                    RetryStep::Done(Err(Error::TimedOut))
                } else {
                    RetryStep::Retry(n + 1)
                }
            },
            _ => RetryStep::Done(Err(e)),
        },
    }
}

/// The whole retried exchange, as a function of the outcomes the transport
/// would hand back on each attempt: `outcomes[i]` is the outcome of attempt
/// `i + 1`. Starting from attempt `n`, the run returns the number of the
/// attempt it stops at and the result it surfaces.
pub open spec fn retry_run(
    outcomes: Seq<Result<Vec<String>, Error>>,
    n: u32,
    retry: u32,
) -> (u32, Result<Vec<String>, Error>)
    recommends
        1 <= n <= retry,
        retry <= outcomes.len(),
    decreases retry - n,
{
    match spec_retry_step(outcomes[n - 1], n, retry) {
        RetryStep::Done(r) => (n, r),
        RetryStep::Retry(n2) => if n < retry {
            retry_run(outcomes, (n + 1) as u32, retry)
        } else {
            (n, Err(Error::TimedOut))
        },
    }
}

/// Law: against a transport whose every attempt times out, a retried exchange
/// with ceiling `retry` makes exactly `retry` attempts and surfaces a timeout.
pub proof fn lemma_retry_all_timeouts(outcomes: Seq<Result<Vec<String>, Error>>, n: u32, retry: u32)
    requires
        1 <= n <= retry,
        retry <= outcomes.len(),
        forall|i: int| 0 <= i < outcomes.len() ==> outcomes[i] == Err::<Vec<String>, Error>(
            Error::TimedOut,
        ),
    ensures
        retry_run(outcomes, n, retry) == ((retry, Err::<Vec<String>, Error>(Error::TimedOut))),
    decreases retry - n,
{
    if n < retry {
        lemma_retry_all_timeouts(outcomes, (n + 1) as u32, retry);
    }
}

/// Law: if the first `j` attempts time out and attempt `j + 1` (within the
/// ceiling) succeeds, the retried exchange stops at attempt `j + 1` and
/// surfaces that success.
pub proof fn lemma_retry_eventual_success(
    outcomes: Seq<Result<Vec<String>, Error>>,
    n: u32,
    retry: u32,
    j: u32,
)
    requires
        1 <= n <= retry,
        retry <= outcomes.len(),
        n - 1 <= j < retry,
        forall|i: int| 0 <= i < j ==> outcomes[i] == Err::<Vec<String>, Error>(Error::TimedOut),
        outcomes[j as int] is Ok,
    ensures
        retry_run(outcomes, n, retry) == (((j + 1) as u32, outcomes[j as int])),
    decreases retry - n,
{
    if n - 1 < j {
        lemma_retry_eventual_success(outcomes, (n + 1) as u32, retry, j);
    }
}

/// Law: a non-timeout failure ends the retried exchange at once, on the
/// attempt where it happened, and is surfaced unchanged.
pub proof fn lemma_retry_fatal_error(
    outcomes: Seq<Result<Vec<String>, Error>>,
    n: u32,
    retry: u32,
    e: Error,
)
    requires
        1 <= n <= retry,
        retry <= outcomes.len(),
        outcomes[n - 1] == Err::<Vec<String>, Error>(e),
        !(e is TimedOut),
    ensures
        retry_run(outcomes, n, retry) == ((n, Err::<Vec<String>, Error>(e))),
{
}

/// Attempt counter for connection establishment. The counter starts at zero;
/// each failed attempt (a failed open, or a failed reset exchange) raises it,
/// and once it reaches the ceiling the procedure gives up with a timeout.
pub struct ConnectState {
    /// Failed attempts so far.
    pub n: u32,
    /// Ceiling on attempts.
    pub retry: u32,
}

impl ConnectState {
    /// Starts the procedure with the given ceiling, or the default of
    /// `DEFAULT_CONNECT_ATTEMPTS` where none is given.
    pub fn new(retry: Option<u32>) -> (s: Self)
        ensures
            s.n == 0,
            s.retry == (if retry is Some {
                retry->0
            } else {
                DEFAULT_CONNECT_ATTEMPTS
            }),
    {
        let r = match retry {
            Some(r) => r,
            None => DEFAULT_CONNECT_ATTEMPTS,
        };
        ConnectState { n: 0, retry: r }
    }

    /// Whether another attempt may be made; once false, the procedure fails
    /// with `TimedOut`.
    pub fn can_attempt(&self) -> (b: bool)
        ensures
            b == (self.n < self.retry),
    {
        self.n < self.retry
    }

    /// How many warm-up reads to perform after a successful open: one per
    /// prior failed attempt, each bounded by `WARMUP_READ_TIMEOUT_MS` and with
    /// its outcome discarded.
    pub fn warmup_reads(&self) -> (w: u32)
        ensures
            w == self.n,
    {
        self.n
    }

    /// Records a failed attempt.
    pub fn record_failure(&mut self)
        requires
            old(self).n < old(self).retry,
        ensures
            final(self).n == old(self).n + 1,
            final(self).retry == old(self).retry,
    {
        self.n = self.n + 1;
    }
}

} // verus!
