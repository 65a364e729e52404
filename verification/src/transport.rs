use vstd::prelude::*;

verus! {

/// First delay before reconnecting, in milliseconds.
pub const INITIAL_BACKOFF_MS: u64 = 250;

/// Longest delay between reconnection attempts, in milliseconds.
pub const MAX_BACKOFF_MS: u64 = 30000;

/// Outcome of sending one frame to the aggregator.
#[derive(Debug, Clone, Copy, PartialEq, Eq, Structural)]
pub enum SendResult {
    Sent,
    Backpressure,
    Disconnected,
}

/// What a failed write means: a write that would block is backpressure and the connection
/// stays; any other error drops the connection.
pub fn write_failure(would_block: bool) -> (r: SendResult)
    ensures
        would_block ==> r == SendResult::Backpressure,
        !would_block ==> r == SendResult::Disconnected,
{
    if would_block {
        SendResult::Backpressure
    } else {
        SendResult::Disconnected
    }
}

/// The delay after `failures` failed connection attempts in a row: it starts at 250 ms and
/// doubles with each failure, up to 30 s.
pub open spec fn backoff_after(failures: nat) -> int
    decreases failures,
{
    if failures == 0 {
        INITIAL_BACKOFF_MS as int
    } else {
        let d = 2 * backoff_after((failures - 1) as nat);
        if d < MAX_BACKOFF_MS {
            d
        } else {
            MAX_BACKOFF_MS as int
        }
    }
}

/// The delay before the next reconnection attempt.
pub struct Backoff {
    delay_ms: u64,
}

impl Backoff {
    /// The delay is between 250 ms and 30 s.
    pub closed spec fn wf(&self) -> bool {
        INITIAL_BACKOFF_MS <= self.delay_ms <= MAX_BACKOFF_MS
    }

    /// The current delay in milliseconds.
    pub closed spec fn delay(&self) -> int {
        self.delay_ms as int
    }

    /// The initial delay of 250 ms.
    pub fn new() -> (r: Self)
        ensures
            r.wf(),
            r.delay() == INITIAL_BACKOFF_MS,
    {
        Backoff { delay_ms: INITIAL_BACKOFF_MS }
    }

    /// The current delay in milliseconds.
    pub fn delay_ms(&self) -> (r: u64)
        ensures
            r == self.delay(),
    {
        self.delay_ms
    }

    /// After a failed attempt: the delay doubles, up to 30 s.
    pub fn grow(&mut self)
        requires
            old(self).wf(),
        ensures
            final(self).wf(),
            final(self).delay() == if 2 * old(self).delay() < MAX_BACKOFF_MS {
                2 * old(self).delay()
            } else {
                MAX_BACKOFF_MS as int
            },
    {
        let doubled = self.delay_ms * 2;
        self.delay_ms = if doubled < MAX_BACKOFF_MS { doubled } else { MAX_BACKOFF_MS };
    }

    /// After a successful connection: back to 250 ms.
    pub fn reset(&mut self)
        ensures
            final(self).wf(),
            final(self).delay() == INITIAL_BACKOFF_MS,
    {
        self.delay_ms = INITIAL_BACKOFF_MS;
    }
}

/// The reconnection delay stays between 250 ms and 30 s, and one more failure takes it from
/// `backoff_after(k)` to `backoff_after(k + 1)` the way `Backoff::grow` does.
pub proof fn backoff_schedule(k: nat)
    ensures
        INITIAL_BACKOFF_MS <= backoff_after(k) <= MAX_BACKOFF_MS,
        backoff_after(k + 1) == if 2 * backoff_after(k) < MAX_BACKOFF_MS {
            2 * backoff_after(k)
        } else {
            MAX_BACKOFF_MS as int
        },
    decreases k,
{
    if k > 0 {
        backoff_schedule((k - 1) as nat);
    }
}

} // verus!
