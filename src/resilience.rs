//! Reconnection policy: exponential backoff with a deterministic jitter, the
//! connection health record, and the connection state machine.

use vstd::prelude::*;

verus! {

/// Largest doubling exponent applied to the base delay.
pub const MAX_EXPONENT: u32 = 20;

/// State of the link to the broker.
#[derive(Clone, Copy, Debug, PartialEq, Eq, Structural)]
pub enum ConnectionState {
    Disconnected,
    Connecting,
    Connected,
    Reconnecting,
}

impl ConnectionState {
    /// The state for display.
    pub fn label(self) -> (r: &'static str)
        ensures
            r@ == match self {
                ConnectionState::Disconnected => "Disconnected"@,
                ConnectionState::Connecting => "Connecting..."@,
                ConnectionState::Connected => "Connected"@,
                ConnectionState::Reconnecting => "Reconnecting..."@,
            },
    {
        proof {
            reveal_strlit("Disconnected");
            reveal_strlit("Connecting...");
            reveal_strlit("Connected");
            reveal_strlit("Reconnecting...");
        }
        match self {
            ConnectionState::Disconnected => "Disconnected",
            ConnectionState::Connecting => "Connecting...",
            ConnectionState::Connected => "Connected",
            ConnectionState::Reconnecting => "Reconnecting...",
        }
    }
}

/// Only an exhausted attempt budget leads from another state to
/// `Disconnected`.
pub proof fn lemma_disconnect_only_when_exhausted(s: ConnectionState, e: LinkEvent)
    requires
        s != ConnectionState::Disconnected,
        next_state_spec(s, e) == ConnectionState::Disconnected,
    ensures
        e == (LinkEvent::Failed { exhausted: true }),
{
}

/// What happened to the link.
#[derive(Clone, Copy, Debug, PartialEq, Eq, Structural)]
pub enum LinkEvent {
    /// A connection attempt was started.
    Started,
    /// The broker accepted the connection.
    Succeeded,
    /// The link failed; `exhausted` tells whether the attempt budget is spent.
    Failed { exhausted: bool },
}

/// The state that follows `s` on `e`.
pub open spec fn next_state_spec(s: ConnectionState, e: LinkEvent) -> ConnectionState {
    match e {
        LinkEvent::Started => if s == ConnectionState::Disconnected {
            ConnectionState::Connecting
        } else {
            s
        },
        LinkEvent::Succeeded => ConnectionState::Connected,
        LinkEvent::Failed { exhausted } => if exhausted {
            ConnectionState::Disconnected
        } else {
            ConnectionState::Reconnecting
        },
    }
}

/// The connection state machine: `Disconnected -> Connecting -> Connected`,
/// `Connected -> Reconnecting` on a failure, back to `Connected` on success,
/// and `Disconnected` once the attempt budget is exhausted.
pub fn next_state(s: ConnectionState, e: LinkEvent) -> (r: ConnectionState)
    ensures
        r == next_state_spec(s, e),
{
    match e {
        LinkEvent::Started => if s == ConnectionState::Disconnected {
            ConnectionState::Connecting
        } else {
            s
        },
        LinkEvent::Succeeded => ConnectionState::Connected,
        LinkEvent::Failed { exhausted } => if exhausted {
            ConnectionState::Disconnected
        } else {
            ConnectionState::Reconnecting
        },
    }
}

/// Two to the power `n`.
pub open spec fn pow2(n: nat) -> nat
    decreases n,
{
    if n == 0 {
        1
    } else {
        2 * pow2((n - 1) as nat)
    }
}

pub open spec fn min_int(a: int, b: int) -> int {
    if a <= b {
        a
    } else {
        b
    }
}

/// Backoff configuration. Delays are in milliseconds; the jitter factor is
/// given in thousandths (0 to 1000).
#[derive(Clone, Copy, Debug)]
pub struct BackoffStrategy {
    pub base_delay_ms: u64,
    pub max_delay_ms: u64,
    pub max_attempts: Option<u32>,
    pub jitter_permille: u64,
}

impl BackoffStrategy {
    /// The capped exponential delay for `attempt`, before jitter.
    pub open spec fn base_for(self, attempt: u32) -> int {
        let e = min_int(if attempt == 0 { 0 } else { attempt - 1 }, MAX_EXPONENT as int);
        let raw = min_int(self.base_delay_ms * pow2(e as nat), u64::MAX as int);
        min_int(raw, self.max_delay_ms as int)
    }

    /// The jitter added on `attempt`: `(attempt * 17) mod range`, where the
    /// range is the jitter factor's share of the capped delay.
    pub open spec fn jitter_for(self, attempt: u32) -> int {
        let range = self.base_for(attempt) * min_int(self.jitter_permille as int, 1000) / 1000;
        if range > 0 {
            (attempt * 17) % range
        } else {
            0
        }
    }

    /// The delay before `attempt` (counted from 1), or `None` when a limit is set
    /// and `attempt` goes past it.
    pub open spec fn delay_spec(self, attempt: u32) -> Option<u64> {
        match self.max_attempts {
            Some(m) if attempt > m => None,
            _ => Some(
                min_int(
                    self.base_for(attempt) + self.jitter_for(attempt),
                    self.max_delay_ms as int,
                ) as u64,
            ),
        }
    }

    pub open spec fn continue_spec(self, attempts: u32) -> bool {
        match self.max_attempts {
            Some(m) => attempts < m,
            None => true,
        }
    }

    /// Usable parameters: a positive base delay no larger than the cap, and a
    /// jitter factor of at most 1.
    pub open spec fn valid(self) -> bool {
        &&& self.base_delay_ms > 0
        &&& self.base_delay_ms <= self.max_delay_ms
        &&& self.jitter_permille <= 1000
    }

    /// A strategy from its parameters (delays in milliseconds, jitter in
    /// thousandths); `None` for a zero base delay, a cap below the base, or a
    /// jitter factor above 1.
    pub fn try_new(base_delay_ms: u64, max_delay_ms: u64, max_attempts: Option<u32>, jitter_permille: u64) -> (r:
        Option<Self>)
        ensures
            r is Some <==> (BackoffStrategy { base_delay_ms, max_delay_ms, max_attempts, jitter_permille }).valid(),
            r matches Some(b) ==> b == (BackoffStrategy {
                base_delay_ms,
                max_delay_ms,
                max_attempts,
                jitter_permille,
            }),
    {
        if base_delay_ms == 0 || max_delay_ms < base_delay_ms || jitter_permille > 1000 {
            None
        } else {
            Some(BackoffStrategy { base_delay_ms, max_delay_ms, max_attempts, jitter_permille })
        }
    }

    /// Base 5 s, cap 60 s, jitter 0.1, no attempt limit.
    pub fn new() -> (r: Self)
        ensures
            r.base_delay_ms == 5000,
            r.max_delay_ms == 60_000,
            r.max_attempts is None,
            r.jitter_permille == 100,
    {
        BackoffStrategy {
            base_delay_ms: 5000,
            max_delay_ms: 60_000,
            max_attempts: None,
            jitter_permille: 100,
        }
    }

    pub fn with_base_delay(self, delay_ms: u64) -> (r: Self)
        ensures
            r == (BackoffStrategy { base_delay_ms: delay_ms, ..self }),
    {
        BackoffStrategy { base_delay_ms: delay_ms, ..self }
    }

    pub fn with_max_delay(self, delay_ms: u64) -> (r: Self)
        ensures
            r == (BackoffStrategy { max_delay_ms: delay_ms, ..self }),
    {
        BackoffStrategy { max_delay_ms: delay_ms, ..self }
    }

    pub fn with_max_attempts(self, attempts: u32) -> (r: Self)
        ensures
            r == (BackoffStrategy { max_attempts: Some(attempts), ..self }),
    {
        BackoffStrategy { max_attempts: Some(attempts), ..self }
    }

    /// Sets the jitter factor in thousandths, clamped to 1000.
    pub fn with_jitter(self, permille: u64) -> (r: Self)
        ensures
            r == (BackoffStrategy {
                jitter_permille: if permille > 1000 { 1000 } else { permille },
                ..self
            }),
    {
        let p = if permille > 1000 {
            1000
        } else {
            permille
        };
        BackoffStrategy { jitter_permille: p, ..self }
    }

    /// The delay in milliseconds before attempt number `attempt` (from 1):
    /// `min(max, base * 2^(attempt-1))` with the exponent capped, plus the
    /// deterministic jitter, capped again. `None` once past the attempt limit.
    pub fn delay_for_attempt(&self, attempt: u32) -> (r: Option<u64>)
        ensures
            r == self.delay_spec(attempt),
    {
        if let Some(m) = self.max_attempts {
            if attempt > m {
                return None;
            }
        }
        let e: u32 = if attempt == 0 {
            0
        } else {
            attempt - 1
        };
        let e: u32 = if e > MAX_EXPONENT {
            MAX_EXPONENT
        } else {
            e
        };
        let mut factor: u64 = 1;
        let mut k: u32 = 0;
        proof {
            lemma_pow2_mono(0, MAX_EXPONENT as nat);
            reveal_with_fuel(pow2, 21);
            assert(pow2(MAX_EXPONENT as nat) == 1048576);
        }
        while k < e
            invariant
                k <= e <= MAX_EXPONENT,
                factor == pow2(k as nat),
                factor <= pow2(MAX_EXPONENT as nat),
                pow2(MAX_EXPONENT as nat) == 1048576,
            decreases e - k,
        {
            proof {
                lemma_pow2_mono(k as nat + 1, MAX_EXPONENT as nat);
            }
            factor = factor * 2;
            k = k + 1;
        }
        let raw: u64 = match self.base_delay_ms.checked_mul(factor) {
            Some(v) => v,
            None => u64::MAX,
        };
        let delay: u64 = if raw < self.max_delay_ms {
            raw
        } else {
            self.max_delay_ms
        };
        let p: u64 = if self.jitter_permille > 1000 {
            1000
        } else {
            self.jitter_permille
        };
        proof {
            assert((delay as int) * (p as int) <= 1000 * (u64::MAX as int)) by (nonlinear_arith)
                requires p <= 1000, delay <= u64::MAX;
            assert((delay as int) * (p as int) / 1000 <= delay as int) by (nonlinear_arith)
                requires p <= 1000;
        }
        let wide: u128 = (delay as u128) * (p as u128);
        let range: u64 = (wide / 1000) as u64;
        let jitter: u64 = if range > 0 {
            (attempt as u64 * 17) % range
        } else {
            0
        };
        let result: u64 = if jitter > self.max_delay_ms - delay {
            self.max_delay_ms
        } else {
            delay + jitter
        };
        Some(result)
    }

    /// Whether another attempt is allowed after `attempts` attempts.
    pub fn should_continue(&self, attempts: u32) -> (r: bool)
        ensures
            r == self.continue_spec(attempts),
    {
        match self.max_attempts {
            Some(m) => attempts < m,
            None => true,
        }
    }
}

/// Without jitter, the delay never shrinks from one attempt to the next.
pub proof fn lemma_delay_monotone_without_jitter(b: BackoffStrategy, a1: u32, a2: u32)
    requires
        b.jitter_permille == 0,
        1 <= a1 <= a2,
        b.delay_spec(a2) is Some,
    ensures
        b.delay_spec(a1) is Some,
        b.delay_spec(a1).unwrap() <= b.delay_spec(a2).unwrap(),
{
    let e1 = min_int(a1 - 1, MAX_EXPONENT as int);
    let e2 = min_int(a2 - 1, MAX_EXPONENT as int);
    lemma_pow2_mono(e1 as nat, e2 as nat);
    let p1 = pow2(e1 as nat);
    let p2 = pow2(e2 as nat);
    assert(b.base_delay_ms * p1 <= b.base_delay_ms * p2) by (nonlinear_arith)
        requires p1 <= p2;
    assert(b.base_for(a1) <= b.base_for(a2));
    let d1 = b.base_for(a1);
    let d2 = b.base_for(a2);
    assert(d1 * 0 / 1000 == 0 && d2 * 0 / 1000 == 0) by (nonlinear_arith);
    assert(b.jitter_for(a1) == 0);
    assert(b.jitter_for(a2) == 0);
}

/// With usable parameters every delay is at least one millisecond: the
/// reconnect loop never spins.
pub proof fn lemma_valid_never_spins(b: BackoffStrategy, attempt: u32)
    requires
        b.valid(),
        b.delay_spec(attempt) is Some,
    ensures
        b.delay_spec(attempt).unwrap() >= 1,
{
    let e = min_int(if attempt == 0 { 0 } else { attempt - 1 }, MAX_EXPONENT as int);
    lemma_pow2_mono(0, e as nat);
    let p = pow2(e as nat);
    assert(b.base_delay_ms * p >= b.base_delay_ms) by (nonlinear_arith)
        requires p >= 1, b.base_delay_ms >= 0;
    let d = b.base_for(attempt);
    assert(d >= 1);
    let j = min_int(b.jitter_permille as int, 1000);
    assert(d * j / 1000 >= 0) by (nonlinear_arith)
        requires d >= 0, j >= 0;
}

/// Every delay stays within the configured maximum.
pub proof fn lemma_delay_within_max(b: BackoffStrategy, attempt: u32)
    requires
        b.delay_spec(attempt) is Some,
    ensures
        b.delay_spec(attempt).unwrap() <= b.max_delay_ms,
{
    let e = min_int(if attempt == 0 { 0 } else { attempt - 1 }, MAX_EXPONENT as int);
    lemma_pow2_mono(0, e as nat);
    let p = pow2(e as nat);
    assert(b.base_delay_ms * p >= 0) by (nonlinear_arith)
        requires p >= 1;
    let d = b.base_for(attempt);
    let j = min_int(b.jitter_permille as int, 1000);
    assert(d * j / 1000 >= 0) by (nonlinear_arith)
        requires d >= 0, j >= 0;
}

/// Consecutive failures, connection totals and the last error of one
/// connection lifecycle, together with the backoff policy it follows.
#[derive(Debug)]
pub struct ConnectionHealth {
    pub consecutive_failures: u32,
    pub total_connections: u64,
    pub total_reconnects: u64,
    pub backoff: BackoffStrategy,
    pub last_error: Option<String>,
}

/// What to do after the link failed.
#[derive(Clone, Copy, Debug, PartialEq, Eq, Structural)]
pub enum ReconnectStep {
    /// Wait this many milliseconds, then try again.
    RetryAfter { delay_ms: u64 },
    /// The attempt budget is spent: stay disconnected.
    GiveUp,
}

pub open spec fn inc_u64(x: u64) -> u64 {
    if x < u64::MAX {
        (x + 1) as u64
    } else {
        x
    }
}

/// Retry after delay `d` raised to `min_delay_ms`, or give up without a delay.
pub open spec fn retry_step(d: Option<u64>, min_delay_ms: u64) -> ReconnectStep {
    match d {
        Some(d) => ReconnectStep::RetryAfter {
            delay_ms: if d < min_delay_ms {
                min_delay_ms
            } else {
                d
            },
        },
        None => ReconnectStep::GiveUp,
    }
}

impl ConnectionHealth {
    pub fn new(backoff: BackoffStrategy) -> (r: Self)
        ensures
            r.consecutive_failures == 0,
            r.total_connections == 0,
            r.total_reconnects == 0,
            r.backoff == backoff,
            r.last_error is None,
    {
        ConnectionHealth {
            consecutive_failures: 0,
            total_connections: 0,
            total_reconnects: 0,
            backoff,
            last_error: None,
        }
    }

    /// Records an accepted connection: a reconnect if failures preceded it;
    /// failures and the last error are cleared. Counters saturate.
    pub fn record_success(&mut self)
        ensures
            final(self).total_reconnects == if old(self).consecutive_failures > 0 {
                inc_u64(old(self).total_reconnects)
            } else {
                old(self).total_reconnects
            },
            final(self).consecutive_failures == 0,
            final(self).total_connections == inc_u64(old(self).total_connections),
            final(self).last_error is None,
            final(self).backoff == old(self).backoff,
    {
        if self.consecutive_failures > 0 && self.total_reconnects < u64::MAX {
            self.total_reconnects = self.total_reconnects + 1;
        }
        self.consecutive_failures = 0;
        if self.total_connections < u64::MAX {
            self.total_connections = self.total_connections + 1;
        }
        self.last_error = None;
    }

    /// Records a failure and keeps `error` as the last error. The failure
    /// count saturates at its largest value.
    pub fn record_failure(&mut self, error: String)
        ensures
            final(self).consecutive_failures == if old(self).consecutive_failures < u32::MAX {
                (old(self).consecutive_failures + 1) as u32
            } else {
                old(self).consecutive_failures
            },
            final(self).last_error == Some(error),
            final(self).total_connections == old(self).total_connections,
            final(self).total_reconnects == old(self).total_reconnects,
            final(self).backoff == old(self).backoff,
    {
        if self.consecutive_failures < u32::MAX {
            self.consecutive_failures = self.consecutive_failures + 1;
        }
        self.last_error = Some(error);
    }

    /// The delay before the next attempt, from the current failure count.
    pub fn next_reconnect_delay(&self) -> (r: Option<u64>)
        ensures
            r == self.backoff.delay_spec(self.consecutive_failures),
    {
        self.backoff.delay_for_attempt(self.consecutive_failures)
    }

    /// True iff there is no attempt limit or the failures are still below it.
    pub fn should_reconnect(&self) -> (r: bool)
        ensures
            r == self.backoff.continue_spec(self.consecutive_failures),
    {
        self.backoff.should_continue(self.consecutive_failures)
    }

    pub fn failure_count(&self) -> (r: u32)
        ensures
            r == self.consecutive_failures,
    {
        self.consecutive_failures
    }

    pub fn total_connections(&self) -> (r: u64)
        ensures
            r == self.total_connections,
    {
        self.total_connections
    }

    pub fn total_reconnects(&self) -> (r: u64)
        ensures
            r == self.total_reconnects,
    {
        self.total_reconnects
    }

    pub fn last_error(&self) -> (r: Option<&str>)
        ensures
            r is None <==> self.last_error is None,
            self.last_error is Some ==> r.unwrap()@ == self.last_error.unwrap()@,
    {
        match &self.last_error {
            Some(e) => Some(e.as_str()),
            None => None,
        }
    }

    /// Healthy while no failure is outstanding.
    pub fn is_healthy(&self) -> (r: bool)
        ensures
            r == (self.consecutive_failures == 0),
    {
        self.consecutive_failures == 0
    }

    /// Handles a failure of the link: records it, then either gives up (the
    /// attempt budget is spent) or asks to retry after the backoff delay,
    /// raised to at least `min_delay_ms`.
    pub fn on_connection_error(&mut self, error: String, min_delay_ms: u64) -> (r: ReconnectStep)
        ensures
            final(self).consecutive_failures == if old(self).consecutive_failures < u32::MAX {
                (old(self).consecutive_failures + 1) as u32
            } else {
                old(self).consecutive_failures
            },
            final(self).last_error == Some(error),
            final(self).total_connections == old(self).total_connections,
            final(self).total_reconnects == old(self).total_reconnects,
            final(self).backoff == old(self).backoff,
            !final(self).backoff.continue_spec(final(self).consecutive_failures) ==> r
                == ReconnectStep::GiveUp,
            final(self).backoff.continue_spec(final(self).consecutive_failures) ==> r
                == retry_step(
                final(self).backoff.delay_spec(final(self).consecutive_failures),
                min_delay_ms,
            ),
    {
        self.record_failure(error);
        if !self.should_reconnect() {
            return ReconnectStep::GiveUp;
        }
        match self.next_reconnect_delay() {
            Some(d) => {
                let delay_ms = if d < min_delay_ms {
                    min_delay_ms
                } else {
                    d
                };
                ReconnectStep::RetryAfter { delay_ms }
            },
            None => ReconnectStep::GiveUp,
        }
    }
}

/// A limit of `m` attempts allows reconnecting exactly while fewer than `m`
/// consecutive failures have been recorded.
pub proof fn lemma_should_reconnect_limit(h: ConnectionHealth, m: u32)
    requires
        h.backoff.max_attempts == Some(m),
    ensures
        h.backoff.continue_spec(h.consecutive_failures) <==> h.consecutive_failures < m,
{
}

pub proof fn lemma_pow2_mono(a: nat, b: nat)
    requires
        a <= b,
    ensures
        pow2(a) <= pow2(b),
        pow2(a) >= 1,
    decreases b,
{
    if b > a {
        lemma_pow2_mono(a, (b - 1) as nat);
    } else if a > 0 {
        lemma_pow2_mono((a - 1) as nat, (a - 1) as nat);
    }
}

} // verus!
