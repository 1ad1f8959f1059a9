//! A throttle: a bucket of tokens that refills at a fixed rate, and a cap on the turns that are
//! under way.
//!
//! [`RateLimiter`] decides; who calls it waits and sleeps. To get a permit, a caller queues up
//! ([`RateLimiter::enqueue`]), takes a slot ([`RateLimiter::take_slot`]) and then a token
//! ([`RateLimiter::token_step`]), and leaves the queue again ([`RateLimiter::leave`]). A slot
//! comes back with [`RateLimiter::release`]; a token is spent. Every operation that needs the
//! time takes it, in milliseconds of a clock that does not go back.

use crate::error::{error_text, PluginError};
use crate::float::{fraction_single, Single};
use crate::text::{decimal, decimal_text};
use crate::time::TimeSpan;
use std::sync::Arc;
use vstd::prelude::*;
use vstd::string::*;

verus! {

/// One token, in the thousandths that the bucket counts in.
pub const MILLI_TOKEN: u64 = 1_000;

/// Why a permit is not given.
#[derive(Clone, Debug, PartialEq)]
pub enum RateLimitError {
    /// The configuration cannot be honoured.
    Config(String),
    /// As many callers are waiting as may be.
    QueueFull {
        /// How many are.
        waiters: usize,
        /// How many may be.
        max_waiters: usize,
    },
    /// As many turns are under way as may be.
    Busy {
        /// How many are.
        in_flight: usize,
        /// How many may be.
        max_concurrent: usize,
    },
    /// There is no token.
    Exhausted {
        /// In how long there is one.
        retry_after: TimeSpan,
    },
    /// An observer objects.
    Observer(PluginError),
    /// The limiter is locked for good.
    Lock(String),
}

/// The text of a [`RateLimitError`].
pub open spec fn limit_error_text(e: RateLimitError) -> Seq<char> {
    match e {
        RateLimitError::Config(m) => "rate limit configuration error: "@ + m@,
        RateLimitError::QueueFull { waiters, max_waiters } => "rate limit queue is full: "@
            + decimal(waiters as nat) + " of "@ + decimal(max_waiters as nat)
            + " waiters are already parked"@,
        RateLimitError::Busy { in_flight, max_concurrent } =>
            "rate limit concurrency cap reached: "@ + decimal(in_flight as nat) + " of "@ + decimal(
                max_concurrent as nat,
            ) + " slots in flight"@,
        RateLimitError::Exhausted { retry_after } =>
            "rate limit token bucket is exhausted; retry after "@ + decimal(
                (retry_after.nanos / 1_000_000) as nat,
            ) + " ms"@,
        RateLimitError::Observer(inner) => "rate limit observer refused the acquire: "@
            + error_text(inner),
        RateLimitError::Lock(m) => "rate limit lock error: "@ + m@,
    }
}

impl RateLimitError {
    /// The text of the error.
    pub fn to_text(&self) -> (r: String)
        ensures
            r@ == limit_error_text(*self),
    {
        match self {
            RateLimitError::Config(m) => "rate limit configuration error: ".to_owned().concat(
                m.as_str(),
            ),
            RateLimitError::QueueFull {
                waiters,
                max_waiters,
            } => "rate limit queue is full: ".to_owned().concat(
                decimal_text(*waiters as u128).as_str(),
            ).concat(" of ").concat(decimal_text(*max_waiters as u128).as_str()).concat(
                " waiters are already parked",
            ),
            RateLimitError::Busy {
                in_flight,
                max_concurrent,
            } => "rate limit concurrency cap reached: ".to_owned().concat(
                decimal_text(*in_flight as u128).as_str(),
            ).concat(" of ").concat(decimal_text(*max_concurrent as u128).as_str()).concat(
                " slots in flight",
            ),
            RateLimitError::Exhausted {
                retry_after,
            } => "rate limit token bucket is exhausted; retry after ".to_owned().concat(
                decimal_text(retry_after.nanos / 1_000_000).as_str(),
            ).concat(" ms"),
            RateLimitError::Observer(
                inner,
            ) => "rate limit observer refused the acquire: ".to_owned().concat(
                inner.to_text().as_str(),
            ),
            RateLimitError::Lock(m) => "rate limit lock error: ".to_owned().concat(m.as_str()),
        }
    }

    /// The error as a plugin's error: that of an observer as it is, that of a configuration as
    /// a failed validation, and any other by its text.
    pub fn into_plugin_error(self) -> (r: PluginError)
        ensures
            match self {
                RateLimitError::Config(m) => r matches PluginError::Validation { schema, message }
                    && schema@ == "rate-limit-config"@ && message == m,
                RateLimitError::Observer(inner) => r == inner,
                _ => r matches PluginError::Internal(m) && m@ == limit_error_text(self),
            },
    {
        match self {
            RateLimitError::Config(message) => PluginError::Validation {
                schema: "rate-limit-config".to_owned(),
                message,
            },
            RateLimitError::Observer(inner) => inner,
            other => PluginError::Internal(other.to_text()),
        }
    }
}

impl vstd::std_specs::convert::FromSpecImpl<RateLimitError> for PluginError {
    open spec fn obeys_from_spec() -> bool {
        false
    }

    open spec fn from_spec(e: RateLimitError) -> PluginError {
        arbitrary()
    }
}

impl From<RateLimitError> for PluginError {
    fn from(error: RateLimitError) -> (r: PluginError)
        ensures
            match error {
                RateLimitError::Config(m) => r matches PluginError::Validation { schema, message }
                    && schema@ == "rate-limit-config"@ && message == m,
                RateLimitError::Observer(inner) => r == inner,
                _ => r matches PluginError::Internal(m) && m@ == limit_error_text(error),
            },
    {
        error.into_plugin_error()
    }
}

/// A reading of a limiter.
#[derive(Debug, Clone, Copy, PartialEq, Eq, Structural)]
pub struct RateLimitUsage {
    /// The whole tokens in the bucket.
    pub available_tokens: u32,
    /// The turns under way.
    pub in_flight: usize,
    /// The callers that wait.
    pub waiting: usize,
}

/// Who is told where many callers wait. An error has the caller refused.
pub trait RateLimitObserver: Send + Sync {
    /// Takes note of a reading.
    fn observe(&self, usage: &RateLimitUsage) -> Result<(), PluginError>;
}

/// The bounds of a limiter.
#[derive(Clone)]
pub struct RateLimitConfig {
    /// How many tokens come in an interval; not zero.
    pub max_requests: u32,
    /// The interval; not zero.
    pub interval: TimeSpan,
    /// How many tokens the bucket holds; not zero.
    pub burst: u32,
    /// How many turns may be under way; not zero.
    pub max_concurrent: usize,
    /// How many callers may wait; not zero.
    pub max_waiters: usize,
    /// How long a caller waits; not zero.
    pub max_wait: TimeSpan,
    /// From which fraction of `max_waiters` on the observers are told.
    pub warn_fraction: Option<Single>,
    /// Who is told.
    pub observers: Vec<Arc<dyn RateLimitObserver>>,
}

/// `tokio::sync::Semaphore::MAX_PERMITS`, the number of slots that a semaphore can have: an
/// eighth of the largest `usize`.
#[verifier::external_body]
fn semaphore_limit() -> (r: usize)
    ensures
        r == usize::MAX / 8,
{
    tokio::sync::Semaphore::MAX_PERMITS
}

/// Why a configuration cannot be honoured.
pub open spec fn limit_refusal(c: RateLimitConfig) -> Option<Seq<char>> {
    if c.max_requests == 0 {
        Some("max_requests must be non-zero"@)
    } else if c.interval.nanos == 0 {
        Some("interval must be non-zero"@)
    } else if c.burst == 0 {
        Some("burst must be non-zero"@)
    } else if c.max_concurrent == 0 {
        Some("max_concurrent must be non-zero"@)
    } else if c.max_concurrent > usize::MAX / 8 {
        Some(
            "max_concurrent must be at most "@ + decimal((usize::MAX / 8) as nat) + ", got "@
                + decimal(c.max_concurrent as nat),
        )
    } else if c.max_waiters == 0 {
        Some("max_waiters must be non-zero"@)
    } else if c.max_wait.nanos == 0 {
        Some("max_wait must be non-zero"@)
    } else if c.warn_fraction is Some && !fraction_single(c.warn_fraction->0.bits) {
        Some("warn_fraction must be in (0.0, 1.0], got "@ + c.warn_fraction->0.text@)
    } else {
        None
    }
}

/// A configuration is refused, or handed on.
pub open spec fn checked(c: RateLimitConfig, r: Result<RateLimitConfig, RateLimitError>) -> bool {
    match limit_refusal(c) {
        Some(m) => r matches Err(RateLimitError::Config(e)) && e@ == m,
        None => r == Ok::<RateLimitConfig, RateLimitError>(c),
    }
}

/// The refusal of a configuration.
fn config_error(message: &str) -> (r: RateLimitError)
    ensures
        r matches RateLimitError::Config(m) && m@ == message@,
{
    RateLimitError::Config(message.to_owned())
}

/// The milliseconds of an interval, at least one.
pub open spec fn interval_ms(interval: TimeSpan) -> u64 {
    let ms = interval.nanos / 1_000_000;
    if ms > u64::MAX {
        u64::MAX
    } else if ms == 0 {
        1
    } else {
        ms as u64
    }
}

impl RateLimitConfig {
    /// Bounds where the bucket holds the tokens of an interval, and a caller waits for an
    /// interval.
    pub fn new(
        max_requests: u32,
        interval: TimeSpan,
        max_concurrent: usize,
        max_waiters: usize,
    ) -> (r: Result<RateLimitConfig, RateLimitError>)
        ensures
            exists|c: RateLimitConfig| #[trigger]
                checked(c, r) && c.max_requests == max_requests && c.interval == interval && c.burst
                    == max_requests && c.max_concurrent == max_concurrent && c.max_waiters
                    == max_waiters && c.max_wait == interval && c.warn_fraction is None
                    && c.observers@.len() == 0,
    {
        let config = RateLimitConfig {
            max_requests,
            interval,
            burst: max_requests,
            max_concurrent,
            max_waiters,
            max_wait: interval,
            warn_fraction: None,
            observers: Vec::new(),
        };
        let ghost c = config;
        let r = config.into_checked();
        assert(checked(c, r));
        r
    }

    /// The configuration, or why it cannot be honoured.
    fn into_checked(self) -> (r: Result<RateLimitConfig, RateLimitError>)
        ensures
            checked(self, r),
    {
        self.validate()?;
        Ok(self)
    }

    /// Another size of the bucket.
    pub fn with_burst(self, burst: u32) -> (r: Result<RateLimitConfig, RateLimitError>)
        ensures
            checked(RateLimitConfig { burst, ..self }, r),
    {
        let mut config = self;
        config.burst = burst;
        config.into_checked()
    }

    /// Another time to wait.
    pub fn with_max_wait(self, max_wait: TimeSpan) -> (r: Result<RateLimitConfig, RateLimitError>)
        ensures
            checked(RateLimitConfig { max_wait, ..self }, r),
    {
        let mut config = self;
        config.max_wait = max_wait;
        config.into_checked()
    }

    /// A fraction from which on the observers are told.
    pub fn with_warn_fraction(self, fraction: Single) -> (r: Result<
        RateLimitConfig,
        RateLimitError,
    >)
        ensures
            checked(RateLimitConfig { warn_fraction: Some(fraction), ..self }, r),
    {
        let mut config = self;
        config.warn_fraction = Some(fraction);
        config.into_checked()
    }

    /// One more observer.
    pub fn with_observer(self, observer: Arc<dyn RateLimitObserver>) -> (r: RateLimitConfig)
        ensures
            r.observers@.drop_last() == self.observers@,
            r.observers@.len() == self.observers@.len() + 1,
            r.observers@.last() == observer,
            r == (RateLimitConfig { observers: r.observers, ..self }),
    {
        let mut config = self;
        let mut one = Vec::new();
        one.push(observer);
        config.observers.append(&mut one);
        assert(config.observers@.drop_last() =~= self.observers@);
        config
    }

    /// Refuses bounds that cannot be honoured.
    pub fn validate(&self) -> (r: Result<(), RateLimitError>)
        ensures
            match limit_refusal(*self) {
                Some(m) => r matches Err(RateLimitError::Config(e)) && e@ == m,
                None => r is Ok,
            },
    {
        if self.max_requests == 0 {
            return Err(config_error("max_requests must be non-zero"));
        }
        if self.interval.is_zero() {
            return Err(config_error("interval must be non-zero"));
        }
        if self.burst == 0 {
            return Err(config_error("burst must be non-zero"));
        }
        if self.max_concurrent == 0 {
            return Err(config_error("max_concurrent must be non-zero"));
        }
        let limit: usize = semaphore_limit();
        if self.max_concurrent > limit {
            return Err(
                RateLimitError::Config(
                    "max_concurrent must be at most ".to_owned().concat(
                        decimal_text(limit as u128).as_str(),
                    ).concat(", got ").concat(decimal_text(self.max_concurrent as u128).as_str()),
                ),
            );
        }
        if self.max_waiters == 0 {
            return Err(config_error("max_waiters must be non-zero"));
        }
        if self.max_wait.is_zero() {
            return Err(config_error("max_wait must be non-zero"));
        }
        if let Some(fraction) = &self.warn_fraction {
            if !fraction.is_fraction() {
                return Err(
                    RateLimitError::Config(
                        "warn_fraction must be in (0.0, 1.0], got ".to_owned().concat(
                            fraction.text.as_str(),
                        ),
                    ),
                );
            }
        }
        Ok(())
    }

    /// The milliseconds of the interval, at least one.
    fn interval_millis(&self) -> (r: u64)
        ensures
            r == interval_ms(self.interval),
            r > 0,
    {
        let ms: u128 = self.interval.nanos / 1_000_000;
        if ms > u64::MAX as u128 {
            u64::MAX
        } else if ms == 0 {
            1
        } else {
            ms as u64
        }
    }
}

/// A bucket of tokens.
#[derive(Debug, Clone, Copy, PartialEq, Eq, Structural)]
pub struct BucketState {
    /// The tokens, in thousandths.
    pub tokens_milli: u64,
    /// Up to when they are accounted for.
    pub last_refill_millis: u64,
    /// What came in besides, too little for a thousandth: in parts of one, of which there are as
    /// many as the interval has milliseconds.
    pub carry: u64,
}

/// How fast a bucket refills, and how much it holds.
#[derive(Debug, Clone, Copy, PartialEq, Eq, Structural)]
pub struct BucketRate {
    /// How many thousandths of a token come in an interval; a token at least.
    pub per_interval_milli: u64,
    /// The interval in milliseconds; not zero.
    pub interval_millis: u64,
    /// How many thousandths the bucket holds.
    pub capacity_milli: u64,
}

/// The rate of a configuration.
pub open spec fn rate_of(c: RateLimitConfig) -> BucketRate {
    BucketRate {
        per_interval_milli: (c.max_requests * 1_000) as u64,
        interval_millis: interval_ms(c.interval),
        capacity_milli: (c.burst * 1_000) as u64,
    }
}

/// A rate that a bucket can refill at.
pub open spec fn is_rate(r: BucketRate) -> bool {
    &&& 1_000 <= r.per_interval_milli <= u32::MAX * 1_000
    &&& 0 < r.interval_millis
    &&& 1_000 <= r.capacity_milli <= u32::MAX * 1_000
}

/// The time since a bucket was refilled.
pub open spec fn elapsed(b: BucketState, now: u64) -> int {
    if now >= b.last_refill_millis {
        now - b.last_refill_millis
    } else {
        0
    }
}

/// What came into a bucket since it was refilled, with what was left over then, in parts of a
/// thousandth.
pub open spec fn income(r: BucketRate, b: BucketState, now: u64) -> int {
    elapsed(b, now) * r.per_interval_milli + b.carry
}

/// The whole thousandths that came into a bucket since it was refilled.
pub open spec fn gain(r: BucketRate, b: BucketState, now: u64) -> int {
    income(r, b, now) / r.interval_millis as int
}

/// A bucket brought up to date: what came in since, up to what the bucket holds. What is too
/// little for a thousandth is carried over to the next time, unless the bucket is full.
pub open spec fn refilled(r: BucketRate, b: BucketState, now: u64) -> BucketState {
    let g = gain(r, b, now);
    if b.tokens_milli + g >= r.capacity_milli {
        BucketState { tokens_milli: r.capacity_milli, last_refill_millis: now, carry: 0 }
    } else {
        BucketState {
            tokens_milli: (b.tokens_milli + g) as u64,
            last_refill_millis: (b.last_refill_millis + elapsed(b, now)) as u64,
            carry: (income(r, b, now) % r.interval_millis as int) as u64,
        }
    }
}

/// What came in is its whole thousandths and what is carried over.
proof fn lemma_income(r: BucketRate, b: BucketState, now: u64)
    requires
        is_rate(r),
    ensures
        0 <= income(r, b, now) <= u64::MAX * (u32::MAX * 1_000) + u64::MAX,
        0 <= gain(r, b, now),
        0 <= income(r, b, now) % r.interval_millis as int,
        (income(r, b, now) % r.interval_millis as int) < r.interval_millis,
        gain(r, b, now) * r.interval_millis + income(r, b, now) % r.interval_millis as int
            == income(r, b, now),
{
    let e = elapsed(b, now);
    let p = r.per_interval_milli as int;
    let i = r.interval_millis as int;
    assert(0 <= e * p <= u64::MAX * (u32::MAX * 1_000)) by (nonlinear_arith)
        requires
            0 <= e <= u64::MAX,
            0 < p <= u32::MAX * 1_000,
    ;
    let n = income(r, b, now);
    vstd::arithmetic::div_mod::lemma_fundamental_div_mod(n, i);
    vstd::arithmetic::div_mod::lemma_mod_bound(n, i);
    vstd::arithmetic::div_mod::lemma_div_pos_is_pos(n, i);
    vstd::arithmetic::mul::lemma_mul_is_commutative(i, n / i);
}

impl BucketState {
    /// Brings the bucket up to date.
    pub fn refill(&mut self, rate: &BucketRate, now_millis: u64)
        requires
            is_rate(*rate),
            old(self).tokens_milli <= rate.capacity_milli,
        ensures
            *final(self) == refilled(*rate, *old(self), now_millis),
            final(self).tokens_milli <= rate.capacity_milli,
    {
        let elapsed: u64 = now_millis.saturating_sub(self.last_refill_millis);
        proof {
            lemma_income(*rate, *self, now_millis);
        }
        let interval: u128 = rate.interval_millis as u128;
        let product: u128 = elapsed as u128 * rate.per_interval_milli as u128;
        let total: u128 = product + self.carry as u128;
        let gained: u128 = total / interval;
        let left: u128 = total % interval;
        let headroom: u64 = rate.capacity_milli - self.tokens_milli;
        if gained >= headroom as u128 {
            self.tokens_milli = rate.capacity_milli;
            self.last_refill_millis = now_millis;
            self.carry = 0;
            return ;
        }
        self.tokens_milli = self.tokens_milli + gained as u64;
        self.last_refill_millis = self.last_refill_millis + elapsed;
        self.carry = left as u64;
    }

    /// In how long the bucket holds a token.
    pub fn time_to_next_token(&self, rate: &BucketRate) -> (r: TimeSpan)
        requires
            is_rate(*rate),
        ensures
            r.nanos == wait_millis(*rate, *self) * 1_000_000,
            wait_millis(*rate, *self) <= u64::MAX,
    {
        if self.tokens_milli >= MILLI_TOKEN {
            return TimeSpan { nanos: 0 };
        }
        let missing: u64 = MILLI_TOKEN - self.tokens_milli;
        let interval: u128 = rate.interval_millis as u128;
        let per_interval: u128 = rate.per_interval_milli as u128;
        proof {
            lemma_wait(*rate, *self);
        }
        let product: u128 = missing as u128 * interval;
        let millis: u128 = (product + (per_interval - 1)) / per_interval;
        TimeSpan { nanos: millis * 1_000_000 }
    }
}

/// In how many milliseconds a bucket that is up to date holds a token: the fewest in which what
/// is missing comes in, whatever is carried over.
pub open spec fn wait_millis(r: BucketRate, b: BucketState) -> int {
    if b.tokens_milli >= 1_000 {
        0
    } else {
        ((1_000 - b.tokens_milli) * r.interval_millis + (r.per_interval_milli - 1))
            / r.per_interval_milli as int
    }
}

/// A wait is no longer than an interval.
proof fn lemma_wait(r: BucketRate, b: BucketState)
    requires
        is_rate(r),
        b.tokens_milli < 1_000,
    ensures
        0 <= (1_000 - b.tokens_milli) * r.interval_millis <= 1_000 * u64::MAX,
        0 <= wait_millis(r, b),
        wait_millis(r, b) * r.per_interval_milli >= (1_000 - b.tokens_milli) * r.interval_millis,
        wait_millis(r, b) <= r.interval_millis,
{
    let m = 1_000 - b.tokens_milli;
    let i = r.interval_millis as int;
    let p = r.per_interval_milli as int;
    assert(0 <= m * i <= 1_000 * u64::MAX) by (nonlinear_arith)
        requires
            0 <= m <= 1_000,
            0 <= i <= u64::MAX,
    ;
    let n = m * i + (p - 1);
    vstd::arithmetic::div_mod::lemma_fundamental_div_mod(n, p);
    vstd::arithmetic::div_mod::lemma_mod_bound(n, p);
    vstd::arithmetic::div_mod::lemma_div_pos_is_pos(n, p);
    vstd::arithmetic::mul::lemma_mul_is_commutative(p, n / p);
    let w = n / p;
    assert(w <= i) by (nonlinear_arith)
        requires
            w * p <= m * i + p - 1,
            m <= 1_000 <= p,
            0 <= i,
    ;
}

/// What a caller does next.
#[derive(Debug, PartialEq)]
pub enum AcquireAction {
    /// Go on: the token is spent.
    Granted,
    /// Wait so long and try again.
    Sleep(TimeSpan),
    /// Give up.
    Refused(RateLimitError),
}

/// What a limiter counts.
#[verifier::ext_equal]
pub struct LimiterView {
    /// The bucket.
    pub bucket: BucketState,
    /// The turns under way.
    pub in_flight: nat,
    /// The callers that wait.
    pub waiting: nat,
}

/// A bucket after a try to take a token, and whether there was one.
pub open spec fn taken(r: BucketRate, b: BucketState, now: u64) -> (BucketState, bool) {
    let full = refilled(r, b, now);
    if full.tokens_milli >= 1_000 {
        (
            BucketState { tokens_milli: (full.tokens_milli - 1_000) as u64, ..full },
            true,
        )
    } else {
        (full, false)
    }
}

/// What trying for a permit comes to.
pub enum PermitVerdict {
    /// A slot and a token are taken.
    Granted,
    /// Every slot is taken.
    Busy,
    /// There is no token; in how many milliseconds there is one.
    Exhausted(int),
}

/// A limiter after a try for a permit without waiting, and what came of it.
pub open spec fn permitted(v: LimiterView, r: BucketRate, slots: nat, now: u64) -> (
    LimiterView,
    PermitVerdict,
) {
    let t = taken(r, v.bucket, now);
    if v.in_flight >= slots {
        (v, PermitVerdict::Busy)
    } else if t.1 {
        (LimiterView { bucket: t.0, in_flight: v.in_flight + 1, ..v }, PermitVerdict::Granted)
    } else {
        (LimiterView { bucket: t.0, ..v }, PermitVerdict::Exhausted(wait_millis(r, t.0)))
    }
}

/// A limiter after a caller tried to queue up, and whether there was room.
pub open spec fn queued(v: LimiterView, places: nat) -> (LimiterView, bool) {
    if v.waiting < places {
        (LimiterView { waiting: v.waiting + 1, ..v }, true)
    } else {
        (v, false)
    }
}

/// A limiter after a caller left the queue.
pub open spec fn unqueued(v: LimiterView) -> LimiterView {
    LimiterView {
        waiting: if v.waiting > 0 {
            (v.waiting - 1) as nat
        } else {
            0
        },
        ..v
    }
}

/// A limiter after a caller tried to take a slot, and whether one was free.
pub open spec fn slotted(v: LimiterView, slots: nat) -> (LimiterView, bool) {
    if v.in_flight < slots {
        (LimiterView { in_flight: v.in_flight + 1, ..v }, true)
    } else {
        (v, false)
    }
}

/// A limiter after a slot was given back.
pub open spec fn released(v: LimiterView) -> LimiterView {
    LimiterView {
        in_flight: if v.in_flight > 0 {
            (v.in_flight - 1) as nat
        } else {
            0
        },
        ..v
    }
}

/// Every one of the first observers took note of the reading.
pub open spec fn all_told<O: RateLimitObserver + ?Sized>(
    observers: Seq<Arc<O>>,
    usage: RateLimitUsage,
    n: int,
) -> bool {
    forall|i: int|
        0 <= i < n ==> call_ensures(O::observe, (&*#[trigger] observers[i], &usage), Ok(()))
}

/// What telling observers of a reading may come to: all took note, or all before the one that
/// objected did.
pub open spec fn is_told<O: RateLimitObserver + ?Sized>(
    observers: Seq<Arc<O>>,
    usage: RateLimitUsage,
    r: Result<(), RateLimitError>,
) -> bool {
    match r {
        Ok(_) => all_told(observers, usage, observers.len() as int),
        Err(e) => e matches RateLimitError::Observer(inner) && exists|i: int|
            0 <= i < observers.len() && all_told(observers, usage, i) && call_ensures(
                O::observe,
                (&*#[trigger] observers[i], &usage),
                Err(inner),
            ),
    }
}

/// Tells the observers in turn, up to the first that objects.
pub fn notify<O: RateLimitObserver + ?Sized>(observers: &Vec<Arc<O>>, usage: &RateLimitUsage) -> (r:
    Result<(), RateLimitError>)
    ensures
        is_told(observers@, *usage, r),
{
    let mut i: usize = 0;
    while i < observers.len()
        invariant
            i <= observers@.len(),
            all_told(observers@, *usage, i as int),
        decreases observers@.len() - i,
    {
        match observers[i].observe(usage) {
            Ok(u) => {
                assert(u == ());
            },
            Err(e) => {
                assert(call_ensures(O::observe, (&*observers@[i as int], usage), Err(e)));
                return Err(RateLimitError::Observer(e));
            },
        }
        i = i + 1;
    }
    Ok(())
}

/// A throttle over turns.
pub struct RateLimiter {
    config: RateLimitConfig,
    bucket: BucketState,
    in_flight: usize,
    waiting: usize,
}

impl View for RateLimiter {
    type V = LimiterView;

    closed spec fn view(&self) -> LimiterView {
        LimiterView {
            bucket: self.bucket,
            in_flight: self.in_flight as nat,
            waiting: self.waiting as nat,
        }
    }
}

impl RateLimiter {
    /// The bounds.
    pub closed spec fn bounds(&self) -> RateLimitConfig {
        self.config
    }

    /// The limiter keeps its bounds.
    pub open spec fn within(&self) -> bool {
        &&& limit_refusal(self.bounds()) is None
        &&& self@.bucket.tokens_milli <= rate_of(self.bounds()).capacity_milli
        &&& self@.in_flight <= self.bounds().max_concurrent
        &&& self@.waiting <= self.bounds().max_waiters
    }

    #[verifier::type_invariant]
    spec fn wf(self) -> bool {
        self.within()
    }

    /// A limiter with a full bucket, or why the configuration cannot be honoured.
    pub fn new(config: RateLimitConfig, now_millis: u64) -> (r: Result<RateLimiter, RateLimitError>)
        ensures
            match limit_refusal(config) {
                Some(m) => r matches Err(RateLimitError::Config(e)) && e@ == m,
                None => r matches Ok(limiter) && limiter.bounds() == config && limiter@
                    == (LimiterView {
                    bucket: BucketState {
                        tokens_milli: rate_of(config).capacity_milli,
                        last_refill_millis: now_millis,
                        carry: 0,
                    },
                    in_flight: 0,
                    waiting: 0,
                }),
            },
    {
        config.validate()?;
        let tokens_milli: u64 = config.burst as u64 * MILLI_TOKEN;
        Ok(
            RateLimiter {
                config,
                bucket: BucketState { tokens_milli, last_refill_millis: now_millis, carry: 0 },
                in_flight: 0,
                waiting: 0,
            },
        )
    }

    /// The bounds.
    pub fn config(&self) -> (r: &RateLimitConfig)
        ensures
            *r == self.bounds(),
            self.within(),
    {
        proof {
            use_type_invariant(self);
        }
        &self.config
    }

    /// The rate of the bucket.
    fn rate(&self) -> (r: BucketRate)
        ensures
            r == rate_of(self.bounds()),
            is_rate(r),
    {
        proof {
            use_type_invariant(self);
        }
        BucketRate {
            per_interval_milli: self.config.max_requests as u64 * MILLI_TOKEN,
            interval_millis: self.config.interval_millis(),
            capacity_milli: self.config.burst as u64 * MILLI_TOKEN,
        }
    }

    /// Brings the bucket up to date and takes a token where there is one.
    fn take_token(&mut self, now_millis: u64) -> (r: Option<TimeSpan>)
        ensures
            final(self).bounds() == old(self).bounds(),
            final(self)@ == (LimiterView {
                bucket: taken(rate_of(old(self).bounds()), old(self)@.bucket, now_millis).0,
                ..old(self)@
            }),
            r is None <==> taken(rate_of(old(self).bounds()), old(self)@.bucket, now_millis).1,
            r matches Some(wait) ==> wait.nanos == wait_millis(
                rate_of(old(self).bounds()),
                final(self)@.bucket,
            ) * 1_000_000,
    {
        let rate = self.rate();
        proof {
            use_type_invariant(&*self);
        }
        let mut bucket = self.bucket;
        bucket.refill(&rate, now_millis);
        if bucket.tokens_milli >= MILLI_TOKEN {
            bucket.tokens_milli = bucket.tokens_milli - MILLI_TOKEN;
            self.bucket = bucket;
            None
        } else {
            self.bucket = bucket;
            Some(bucket.time_to_next_token(&rate))
        }
    }

    /// A permit without waiting: a slot and a token, where both are free.
    pub fn try_acquire(&mut self, now_millis: u64) -> (r: Result<(), RateLimitError>)
        ensures
            final(self).bounds() == old(self).bounds(),
            ({
                let t = permitted(
                    old(self)@,
                    rate_of(old(self).bounds()),
                    old(self).bounds().max_concurrent as nat,
                    now_millis,
                );
                &&& final(self)@ == t.0
                &&& match t.1 {
                    PermitVerdict::Granted => r is Ok,
                    PermitVerdict::Busy => r matches Err(RateLimitError::Busy { .. }),
                    PermitVerdict::Exhausted(ms) => r matches Err(
                        RateLimitError::Exhausted { retry_after },
                    ) && retry_after.nanos == ms * 1_000_000,
                }
            }),
            ({
                let rate = rate_of(old(self).bounds());
                let max = old(self).bounds().max_concurrent;
                let t = taken(rate, old(self)@.bucket, now_millis);
                if old(self)@.in_flight >= max {
                    &&& r matches Err(RateLimitError::Busy { in_flight, max_concurrent })
                    &&& in_flight == old(self)@.in_flight
                    &&& max_concurrent == max
                    &&& final(self)@ == old(self)@
                } else if t.1 {
                    &&& r is Ok
                    &&& final(self)@ == (LimiterView {
                        bucket: t.0,
                        in_flight: old(self)@.in_flight + 1,
                        waiting: old(self)@.waiting,
                    })
                } else {
                    &&& r matches Err(RateLimitError::Exhausted { retry_after })
                    &&& retry_after.nanos == wait_millis(rate, t.0) * 1_000_000
                    &&& final(self)@ == (LimiterView { bucket: t.0, ..old(self)@ })
                }
            }),
    {
        proof {
            use_type_invariant(&*self);
        }
        if self.in_flight >= self.config.max_concurrent {
            return Err(
                RateLimitError::Busy {
                    in_flight: self.in_flight,
                    max_concurrent: self.config.max_concurrent,
                },
            );
        }
        match self.take_token(now_millis) {
            None => {
                proof {
                    use_type_invariant(&*self);
                }
                self.in_flight = self.in_flight + 1;
                Ok(())
            },
            Some(retry_after) => Err(RateLimitError::Exhausted { retry_after }),
        }
    }

    /// Queues a caller up, unless as many wait as may: the number of those that wait now.
    pub fn enqueue(&mut self) -> (r: Result<usize, RateLimitError>)
        ensures
            final(self).bounds() == old(self).bounds(),
            final(self)@ == queued(old(self)@, old(self).bounds().max_waiters as nat).0,
            r is Ok == queued(old(self)@, old(self).bounds().max_waiters as nat).1,
            if old(self)@.waiting >= old(self).bounds().max_waiters {
                &&& r matches Err(RateLimitError::QueueFull { waiters, max_waiters })
                &&& waiters == old(self)@.waiting
                &&& max_waiters == old(self).bounds().max_waiters
                &&& final(self)@ == old(self)@
            } else {
                &&& r matches Ok(admitted)
                &&& admitted == old(self)@.waiting + 1
                &&& final(self)@ == (LimiterView {
                    waiting: old(self)@.waiting + 1,
                    ..old(self)@
                })
            },
    {
        proof {
            use_type_invariant(&*self);
        }
        if self.waiting >= self.config.max_waiters {
            return Err(
                RateLimitError::QueueFull {
                    waiters: self.waiting,
                    max_waiters: self.config.max_waiters,
                },
            );
        }
        self.waiting = self.waiting + 1;
        Ok(self.waiting)
    }

    /// Lets a caller leave the queue.
    pub fn leave(&mut self)
        ensures
            final(self).bounds() == old(self).bounds(),
            final(self)@ == unqueued(old(self)@),
            final(self)@ == (LimiterView {
                waiting: if old(self)@.waiting > 0 {
                    (old(self)@.waiting - 1) as nat
                } else {
                    0
                },
                ..old(self)@
            }),
    {
        proof {
            use_type_invariant(&*self);
        }
        if self.waiting > 0 {
            self.waiting = self.waiting - 1;
        }
    }

    /// Takes a slot where one is free.
    pub fn take_slot(&mut self) -> (r: bool)
        ensures
            final(self).bounds() == old(self).bounds(),
            final(self)@ == slotted(old(self)@, old(self).bounds().max_concurrent as nat).0,
            r == slotted(old(self)@, old(self).bounds().max_concurrent as nat).1,
            r == (old(self)@.in_flight < old(self).bounds().max_concurrent),
            final(self)@ == (LimiterView {
                in_flight: if r {
                    old(self)@.in_flight + 1
                } else {
                    old(self)@.in_flight
                },
                ..old(self)@
            }),
    {
        proof {
            use_type_invariant(&*self);
        }
        if self.in_flight < self.config.max_concurrent {
            self.in_flight = self.in_flight + 1;
            true
        } else {
            false
        }
    }

    /// Gives a slot back; the token is spent.
    pub fn release(&mut self)
        ensures
            final(self).bounds() == old(self).bounds(),
            final(self)@ == released(old(self)@),
            final(self)@ == (LimiterView {
                in_flight: if old(self)@.in_flight > 0 {
                    (old(self)@.in_flight - 1) as nat
                } else {
                    0
                },
                ..old(self)@
            }),
    {
        proof {
            use_type_invariant(&*self);
        }
        if self.in_flight > 0 {
            self.in_flight = self.in_flight - 1;
        }
    }

    /// What a caller does that has a slot: go on with a token, or wait for one, or give up
    /// where its time is over.
    pub fn token_step(&mut self, now_millis: u64, out_of_time: bool) -> (r: AcquireAction)
        ensures
            final(self).bounds() == old(self).bounds(),
            ({
                let rate = rate_of(old(self).bounds());
                let t = taken(rate, old(self)@.bucket, now_millis);
                let wait = wait_millis(rate, t.0) * 1_000_000;
                &&& final(self)@ == (LimiterView { bucket: t.0, ..old(self)@ })
                &&& if t.1 {
                    r is Granted
                } else if out_of_time {
                    r matches AcquireAction::Refused(
                        RateLimitError::Exhausted { retry_after },
                    ) && retry_after.nanos == wait
                } else {
                    r matches AcquireAction::Sleep(span) && span.nanos == wait
                }
            }),
    {
        match self.take_token(now_millis) {
            None => AcquireAction::Granted,
            Some(retry_after) => if out_of_time {
                AcquireAction::Refused(RateLimitError::Exhausted { retry_after })
            } else {
                AcquireAction::Sleep(retry_after)
            },
        }
    }

    /// In how long there is a token, without taking one.
    pub fn peek_retry_after(&mut self, now_millis: u64) -> (r: TimeSpan)
        ensures
            final(self).bounds() == old(self).bounds(),
            final(self)@ == (LimiterView {
                bucket: refilled(rate_of(old(self).bounds()), old(self)@.bucket, now_millis),
                ..old(self)@
            }),
            r.nanos == wait_millis(rate_of(old(self).bounds()), final(self)@.bucket) * 1_000_000,
    {
        let rate = self.rate();
        proof {
            use_type_invariant(&*self);
        }
        let mut bucket = self.bucket;
        bucket.refill(&rate, now_millis);
        self.bucket = bucket;
        bucket.time_to_next_token(&rate)
    }

    /// A reading, with the bucket brought up to date.
    pub fn usage(&mut self, now_millis: u64) -> (r: RateLimitUsage)
        ensures
            final(self).bounds() == old(self).bounds(),
            final(self)@ == (LimiterView {
                bucket: refilled(rate_of(old(self).bounds()), old(self)@.bucket, now_millis),
                ..old(self)@
            }),
            r.available_tokens == final(self)@.bucket.tokens_milli / 1_000,
            r.in_flight == old(self)@.in_flight,
            r.waiting == old(self)@.waiting,
    {
        let rate = self.rate();
        proof {
            use_type_invariant(&*self);
        }
        let mut bucket = self.bucket;
        bucket.refill(&rate, now_millis);
        self.bucket = bucket;
        RateLimitUsage {
            available_tokens: (bucket.tokens_milli / MILLI_TOKEN) as u32,
            in_flight: self.in_flight,
            waiting: self.waiting,
        }
    }

    /// Tells the observers, where many callers wait, up to the first that objects.
    pub fn announce(&mut self, now_millis: u64, near_cap: bool) -> (r: Result<(), RateLimitError>)
        ensures
            final(self).bounds() == old(self).bounds(),
            if !near_cap || old(self).bounds().observers@.len() == 0 {
                r is Ok && final(self)@ == old(self)@
            } else {
                &&& final(self)@ == (LimiterView {
                    bucket: refilled(rate_of(old(self).bounds()), old(self)@.bucket, now_millis),
                    ..old(self)@
                })
                &&& is_told::<dyn RateLimitObserver>(
                    old(self).bounds().observers@,
                    RateLimitUsage {
                        available_tokens: (final(self)@.bucket.tokens_milli / 1_000) as u32,
                        in_flight: old(self)@.in_flight as usize,
                        waiting: old(self)@.waiting as usize,
                    },
                    r,
                )
            },
    {
        if !near_cap || self.config.observers.len() == 0 {
            return Ok(());
        }
        let usage = self.usage(now_millis);
        notify::<dyn RateLimitObserver>(&self.config.observers, &usage)
    }
}

/// What a bucket is good for at a time, in parts of a thousandth: what it holds, what it carries
/// over, and what the time brings that is not accounted for.
pub open spec fn credit(r: BucketRate, b: BucketState, now: u64) -> int {
    b.tokens_milli * r.interval_millis + income(r, b, now)
}

/// A clock that does not go on brings nothing: a bucket that is brought up to date a second time
/// at one time holds what it held after the first.
pub proof fn law_frozen_clock_brings_nothing(r: BucketRate, b: BucketState, now: u64)
    requires
        is_rate(r),
    ensures
        refilled(r, refilled(r, b, now), now).tokens_milli == refilled(r, b, now).tokens_milli,
{
    lemma_income(r, b, now);
    let once = refilled(r, b, now);
    lemma_income(r, once, now);
    let p = r.per_interval_milli as int;
    let i = r.interval_millis as int;
    assert(elapsed(once, now) == 0);
    assert(elapsed(once, now) * p == 0) by (nonlinear_arith)
        requires
            elapsed(once, now) == 0,
    ;
    assert(income(r, once, now) == once.carry);
    if b.tokens_milli + gain(r, b, now) < r.capacity_milli {
        assert(once.carry < i);
        vstd::arithmetic::div_mod::lemma_small_mod(once.carry as nat, i as nat);
        vstd::arithmetic::div_mod::lemma_basic_div(once.carry as int, i);
        assert(gain(r, once, now) == 0);
    }
}

/// Bringing a bucket up to date loses nothing of what it is good for, unless it is full: what
/// comes in slowly still comes in.
pub proof fn law_refill_loses_nothing(r: BucketRate, b: BucketState, now: u64)
    requires
        is_rate(r),
        b.tokens_milli <= r.capacity_milli,
        b.last_refill_millis <= now,
        refilled(r, b, now).tokens_milli < r.capacity_milli,
    ensures
        credit(r, refilled(r, b, now), now) >= credit(r, b, now),
{
    lemma_refill_credit(r, b, now);
}

/// Bringing a bucket up to date makes nothing up: the bucket is good for no more than before.
pub proof fn law_refill_makes_nothing_up(r: BucketRate, b: BucketState, now: u64)
    requires
        is_rate(r),
        b.tokens_milli <= r.capacity_milli,
        b.last_refill_millis <= now,
    ensures
        credit(r, refilled(r, b, now), now) <= credit(r, b, now),
{
    lemma_refill_credit(r, b, now);
}

/// Bringing a bucket up to date keeps what it is good for, or cuts it down to a full bucket.
proof fn lemma_refill_credit(r: BucketRate, b: BucketState, now: u64)
    requires
        is_rate(r),
        b.tokens_milli <= r.capacity_milli,
        b.last_refill_millis <= now,
    ensures
        if b.tokens_milli + gain(r, b, now) >= r.capacity_milli {
            credit(r, refilled(r, b, now), now) <= credit(r, b, now)
        } else {
            credit(r, refilled(r, b, now), now) == credit(r, b, now)
        },
        refilled(r, b, now).last_refill_millis == now,
{
    let p = r.per_interval_milli as int;
    let i = r.interval_millis as int;
    lemma_income(r, b, now);
    let g = gain(r, b, now);
    let after = refilled(r, b, now);
    assert(elapsed(after, now) * p == 0) by (nonlinear_arith)
        requires
            elapsed(after, now) == 0,
    ;
    vstd::arithmetic::mul::lemma_mul_is_distributive_add_other_way(i, b.tokens_milli as int, g);
    if b.tokens_milli + g >= r.capacity_milli {
        assert(r.capacity_milli * i <= (b.tokens_milli + g) * i) by (nonlinear_arith)
            requires
                r.capacity_milli <= b.tokens_milli + g,
                0 < i,
        ;
    }
}

/// A bucket after tries at these times, and how many tokens were taken.
pub open spec fn tries(r: BucketRate, b: BucketState, times: Seq<u64>) -> (BucketState, nat)
    decreases times.len(),
{
    if times.len() == 0 {
        (b, 0)
    } else {
        let before = tries(r, b, times.drop_last());
        let t = taken(r, before.0, times.last());
        (
            t.0,
            before.1 + if t.1 {
                1nat
            } else {
                0nat
            },
        )
    }
}

/// Times that do not go back, from `start` on.
pub open spec fn in_order(start: u64, times: Seq<u64>) -> bool {
    &&& forall|i: int| 0 <= i < times.len() ==> start <= #[trigger] times[i]
    &&& forall|i: int, j: int| 0 <= i < j < times.len() ==> (#[trigger] times[i]) <= (
    #[trigger] times[j])
}

/// When the last try was.
pub open spec fn last_time(start: u64, times: Seq<u64>) -> u64 {
    if times.len() == 0 {
        start
    } else {
        times.last()
    }
}

/// The throttle holds: however often tokens are tried for, those taken are paid for by what the
/// bucket was good for at the start and what the time brought since.
pub proof fn law_tokens_are_paid_for(r: BucketRate, b: BucketState, start: u64, times: Seq<u64>)
    requires
        is_rate(r),
        b.tokens_milli <= r.capacity_milli,
        b.last_refill_millis <= start,
        in_order(start, times),
    ensures
        tries(r, b, times).1 * (1_000 * r.interval_millis) <= credit(r, b, start) + (last_time(
            start,
            times,
        ) - start) * r.per_interval_milli,
{
    lemma_tries(r, b, start, times);
    let after = tries(r, b, times).0;
    let end = last_time(start, times);
    lemma_income(r, after, end);
    assert(after.tokens_milli * r.interval_millis >= 0) by (nonlinear_arith)
        requires
            after.tokens_milli >= 0,
            r.interval_millis >= 0,
    ;
}

/// What tries leave, and what they take, is no more than what there was and what came.
proof fn lemma_tries(r: BucketRate, b: BucketState, start: u64, times: Seq<u64>)
    requires
        is_rate(r),
        b.tokens_milli <= r.capacity_milli,
        b.last_refill_millis <= start,
        in_order(start, times),
    ensures
        ({
            let t = tries(r, b, times);
            let end = last_time(start, times);
            &&& start <= end
            &&& t.0.tokens_milli <= r.capacity_milli
            &&& t.0.last_refill_millis <= end
            &&& credit(r, t.0, end) + t.1 * (1_000 * r.interval_millis) <= credit(r, b, start) + (end
                - start) * r.per_interval_milli
        }),
    decreases times.len(),
{
    if times.len() > 0 {
        let earlier = times.drop_last();
        assert(in_order(start, earlier)) by {
            assert forall|i: int| 0 <= i < earlier.len() implies start <= #[trigger] earlier[i] by {
                assert(earlier[i] == times[i]);
            }
            assert forall|i: int, j: int| 0 <= i < j < earlier.len() implies (
            #[trigger] earlier[i]) <= (#[trigger] earlier[j]) by {
                assert(times[i] <= times[j]);
            }
        }
        lemma_tries(r, b, start, earlier);
        let before = tries(r, b, earlier);
        let mid = last_time(start, earlier);
        let end = times.last();
        assert(times[times.len() - 1] == end);
        if earlier.len() > 0 {
            assert(times[earlier.len() - 1] == mid);
        }
        assert(mid <= end);
        let p = r.per_interval_milli as int;
        let i = r.interval_millis as int;
        // Time that passes adds its worth.
        assert(credit(r, before.0, end) == credit(r, before.0, mid) + (end - mid) * p) by {
            let x = elapsed(before.0, mid);
            assert(elapsed(before.0, end) == x + (end - mid));
            vstd::arithmetic::mul::lemma_mul_is_distributive_add_other_way(p, x, end - mid);
        }
        vstd::arithmetic::mul::lemma_mul_is_distributive_add_other_way(p, mid - start, end - mid);
        lemma_income(r, before.0, end);
        lemma_refill_credit(r, before.0, end);
        let full = refilled(r, before.0, end);
        assert(full.last_refill_millis <= end);
        let t = taken(r, before.0, end);
        if t.1 {
            vstd::arithmetic::mul::lemma_mul_is_distributive_sub_other_way(
                i,
                full.tokens_milli as int,
                1_000,
            );
            vstd::arithmetic::mul::lemma_mul_is_distributive_add_other_way(
                1_000 * i,
                before.1 as int,
                1,
            );
        }
    }
}

/// Who waits as long as they are told finds a token, if nobody else takes it.
pub proof fn law_the_wait_is_enough(r: BucketRate, b: BucketState, now: u64)
    requires
        is_rate(r),
        b.tokens_milli <= r.capacity_milli,
        b.last_refill_millis <= now,
        now + wait_millis(r, b) <= u64::MAX,
    ensures
        taken(r, b, (now + wait_millis(r, b)) as u64).1,
{
    let w = wait_millis(r, b);
    if b.tokens_milli < 1_000 {
        lemma_wait(r, b);
        let later = (now + w) as u64;
        let e = elapsed(b, later);
        let p = r.per_interval_milli as int;
        let i = r.interval_millis as int;
        let m = 1_000 - b.tokens_milli;
        assert(e * p >= w * p) by (nonlinear_arith)
            requires
                e >= w,
                p > 0,
        ;
        lemma_income(r, b, later);
        assert(gain(r, b, later) >= m) by {
            vstd::arithmetic::div_mod::lemma_div_is_ordered(m * i, income(r, b, later), i);
            vstd::arithmetic::div_mod::lemma_div_multiples_vanish(m, i);
            vstd::arithmetic::mul::lemma_mul_is_commutative(m, i);
        }
    } else {
        lemma_income(r, b, (now + w) as u64);
    }
}

} // verus!
