//! The rate limiter: configuration, refill, slots, waiting and observers.

use cuca_plugins::error::PluginError;
use cuca_plugins::float::Single;
use cuca_plugins::plugins::rate_limit::{
    AcquireAction, BucketRate, BucketState, RateLimitConfig, RateLimitError, RateLimitObserver,
    RateLimitUsage, RateLimiter,
};
use cuca_plugins::time::TimeSpan;
use std::cell::Cell;
use std::rc::Rc;
use std::sync::{Arc, Mutex};

fn single(value: f32) -> Single {
    Single {
        bits: value.to_bits(),
        text: value.to_string(),
        json_text: serde_json::Value::from(f64::from(value)).to_string(),
    }
}

/// A clock that moves only when it is advanced.
struct TestClock(Cell<u64>);

impl TestClock {
    fn advance(&self, millis: u64) {
        self.0.set(self.0.get() + millis);
    }
}

/// A limiter with its clock.
struct Timed {
    limiter: RateLimiter,
    clock: Rc<TestClock>,
}

impl Timed {
    fn now(&self) -> u64 {
        self.clock.0.get()
    }

    fn try_acquire(&mut self) -> Result<(), RateLimitError> {
        let now = self.now();
        self.limiter.try_acquire(now)
    }

    fn usage(&mut self) -> RateLimitUsage {
        let now = self.now();
        self.limiter.usage(now)
    }

    fn release(&mut self) {
        self.limiter.release();
    }

    fn near_cap(&self, admitted: usize) -> bool {
        let config = self.limiter.config();
        match &config.warn_fraction {
            Some(fraction) => {
                admitted as f32 / config.max_waiters as f32 >= f32::from_bits(fraction.bits)
            }
            None => false,
        }
    }

    /// Waits for a slot and a token; the clock moves on instead of the caller sleeping.
    fn acquire(&mut self) -> Result<(), RateLimitError> {
        let budget = (self.limiter.config().max_wait.nanos / 1_000_000) as u64;
        let deadline = self.now() + budget;
        let admitted = self.limiter.enqueue()?;
        let outcome = self.acquire_queued(admitted, deadline);
        self.limiter.leave();
        outcome
    }

    fn acquire_queued(&mut self, admitted: usize, deadline: u64) -> Result<(), RateLimitError> {
        if !self.limiter.take_slot() {
            self.clock.0.set(deadline);
            return Err(RateLimitError::Exhausted {
                retry_after: self.limiter.peek_retry_after(deadline),
            });
        }
        let near = self.near_cap(admitted);
        let now = self.now();
        if let Err(e) = self.limiter.announce(now, near) {
            self.limiter.release();
            return Err(e);
        }
        loop {
            let now = self.now();
            match self.limiter.token_step(now, now >= deadline) {
                AcquireAction::Granted => return Ok(()),
                AcquireAction::Sleep(span) => {
                    let wake = now + (span.nanos / 1_000_000) as u64;
                    self.clock.0.set(wake.min(deadline));
                }
                AcquireAction::Refused(e) => {
                    self.limiter.release();
                    return Err(e);
                }
            }
        }
    }
}

fn config(max_requests: u32, interval_ms: u64, max_concurrent: usize) -> RateLimitConfig {
    RateLimitConfig::new(max_requests, TimeSpan::from_millis(interval_ms), max_concurrent, 8)
        .ok()
        .expect("test config must validate")
}

fn clocked(config: RateLimitConfig) -> (Timed, Rc<TestClock>) {
    let clock = Rc::new(TestClock(Cell::new(0)));
    let limiter = RateLimiter::new(config, 0).ok().expect("test limiter must build");
    (Timed { limiter, clock: clock.clone() }, clock)
}

fn limiter(config: RateLimitConfig) -> Timed {
    clocked(config).0
}

fn config_message(error: RateLimitError) -> String {
    match error {
        RateLimitError::Config(message) => message,
        other => panic!("expected a Config error, got {other:?}"),
    }
}

/// Spends every token, giving each slot back.
fn drain_bucket(limiter: &mut Timed) {
    while limiter.try_acquire().is_ok() {
        limiter.release();
    }
    assert_eq!(limiter.usage().available_tokens, 0);
}

#[test]
fn config_new_rejects_zero_max_requests() {
    let error = RateLimitConfig::new(0, TimeSpan::from_secs(1), 1, 1).err().expect("a zero rate must be rejected");
    assert!(config_message(error).contains("max_requests"));
}

#[test]
fn config_new_rejects_zero_interval() {
    let error =
        RateLimitConfig::new(1, TimeSpan::from_millis(0), 1, 1).err().expect("a zero interval is rejected");
    assert!(config_message(error).contains("interval"));
}

#[test]
fn config_new_rejects_zero_max_concurrent() {
    let error = RateLimitConfig::new(1, TimeSpan::from_secs(1), 0, 1).err().expect("a zero concurrency cap is rejected");
    assert!(config_message(error).contains("max_concurrent"));
}

#[test]
fn config_new_rejects_zero_max_waiters() {
    let error = RateLimitConfig::new(1, TimeSpan::from_secs(1), 1, 0).err().expect("a zero queue bound is rejected");
    assert!(config_message(error).contains("max_waiters"));
}

#[test]
fn config_new_defaults_burst_to_max_requests_and_max_wait_to_interval() {
    let config = RateLimitConfig::new(7, TimeSpan::from_millis(250), 3, 9)
        .ok()
        .expect("a valid config must build");
    assert_eq!(config.burst, 7);
    assert_eq!(config.max_wait, TimeSpan::from_millis(250));
    assert_eq!(config.warn_fraction, None);
    assert!(config.observers.is_empty());
}

#[test]
fn config_with_burst_rejects_zero() {
    let error = config(4, 1_000, 1)
        .with_burst(0).err().expect("a zero burst is rejected");
    assert!(config_message(error).contains("burst"));
    assert_eq!(
        config(4, 1_000, 1)
            .with_burst(9)
            .ok()
            .expect("a non-zero burst is accepted")
            .burst,
        9
    );
}

#[test]
fn config_with_max_wait_rejects_zero() {
    let error = config(4, 1_000, 1)
        .with_max_wait(TimeSpan::from_millis(0)).err().expect("a zero wait budget is rejected");
    assert!(config_message(error).contains("max_wait"));
}

#[test]
fn config_with_warn_fraction_rejects_zero_and_above_one() {
    for fraction in [0.0f32, -0.5, 1.5, f32::NAN, f32::INFINITY] {
        let error = config(4, 1_000, 1)
            .with_warn_fraction(single(fraction)).err().expect("an out-of-range warn fraction is rejected");
        assert!(
            config_message(error).contains("warn_fraction"),
            "{fraction} must be refused by the warn_fraction guard"
        );
    }
    // The interval is closed at the top.
    assert_eq!(
        config(4, 1_000, 1)
            .with_warn_fraction(single(1.0))
            .unwrap_or_else(|e| panic!("1.0 is in range: {e:?}"))
            .warn_fraction,
        Some(single(1.0))
    );
}

#[test]
fn validate_rejects_a_struct_literal_config_that_bypassed_new() {
    let bypassed = RateLimitConfig {
        max_requests: 1,
        interval: TimeSpan::from_secs(1),
        burst: 0,
        max_concurrent: 1,
        max_waiters: 1,
        max_wait: TimeSpan::from_secs(1),
        warn_fraction: None,
        observers: Vec::new(),
    };
    assert!(config_message(bypassed.validate().expect_err("burst is zero")).contains("burst"));
    assert!(matches!(
        RateLimiter::new(bypassed, 0),
        Err(RateLimitError::Config(_))
    ));
}

#[test]
fn limiter_new_starts_with_a_full_bucket_of_burst_tokens() {
    let mut limiter = limiter(config(3, 60_000, 2).with_burst(7).ok().expect("burst is valid"));
    assert_eq!(
        limiter.usage(),
        RateLimitUsage {
            available_tokens: 7,
            in_flight: 0,
            waiting: 0,
        }
    );
}

#[test]
fn try_acquire_spends_exactly_one_token() {
    let mut limiter = limiter(config(3, 60_000, 2));
    limiter.try_acquire().expect("a full bucket admits");
    assert_eq!(
        limiter.usage(),
        RateLimitUsage {
            available_tokens: 2,
            in_flight: 1,
            waiting: 0,
        }
    );
}

#[test]
fn try_acquire_on_an_empty_bucket_reports_exhausted_with_time_to_next_token() {
    // 2 tokens per second, so one whole token takes 500 ms.
    let (mut limiter, _clock) = clocked(config(2, 1_000, 4).with_burst(1).ok().expect("burst is valid"));
    limiter.try_acquire().expect("the one token admits");
    match limiter.try_acquire() {
        Err(RateLimitError::Exhausted { retry_after }) => {
            assert_eq!(retry_after, TimeSpan::from_millis(500));
        }
        other => panic!("an empty bucket must report Exhausted, got {other:?}"),
    }
}

#[test]
fn try_acquire_with_every_slot_held_reports_busy() {
    let mut limiter = limiter(config(5, 60_000, 1));
    limiter.try_acquire().expect("the only slot is free");
    match limiter.try_acquire() {
        Err(RateLimitError::Busy {
            in_flight,
            max_concurrent,
        }) => {
            assert_eq!((in_flight, max_concurrent), (1, 1));
        }
        other => panic!("a held slot must report Busy, got {other:?}"),
    }
    assert_eq!(
        limiter.usage().available_tokens,
        4,
        "a slot refusal must not spend a token"
    );
}

#[test]
fn refill_grants_exactly_max_requests_per_interval() {
    // 3 tokens per second into a bucket that holds 6.
    let (mut limiter, clock) = clocked(config(3, 1_000, 1).with_burst(6).ok().expect("burst is valid"));
    drain_bucket(&mut limiter);

    clock.advance(1_000);
    assert_eq!(
        limiter.usage().available_tokens,
        3
    );
    clock.advance(1_000);
    assert_eq!(
        limiter.usage().available_tokens,
        6
    );
}

#[test]
fn refill_clamps_at_burst_after_a_long_idle() {
    let (mut limiter, clock) = clocked(config(3, 1_000, 1).with_burst(6).ok().expect("burst is valid"));
    drain_bucket(&mut limiter);

    clock.advance(1_000_000);
    assert_eq!(
        limiter.usage().available_tokens,
        6,
        "a long idle banks at most `burst`"
    );

    // Idle time past the cap is discarded, not banked: spending the burst
    // must leave the bucket empty until the clock advances again.
    drain_bucket(&mut limiter);
    assert_eq!(
        limiter.usage().available_tokens,
        0
    );
}

#[test]
fn refill_carries_the_sub_token_remainder_across_two_half_interval_advances() {
    // 1 token per 100 ms: each advance below is worth exactly half a token.
    let (mut limiter, clock) = clocked(config(1, 100, 1));
    drain_bucket(&mut limiter);

    clock.advance(50);
    assert_eq!(
        limiter.usage().available_tokens,
        0,
        "half a token is not a whole token"
    );
    clock.advance(50);
    assert_eq!(
        limiter.usage().available_tokens,
        1,
        "the two halves must sum instead of being rounded away"
    );
}

#[test]
fn refill_grants_nothing_when_the_clock_does_not_advance() {
    let (mut limiter, _clock) = clocked(config(4, 1_000, 4));
    limiter.try_acquire().expect("a full bucket admits");
    for _ in 0..3 {
        assert_eq!(
            limiter.usage().available_tokens,
            3,
            "a frozen clock must not mint tokens"
        );
    }
}

#[test]
fn dropping_a_permit_returns_its_concurrency_slot() {
    let mut limiter = limiter(config(5, 60_000, 1));
    limiter.try_acquire().expect("the only slot is free");
    assert_eq!(limiter.usage().in_flight, 1);
    limiter.release();
    assert_eq!(limiter.usage().in_flight, 0);
    limiter
        .try_acquire()
        .expect("the released slot must be reusable");
}

#[test]
fn dropping_a_permit_does_not_return_its_token() {
    let (mut limiter, _clock) = clocked(config(2, 60_000, 1));
    limiter.try_acquire().expect("a full bucket admits");
    limiter.release();
    assert_eq!(
        limiter.usage().available_tokens,
        1,
        "a spent token is gone; only the slot comes back"
    );
}

#[test]
fn acquire_waits_for_a_refill_instead_of_rejecting() {
    // One token per 50 ms, a wait budget far past it.
    let mut limiter = limiter(
        config(1, 50, 4)
            .with_max_wait(TimeSpan::from_secs(5))
            .ok()
            .expect("wait budget is valid"),
    );
    limiter.try_acquire().expect("the one token admits");
    limiter.release();

    limiter
        .acquire()
        .expect("the refill must arrive inside the budget");
    assert!(limiter.now() >= 45, "acquire must have waited for the refill, waited {}", limiter.now());
}

#[test]
fn acquire_past_the_wait_budget_reports_exhausted_with_retry_after() {
    // One token per second, but only 50 ms of budget to wait for it.
    let mut limiter = limiter(
        config(1, 1_000, 4)
            .with_max_wait(TimeSpan::from_millis(50))
            .ok()
            .expect("wait budget is valid"),
    );
    limiter.try_acquire().expect("the one token admits");
    limiter.release();

    match limiter.acquire() {
        Err(RateLimitError::Exhausted { retry_after }) => {
            assert_eq!(retry_after, TimeSpan::from_millis(950));
        }
        other => panic!("an elapsed budget must report Exhausted, got {other:?}"),
    }
    assert!(limiter.now() >= 45);
    assert_eq!(
        limiter.usage().in_flight,
        0,
        "a refused acquire must not strand its slot"
    );
}

#[test]
fn acquire_at_the_waiter_cap_reports_queue_full_without_parking() {
    let mut limiter = limiter(
        RateLimitConfig::new(8, TimeSpan::from_secs(60), 1, 1)
            .ok()
            .expect("config must validate"),
    );
    limiter.try_acquire().expect("the only slot is free");
    assert_eq!(limiter.limiter.enqueue().ok(), Some(1));
    assert_eq!(limiter.usage().waiting, 1);

    match limiter.acquire() {
        Err(RateLimitError::QueueFull { waiters, max_waiters }) => {
            assert_eq!((waiters, max_waiters), (1, 1))
        }
        other => panic!("a full queue must report QueueFull, got {other:?}"),
    }
    assert_eq!(limiter.now(), 0, "the refusal must be immediate");

    limiter.release();
    assert!(limiter.limiter.take_slot());
    assert!(matches!(limiter.limiter.token_step(0, false), AcquireAction::Granted));
}

#[test]
fn acquire_that_times_out_waiting_for_a_slot_leaves_available_tokens_unchanged() {
    let mut limiter = limiter(
        RateLimitConfig::new(5, TimeSpan::from_secs(60), 1, 8)
            .ok()
            .expect("config must validate")
            .with_max_wait(TimeSpan::from_millis(50))
            .ok()
            .expect("wait budget is valid"),
    );
    limiter.try_acquire().expect("the only slot is free");
    assert_eq!(limiter.usage().available_tokens, 4);

    assert!(matches!(limiter.acquire(), Err(RateLimitError::Exhausted { .. })));
    assert_eq!(
        limiter.usage().available_tokens,
        4,
        "a caller that gave up waiting for a slot must not have spent a token"
    );
    assert_eq!(limiter.usage().waiting, 0);
}

#[test]
fn usage_reports_available_tokens_in_flight_and_waiting() {
    let mut limiter = limiter(
        RateLimitConfig::new(4, TimeSpan::from_secs(60), 1, 4)
            .ok()
            .expect("config must validate"),
    );
    limiter.try_acquire().expect("the only slot is free");
    assert_eq!(limiter.limiter.enqueue().ok(), Some(1));
    assert!(!limiter.limiter.take_slot());
    assert_eq!(
        limiter.usage(),
        RateLimitUsage {
            available_tokens: 3,
            in_flight: 1,
            waiting: 1,
        }
    );

    limiter.release();
    assert!(limiter.limiter.take_slot());
    assert!(matches!(limiter.limiter.token_step(0, false), AcquireAction::Granted));
    limiter.limiter.leave();
    limiter.release();
    assert_eq!(
        limiter.usage(),
        RateLimitUsage {
            available_tokens: 2,
            in_flight: 0,
            waiting: 0,
        }
    );
}

#[derive(Default)]
struct RecordingObserver {
    seen: Mutex<Vec<RateLimitUsage>>,
}

impl RateLimitObserver for RecordingObserver {
    fn observe(&self, usage: &RateLimitUsage) -> Result<(), PluginError> {
        self.seen
            .lock()
            .expect("observer log must not be poisoned")
            .push(*usage);
        Ok(())
    }
}

struct RefusingObserver;

impl RateLimitObserver for RefusingObserver {
    fn observe(&self, _usage: &RateLimitUsage) -> Result<(), PluginError> {
        Err(PluginError::Internal("observer says no".to_string()))
    }
}

#[test]
fn crossing_warn_fraction_hands_a_usage_reading_to_every_observer() {
    let first = Arc::new(RecordingObserver::default());
    let second = Arc::new(RecordingObserver::default());
    // One admitted waiter out of two is exactly the configured fraction.
    let mut limiter = limiter(
        RateLimitConfig::new(5, TimeSpan::from_secs(60), 2, 2)
            .ok()
            .expect("config must validate")
            .with_warn_fraction(single(0.5))
            .ok()
            .expect("fraction is in range")
            .with_observer(Arc::clone(&first) as Arc<dyn RateLimitObserver>)
            .with_observer(Arc::clone(&second) as Arc<dyn RateLimitObserver>),
    );

    limiter.acquire().expect("a full bucket admits");

    for observer in [&first, &second] {
        let seen = observer
            .seen
            .lock()
            .expect("observer log must read")
            .clone();
        assert_eq!(
            seen.len(),
            1,
            "every observer gets the reading exactly once"
        );
        assert_eq!(
            seen[0],
            RateLimitUsage {
                // The slot is taken before the warning; the token is not.
                available_tokens: 5,
                in_flight: 1,
                waiting: 1,
            }
        );
    }
}

#[test]
fn observer_error_aborts_the_acquire_and_releases_the_slot() {
    let mut limiter = limiter(
        RateLimitConfig::new(5, TimeSpan::from_secs(60), 1, 1)
            .ok()
            .expect("config must validate")
            .with_warn_fraction(single(1.0))
            .ok()
            .expect("fraction is in range")
            .with_observer(Arc::new(RefusingObserver) as Arc<dyn RateLimitObserver>),
    );

    match limiter.acquire() {
        Err(RateLimitError::Observer(PluginError::Internal(message))) => {
            assert_eq!(message, "observer says no");
        }
        other => panic!("a refusing observer must abort the acquire, got {other:?}"),
    }
    assert_eq!(
        limiter.usage(),
        RateLimitUsage {
            available_tokens: 5,
            in_flight: 0,
            waiting: 0,
        },
        "the refused acquire must release its slot and spend no token"
    );
}

#[test]
fn config_error_maps_to_plugin_error_validation() {
    let error = RateLimitConfig::new(0, TimeSpan::from_secs(1), 1, 1)
        .err()
        .expect("a zero rate must be rejected");
    match PluginError::from(error) {
        PluginError::Validation { schema, message } => {
            assert_eq!(schema, "rate-limit-config");
            assert!(message.contains("max_requests"));
        }
        other => panic!("a Config error must map to Validation, got {other:?}"),
    }
}

#[test]
fn observer_error_round_trips_through_the_plugin_error_conversion() {
    let inner = || PluginError::hook("rate-limit", "acquire", "refused".to_string());
    let converted = PluginError::from(RateLimitError::Observer(inner()));
    assert_eq!(converted.to_text(), inner().to_text());
    assert!(matches!(converted, PluginError::HookFailure { .. }));
}

#[test]
fn rate_limiter_and_permit_are_send_and_sync() {
    fn assert_send_sync<T: Send + Sync>() {}
    assert_send_sync::<RateLimiter>();
    assert_send_sync::<RateLimitUsage>();
    assert_send_sync::<RateLimitError>();
}

#[test]
fn refusals_have_their_texts() {
    let full = RateLimitError::QueueFull { waiters: 3, max_waiters: 4 }.to_text();
    assert!(full.contains('3') && full.contains('4'), "{full}");
    let busy = RateLimitError::Busy { in_flight: 5, max_concurrent: 6 }.to_text();
    assert!(busy.contains('5') && busy.contains('6'), "{busy}");
    assert!(matches!(
        RateLimitError::Lock("x".to_string()).into_plugin_error(),
        PluginError::Internal(_)
    ));
}

#[test]
fn the_wait_that_is_named_is_enough() {
    let rate = BucketRate { per_interval_milli: 3_000, interval_millis: 1_000, capacity_milli: 3_000 };
    let mut bucket = BucketState { tokens_milli: 100, last_refill_millis: 0, carry: 0 };
    let wait = bucket.time_to_next_token(&rate);
    assert_eq!(wait, TimeSpan::from_millis(300));
    bucket.refill(&rate, 299);
    assert!(bucket.tokens_milli < 1_000);
    let mut bucket = BucketState { tokens_milli: 100, last_refill_millis: 0, carry: 0 };
    bucket.refill(&rate, 300);
    assert_eq!(bucket.tokens_milli, 1_000);
}

#[test]
fn a_limiter_holds_no_more_slots_than_a_semaphore() {
    let huge = RateLimitConfig::new(1, TimeSpan::from_secs(1), usize::MAX, 1);
    let message = config_message(huge.err().expect("no semaphore is that large"));
    assert!(
        message.contains(&tokio::sync::Semaphore::MAX_PERMITS.to_string()),
        "{message}"
    );
}

#[test]
fn a_frozen_clock_brings_nothing_at_any_rate() {
    let rate = BucketRate { per_interval_milli: 1_000, interval_millis: 7, capacity_milli: 5_000 };
    let mut bucket = BucketState { tokens_milli: 0, last_refill_millis: 0, carry: 0 };
    bucket.refill(&rate, 1);
    assert_eq!(bucket.tokens_milli, 142);
    bucket.refill(&rate, 1);
    assert_eq!(bucket.tokens_milli, 142);
    for now in 2..=7 {
        bucket.refill(&rate, now);
    }
    assert_eq!(bucket.tokens_milli, 1_000, "what is carried over adds up");
}

#[test]
fn a_configuration_can_be_copied() {
    let original = config(3, 1_000, 2);
    let copy = original.clone();
    assert_eq!(copy.max_requests, 3);
    assert_eq!(copy.interval, original.interval);
    assert_eq!(copy.max_concurrent, original.max_concurrent);
    assert_eq!(copy.observers.len(), original.observers.len());
}
