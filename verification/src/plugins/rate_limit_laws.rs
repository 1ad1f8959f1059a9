//! What the rate limiter is for: which bounds it honours, what comes in, and what is given out.

use crate::float::fraction_single;
use crate::plugins::rate_limit::{
    gain, income, interval_ms, is_rate, limit_refusal, permitted, queued, rate_of, refilled,
    released, slotted, taken, unqueued, wait_millis, BucketRate, BucketState, LimiterView,
    RateLimitConfig,
};
use crate::time::TimeSpan;
use vstd::prelude::*;

verus! {

/// Bounds are accepted exactly where they can be honoured: none of them is zero, no more turns
/// may be under way than can be counted, and a warning is given at a share of the queue.
pub proof fn law_honourable_bounds_are_accepted(c: RateLimitConfig)
    ensures
        limit_refusal(c) is None <==> {
            &&& c.max_requests > 0
            &&& c.interval.nanos > 0
            &&& c.burst > 0
            &&& 0 < c.max_concurrent && c.max_concurrent * 8 <= usize::MAX
            &&& c.max_waiters > 0
            &&& c.max_wait.nanos > 0
            &&& c.warn_fraction matches Some(share) ==> 0 < share.bits <= 0x3f80_0000
        },
{
    assert(c.max_concurrent <= usize::MAX / 8 <==> c.max_concurrent * 8 <= usize::MAX);
    assert(c.warn_fraction matches Some(share) ==> (fraction_single(share.bits) <==> 0 < share.bits
        <= 0x3f80_0000));
}

/// An interval is counted in whole milliseconds, and lasts one at least.
pub proof fn law_intervals_are_whole_milliseconds(interval: TimeSpan)
    requires
        interval.nanos < u64::MAX * 1_000_000,
    ensures
        ({
            let ms = interval_ms(interval);
            &&& ms >= 1
            &&& interval.nanos >= 1_000_000 ==> ms * 1_000_000 <= interval.nanos < (ms + 1)
                * 1_000_000
            &&& interval.nanos < 1_000_000 ==> ms == 1
        }),
{
}

/// An interval brings as many requests as are allowed in it, up to what may be saved up.
pub proof fn law_an_interval_brings_its_requests(c: RateLimitConfig, b: BucketState, now: u64)
    requires
        limit_refusal(c) is None,
        b.tokens_milli == 0,
        b.carry == 0,
        now == b.last_refill_millis + interval_ms(c.interval),
    ensures
        refilled(rate_of(c), b, now).tokens_milli == 1_000 * (if c.max_requests <= c.burst {
            c.max_requests
        } else {
            c.burst
        }),
        is_rate(rate_of(c)),
{
    let r = rate_of(c);
    let i = r.interval_millis as int;
    let p = r.per_interval_milli as int;
    assert(income(r, b, now) == i * p);
    assert(gain(r, b, now) == p) by {
        vstd::arithmetic::div_mod::lemma_div_multiples_vanish(p, i);
        vstd::arithmetic::mul::lemma_mul_is_commutative(p, i);
    }
}

/// A bucket is never fuller than it may be, and time never empties it.
pub proof fn law_buckets_fill_up_to_the_brim(r: BucketRate, b: BucketState, now: u64, later: u64)
    requires
        is_rate(r),
        b.tokens_milli <= r.capacity_milli,
        b.last_refill_millis <= now <= later,
    ensures
        b.tokens_milli <= refilled(r, b, now).tokens_milli <= r.capacity_milli,
        refilled(r, b, now).tokens_milli <= refilled(r, b, later).tokens_milli,
{
    let i = r.interval_millis as int;
    let p = r.per_interval_milli as int;
    let x = income(r, b, now);
    let y = income(r, b, later);
    let t = b.last_refill_millis as int;
    assert(0 <= x <= y) by (nonlinear_arith)
        requires
            x == (now - t) * p + b.carry,
            y == (later - t) * p + b.carry,
            t <= now <= later,
            p >= 0,
            b.carry >= 0,
    ;
    vstd::arithmetic::div_mod::lemma_div_is_ordered(x, y, i);
    vstd::arithmetic::div_mod::lemma_div_pos_is_pos(x, i);
}

/// A token is taken exactly where a whole one is there, and then that one alone.
pub proof fn law_tokens_are_taken_whole(r: BucketRate, b: BucketState, now: u64)
    ensures
        ({
            let before = refilled(r, b, now).tokens_milli;
            let after = taken(r, b, now);
            &&& after.1 <==> before >= 1_000
            &&& after.1 ==> after.0.tokens_milli == before - 1_000
            &&& !after.1 ==> after.0.tokens_milli == before
        }),
{
}

/// Who is told to wait is told no longer than needed: a millisecond less would bring too little.
pub proof fn law_the_wait_is_no_longer_than_needed(r: BucketRate, b: BucketState)
    requires
        is_rate(r),
    ensures
        ({
            let w = wait_millis(r, b);
            &&& b.tokens_milli >= 1_000 ==> w == 0
            &&& b.tokens_milli < 1_000 ==> {
                &&& w > 0
                &&& b.tokens_milli * r.interval_millis + w * r.per_interval_milli >= 1_000
                    * r.interval_millis
                &&& b.tokens_milli * r.interval_millis + (w - 1) * r.per_interval_milli < 1_000
                    * r.interval_millis
            }
        }),
{
    if b.tokens_milli < 1_000 {
        let t = b.tokens_milli as int;
        let i = r.interval_millis as int;
        let p = r.per_interval_milli as int;
        let n = (1_000 - t) * i + (p - 1);
        let w = wait_millis(r, b);
        vstd::arithmetic::div_mod::lemma_fundamental_div_mod(n, p);
        vstd::arithmetic::div_mod::lemma_mod_bound(n, p);
        assert(p * w <= n < p * w + p);
        assert((1_000 - t) * i >= 1) by (nonlinear_arith)
            requires
                0 <= t < 1_000,
                i > 0,
        ;
        assert(w > 0) by (nonlinear_arith)
            requires
                n < p * w + p,
                n >= p,
                p > 0,
        ;
        assert(t * i + w * p >= 1_000 * i && t * i + (w - 1) * p < 1_000 * i) by (nonlinear_arith)
            requires
                p * w <= n < p * w + p,
                n == (1_000 - t) * i + (p - 1),
        ;
    }
}

/// A permit is given exactly where a slot is free and a token is there; it takes one of each.
/// Without a slot nothing is touched, and without a token no slot is taken.
pub proof fn law_permits_take_a_slot_and_a_token(
    v: LimiterView,
    r: BucketRate,
    slots: nat,
    now: u64,
)
    requires
        v.in_flight <= slots,
    ensures
        ({
            let (after, verdict) = permitted(v, r, slots, now);
            &&& verdict is Granted <==> v.in_flight < slots && refilled(
                r,
                v.bucket,
                now,
            ).tokens_milli >= 1_000
            &&& verdict is Granted ==> after.in_flight == v.in_flight + 1
                && after.bucket.tokens_milli == refilled(r, v.bucket, now).tokens_milli - 1_000
            &&& verdict is Busy <==> v.in_flight == slots
            &&& verdict is Busy ==> after == v
            &&& verdict is Exhausted ==> after.in_flight == v.in_flight
            &&& after.in_flight <= slots
            &&& after.waiting == v.waiting
        }),
{
}

/// A slot that is given back is free again: giving back undoes taking, and leaves the tokens.
pub proof fn law_slots_come_back(v: LimiterView, r: BucketRate, slots: nat, now: u64)
    ensures
        slotted(v, slots).1 ==> released(slotted(v, slots).0) == v,
        slotted(v, slots).1 <==> v.in_flight < slots,
        !slotted(v, slots).1 ==> slotted(v, slots).0 == v,
        v.in_flight > 0 && v.in_flight <= slots ==> slotted(released(v), slots).1,
        permitted(v, r, slots, now).1 is Granted ==> {
            let back = released(permitted(v, r, slots, now).0);
            &&& back.in_flight == v.in_flight
            &&& back.bucket == permitted(v, r, slots, now).0.bucket
        },
        released(v).waiting == v.waiting,
        released(v).bucket == v.bucket,
{
}

/// A place in the queue that is left is free again: leaving undoes queueing up, and nobody queues
/// up beyond the last place.
pub proof fn law_places_come_back(v: LimiterView, places: nat)
    ensures
        queued(v, places).1 ==> unqueued(queued(v, places).0) == v,
        queued(v, places).1 <==> v.waiting < places,
        !queued(v, places).1 ==> queued(v, places).0 == v,
        v.waiting <= places ==> queued(v, places).0.waiting <= places,
        unqueued(v).in_flight == v.in_flight,
        unqueued(v).bucket == v.bucket,
{
}

} // verus!
