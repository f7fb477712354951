//! Admission control: one token bucket per client address.
//!
//! Token levels are kept as integers in units of 1/(60·10⁹) token, so that
//! a refill over a whole number of nanoseconds at a whole number of tokens
//! per minute is exact.

use vstd::prelude::*;
use crate::trusted::{
    bucket_or_insert, bucket_store, bucket_table, bucket_table_new, BucketTable, ClientKey,
    StoredBucket,
};

verus! {

/// The value of one token, in bucket units.
pub const UNITS_PER_TOKEN: u128 = 60_000_000_000;

/// A client address: the family and the address bits.
#[derive(Clone, Copy, Debug, PartialEq, Eq, Structural)]
pub enum ClientIp {
    V4(u32),
    V6(u128),
}

impl ClientIp {
    /// The key under which the client's bucket is stored. Two addresses
    /// have the same key only if they are the same address.
    pub open spec fn key(self) -> ClientKey {
        match self {
            ClientIp::V4(bits) => (4u8, bits as u128),
            ClientIp::V6(bits) => (6u8, bits),
        }
    }

    fn table_key(&self) -> (k: ClientKey)
        ensures
            k == self.key(),
    {
        match self {
            ClientIp::V4(bits) => (4u8, *bits as u128),
            ClientIp::V6(bits) => (6u8, *bits),
        }
    }
}

/// A token bucket: the level in bucket units and the time, in nanoseconds
/// of a monotonic clock, at which it was last refilled.
#[derive(Clone, Copy, Debug, PartialEq, Eq, Structural)]
pub struct TokenBucket {
    pub tokens: u128,
    pub last_refill: u64,
}

/// The burst in force: the configured one, or the rate per minute when
/// none is configured or it is zero.
pub open spec fn effective_burst(per_minute: u64, burst: Option<u64>) -> u64 {
    match burst {
        Some(b) => if b > 0 {
            b
        } else {
            per_minute
        },
        None => per_minute,
    }
}

/// Time that passed between `last` and `now`; never negative.
pub open spec fn elapsed(last: u64, now: u64) -> int {
    if now >= last {
        now - last
    } else {
        0
    }
}

/// The level of `b` at `now`, before a token is taken: what it held plus
/// `per_minute / 60` tokens per second since the last refill, capped at
/// `burst` tokens.
pub open spec fn refilled(b: TokenBucket, now: u64, per_minute: u64, burst: u64) -> int {
    let level = b.tokens + elapsed(b.last_refill, now) * per_minute;
    let cap = burst * UNITS_PER_TOKEN;
    if level <= cap {
        level
    } else {
        cap
    }
}

/// Whether a request at `now` is admitted by `b`: the refilled level
/// holds a whole token.
pub open spec fn admits(b: TokenBucket, now: u64, per_minute: u64, burst: u64) -> bool {
    refilled(b, now, per_minute, burst) >= UNITS_PER_TOKEN
}

/// The bucket after a request at `now`: refilled, and one token lower if
/// the request was admitted.
pub open spec fn after_check(b: TokenBucket, now: u64, per_minute: u64, burst: u64) -> TokenBucket {
    let level = refilled(b, now, per_minute, burst);
    TokenBucket {
        tokens: (if level >= UNITS_PER_TOKEN {
            level - UNITS_PER_TOKEN
        } else {
            level
        }) as u128,
        last_refill: now,
    }
}

/// The bucket of a client that is seen for the first time at `now`: empty.
pub open spec fn fresh_bucket(now: u64) -> TokenBucket {
    TokenBucket { tokens: 0, last_refill: now }
}

proof fn lemma_product_bound(a: u64, b: u64)
    ensures
        0 <= a * b <= 0xFFFF_FFFF_FFFF_FFFE_0000_0000_0000_0001,
{
    assert(0 <= a * b <= 0xFFFF_FFFF_FFFF_FFFF * 0xFFFF_FFFF_FFFF_FFFF) by (nonlinear_arith)
        requires
            0 <= a <= 0xFFFF_FFFF_FFFF_FFFF,
            0 <= b <= 0xFFFF_FFFF_FFFF_FFFF,
    ;
}

proof fn lemma_capacity_bound(burst: u64)
    ensures
        0 <= burst * UNITS_PER_TOKEN <= 0xFFFF_FFFF_FFFF_FFFF * 60_000_000_000,
{
    assert(0 <= burst * 60_000_000_000 <= 0xFFFF_FFFF_FFFF_FFFF * 60_000_000_000)
        by (nonlinear_arith)
        requires
            0 <= burst <= 0xFFFF_FFFF_FFFF_FFFF,
    ;
}

impl TokenBucket {
    /// Serves one request at `now`: refills the bucket, and takes a token
    /// if a whole one is there. Returns whether the request is admitted.
    pub fn check(&mut self, now: u64, per_minute: u64, burst: u64) -> (allowed: bool)
        ensures
            allowed == admits(*old(self), now, per_minute, burst),
            *final(self) == after_check(*old(self), now, per_minute, burst),
    {
        let passed: u64 = if now >= self.last_refill {
            now - self.last_refill
        } else {
            0
        };
        proof {
            lemma_product_bound(passed, per_minute);
            lemma_capacity_bound(burst);
        }
        let added: u128 = (passed as u128) * (per_minute as u128);
        let cap: u128 = (burst as u128) * UNITS_PER_TOKEN;
        let level: u128 = if self.tokens >= cap {
            cap
        } else if added >= cap - self.tokens {
            cap
        } else {
            self.tokens + added
        };
        assert(level == refilled(*old(self), now, per_minute, burst));
        self.last_refill = now;
        if level >= UNITS_PER_TOKEN {
            self.tokens = level - UNITS_PER_TOKEN;
            true
        } else {
            self.tokens = level;
            false
        }
    }
}

/// The bucket after requests at `times`, served in that order.
pub open spec fn bucket_after(b: TokenBucket, times: Seq<u64>, per_minute: u64, burst: u64) -> TokenBucket
    decreases times.len(),
{
    if times.len() == 0 {
        b
    } else {
        after_check(
            bucket_after(b, times.drop_last(), per_minute, burst),
            times.last(),
            per_minute,
            burst,
        )
    }
}

/// How many of the requests at `times`, served in that order, are admitted.
pub open spec fn admitted_count(b: TokenBucket, times: Seq<u64>, per_minute: u64, burst: u64) -> nat
    decreases times.len(),
{
    if times.len() == 0 {
        0
    } else {
        let earlier = admitted_count(b, times.drop_last(), per_minute, burst);
        if admits(
            bucket_after(b, times.drop_last(), per_minute, burst),
            times.last(),
            per_minute,
            burst,
        ) {
            earlier + 1
        } else {
            earlier
        }
    }
}

/// Times as a monotonic clock gives them: none earlier than the one before.
pub open spec fn non_decreasing(times: Seq<u64>) -> bool {
    forall|i: int, j: int| 0 <= i <= j < times.len() ==> times[i] <= times[j]
}

proof fn lemma_rate_budget(b: TokenBucket, times: Seq<u64>, per_minute: u64, burst: u64)
    requires
        times.len() > 0,
        non_decreasing(times),
    ensures
        bucket_after(b, times, per_minute, burst).last_refill == times.last(),
        bucket_after(b, times, per_minute, burst).tokens + admitted_count(
            b,
            times,
            per_minute,
            burst,
        ) * UNITS_PER_TOKEN <= burst * UNITS_PER_TOKEN + (times.last() - times[0]) * per_minute,
    decreases times.len(),
{
    let earlier = times.drop_last();
    let now = times.last();
    lemma_capacity_bound(burst);
    if earlier.len() == 0 {
        assert((now - times[0]) * per_minute == 0) by (nonlinear_arith)
            requires
                now - times[0] == 0,
        ;
        lemma_product_bound((elapsed(b.last_refill, now)) as u64, per_minute);
    } else {
        assert(non_decreasing(earlier));
        assert(earlier[0] == times[0]);
        assert(earlier.last() == times[times.len() - 2]);
        lemma_rate_budget(b, earlier, per_minute, burst);
        let before = bucket_after(b, earlier, per_minute, burst);
        let a = earlier.last() - times[0];
        let d = now - earlier.last();
        assert(elapsed(before.last_refill, now) == d);
        assert(a * per_minute + d * per_minute == (now - times[0]) * per_minute)
            by (nonlinear_arith)
            requires
                a + d == now - times[0],
        ;
        assert(0 <= d * per_minute) by (nonlinear_arith)
            requires
                0 <= d,
                0 <= per_minute,
        ;
    }
}

/// Over any run of requests of one client, the number admitted is at most
/// the burst plus the tokens that the rate yields in the time between the
/// first and the last of them: `burst + ⌊T · per_minute / 60⌋` for `T`
/// seconds, here with `T` in nanoseconds. It holds from any bucket.
pub proof fn lemma_rate_bound(b: TokenBucket, times: Seq<u64>, per_minute: u64, burst: u64)
    requires
        times.len() > 0,
        non_decreasing(times),
    ensures
        admitted_count(b, times, per_minute, burst) <= burst + ((times.last() - times[0])
            * per_minute) / 60_000_000_000,
{
    lemma_rate_budget(b, times, per_minute, burst);
    let n = admitted_count(b, times, per_minute, burst) as int;
    let span = (times.last() - times[0]) * per_minute;
    assert(n - burst <= span / 60_000_000_000) by (nonlinear_arith)
        requires
            (n - burst) * 60_000_000_000 <= span,
    ;
}

/// The buckets of all clients seen so far, with the configured rate.
pub struct RateLimiter {
    table: BucketTable,
    per_minute: Option<u64>,
    burst: Option<u64>,
}

/// What a rate limiter holds: the configuration and a bucket per client.
pub struct RateLimiterView {
    pub per_minute: Option<u64>,
    pub burst: Option<u64>,
    pub buckets: Map<ClientKey, TokenBucket>,
}

impl View for RateLimiter {
    type V = RateLimiterView;

    closed spec fn view(&self) -> RateLimiterView {
        RateLimiterView {
            per_minute: self.per_minute,
            burst: self.burst,
            buckets: bucket_table(self.table).map_values(
                |b: StoredBucket| TokenBucket { tokens: b.0, last_refill: b.1 },
            ),
        }
    }
}

impl RateLimiterView {
    /// The bucket that a request of `ip` at `now` finds: the stored one,
    /// or an empty one if the client is new.
    pub open spec fn bucket_of(self, ip: ClientIp, now: u64) -> TokenBucket {
        if self.buckets.contains_key(ip.key()) {
            self.buckets[ip.key()]
        } else {
            fresh_bucket(now)
        }
    }

    /// Whether a request of `client` at `now` is admitted. Without a
    /// configured rate, or without an address to charge, every request is.
    pub open spec fn allows(self, client: Option<ClientIp>, now: u64) -> bool {
        match (self.per_minute, client) {
            (Some(p), Some(ip)) => admits(
                self.bucket_of(ip, now),
                now,
                p,
                effective_burst(p, self.burst),
            ),
            _ => true,
        }
    }

    /// The limiter after a request of `client` at `now`: the client's
    /// bucket is refilled and charged, all others are untouched.
    pub open spec fn after(self, client: Option<ClientIp>, now: u64) -> RateLimiterView {
        match (self.per_minute, client) {
            (Some(p), Some(ip)) => RateLimiterView {
                buckets: self.buckets.insert(
                    ip.key(),
                    after_check(self.bucket_of(ip, now), now, p, effective_burst(p, self.burst)),
                ),
                ..self
            },
            _ => self,
        }
    }
}

/// Two addresses share a bucket only if they are the same address.
pub proof fn lemma_key_is_injective(a: ClientIp, b: ClientIp)
    ensures
        a.key() == b.key() <==> a == b,
{
}

/// A request of one client leaves the buckets of all others as they were.
pub proof fn lemma_other_clients_untouched(
    limiter: RateLimiterView,
    client: Option<ClientIp>,
    other: ClientIp,
    now: u64,
)
    requires
        client != Some(other),
    ensures
        limiter.after(client, now).buckets.contains_key(other.key())
            == limiter.buckets.contains_key(other.key()),
        limiter.buckets.contains_key(other.key()) ==> limiter.after(client, now).buckets[other.key()]
            == limiter.buckets[other.key()],
{
    if let Some(ip) = client {
        lemma_key_is_injective(ip, other);
    }
}

/// The requests of one client, served in order, take its bucket through
/// `bucket_after`, whatever other clients do in between: a request of the
/// client at `now` is admitted exactly if its bucket admits it, and leaves
/// the bucket as `after_check` says.
pub proof fn lemma_limiter_follows_bucket(limiter: RateLimiterView, ip: ClientIp, now: u64)
    requires
        limiter.per_minute is Some,
    ensures
        limiter.allows(Some(ip), now) == admits(
            limiter.bucket_of(ip, now),
            now,
            limiter.per_minute->0,
            effective_burst(limiter.per_minute->0, limiter.burst),
        ),
        limiter.after(Some(ip), now).buckets[ip.key()] == after_check(
            limiter.bucket_of(ip, now),
            now,
            limiter.per_minute->0,
            effective_burst(limiter.per_minute->0, limiter.burst),
        ),
{
}

impl RateLimiter {
    /// A limiter that has seen no client. `per_minute` is the refill rate,
    /// `None` to admit everything; `burst` is the bucket size.
    pub fn new(per_minute: Option<u64>, burst: Option<u64>) -> (r: RateLimiter)
        ensures
            r@.per_minute == per_minute,
            r@.burst == burst,
            r@.buckets == (Map::<ClientKey, TokenBucket>::empty()),
    {
        let r = RateLimiter { table: bucket_table_new(), per_minute, burst };
        assert(r@.buckets =~= Map::<ClientKey, TokenBucket>::empty());
        r
    }

    /// Decides on one request of `client` at `now` and charges its bucket.
    pub fn check(&mut self, client: Option<ClientIp>, now: u64) -> (allowed: bool)
        ensures
            allowed == old(self)@.allows(client, now),
            final(self)@ == old(self)@.after(client, now),
    {
        let per_minute = match self.per_minute {
            Some(p) => p,
            None => {
                return true;
            },
        };
        let ip = match client {
            Some(ip) => ip,
            None => {
                return true;
            },
        };
        let burst = match self.burst {
            Some(b) => if b > 0 {
                b
            } else {
                per_minute
            },
            None => per_minute,
        };
        let key = ip.table_key();
        let stored = bucket_or_insert(&mut self.table, key, (0u128, now));
        let mut bucket = TokenBucket { tokens: stored.0, last_refill: stored.1 };
        assert(bucket == old(self)@.bucket_of(ip, now));
        let allowed = bucket.check(now, per_minute, burst);
        bucket_store(&mut self.table, key, (bucket.tokens, bucket.last_refill));
        assert(self@.buckets =~= old(self)@.after(client, now).buckets);
        allowed
    }
}

} // verus!
