//! Backend selection: round robin over a fixed pool, driven by a counter.

use vstd::prelude::*;
use vstd::arithmetic::div_mod::{lemma_fundamental_div_mod, lemma_fundamental_div_mod_converse};

verus! {

/// The backend that a request gets when the counter stands at `counter`.
pub open spec fn pick(counter: usize, backends: usize) -> int {
    counter as int % backends as int
}

/// The counter after one more request; it wraps around at the top.
pub open spec fn advance(counter: usize) -> usize {
    if counter == usize::MAX {
        0
    } else {
        (counter + 1) as usize
    }
}

/// The counter behind the round robin.
#[derive(Debug)]
pub struct BackendCursor {
    counter: usize,
}

impl BackendCursor {
    /// Where the counter stands.
    pub closed spec fn value(&self) -> usize {
        self.counter
    }

    /// A counter at zero.
    pub fn new() -> (c: BackendCursor)
        ensures
            c.value() == 0,
    {
        BackendCursor { counter: 0 }
    }

    /// A counter at `counter`.
    pub fn starting_at(counter: usize) -> (c: BackendCursor)
        ensures
            c.value() == counter,
    {
        BackendCursor { counter }
    }

    /// Chooses a backend among `backends` and moves the counter on.
    /// With no backend there is nothing to choose, and the counter stays.
    pub fn select(&mut self, backends: usize) -> (r: Option<usize>)
        ensures
            backends == 0 ==> r is None && final(self).value() == old(self).value(),
            backends > 0 ==> r == Some(pick(old(self).value(), backends) as usize)
                && final(self).value() == advance(old(self).value()),
    {
        if backends == 0 {
            return None;
        }
        let chosen = self.counter % backends;
        self.counter = self.counter.wrapping_add(1);
        Some(chosen)
    }
}

/// The counter after `n` requests.
pub open spec fn counter_after(counter: usize, n: nat) -> usize
    decreases n,
{
    if n == 0 {
        counter
    } else {
        advance(counter_after(counter, (n - 1) as nat))
    }
}

/// How many of `n` requests in a row, the first served with the counter at
/// `counter`, go to backend `b`.
pub open spec fn share(counter: usize, backends: usize, n: nat, b: int) -> nat
    decreases n,
{
    if n == 0 {
        0
    } else {
        let earlier = share(counter, backends, (n - 1) as nat, b);
        if pick(counter_after(counter, (n - 1) as nat), backends) == b {
            earlier + 1
        } else {
            earlier
        }
    }
}

/// How many of the numbers below `m` leave the remainder `b`.
spec fn below(m: int, backends: int, b: int) -> int {
    (m + backends - 1 - b) / backends
}

proof fn lemma_below_step(m: int, backends: int, b: int)
    requires
        0 <= m,
        0 <= b < backends,
    ensures
        below(m + 1, backends, b) == below(m, backends, b) + if m % backends == b {
            1int
        } else {
            0int
        },
{
    let y = m + backends - 1 - b;
    let q = y / backends;
    let r = y % backends;
    lemma_fundamental_div_mod(y, backends);
    assert(y == q * backends + r) by (nonlinear_arith)
        requires
            y == backends * q + r,
    ;
    if r == backends - 1 {
        assert(y + 1 == (q + 1) * backends + 0) by (nonlinear_arith)
            requires
                y == q * backends + r,
                r == backends - 1,
        ;
        lemma_fundamental_div_mod_converse(y + 1, backends, q + 1, 0);
        assert(m == q * backends + b);
        lemma_fundamental_div_mod_converse(m, backends, q, b);
    } else {
        lemma_fundamental_div_mod_converse(y + 1, backends, q, r + 1);
        let shifted = r - (backends - 1 - b);
        if shifted >= 0 {
            lemma_fundamental_div_mod_converse(m, backends, q, shifted);
        } else {
            assert(m == (q - 1) * backends + (shifted + backends)) by (nonlinear_arith)
                requires
                    m == q * backends + shifted,
            ;
            lemma_fundamental_div_mod_converse(m, backends, q - 1, shifted + backends);
        }
    }
}

proof fn lemma_share_is_difference(counter: usize, backends: usize, n: nat, b: int)
    requires
        backends > 0,
        0 <= b < backends,
        counter + n <= usize::MAX + 1,
    ensures
        n > 0 ==> counter_after(counter, (n - 1) as nat) == counter + n - 1,
        share(counter, backends, n, b) == below(counter + n, backends as int, b) - below(
            counter as int,
            backends as int,
            b,
        ),
    decreases n,
{
    if n > 0 {
        lemma_share_is_difference(counter, backends, (n - 1) as nat, b);
        if n > 1 {
            assert(counter_after(counter, (n - 1) as nat) == advance(
                counter_after(counter, (n - 2) as nat),
            ));
        }
        lemma_below_step(counter + n - 1, backends as int, b);
    }
}

/// Round robin is fair: of `n` requests in a row, every backend gets
/// `n / backends` of them or one more, and exactly `n / backends` when
/// `backends` divides `n`. It is stated for runs over which the counter
/// does not wrap around.
pub proof fn lemma_round_robin_fair(counter: usize, backends: usize, n: nat, b: int)
    requires
        backends > 0,
        0 <= b < backends,
        counter + n <= usize::MAX + 1,
    ensures
        n / (backends as nat) <= share(counter, backends, n, b) <= n / (backends as nat) + 1,
        n % (backends as nat) == 0 ==> share(counter, backends, n, b) == n / (backends as nat),
{
    lemma_share_is_difference(counter, backends, n, b);
    let d = backends as int;
    let a = counter + d - 1 - b;
    let q1 = a / d;
    let r1 = a % d;
    let q2 = (n as int) / d;
    let r2 = (n as int) % d;
    lemma_fundamental_div_mod(a, d);
    lemma_fundamental_div_mod(n as int, d);
    if r1 + r2 < d {
        assert(a + n == (q1 + q2) * d + (r1 + r2)) by (nonlinear_arith)
            requires
                a == d * q1 + r1,
                n == d * q2 + r2,
        ;
        lemma_fundamental_div_mod_converse(a + n, d, q1 + q2, r1 + r2);
    } else {
        assert(a + n == (q1 + q2 + 1) * d + (r1 + r2 - d)) by (nonlinear_arith)
            requires
                a == d * q1 + r1,
                n == d * q2 + r2,
        ;
        lemma_fundamental_div_mod_converse(a + n, d, q1 + q2 + 1, r1 + r2 - d);
    }
}

} // verus!
