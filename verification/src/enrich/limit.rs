//! Rate limiting and single-flight.
//!
//! Two separate concerns that both exist to keep us welcome at somebody
//! else's API: a token bucket bounds how fast we ask, and single-flight stops
//! us asking the same question twice at once. Neither ever fails a request:
//! they delay it or fold it into one already running.

use vstd::prelude::*;

use crate::strings::{same, texts};

verus! {

broadcast use vstd::seq::group_seq_axioms;

// --- the bucket -----------------------------------------------------------

/// Nanoseconds in a minute: the shares that make a token of a bucket that
/// refills by the minute.
pub const MINUTE: u64 = 60_000_000_000;

/// Nanoseconds in a second: the shares that make a token of a bucket that
/// refills by the second.
pub const SECOND: u64 = 1_000_000_000;

/// A leaky token bucket.
///
/// Time is in nanoseconds of a monotonic clock. Tokens are counted in shares,
/// of which `rate` come in every nanosecond and `token` make up one token.
#[derive(Debug)]
pub struct Bucket {
    shares: u128,
    capacity: u128,
    rate: u64,
    token: u64,
    last: u64,
    /// Set when the server refuses. Pauses the whole bucket, not just the
    /// caller that was refused: the server is telling us about our address,
    /// not about that one request.
    paused_until: Option<u64>,
}

/// A [`Bucket`] as values.
pub struct BucketView {
    pub shares: nat,
    pub capacity: nat,
    pub rate: nat,
    pub token: nat,
    pub last: nat,
    pub paused_until: Option<u64>,
}

impl View for Bucket {
    type V = BucketView;

    closed spec fn view(&self) -> BucketView {
        BucketView {
            shares: self.shares as nat,
            capacity: self.capacity as nat,
            rate: self.rate as nat,
            token: self.token as nat,
            last: self.last as nat,
            paused_until: self.paused_until,
        }
    }
}

impl BucketView {
    /// A bucket holds no more than its capacity, and can hold a token.
    pub open spec fn valid(self) -> bool {
        &&& self.shares <= self.capacity
        &&& 0 < self.rate <= u32::MAX
        &&& 0 < self.token <= MINUTE
        &&& self.capacity == self.rate * self.token
    }

    /// The bucket at a later moment: what came in meanwhile is in it, as far
    /// as there is room.
    pub open spec fn refilled(self, now: nat) -> BucketView {
        let elapsed = if now > self.last {
            (now - self.last) as nat
        } else {
            0
        };
        let more = self.shares + elapsed * self.rate;
        BucketView {
            shares: if more < self.capacity {
                more
            } else {
                self.capacity
            },
            last: now,
            ..self
        }
    }

    /// Whether the bucket is paused at a moment.
    pub open spec fn paused(self, now: nat) -> bool {
        self.paused_until matches Some(t) && t > now
    }

    /// The bucket after a pause of `d` was called at a moment. An existing
    /// pause is never shortened: two refusals in flight must not let the
    /// second one's shorter wait undo the first.
    pub open spec fn paused_for(self, now: u64, d: u64) -> BucketView {
        BucketView {
            paused_until: match self.paused_until {
                Some(t) if t >= now + d => Some(t),
                _ => Some((now + d) as u64),
            },
            ..self
        }
    }

    /// Asking for a token at a moment: the bucket afterwards, and how long to
    /// wait before asking again if there was none.
    pub open spec fn asked(self, now: nat) -> (BucketView, Option<nat>) {
        let b = self.refilled(now);
        if b.paused(now) {
            (b, Some((b.paused_until->0 - now) as nat))
        } else {
            let b = BucketView { paused_until: None, ..b };
            if b.shares >= b.token {
                (BucketView { shares: (b.shares - b.token) as nat, ..b }, None)
            } else {
                (b, Some(((b.token - b.shares) + b.rate - 1) as nat / b.rate))
            }
        }
    }
}

impl Bucket {
    fn full(rate: u64, token: u64, now: u64) -> (r: Bucket)
        requires
            0 < rate <= u32::MAX,
            0 < token <= MINUTE,
        ensures
            r@.valid(),
            r@ == (BucketView {
                shares: (rate * token) as nat,
                capacity: (rate * token) as nat,
                rate: rate as nat,
                token: token as nat,
                last: now as nat,
                paused_until: None,
            }),
    {
        assert(0 <= rate * token <= 0xffff_ffff * 60_000_000_000) by (nonlinear_arith)
            requires
                0 < rate <= 0xffff_ffff,
                0 < token <= 60_000_000_000,
        ;
        let capacity: u128 = (rate as u128) * (token as u128);
        Bucket { shares: capacity, capacity, rate, token, last: now, paused_until: None }
    }

    /// A bucket refilling at `n` tokens per minute.
    ///
    /// The bucket starts full: a device that has just booted, or has been
    /// silent all afternoon, should not be made to wait for its first album.
    pub fn per_minute(n: u32, now: u64) -> (r: Bucket)
        ensures
            r@.valid(),
            ({
                let rate = if n == 0 {
                    1nat
                } else {
                    n as nat
                };
                r@ == (BucketView {
                    shares: rate * MINUTE as nat,
                    capacity: rate * MINUTE as nat,
                    rate,
                    token: MINUTE as nat,
                    last: now as nat,
                    paused_until: None,
                })
            }),
    {
        let rate: u64 = if n == 0 {
            1
        } else {
            n as u64
        };
        Bucket::full(rate, MINUTE, now)
    }

    /// A bucket refilling at `n` tokens per second, capacity `n`.
    ///
    /// Capacity is deliberately not larger than the rate: there is no burst
    /// allowance to spend.
    pub fn per_second(n: u32, now: u64) -> (r: Bucket)
        requires
            n > 0,
        ensures
            r@.valid(),
            r@ == (BucketView {
                shares: n as nat * SECOND as nat,
                capacity: n as nat * SECOND as nat,
                rate: n as nat,
                token: SECOND as nat,
                last: now as nat,
                paused_until: None,
            }),
    {
        Bucket::full(n as u64, SECOND, now)
    }

    /// Take a token, or say how long to wait before asking again: another
    /// worker may have taken it meanwhile.
    pub fn take(&mut self, now: u64) -> (r: Option<u64>)
        requires
            old(self)@.valid(),
        ensures
            final(self)@.valid(),
            final(self)@ == old(self)@.asked(now as nat).0,
            match r {
                Some(wait) => old(self)@.asked(now as nat).1 == Some(wait as nat) && wait > 0,
                None => old(self)@.asked(now as nat).1 is None,
            },
    {
        let elapsed: u64 = now.saturating_sub(self.last);
        assert(0 <= elapsed * self.rate <= 0xffff_ffff_ffff_ffff * 0xffff_ffff) by (nonlinear_arith)
            requires
                0 <= elapsed <= 0xffff_ffff_ffff_ffff,
                0 < self.rate <= 0xffff_ffff,
        ;
        assert(0 <= self.capacity <= 0xffff_ffff * 60_000_000_000) by (nonlinear_arith)
            requires
                self.capacity == self.rate * self.token,
                0 < self.rate <= 0xffff_ffff,
                0 < self.token <= 60_000_000_000,
        ;
        let more: u128 = self.shares + (elapsed as u128) * (self.rate as u128);
        self.shares = if more < self.capacity {
            more
        } else {
            self.capacity
        };
        self.last = now;
        if let Some(until) = self.paused_until {
            if until > now {
                return Some(until - now);
            }
        }
        self.paused_until = None;
        let token: u128 = self.token as u128;
        if self.shares >= token {
            self.shares = self.shares - token;
            return None;
        }
        let deficit: u128 = token - self.shares;
        let rate: u128 = self.rate as u128;
        let wait: u128 = (deficit + rate - 1) / rate;
        proof {
            let w = wait as int;
            let d = deficit as int;
            let q = rate as int;
            assert(0 < w <= d) by (nonlinear_arith)
                requires
                    w == (d + q - 1) / q,
                    d > 0,
                    q > 0,
            ;
        }
        Some(wait as u64)
    }

    /// Stop issuing tokens for `d`, after a refusal.
    pub fn pause(&mut self, now: u64, d: u64)
        requires
            old(self)@.valid(),
            now + d <= u64::MAX,
        ensures
            final(self)@.valid(),
            final(self)@ == old(self)@.paused_for(now, d),
    {
        let until: u64 = now + d;
        let longer: bool = match self.paused_until {
            Some(t) => until > t,
            None => true,
        };
        if longer {
            self.paused_until = Some(until);
        }
    }

    /// Whether the bucket is currently paused.
    pub fn is_paused(&self, now: u64) -> (r: bool)
        ensures
            r == self@.paused(now as nat),
    {
        match self.paused_until {
            Some(t) => t > now,
            None => false,
        }
    }
}

// --- single flight --------------------------------------------------------

/// One in-flight operation per key.
///
/// A repeated track, the same album's bundle resent or the next track off the
/// same record, must not issue a second identical search.
#[derive(Debug)]
pub struct SingleFlight {
    keys: Vec<String>,
}

/// The right to work on a key. Handing it back releases the key.
#[derive(Debug)]
pub struct Flight {
    key: String,
}

impl Flight {
    /// The key that is held.
    pub closed spec fn held(self) -> Seq<char> {
        self.key@
    }
}

impl Default for SingleFlight {
    fn default() -> (r: SingleFlight)
        ensures
            r.valid(),
            r@ == Set::<Seq<char>>::empty(),
    {
        let r = SingleFlight { keys: Vec::new() };
        assert(texts(r.keys@).to_set() =~= Set::<Seq<char>>::empty());
        r
    }
}

impl View for SingleFlight {
    type V = Set<Seq<char>>;

    /// The keys that are held.
    closed spec fn view(&self) -> Set<Seq<char>> {
        texts(self.keys@).to_set()
    }
}

impl SingleFlight {
    /// No key is held twice.
    pub closed spec fn valid(self) -> bool {
        texts(self.keys@).no_duplicates()
    }

    fn position(&self, key: &str) -> (r: Option<usize>)
        ensures
            match r {
                Some(i) => i < self.keys@.len() && self.keys@[i as int]@ == key@,
                None => !self@.contains(key@),
            },
    {
        let mut i: usize = 0;
        while i < self.keys.len()
            invariant
                i <= self.keys.len(),
                forall|j: int| 0 <= j < i ==> (#[trigger] self.keys@[j])@ != key@,
            decreases self.keys.len() - i,
        {
            if same(self.keys[i].as_str(), key) {
                return Some(i);
            }
            i = i + 1;
        }
        assert(forall|j: int| 0 <= j < self.keys.len() ==> texts(self.keys@)[j] == self.keys@[j]@);
        None
    }

    /// Claim `key`, or `None` if somebody already holds it.
    pub fn enter(&mut self, key: &str) -> (r: Option<Flight>)
        requires
            old(self).valid(),
        ensures
            final(self).valid(),
            match r {
                Some(f) => !old(self)@.contains(key@) && f.held() == key@ && final(self)@ == old(
                    self,
                )@.insert(key@),
                None => old(self)@.contains(key@) && final(self)@ == old(self)@,
            },
    {
        match self.position(key) {
            Some(i) => {
                assert(texts(self.keys@)[i as int] == key@);
                None
            },
            None => {
                let ghost before = texts(self.keys@);
                self.keys.push(key.to_owned());
                let ghost after = texts(self.keys@);
                assert(after == before.push(key@));
                assert(after.to_set() =~= before.to_set().insert(key@)) by {
                    assert forall|s: Seq<char>| after.to_set().contains(s) <==> before.to_set().insert(
                        key@,
                    ).contains(s) by {
                        if before.contains(s) {
                            let j = choose|j: int| 0 <= j < before.len() && before[j] == s;
                            assert(after[j] == s);
                        }
                        assert(after[before.len() as int] == key@);
                    }
                }
                Some(Flight { key: key.to_owned() })
            },
        }
    }

    /// Release a key.
    pub fn release(&mut self, flight: Flight)
        requires
            old(self).valid(),
        ensures
            final(self).valid(),
            final(self)@ == old(self)@.remove(flight.held()),
    {
        match self.position(flight.key.as_str()) {
            Some(i) => {
                let ghost before = texts(self.keys@);
                let ghost k = flight.key@;
                let _ = self.keys.remove(i);
                let ghost after = texts(self.keys@);
                assert(after == before.remove(i as int));
                proof {
                    assert(after.no_duplicates()) by {
                        assert forall|a: int, b: int|
                            0 <= a < b < after.len() implies after[a] != after[b] by {
                            let a2 = if a < i { a } else { a + 1 };
                            let b2 = if b < i { b } else { b + 1 };
                            assert(after[a] == before[a2] && after[b] == before[b2]);
                        }
                    }
                    assert forall|s: Seq<char>| after.to_set().contains(s) <==> before.to_set().remove(
                        k,
                    ).contains(s) by {
                        if after.contains(s) {
                            let j = choose|j: int| 0 <= j < after.len() && after[j] == s;
                            let j2 = if j < i { j } else { j + 1 };
                            assert(before[j2] == s);
                            assert(before[i as int] == k);
                        }
                        if before.contains(s) && s != k {
                            let j = choose|j: int| 0 <= j < before.len() && before[j] == s;
                            let j2 = if j < i { j } else { j - 1 };
                            assert(after[j2] == s);
                        }
                    }
                    assert(after.to_set() =~= before.to_set().remove(k));
                }
            },
            None => {
                assert(self@.remove(flight.key@) =~= self@);
            },
        }
    }

    /// How many keys are held.
    pub fn in_flight(&self) -> (r: usize)
        requires
            self.valid(),
        ensures
            r == self@.len(),
    {
        proof {
            texts(self.keys@).unique_seq_to_set();
        }
        self.keys.len()
    }
}

// --- laws -----------------------------------------------------------------

/// However often it is asked, a bucket gives out no more than it held and
/// what came in: what is taken and what is left add up to at most that.
pub proof fn tokens_are_not_made_up(b: BucketView, now: nat)
    requires
        b.valid(),
        now >= b.last,
    ensures
        ({
            let (after, wait) = b.asked(now);
            let taken = if wait is None {
                b.token
            } else {
                0
            };
            after.shares + taken <= b.shares + (now - b.last) * b.rate
        }),
{
    assert((now - b.last) * b.rate >= 0) by (nonlinear_arith)
        requires
            now >= b.last,
            b.rate >= 0,
    ;
}

/// Whoever waits as long as told finds a token, if nobody else takes it and
/// no pause comes in between.
pub proof fn waiting_is_enough(b: BucketView, now: nat)
    requires
        b.valid(),
        now >= b.last,
        b.asked(now).1 is Some,
        !b.paused(now),
    ensures
        b.asked(now).0.asked(now + b.asked(now).1->0).1 is None,
{
    let (after, wait) = b.asked(now);
    let w = wait->0 as int;
    let d = b.token - after.shares;
    let q = b.rate as int;
    assert(w * q >= d) by (nonlinear_arith)
        requires
            w == (d + q - 1) / q,
            d > 0,
            q > 0,
    ;
    assert(b.capacity >= b.token) by (nonlinear_arith)
        requires
            b.capacity == b.rate * b.token,
            b.rate >= 1,
            b.token >= 0,
    ;
    let later = now + wait->0;
    assert(later - now == w);
    assert(after.refilled(later).shares >= b.token);
}

/// A full bucket answers as many requests at once as it holds tokens.
pub proof fn a_full_bucket_does_not_delay(b: BucketView, now: nat, k: nat)
    requires
        b.valid(),
        b.last == now,
        b.paused_until is None,
        b.shares == b.capacity - k * b.token,
        k < b.rate,
    ensures
        b.asked(now).1 is None,
        b.asked(now).0.shares == b.capacity - (k + 1) * b.token,
{
    assert(b.capacity - k * b.token >= b.token && k * b.token >= 0) by (nonlinear_arith)
        requires
            b.capacity == b.rate * b.token,
            k + 1 <= b.rate,
            b.token >= 0,
            k >= 0,
    ;
    assert((k + 1) * b.token == k * b.token + b.token) by (nonlinear_arith);
    assert(0 * b.rate == 0);
}

/// A pause is never shortened, and no token is given while it lasts.
pub proof fn pauses_only_grow(b: BucketView, now: u64, d: u64, later: nat)
    requires
        now + d <= u64::MAX,
    ensures
        b.paused_for(now, d).paused_until matches Some(t) && t >= now + d,
        b.paused(later) ==> b.paused_for(now, d).paused(later),
        later < now + d ==> b.paused_for(now, d).asked(later).1 is Some,
{
}

} // verus!
