//! A value kept for a while: the last answer of a slow lookup, reused while
//! it is younger than a time to live.

use vstd::prelude::*;

verus! {

/// The last value stored, with the time it was stored at (milliseconds on a
/// monotonic clock), reused while younger than `ttl_ms`.
pub struct TimedCache<T> {
    pub hit: Option<(u64, T)>,
    pub ttl_ms: u64,
}

/// How old a value stored at `at` is at `now`; a clock that went back
/// counts as no time at all.
pub open spec fn age(at: u64, now: u64) -> nat {
    if now >= at {
        (now - at) as nat
    } else {
        0
    }
}

impl<T> TimedCache<T> {
    /// An empty cache.
    pub fn new(ttl_ms: u64) -> (r: Self)
        ensures
            r.hit is None,
            r.ttl_ms == ttl_ms,
    {
        TimedCache { hit: None, ttl_ms }
    }

    /// The stored value, when it is younger than the time to live.
    pub fn fresh(&self, now: u64) -> (r: Option<&T>)
        ensures
            match self.hit {
                Some((at, v)) => if age(at, now) < self.ttl_ms {
                    r == Some(&v)
                } else {
                    r is None
                },
                None => r is None,
            },
    {
        match &self.hit {
            Some((at, v)) => {
                let age = now.saturating_sub(*at);
                if age < self.ttl_ms {
                    Some(v)
                } else {
                    None
                }
            },
            None => None,
        }
    }

    /// The stored value, however old.
    pub fn last(&self) -> (r: Option<&T>)
        ensures
            match self.hit {
                Some((_, v)) => r == Some(&v),
                None => r is None,
            },
    {
        match &self.hit {
            Some((_, v)) => Some(v),
            None => None,
        }
    }

    /// Keeps `value` as stored at `now`.
    pub fn store(&mut self, now: u64, value: T)
        ensures
            final(self).hit == Some((now, value)),
            final(self).ttl_ms == old(self).ttl_ms,
    {
        self.hit = Some((now, value));
    }

    /// Forgets the stored value.
    pub fn clear(&mut self)
        ensures
            final(self).hit is None,
            final(self).ttl_ms == old(self).ttl_ms,
    {
        self.hit = None;
    }
}

} // verus!
