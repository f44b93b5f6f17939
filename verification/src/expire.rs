//! Expiration policies and their resolution to absolute instants.

use vstd::prelude::*;

use crate::score::Score;

verus! {

/// When an item or a lease expires: never, at an absolute timestamp in
/// whole seconds since the Unix epoch, or a relative time-to-live in
/// seconds, resolved against the clock at the moment of use.
#[derive(Clone, Copy, Debug, PartialEq, Eq, Structural)]
pub enum Expiration {
    Never,
    Timestamp(i64),
    Ttl(i64),
}

/// `a + b` clipped to the range of `i64`.
pub open spec fn sat_add_spec(a: int, b: int) -> int {
    if a + b > i64::MAX {
        i64::MAX as int
    } else if a + b < i64::MIN {
        i64::MIN as int
    } else {
        a + b
    }
}

/// What an expiration resolves to when the clock reads `now`: `Never`
/// stays unbounded, an absolute timestamp stands as given, and a
/// time-to-live is added to `now`, clipped to the range of `i64`.
pub open spec fn resolve_spec(e: Expiration, now: i64) -> Score {
    match e {
        Expiration::Never => Score::Never,
        Expiration::Timestamp(t) => Score::At(t),
        Expiration::Ttl(s) => Score::At(sat_add_spec(s as int, now as int) as i64),
    }
}

/// Relies on chrono's `Utc::now` and `DateTime::timestamp`: the current
/// wall-clock time in whole seconds since the Unix epoch. `Utc::now` reads
/// the system clock and refuses a clock set before the epoch, so the value
/// is nonnegative; nothing else is assumed of it.
#[verifier::external_body]
pub(crate) fn now_timestamp() -> (r: i64)
    ensures
        r >= 0,
{
    chrono::Utc::now().timestamp()
}

/// `a + b` clipped to the range of `i64`.
pub fn sat_add(a: i64, b: i64) -> (r: i64)
    ensures
        r as int == sat_add_spec(a as int, b as int),
{
    if b >= 0 {
        if a > i64::MAX - b {
            i64::MAX
        } else {
            a + b
        }
    } else {
        if a < i64::MIN - b {
            i64::MIN
        } else {
            a + b
        }
    }
}

impl Expiration {
    /// An absolute expiration `offset_seconds` from the current clock
    /// reading, clipped to the range of `i64`.
    pub fn from_now_with_offset(offset_seconds: i64) -> (r: Expiration)
        ensures
            exists|now: i64|
                #![auto]
                now >= 0 && r == Expiration::Timestamp(
                    sat_add_spec(now as int, offset_seconds as int) as i64,
                ),
    {
        let now: i64 = now_timestamp();
        let t: i64 = sat_add(now, offset_seconds);
        let r = Expiration::Timestamp(t);
        proof {
            assert(r == Expiration::Timestamp(sat_add_spec(now as int, offset_seconds as int) as i64));
        }
        r
    }

    /// An absolute expiration at the given timestamp.
    pub fn from_timestamp(timestamp: i64) -> (r: Expiration)
        ensures
            r == Expiration::Timestamp(timestamp),
    {
        Expiration::Timestamp(timestamp)
    }

    /// A relative expiration, `seconds` after the moment it is resolved.
    pub fn from_ttl(seconds: i64) -> (r: Expiration)
        ensures
            r == Expiration::Ttl(seconds),
    {
        Expiration::Ttl(seconds)
    }

    /// Resolve against a clock reading of `now`.
    pub fn resolve_at(&self, now: i64) -> (r: Score)
        ensures
            r == resolve_spec(*self, now),
    {
        match self {
            Expiration::Never => Score::Never,
            Expiration::Timestamp(t) => Score::At(*t),
            Expiration::Ttl(s) => Score::At(sat_add(*s, now)),
        }
    }

    /// Resolve against the clock now.
    pub fn as_timestamp(&self) -> (r: Score)
        ensures
            exists|now: i64| now >= 0 && r == resolve_spec(*self, now),
            self matches Expiration::Never ==> r == Score::Never,
            forall|t: i64| *self == Expiration::Timestamp(t) ==> r == Score::At(t),
    {
        let now: i64 = now_timestamp();
        let r = self.resolve_at(now);
        proof {
            assert(r == resolve_spec(*self, now));
        }
        r
    }
}

impl Default for Expiration {
    /// By default nothing expires.
    fn default() -> (r: Self)
        ensures
            r == Expiration::Never,
    {
        Expiration::Never
    }
}

} // verus!
