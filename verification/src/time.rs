//! UTC instants, their arithmetic, and the calls into `chrono` that read the
//! clock and render or read RFC 3339 text.
use vstd::prelude::*;

verus! {

/// Earliest second that `chrono::DateTime<Utc>` represents (-262143-01-01T00:00:00Z).
pub const MIN_SECS: i64 = -8334601315200i64;

/// Latest second that `chrono::DateTime<Utc>` represents (+262142-12-31T23:59:59Z).
pub const MAX_SECS: i64 = 8210266876799i64;

/// Seconds in a day.
pub const SECS_PER_DAY: i64 = 86400i64;

/// An instant in UTC: seconds since the Unix epoch plus a sub-second part.
#[derive(Debug, Clone, Copy, PartialEq, Eq, Structural)]
pub struct Timestamp {
    pub secs: i64,
    pub nanos: u32,
}

impl Timestamp {
    /// The instant lies in the range that `chrono::DateTime<Utc>` represents:
    /// a sub-second part under one second, or, in the last second of a
    /// minute, under two seconds (a leap second).
    pub open spec fn valid(self) -> bool {
        &&& MIN_SECS <= self.secs <= MAX_SECS
        &&& (self.nanos < 1_000_000_000 || (self.nanos < 2_000_000_000 && self.secs % 60 == 59))
    }

    /// Strict chronological order.
    pub open spec fn lt(self, other: Timestamp) -> bool {
        self.secs < other.secs || (self.secs == other.secs && self.nanos < other.nanos)
    }

    /// `self < other` in time.
    pub fn is_before(&self, other: &Timestamp) -> (r: bool)
        ensures
            r == self.lt(*other),
    {
        self.secs < other.secs || (self.secs == other.secs && self.nanos < other.nanos)
    }

    /// Builds an instant from seconds and nanoseconds, if `chrono` represents it.
    pub fn from_parts(secs: i64, nanos: u32) -> (r: Option<Timestamp>)
        ensures
            r matches Some(t) ==> t.valid() && t.secs == secs && t.nanos == nanos,
            r is None ==> !(Timestamp { secs, nanos }).valid(),
    {
        if MIN_SECS <= secs && secs <= MAX_SECS && (nanos < 1_000_000_000 || (nanos < 2_000_000_000 && last_second_of_minute(secs))) {
            Some(Timestamp { secs, nanos })
        } else {
            None
        }
    }
}

/// Whether the second is the last of its minute (`secs` modulo 60, taken
/// as not negative, is 59).
pub fn last_second_of_minute(secs: i64) -> (r: bool)
    requires
        MIN_SECS <= secs <= MAX_SECS,
    ensures
        r == (secs % 60 == 59),
{
    let u: u64 = (secs - MIN_SECS) as u64;
    proof {
        let k: int = 138910021920;
        assert(MIN_SECS == -60 * k);
        assert((secs + 60 * k) % 60 == secs % 60) by {
            vstd::arithmetic::div_mod::lemma_mod_multiples_vanish(k, secs as int, 60);
        }
    }
    u % 60 == 59
}

/// `self + days` stays inside `chrono`'s range (where `chrono` would panic otherwise).
pub open spec fn days_fit(t: Timestamp, days: i64) -> bool {
    MIN_SECS <= t.secs + days * SECS_PER_DAY <= MAX_SECS
}

/// The expiry that a default of `days` gives at `t`, where it fits.
pub open spec fn expiry_fits(t: Timestamp, days: Option<i64>) -> bool {
    match days {
        Some(d) => days_fit(t, d),
        None => true,
    }
}

/// `t + Duration::days(days)`.
pub open spec fn spec_plus_days(t: Timestamp, days: i64) -> Timestamp {
    Timestamp { secs: (t.secs + days * SECS_PER_DAY) as i64, nanos: t.nanos }
}

/// Whether `t + Duration::days(days)` stays in range.
pub fn days_fit_exec(t: &Timestamp, days: i64) -> (r: bool)
    requires
        t.valid(),
    ensures
        r == days_fit(*t, days),
{
    if days > 200_000_000 || days < -200_000_000 {
        assert(!days_fit(*t, days)) by (nonlinear_arith)
            requires
                days > 200_000_000 || days < -200_000_000,
                MIN_SECS <= t.secs <= MAX_SECS,
        ;
        return false;
    }
    assert(-200_000_000 * SECS_PER_DAY <= days * SECS_PER_DAY <= 200_000_000 * SECS_PER_DAY)
        by (nonlinear_arith)
        requires
            -200_000_000 <= days <= 200_000_000,
    ;
    let secs = t.secs + days * SECS_PER_DAY;
    MIN_SECS <= secs && secs <= MAX_SECS
}

/// Whether the optional default expiry fits at `t`.
pub fn expiry_fits_exec(t: &Timestamp, days: Option<i64>) -> (r: bool)
    requires
        t.valid(),
    ensures
        r == expiry_fits(*t, days),
{
    match days {
        Some(d) => days_fit_exec(t, d),
        None => true,
    }
}

/// `t + Duration::days(days)`.
pub fn plus_days(t: &Timestamp, days: i64) -> (r: Timestamp)
    requires
        t.valid(),
        days_fit(*t, days),
    ensures
        r == spec_plus_days(*t, days),
        r.valid(),
{
    proof {
        assert(days * SECS_PER_DAY <= MAX_SECS - MIN_SECS) by (nonlinear_arith)
            requires
                MIN_SECS <= t.secs + days * SECS_PER_DAY <= MAX_SECS,
                MIN_SECS <= t.secs <= MAX_SECS,
        ;
        assert(days * SECS_PER_DAY >= MIN_SECS - MAX_SECS) by (nonlinear_arith)
            requires
                MIN_SECS <= t.secs + days * SECS_PER_DAY <= MAX_SECS,
                MIN_SECS <= t.secs <= MAX_SECS,
        ;
        assert(-200_000_000 <= days <= 200_000_000) by (nonlinear_arith)
            requires
                days * SECS_PER_DAY <= MAX_SECS - MIN_SECS,
                days * SECS_PER_DAY >= MIN_SECS - MAX_SECS,
        ;
    }
    Timestamp { secs: t.secs + days * SECS_PER_DAY, nanos: t.nanos }
}

/// The text that `DateTime::<Utc>::to_rfc3339` gives for an instant.
pub uninterp spec fn rfc3339_text(secs: i64, nanos: u32) -> Seq<char>;

/// What `DateTime::parse_from_rfc3339` reads from a text, as seconds and
/// nanoseconds in UTC, or `None` where the text is not RFC 3339.
pub uninterp spec fn parsed_rfc3339(text: Seq<char>) -> Option<(i64, u32)>;

/// The text that `DateTime::<Utc>::format("%Y%m%d%H%M%S")` gives for an instant.
pub uninterp spec fn compact_stamp_text(secs: i64, nanos: u32) -> Seq<char>;

/// Calls `chrono::Utc::now`. Claimed: the instant lies in `chrono`'s range
/// with a sub-second part under one second (`Utc::now` builds it with
/// `DateTime::from_timestamp(..).unwrap()` from a `Duration`). Which instant
/// comes back is not stated: it is the clock.
#[verifier::external_body]
pub(crate) fn now() -> (t: Timestamp)
    ensures
        t.valid(),
{
    let now = chrono::Utc::now();
    Timestamp { secs: now.timestamp(), nanos: now.timestamp_subsec_nanos() }
}

/// Calls `chrono::DateTime::<Utc>::to_rfc3339` on the instant. Claimed: the
/// text is the named result `rfc3339_text` of the instant's parts.
#[verifier::external_body]
pub(crate) fn rfc3339(t: &Timestamp) -> (s: String)
    requires
        t.valid(),
    ensures
        s@ == rfc3339_text(t.secs, t.nanos),
{
    chrono::DateTime::from_timestamp(t.secs, t.nanos).unwrap().to_rfc3339()
}

/// Calls `chrono::DateTime::parse_from_rfc3339` and converts the result to
/// UTC seconds and nanoseconds. Claimed: the result is the named result
/// `parsed_rfc3339` of the text.
#[verifier::external_body]
pub(crate) fn parse_rfc3339(text: &str) -> (r: Option<(i64, u32)>)
    ensures
        r == parsed_rfc3339(text@),
{
    chrono::DateTime::parse_from_rfc3339(text).ok().map(
        |time| (time.timestamp(), time.timestamp_subsec_nanos()),
    )
}

/// Calls `chrono::DateTime::<Utc>::format("%Y%m%d%H%M%S")` and renders it.
/// Claimed: the text is the named result `compact_stamp_text` of the instant.
#[verifier::external_body]
pub(crate) fn compact_stamp(t: &Timestamp) -> (s: String)
    requires
        t.valid(),
    ensures
        s@ == compact_stamp_text(t.secs, t.nanos),
{
    chrono::DateTime::from_timestamp(t.secs, t.nanos).unwrap().format("%Y%m%d%H%M%S").to_string()
}

/// Reads an RFC 3339 text as an instant in range, or `None`.
pub open spec fn spec_read_time(text: Seq<char>) -> Option<Timestamp> {
    match parsed_rfc3339(text) {
        Some((s, n)) => {
            let t = Timestamp { secs: s, nanos: n };
            if t.valid() {
                Some(t)
            } else {
                None
            }
        },
        None => None,
    }
}

pub fn read_time(text: &str) -> (r: Option<Timestamp>)
    ensures
        r == spec_read_time(text@),
        r matches Some(t) ==> t.valid(),
{
    match parse_rfc3339(text) {
        Some((s, n)) => Timestamp::from_parts(s, n),
        None => None,
    }
}

} // verus!
