//! Instants as the tracker stores them, the whole-second length of a span
//! between two instants, and parsing of RFC 3339 texts.

use vstd::prelude::*;

verus! {

/// An instant in UTC: seconds since the Unix epoch and the nanoseconds into
/// that second.  A leap second is written as nanoseconds of one billion or
/// more past second 59 of a minute.
#[derive(Debug, Clone, Copy, PartialEq, Eq, Structural)]
pub struct Timestamp {
    pub secs: i64,
    pub nanos: u32,
}

/// Largest distance from the epoch, in seconds, that an instant can have.
pub const MAX_EPOCH_SECS: i64 = 9_000_000_000_000;

pub const NANOS_PER_SEC: i128 = 1_000_000_000;

impl Timestamp {
    /// The instant lies in the representable range of a UTC date and its
    /// fraction is below two seconds.
    pub open spec fn valid(self) -> bool {
        &&& -MAX_EPOCH_SECS <= self.secs <= MAX_EPOCH_SECS
        &&& self.nanos < 2_000_000_000
    }

    /// Whether the instant is valid (see `valid`).
    pub fn is_valid(&self) -> (r: bool)
        ensures
            r == self.valid(),
    {
        -MAX_EPOCH_SECS <= self.secs && self.secs <= MAX_EPOCH_SECS && self.nanos < 2_000_000_000
    }

    /// Instants order by their seconds, then by their fraction.
    pub open spec fn before(self, other: Timestamp) -> bool {
        self.secs < other.secs || (self.secs == other.secs && self.nanos < other.nanos)
    }

    /// A single number that orders instants as `before` does (fractions stay below 2^32).
    pub open spec fn key(self) -> int {
        self.secs * 4_294_967_296 + self.nanos
    }
}

/// Seconds since midnight of the day of an instant.
pub open spec fn second_of_day(t: Timestamp) -> int {
    (t.secs as int) % 86400
}

/// A leap second between the two instants that their seconds alone do not
/// count: one more when `start` is in a leap second and `end` is at a later
/// time of day, one fewer when `end` is in a leap second and `start` is at a
/// later time of day.
pub open spec fn leap_correction(start: Timestamp, end: Timestamp) -> int {
    if second_of_day(end) > second_of_day(start) && start.nanos >= 1_000_000_000 {
        1
    } else if second_of_day(end) < second_of_day(start) && end.nanos >= 1_000_000_000 {
        -1
    } else {
        0
    }
}

/// Signed nanoseconds from `start` to `end`.
pub open spec fn elapsed_nanos(start: Timestamp, end: Timestamp) -> int {
    (end.secs - start.secs + leap_correction(start, end)) * 1_000_000_000 + (end.nanos - start.nanos)
}

/// Whole seconds of a signed span, rounded toward zero.
pub open spec fn whole_seconds(nanos: int) -> int {
    if nanos >= 0 {
        nanos / 1_000_000_000
    } else {
        -((-nanos) / 1_000_000_000)
    }
}

/// The recorded length of a session from `start` to `end`: its whole
/// seconds, and zero when `end` does not come after `start`.
pub open spec fn duration_secs(start: Timestamp, end: Timestamp) -> int {
    if whole_seconds(elapsed_nanos(start, end)) > 0 {
        whole_seconds(elapsed_nanos(start, end))
    } else {
        0
    }
}

fn day_second(secs: i64) -> (r: i64)
    requires
        -MAX_EPOCH_SECS <= secs <= MAX_EPOCH_SECS,
    ensures
        r == (secs as int) % 86400,
{
    let shifted: i128 = secs as i128 + 86400 * 200_000_000;
    assert(shifted >= 0);
    let r: i128 = shifted % 86400;
    proof {
        vstd::arithmetic::div_mod::lemma_mod_add_multiples_vanish(secs as int, 86400);
        assert((secs + 86400 * 200_000_000) % 86400 == secs % 86400) by {
            lemma_mod_shift(secs as int, 200_000_000);
        }
    }
    r as i64
}

proof fn lemma_mod_shift(a: int, k: nat)
    ensures
        (a + 86400 * k) % 86400 == a % 86400,
    decreases k,
{
    if k > 0 {
        lemma_mod_shift(a, (k - 1) as nat);
        vstd::arithmetic::div_mod::lemma_mod_add_multiples_vanish(a + 86400 * (k - 1), 86400);
        assert(a + 86400 * k == (a + 86400 * (k - 1)) + 86400) by (nonlinear_arith);
    }
}

/// Whether `a` comes strictly before `b`.
pub fn is_before(a: Timestamp, b: Timestamp) -> (r: bool)
    ensures
        r == a.before(b),
{
    a.secs < b.secs || (a.secs == b.secs && a.nanos < b.nanos)
}

/// The recorded length, in whole seconds, of a session from `start` to
/// `end`: zero when `end` is not later.
pub fn session_duration(start: Timestamp, end: Timestamp) -> (d: u64)
    requires
        start.valid(),
        end.valid(),
    ensures
        d == duration_secs(start, end),
{
    let ss = day_second(start.secs);
    let se = day_second(end.secs);
    let corr: i128 = if se > ss && start.nanos >= 1_000_000_000 {
        1
    } else if se < ss && end.nanos >= 1_000_000_000 {
        -1
    } else {
        0
    };
    let secs: i128 = end.secs as i128 - start.secs as i128 + corr;
    let total: i128 = secs * NANOS_PER_SEC + (end.nanos as i128 - start.nanos as i128);
    assert(total == elapsed_nanos(start, end));
    if total >= NANOS_PER_SEC {
        let w: i128 = total / NANOS_PER_SEC;
        assert(w <= total);
        proof {
            vstd::arithmetic::div_mod::lemma_div_is_ordered(NANOS_PER_SEC as int, total as int, NANOS_PER_SEC as int);
        }
        assert(w >= 1);
        assert(total <= 2 * MAX_EPOCH_SECS * NANOS_PER_SEC + 4 * NANOS_PER_SEC);
        proof {
            vstd::arithmetic::div_mod::lemma_div_is_ordered(total as int, (2 * MAX_EPOCH_SECS * NANOS_PER_SEC + 4 * NANOS_PER_SEC) as int, NANOS_PER_SEC as int);
        }
        w as u64
    } else {
        assert(whole_seconds(total as int) <= 0) by {
            if total >= 0 {
                vstd::arithmetic::div_mod::lemma_basic_div_specific_divisor(NANOS_PER_SEC as int);
            }
        }
        0
    }
}

/// What parsing a text as an RFC 3339 UTC instant
/// (`str::parse::<chrono::DateTime<chrono::Utc>>`) gives: the instant's
/// epoch seconds and nanoseconds, or the text of the parse error.
pub uninterp spec fn datetime_parse(s: Seq<char>) -> Result<(i64, u32), Seq<char>>;

/// Parses an RFC 3339 instant with chrono.  The result is the named parse
/// outcome of the text; a parsed instant lies in chrono's date range (years
/// -262144 to 262143) and its nanoseconds are below two billion, as chrono's
/// documentation of `timestamp_subsec_nanos` states.
#[verifier::external_body]
fn parse_utc(s: &str) -> (r: Result<(i64, u32), String>)
    ensures
        match r {
            Ok(t) => datetime_parse(s@) == Ok::<(i64, u32), Seq<char>>(t)
                && -MAX_EPOCH_SECS <= t.0 <= MAX_EPOCH_SECS && t.1 < 2_000_000_000,
            Err(m) => datetime_parse(s@) == Err::<(i64, u32), Seq<char>>(m@),
        },
{
    match s.parse::<chrono::DateTime<chrono::Utc>>() {
        Ok(d) => Ok((d.timestamp(), d.timestamp_subsec_nanos())),
        Err(e) => Err(e.to_string()),
    }
}

/// Parses an RFC 3339 instant; on failure, the text of the parse error.
pub fn parse_timestamp(s: &str) -> (r: Result<Timestamp, String>)
    ensures
        match datetime_parse(s@) {
            Ok(t) => r == Ok::<Timestamp, String>(Timestamp { secs: t.0, nanos: t.1 }),
            Err(m) => r matches Err(e) && e@ == m,
        },
        r matches Ok(t) ==> t.valid(),
{
    match parse_utc(s) {
        Ok(t) => Ok(Timestamp { secs: t.0, nanos: t.1 }),
        Err(m) => Err(m),
    }
}

} // verus!
