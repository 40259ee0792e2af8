use vstd::prelude::*;

verus! {

/// Earliest wall-clock second the record model accepts:
/// 0000-01-01T00:00:00Z, counted in seconds relative to the Unix epoch.
pub const TS_MIN: i64 = -62167219200;

/// Latest wall-clock second the record model accepts:
/// 9999-12-31T23:59:59Z, counted in seconds relative to the Unix epoch.
pub const TS_MAX: i64 = 253402300799;

/// A timestamp the store can hold: a whole second that has a four-digit
/// year, so that its text form is well defined.
pub open spec fn ts_valid(t: i64) -> bool {
    TS_MIN <= t <= TS_MAX
}

/// The canonical text of the whole second `t`, as chrono's `to_rfc3339`
/// writes it for a UTC datetime (for example `2024-01-15T10:30:00+00:00`).
pub uninterp spec fn rfc3339_of(t: i64) -> Seq<char>;

/// The second that chrono's `parse_from_rfc3339` reads out of `s`,
/// or `None` where `s` is not an RFC 3339 date-and-time text.
pub uninterp spec fn rfc3339_val(s: Seq<char>) -> Option<i64>;

/// Relies on chrono's `DateTime::from_timestamp` (defined on every second
/// a four-digit year can hold) and `DateTime::to_rfc3339`: the text
/// depends on the second alone, and `parse_from_rfc3339` reads the very
/// same second back out of it.
#[verifier::external_body]
pub fn format_rfc3339(t: i64) -> (r: String)
    requires
        ts_valid(t),
    ensures
        r@ == rfc3339_of(t),
        rfc3339_val(r@) == Some(t),
{
    chrono::DateTime::from_timestamp(t, 0).unwrap().to_rfc3339()
}

/// Relies on chrono's `DateTime::parse_from_rfc3339` and
/// `DateTime::timestamp`: the parsed second is a function of the text
/// alone.
#[verifier::external_body]
pub fn parse_rfc3339(s: &str) -> (r: Option<i64>)
    ensures
        r == rfc3339_val(s@),
{
    match chrono::DateTime::parse_from_rfc3339(s) {
        Ok(d) => Some(d.timestamp()),
        Err(_) => None,
    }
}

/// Relies on chrono's `Utc::now` and `DateTime::timestamp`. Nothing is
/// promised of the machine clock; callers clamp the value themselves.
#[verifier::external_body]
pub fn now_secs() -> (r: i64) {
    chrono::Utc::now().timestamp()
}

/// The value of `t` moved into the accepted range: what the record model
/// uses when the machine clock reports a second outside it.
pub open spec fn clamped(t: i64) -> i64 {
    if t < TS_MIN {
        TS_MIN
    } else if t > TS_MAX {
        TS_MAX
    } else {
        t
    }
}

/// Moves a clock reading into the accepted timestamp range.
pub fn clamp_timestamp(t: i64) -> (r: i64)
    ensures
        r == clamped(t),
        ts_valid(r),
        ts_valid(t) ==> r == t,
{
    if t < TS_MIN {
        TS_MIN
    } else if t > TS_MAX {
        TS_MAX
    } else {
        t
    }
}

} // verus!
