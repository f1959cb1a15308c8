//! Instants in UTC and their RFC 3339 (ISO 8601) text, read and written
//! through `chrono`.

use vstd::prelude::*;

verus! {

/// An instant: whole seconds since 1970-01-01T00:00:00Z and the
/// nanoseconds past them (`chrono::DateTime<Utc>` as `timestamp()` and
/// `timestamp_subsec_nanos()` give it).
#[derive(Clone, Copy, Debug, PartialEq, Eq, Structural)]
pub struct UtcTime {
    pub secs: i64,
    pub nanos: u32,
}

/// How many digits of the seconds fraction the RFC 3339 text shows
/// (`chrono::SecondsFormat::Secs` or `AutoSi`).
#[derive(Clone, Copy, Debug, PartialEq, Eq, Structural)]
pub enum SecondsFormat {
    /// Whole seconds only.
    Secs,
    /// As many groups of three digits as the nanoseconds need.
    AutoSi,
}

/// The instant that `chrono` reads from the RFC 3339 text `s`, as
/// (seconds, nanoseconds) in UTC, or `None` where it rejects the text.
pub uninterp spec fn rfc3339_instant(s: Seq<char>) -> Option<(i64, u32)>;

/// The RFC 3339 text, with `Z` for UTC, that `chrono` writes for the
/// instant (`secs`, `nanos`) in the given format, or `None` where `chrono`
/// cannot represent the instant.
pub uninterp spec fn rfc3339_text(secs: i64, nanos: u32, whole_seconds: bool) -> Option<Seq<char>>;

/// `chrono::DateTime::<FixedOffset>::parse_from_rfc3339(s)`, taken to UTC
/// with `with_timezone(&Utc)`.  Claims only that the result is the named
/// function of the text.
#[verifier::external_body]
pub(crate) fn parse_rfc3339(s: &str) -> (r: Option<UtcTime>)
    ensures
        r matches Some(t) ==> rfc3339_instant(s@) == Some((t.secs, t.nanos)),
        r is None ==> rfc3339_instant(s@) is None,
{
    match chrono::DateTime::<chrono::FixedOffset>::parse_from_rfc3339(s) {
        Ok(d) => {
            let u = d.with_timezone(&chrono::Utc);
            Some(UtcTime { secs: u.timestamp(), nanos: u.timestamp_subsec_nanos() })
        },
        Err(_) => None,
    }
}

/// `chrono::DateTime::from_timestamp(secs, nanos)` written with
/// `to_rfc3339_opts(format, true)`.  Claims only that the result is the
/// named function of the instant and the format.
#[verifier::external_body]
pub(crate) fn format_rfc3339(t: &UtcTime, format: SecondsFormat) -> (r: Option<String>)
    ensures
        r matches Some(x) ==> rfc3339_text(t.secs, t.nanos, format == SecondsFormat::Secs) == Some(x@),
        r is None ==> rfc3339_text(t.secs, t.nanos, format == SecondsFormat::Secs) is None,
{
    let f = match format {
        SecondsFormat::Secs => chrono::SecondsFormat::Secs,
        SecondsFormat::AutoSi => chrono::SecondsFormat::AutoSi,
    };
    match chrono::DateTime::from_timestamp(t.secs, t.nanos) {
        Some(d) => Some(d.to_rfc3339_opts(f, true)),
        None => None,
    }
}

/// `chrono::Utc::now()`.  The instant itself depends on the clock and is
/// left unsaid; claimed is only that it is one that `chrono` writes as
/// RFC 3339 text, since `Utc::now` builds it with
/// `DateTime::from_timestamp(..).unwrap()` from nanoseconds below one
/// second, and `to_rfc3339_opts` writes every such instant.
#[verifier::external_body]
pub(crate) fn now_utc() -> (r: UtcTime)
    ensures
        rfc3339_text(r.secs, r.nanos, true) is Some,
        rfc3339_text(r.secs, r.nanos, false) is Some,
{
    let u = chrono::Utc::now();
    UtcTime { secs: u.timestamp(), nanos: u.timestamp_subsec_nanos() }
}

/// A text that is not an RFC 3339 timestamp.
#[derive(Clone, Debug)]
pub struct InvalidTimestamp {
    /// The text that was rejected.
    pub text: String,
}

/// Reads timestamps from their RFC 3339 text.
#[derive(Clone, Copy, Debug)]
pub struct Visitor;

impl Visitor {
    /// What the visitor expects to read.
    pub fn expecting(&self) -> (r: String)
        ensures
            r@ == "an iso8601 timestamp"@,
    {
        String::from_str("an iso8601 timestamp")
    }

    /// The instant that the RFC 3339 text `v` denotes, taken to UTC.
    pub fn visit_str(&self, v: &str) -> (r: Result<UtcTime, InvalidTimestamp>)
        ensures
            match rfc3339_instant(v@) {
                Some((secs, nanos)) => r == Ok::<UtcTime, InvalidTimestamp>(UtcTime { secs, nanos }),
                None => r matches Err(e) && e.text@ == v@,
            },
    {
        match parse_rfc3339(v) {
            Some(t) => Ok(t),
            None => Err(InvalidTimestamp { text: v.to_owned() }),
        }
    }

    /// The same as `visit_str`, for a borrowed text.
    pub fn visit_borrowed_str(&self, v: &str) -> (r: Result<UtcTime, InvalidTimestamp>)
        ensures
            match rfc3339_instant(v@) {
                Some((secs, nanos)) => r == Ok::<UtcTime, InvalidTimestamp>(UtcTime { secs, nanos }),
                None => r matches Err(e) && e.text@ == v@,
            },
    {
        self.visit_str(v)
    }

    /// The same as `visit_str`, for an owned text.
    pub fn visit_string(&self, v: String) -> (r: Result<UtcTime, InvalidTimestamp>)
        ensures
            match rfc3339_instant(v@) {
                Some((secs, nanos)) => r == Ok::<UtcTime, InvalidTimestamp>(UtcTime { secs, nanos }),
                None => r matches Err(e) && e.text@ == v@,
            },
    {
        self.visit_str(v.as_str())
    }
}

/// The text in which a timestamp is stored: RFC 3339 with `Z`, with as many
/// fraction digits as the nanoseconds need; `None` where `chrono` cannot
/// represent the instant.
pub fn serialize(dt: &UtcTime) -> (r: Option<String>)
    ensures
        r matches Some(x) ==> rfc3339_text(dt.secs, dt.nanos, false) == Some(x@),
        r is None ==> rfc3339_text(dt.secs, dt.nanos, false) is None,
{
    format_rfc3339(dt, SecondsFormat::AutoSi)
}

/// Reads a stored timestamp.
pub fn deserialize(text: &str) -> (r: Result<UtcTime, InvalidTimestamp>)
    ensures
        match rfc3339_instant(text@) {
            Some((secs, nanos)) => r == Ok::<UtcTime, InvalidTimestamp>(UtcTime { secs, nanos }),
            None => r matches Err(e) && e.text@ == text@,
        },
{
    Visitor.visit_str(text)
}

} // verus!
