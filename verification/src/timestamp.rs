//! Commit timestamps: an instant in milliseconds with the author's UTC offset.

use vstd::prelude::*;

verus! {

/// An instant, in milliseconds since the Unix epoch, with a fixed UTC offset in seconds.
#[derive(Debug, Clone, Copy, PartialEq, Eq, Structural)]
pub struct Timestamp {
    pub millis: i64,
    pub offset_seconds: i32,
}

/// The instants, in milliseconds since the epoch, that chrono represents:
/// from -262143-01-01 00:00:00.000 to 262142-12-31 23:59:59.999 UTC, the
/// range of its dates (`NaiveDate::MIN` to `NaiveDate::MAX`).
pub open spec fn representable_millis(millis: i64) -> bool {
    -8_334_601_228_800_000 <= millis <= 8_210_266_876_799_999
}

/// The text that `chrono` renders for the instant `millis` at the UTC offset
/// `offset_seconds` with the format string `pattern`.
pub uninterp spec fn formatted_time(millis: i64, offset_seconds: i32, pattern: Seq<char>) -> Seq<char>;

/// `chrono::DateTime::from_timestamp_millis(millis).is_some()`: whether the
/// instant lies in the range of dates that chrono represents. The source
/// splits `millis` into seconds and milliseconds, and `from_timestamp` accepts
/// the day exactly when `NaiveDate::from_num_days_from_ce_opt` does, which
/// is the range `representable_millis` states.
#[verifier::external_body]
fn millis_in_range(millis: i64) -> (res: bool)
    ensures
        res == representable_millis(millis),
{
    chrono::DateTime::from_timestamp_millis(millis).is_some()
}

/// The offsets that `chrono::FixedOffset::east_opt` accepts: strictly within a day.
pub open spec fn valid_offset(seconds: int) -> bool {
    -86_400 < seconds < 86_400
}

/// The format strings that the views render timestamps with.
pub open spec fn supported_pattern(p: Seq<char>) -> bool {
    ||| p == "%Y-%m-%d"@
    ||| p == "%Y-%m-%d %H:%M"@
    ||| p == "%a, %d %b %Y %H:%M"@
    ||| p == "%Y-%m-%d %H:%M:%S %z"@
}

/// Renders a timestamp with `chrono`: `DateTime::from_timestamp_millis`,
/// shifted to `FixedOffset::east_opt(offset)`, then `format(pattern)`.
/// The text itself is left to the name `formatted_time`; the claim is only
/// that it depends on the instant, the offset and the pattern alone. The
/// patterns are restricted to ones whose specifiers chrono knows, since an
/// unknown specifier makes the rendering panic.
#[verifier::external_body]
pub(crate) fn format_timestamp(ts: &Timestamp, pattern: &str) -> (res: String)
    requires
        supported_pattern(pattern@),
    ensures
        res@ == formatted_time(ts.millis, ts.offset_seconds, pattern@),
{
    let utc = chrono::FixedOffset::east_opt(0).unwrap();
    let offset = chrono::FixedOffset::east_opt(ts.offset_seconds).unwrap_or(utc);
    chrono::DateTime::from_timestamp_millis(ts.millis).unwrap_or_default().with_timezone(
        &offset,
    ).format(pattern).to_string()
}

impl Timestamp {
    /// The timestamp of a jj signature: `millis` since the epoch and a
    /// timezone offset in minutes. An offset that chrono does not accept
    /// becomes UTC, and an instant out of chrono's range becomes the epoch.
    pub fn from_jj(millis: i64, tz_offset_minutes: i32) -> (res: Timestamp)
        requires
            i32::MIN <= tz_offset_minutes * 60 <= i32::MAX,
        ensures
            res.offset_seconds == (if valid_offset(tz_offset_minutes * 60) {
                tz_offset_minutes * 60
            } else {
                0
            }),
            res.millis == (if representable_millis(millis) {
                millis
            } else {
                0
            }),
    {
        let secs = tz_offset_minutes * 60;
        let offset_seconds = if -86_400 < secs && secs < 86_400 {
            secs
        } else {
            0
        };
        let millis = if millis_in_range(millis) {
            millis
        } else {
            0
        };
        Timestamp { millis, offset_seconds }
    }

    /// Renders the timestamp with one of the view's format strings.
    pub fn format(&self, pattern: &str) -> (res: String)
        requires
            supported_pattern(pattern@),
        ensures
            res@ == formatted_time(self.millis, self.offset_seconds, pattern@),
    {
        format_timestamp(self, pattern)
    }
}

} // verus!
