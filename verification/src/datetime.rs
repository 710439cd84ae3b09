use vstd::prelude::*;
use chrono::{DateTime, TimeDelta};
use chrono_humanize::Accuracy::Precise;
use chrono_humanize::HumanTime;
use chrono_humanize::Tense::Present;

verus! {

/// The first second that chrono can represent as a UTC date (-262143-01-01 00:00:00).
pub const MIN_TIMESTAMP: i64 = -8_334_601_228_800;

/// The last second that chrono can represent as a UTC date (+262142-12-31 23:59:59).
pub const MAX_TIMESTAMP: i64 = 8_210_266_876_799;

/// The largest number of minutes that fits in a chrono duration (`i64::MAX` milliseconds).
pub const MAX_DURATION_MINUTES: i64 = 153_722_867_280_912;

/// Whether `seconds` since the UNIX epoch names a representable UTC date and time.
pub open spec fn timestamp_in_range(seconds: int) -> bool {
    MIN_TIMESTAMP <= seconds <= MAX_TIMESTAMP
}

/// Integer division that rounds toward zero, as Rust's `/` on signed integers does.
pub open spec fn div_toward_zero(a: int, b: int) -> int {
    if a >= 0 {
        a / b
    } else {
        -((-a) / b)
    }
}

/// Whole minutes elapsed from `earlier` to `later` (negative when `later` comes first),
/// rounded toward zero.
pub open spec fn minutes_between_spec(later: int, earlier: int) -> int {
    div_toward_zero(later - earlier, 60)
}

/// A UTC point in time, held as whole seconds since the UNIX epoch.
///
/// Every value that `get_time` hands out lies in the range chrono can represent.
#[derive(Clone, Copy, Debug, PartialEq, Eq)]
pub struct UtcTime {
    pub seconds: i64,
}

impl UtcTime {
    /// The point in time lies in chrono's representable range.
    pub open spec fn wf(&self) -> bool {
        timestamp_in_range(self.seconds as int)
    }
}

/// Calls `chrono::DateTime::<Utc>::from_timestamp(seconds, 0)` and reports whether it gave a
/// date.
///
/// Claims what chrono's source shows: the call succeeds exactly when `seconds` falls between
/// the first second of -262143-01-01 and the last second of +262142-12-31.
#[verifier::external_body]
fn utc_timestamp_exists(seconds: i64) -> (res: bool)
    ensures
        res == timestamp_in_range(seconds as int),
{
    DateTime::from_timestamp(seconds, 0).is_some()
}

/// Calls `chrono::TimeDelta::seconds(seconds).num_minutes()`.
///
/// Claims what chrono's source shows: a delta of whole seconds within `i64::MAX` milliseconds
/// is built without panicking, and `num_minutes` divides its seconds by 60, rounding toward zero.
#[verifier::external_body]
fn delta_minutes(seconds: i64) -> (res: i64)
    requires
        -9_223_372_036_854_775 <= seconds <= 9_223_372_036_854_775,
    ensures
        res as int == div_toward_zero(seconds as int, 60),
{
    TimeDelta::seconds(seconds).num_minutes()
}

/// The English text that chrono_humanize gives a chrono duration of `minutes` minutes, with
/// precise accuracy and present tense (such as "2 hours and 5 minutes").
pub uninterp spec fn humanized_minutes_text(minutes: int) -> Seq<char>;

/// Calls `chrono_humanize::HumanTime::to_text_en(Precise, Present)` on
/// `chrono::TimeDelta::minutes(minutes)`.
///
/// Claims that the text depends on `minutes` alone (it is named, not spelled out), that it is
/// never empty (it starts with the text of at least one period, such as "0 seconds"), and that
/// the duration is built without panicking for minute counts within `i64::MAX` milliseconds.
#[verifier::external_body]
fn humanize_minutes(minutes: i64) -> (res: String)
    requires
        -MAX_DURATION_MINUTES <= minutes <= MAX_DURATION_MINUTES,
    ensures
        res@ == humanized_minutes_text(minutes as int),
        res@.len() > 0,
{
    HumanTime::from(TimeDelta::minutes(minutes)).to_text_en(Precise, Present)
}

/// Get a UTC time from seconds since the UNIX epoch
///
/// Returns `None` when chrono cannot represent the date.
///
/// * `seconds` - seconds to convert into a UTC time
pub fn get_time(seconds: i64) -> (res: Option<UtcTime>)
    ensures
        res is Some <==> timestamp_in_range(seconds as int),
        res matches Some(t) ==> t.seconds == seconds && t.wf(),
{
    if utc_timestamp_exists(seconds) {
        Some(UtcTime { seconds })
    } else {
        None
    }
}

/// Whole minutes from `earlier` to `later`, rounded toward zero (negative when `later` is the
/// earlier of the two): the minutes of `later - earlier` as a chrono duration.
pub fn minutes_between(later: &UtcTime, earlier: &UtcTime) -> (res: i64)
    requires
        later.wf(),
        earlier.wf(),
    ensures
        res as int == minutes_between_spec(later.seconds as int, earlier.seconds as int),
{
    delta_minutes(later.seconds - earlier.seconds)
}

/// Get "humanized" (X hours X minutes) time from minutes
///
/// * `minutes` - minutes to convert into "humanized" time
pub fn get_humanized_minutes(minutes: i64) -> (res: String)
    requires
        -MAX_DURATION_MINUTES <= minutes <= MAX_DURATION_MINUTES,
    ensures
        res@ == humanized_minutes_text(minutes as int),
        res@.len() > 0,
{
    humanize_minutes(minutes)
}

/// The minutes between two times have the same size whichever of them comes first: only
/// their sign flips.
pub proof fn lemma_minutes_between_antisymmetric(a: int, b: int)
    ensures
        minutes_between_spec(a, b) == -minutes_between_spec(b, a),
{
}

} // verus!
