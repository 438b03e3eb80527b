use vstd::prelude::*;

use chrono::{Datelike, Timelike};

use crate::text::{nat_decimal, push_char, push_str, push_u64_decimal, push_i64_decimal, int_decimal};

verus! {

/// The width of a time bucket.
#[derive(Clone, Copy, PartialEq, Eq, Structural, Debug)]
pub enum TimeBucketSize {
    Minutes(u32),
    Hours(u32),
    Days(u32),
    Weeks(u32),
    Months(u32),
}

/// How timestamps are grouped into buckets: the width, an offset in hours
/// applied before grouping, and whether buckets are aligned.
pub struct TimeBucketConfig {
    pub bucket_size: TimeBucketSize,
    pub timezone_offset: i32,
    pub align_to_bucket: bool,
}

impl TimeBucketConfig {
    /// One-hour buckets in UTC, aligned.
    pub fn default() -> (c: Self)
        ensures
            c.bucket_size == TimeBucketSize::Hours(1),
            c.timezone_offset == 0,
            c.align_to_bucket,
    {
        TimeBucketConfig { bucket_size: TimeBucketSize::Hours(1), timezone_offset: 0, align_to_bucket: true }
    }
}

/// The calendar fields (year, month, day, hour, minute, ISO week number)
/// of the UTC instant `ts_nanos` (nanoseconds since the Unix epoch) moved
/// by `offset_hours` hours, as chrono computes them.
pub uninterp spec fn civil_fields(ts_nanos: i64, offset_hours: i32) -> (i32, u32, u32, u32, u32, u32);

/// Calendar fields of a moved instant, by `chrono`:
/// `DateTime::from_timestamp_nanos`, `+ Duration::hours`, then `year`,
/// `month`, `day`, `hour`, `minute` and `iso_week().week()`.
///
/// The contract names the result and states the ranges that chrono
/// documents for each field. (An `i64` of nanoseconds reaches the years
/// 1677 to 2262, and an `i32` of hours moves an instant by at most about
/// 245,000 years, inside chrono's range of about 262,000 years either side
/// of year 0, so the addition cannot leave that range.)
#[verifier::external_body]
fn calendar_fields(ts_nanos: i64, offset_hours: i32) -> (f: (i32, u32, u32, u32, u32, u32))
    ensures
        f == civil_fields(ts_nanos, offset_hours),
        1 <= f.1 <= 12,
        1 <= f.2 <= 31,
        f.3 <= 23,
        f.4 <= 59,
        1 <= f.5 <= 53,
{
    let t = chrono::DateTime::from_timestamp_nanos(ts_nanos) + chrono::Duration::hours(offset_hours as i64);
    (t.year(), t.month(), t.day(), t.hour(), t.minute(), t.iso_week().week())
}

/// The width is not zero.
pub open spec fn size_nonzero(s: TimeBucketSize) -> bool {
    match s {
        TimeBucketSize::Minutes(n) => n > 0,
        TimeBucketSize::Hours(n) => n > 0,
        TimeBucketSize::Days(n) => n > 0,
        TimeBucketSize::Weeks(n) => n > 0,
        TimeBucketSize::Months(n) => n > 0,
    }
}

/// The bucket key of calendar fields `f` under width `s`:
/// `Y-M-D_H:m` with the minute rounded down to the width, `Y-M-D_H` with
/// the hour rounded down, `Y-M-D` with the day rounded down, `Y-W<n>` with
/// the ISO week divided by the width, or `Y-M<n>` with the zero-based month
/// divided by the width, plus one.
pub open spec fn bucket_key_from(f: (i32, u32, u32, u32, u32, u32), s: TimeBucketSize) -> Seq<char> {
    let y = int_decimal(f.0 as int);
    let mo = nat_decimal(f.1 as nat);
    let d = nat_decimal(f.2 as nat);
    let h = nat_decimal(f.3 as nat);
    match s {
        TimeBucketSize::Minutes(n) => y + seq!['-'] + mo + seq!['-'] + d + seq!['_'] + h + seq![':']
            + nat_decimal(((f.4 / n) * n) as nat),
        TimeBucketSize::Hours(n) => y + seq!['-'] + mo + seq!['-'] + d + seq!['_'] + nat_decimal(((f.3 / n) * n) as nat),
        TimeBucketSize::Days(n) => y + seq!['-'] + mo + seq!['-'] + nat_decimal(((f.2 / n) * n) as nat),
        TimeBucketSize::Weeks(n) => y + "-W"@ + nat_decimal((f.5 / n) as nat),
        TimeBucketSize::Months(n) => y + "-M"@ + nat_decimal(((f.1 - 1) / (n as int) + 1) as nat),
    }
}

/// Formats the bucket key of calendar fields `f` (year, month, day, hour,
/// minute, ISO week) under width `size`.
pub fn format_bucket_key(f: (i32, u32, u32, u32, u32, u32), size: TimeBucketSize) -> (s: String)
    requires
        size_nonzero(size),
        1 <= f.1,
    ensures
        s@ == bucket_key_from(f, size),
{
    let mut s = String::new();
    push_i64_decimal(&mut s, f.0 as i64);
    match size {
        TimeBucketSize::Minutes(n) => {
            push_char(&mut s, '-');
            push_u64_decimal(&mut s, f.1 as u64);
            push_char(&mut s, '-');
            push_u64_decimal(&mut s, f.2 as u64);
            push_char(&mut s, '_');
            push_u64_decimal(&mut s, f.3 as u64);
            push_char(&mut s, ':');
            let b = f.4 / n;
            assert(b * n <= f.4) by (nonlinear_arith)
                requires
                    n > 0,
                    b == f.4 / n,
            ;
            push_u64_decimal(&mut s, (b * n) as u64);
        },
        TimeBucketSize::Hours(n) => {
            push_char(&mut s, '-');
            push_u64_decimal(&mut s, f.1 as u64);
            push_char(&mut s, '-');
            push_u64_decimal(&mut s, f.2 as u64);
            push_char(&mut s, '_');
            let b = f.3 / n;
            assert(b * n <= f.3) by (nonlinear_arith)
                requires
                    n > 0,
                    b == f.3 / n,
            ;
            push_u64_decimal(&mut s, (b * n) as u64);
        },
        TimeBucketSize::Days(n) => {
            push_char(&mut s, '-');
            push_u64_decimal(&mut s, f.1 as u64);
            push_char(&mut s, '-');
            let b = f.2 / n;
            assert(b * n <= f.2) by (nonlinear_arith)
                requires
                    n > 0,
                    b == f.2 / n,
            ;
            push_u64_decimal(&mut s, (b * n) as u64);
        },
        TimeBucketSize::Weeks(n) => {
            push_str(&mut s, "-W");
            push_u64_decimal(&mut s, (f.5 / n) as u64);
        },
        TimeBucketSize::Months(n) => {
            push_str(&mut s, "-M");
            let b = (f.1 - 1) / n;
            assert(b < f.1) by (nonlinear_arith)
                requires
                    n > 0,
                    f.1 >= 1,
                    b == (f.1 - 1) / (n as int),
            ;
            push_u64_decimal(&mut s, (b + 1) as u64);
        },
    }
    assert(s@ =~= bucket_key_from(f, size));
    s
}

/// The bucket key of a timestamp (nanoseconds since the Unix epoch) under
/// `config`: the calendar fields of the instant moved by the configured
/// offset, formatted by `format_bucket_key`.
pub fn get_time_bucket_key(timestamp: i64, config: &TimeBucketConfig) -> (s: String)
    requires
        size_nonzero(config.bucket_size),
    ensures
        s@ == bucket_key_from(civil_fields(timestamp, config.timezone_offset), config.bucket_size),
{
    let f = calendar_fields(timestamp, config.timezone_offset);
    format_bucket_key(f, config.bucket_size)
}

/// The version of this library.
pub fn version() -> (v: String)
    ensures
        v@ == "0.1.0"@,
{
    "0.1.0".to_owned()
}

} // verus!
