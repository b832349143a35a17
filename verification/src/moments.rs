//! Points in time.
//!
//! They are those of the `time` crate. What is taken from it on trust stands
//! here.

use time::OffsetDateTime;
use vstd::prelude::*;

verus! {

/// A point in time, with the offset from UTC at which it is told.
#[verifier::external_type_specification]
#[verifier::external_body]
pub struct ExOffsetDateTime(OffsetDateTime);

/// A number that is no point in time.
#[verifier::external_type_specification]
#[verifier::external_body]
pub struct ExComponentRange(time::error::ComponentRange);

/// A point in time that cannot be written.
#[verifier::external_type_specification]
#[verifier::external_body]
pub struct ExFormat(time::error::Format);

/// The nanoseconds in a second.
pub const NANOS: i128 = 1_000_000_000;

/// The first second that can be told: the start of the year -9999.
pub const FIRST_SECOND: i64 = -377_705_116_800;

/// The last second that can be told: the end of the year 9999.
pub const LAST_SECOND: i64 = 253_402_300_799;

/// The nanoseconds from the start of 1970, UTC, to a point in time.
pub uninterp spec fn instant(t: OffsetDateTime) -> int;

/// The offset from UTC, in seconds, at which a point in time is told.
pub uninterp spec fn utc_offset(t: OffsetDateTime) -> int;

/// A point in time, told at an offset from UTC, as RFC 3339 writes it.
pub uninterp spec fn rfc3339(instant: int, utc_offset: int) -> Option<Seq<char>>;

/// Whether RFC 3339 can write a point in time: the year has four digits and no
/// sign, and the offset is less than a day and made up of whole minutes.
pub open spec fn rfc3339_can_write(instant: int, utc_offset: int) -> bool {
    &&& -62_167_219_200 <= instant / NANOS as int + utc_offset <= 253_402_300_799
    &&& -86_400 < utc_offset < 86_400
    &&& utc_offset % 60 == 0
}

/// `OffsetDateTime::from_unix_timestamp`: the point in time so many seconds
/// after the start of 1970, told in UTC, if its year is one that can be told.
#[verifier::external_body]
pub(crate) fn from_unix_timestamp(seconds: i64) -> (r: Result<
    OffsetDateTime,
    time::error::ComponentRange,
>)
    ensures
        match r {
            Ok(t) => {
                &&& FIRST_SECOND <= seconds <= LAST_SECOND
                &&& instant(t) == seconds * NANOS
                &&& utc_offset(t) == 0
            },
            Err(_) => seconds < FIRST_SECOND || seconds > LAST_SECOND,
        },
{
    OffsetDateTime::from_unix_timestamp(seconds)
}

/// `OffsetDateTime::unix_timestamp_nanos`: the nanoseconds since the start of
/// 1970. Years have four digits at most, and offsets are under two days.
#[verifier::external_body]
pub(crate) fn unix_timestamp_nanos(t: &OffsetDateTime) -> (nanos: i128)
    ensures
        nanos == instant(*t),
        (FIRST_SECOND - 172_800) * NANOS <= nanos <= (LAST_SECOND + 172_800) * NANOS,
{
    t.unix_timestamp_nanos()
}

/// `OffsetDateTime::now_utc`: the present, told in UTC. Nothing more is known
/// of it.
#[verifier::external_body]
pub(crate) fn now_utc() -> (t: OffsetDateTime)
    ensures
        utc_offset(t) == 0,
{
    OffsetDateTime::now_utc()
}

/// `OffsetDateTime::format` with `Rfc3339`: the text for a point in time. It
/// fails where RFC 3339 cannot write it.
#[verifier::external_body]
pub(crate) fn format_rfc3339(t: &OffsetDateTime) -> (r: Result<String, time::error::Format>)
    ensures
        match r {
            Ok(written) => rfc3339(instant(*t), utc_offset(*t)) == Some(written@)
                && rfc3339_can_write(instant(*t), utc_offset(*t)),
            Err(_) => rfc3339(instant(*t), utc_offset(*t)) is None && !rfc3339_can_write(
                instant(*t),
                utc_offset(*t),
            ),
        },
{
    t.format(&time::format_description::well_known::Rfc3339)
}

}
