//! The wall clock, read from the operating system.

use vstd::prelude::*;

verus! {

/// A reading of the system clock against the Unix epoch, in whole seconds and the
/// nanoseconds beyond them: `Ok` at or after the epoch, `Err` for how far before it.
pub open spec fn reading_seconds(reading: Result<(u64, u32), (u64, u32)>) -> int {
    match reading {
        Ok((s, _)) => s as int,
        Err((s, ns)) => if ns > 0 {
            -(s as int) - 1
        } else {
            -(s as int)
        },
    }
}

#[verifier::external_type_specification]
#[verifier::external_body]
pub struct ExSystemTime(std::time::SystemTime);

/// Calls `std::time::SystemTime::now()`. Nothing is claimed of the instant: it depends
/// on the clock.
#[verifier::external_body]
pub(crate) fn system_now() -> std::time::SystemTime {
    std::time::SystemTime::now()
}

/// Calls `duration_since(UNIX_EPOCH)` on an instant and hands out the distance in whole
/// seconds and nanoseconds: `Ok` at or after the epoch, `Err` (the distance, which
/// `SystemTimeError::duration` gives) before it; the call returns that error rather than
/// panicking. Nothing is claimed of the distance: an instant is opaque here.
#[verifier::external_body]
pub(crate) fn since_unix_epoch(t: std::time::SystemTime) -> Result<(u64, u32), (u64, u32)> {
    match t.duration_since(std::time::UNIX_EPOCH) {
        Ok(after) => Ok((after.as_secs(), after.subsec_nanos())),
        Err(before) => Err((before.duration().as_secs(), before.duration().subsec_nanos())),
    }
}

/// The Unix time of a clock reading, in whole seconds rounded down, when it fits an `i64`.
pub fn unix_seconds(reading: Result<(u64, u32), (u64, u32)>) -> (r: Option<i64>)
    ensures
        r == (if i64::MIN <= reading_seconds(reading) <= i64::MAX {
            Some(reading_seconds(reading) as i64)
        } else {
            None
        }),
{
    match reading {
        Ok((s, _)) => {
            if s <= 9223372036854775807u64 {
                Some(s as i64)
            } else {
                None
            }
        },
        Err((s, ns)) => {
            if ns > 0 {
                if s <= 9223372036854775807u64 {
                    Some(-(s as i64) - 1)
                } else {
                    None
                }
            } else {
                if s <= 9223372036854775808u64 {
                    if s == 9223372036854775808u64 {
                        Some(i64::MIN)
                    } else {
                        Some(-(s as i64))
                    }
                } else {
                    None
                }
            }
        },
    }
}

} // verus!
