//! The code-host request-budget gate.
//!
//! Before any code-host query the engine reads the platform's rate signal:
//! the number of requests left and the Unix time at which the budget resets.
//! A spent budget fails the operation right away — before the primary
//! request — with the whole minutes until the reset, measured from the
//! caller's clock.

use vstd::prelude::*;

use crate::error::Error;

verus! {

/// Whole minutes from `now` until `reset`, truncated toward zero; negative
/// when the reset lies in the past.
pub open spec fn minutes_until(reset: int, now: int) -> int {
    if reset >= now {
        (reset - now) / 60
    } else {
        -((now - reset) / 60)
    }
}

/// Whole minutes between two Unix times, truncated toward zero.
pub fn minutes_between(reset: i64, now: i64) -> (r: i64)
    ensures
        r == minutes_until(reset as int, now as int),
{
    if reset >= now {
        let d: u64 = (reset as i128 - now as i128) as u64;
        proof {
            assert(d == reset - now);
        }
        let m: u64 = d / 60;
        proof {
            assert(m <= d);
        }
        m as i64
    } else {
        let d: u64 = (now as i128 - reset as i128) as u64;
        proof {
            assert(d == now - reset);
        }
        let m: u64 = d / 60;
        proof {
            assert(m <= d);
        }
        -(m as i64)
    }
}

/// Gate a code-host query on the platform's rate signal: pass when requests
/// remain, and fail with the whole minutes until the reset when the budget
/// is spent — before any further request is made.
pub fn check_github_rate_limit(remaining: u32, reset: i64, now: i64) -> (r: Result<(), Error>)
    ensures
        remaining > 0 ==> r is Ok,
        remaining == 0 ==> r == Err::<(), Error>(
            Error::QuotaExceeded { minutes: minutes_until(reset as int, now as int) as i64 },
        ),
{
    if remaining == 0 {
        let minutes = minutes_between(reset, now);
        return Err(Error::QuotaExceeded { minutes });
    }
    Ok(())
}

} // verus!
