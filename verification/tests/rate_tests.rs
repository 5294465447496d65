use appi::error::Error;
use appi::rate::{check_github_rate_limit, minutes_between};

#[test]
fn spent_budget_reports_minutes_until_reset() {
    let now: i64 = 1_700_000_000;
    let reset = now + 5 * 60;
    let r = check_github_rate_limit(0, reset, now);
    assert_eq!(r, Err(Error::QuotaExceeded { minutes: 5 }));
}

#[test]
fn remaining_budget_passes_the_gate() {
    let now: i64 = 1_700_000_000;
    assert_eq!(check_github_rate_limit(1, now, now), Ok(()));
    assert_eq!(check_github_rate_limit(4999, now + 3600, now), Ok(()));
}

#[test]
fn minutes_truncate_toward_zero() {
    let now: i64 = 1_700_000_000;
    assert_eq!(minutes_between(now + 59, now), 0);
    assert_eq!(minutes_between(now + 60, now), 1);
    assert_eq!(minutes_between(now + 299, now), 4);
    assert_eq!(minutes_between(now - 90, now), -1);
    assert_eq!(minutes_between(now - 30, now), 0);
}
