//! When tokens are refreshed. Times are nanoseconds of one monotonic clock.

use vstd::prelude::*;
use vstd::string::*;

use crate::capability::bearer_token_provider::BearerToken;
use crate::text;

verus! {

pub const NANOS_PER_SEC: u128 = 1_000_000_000;

/// A token counts as stale that long before it expires.
pub const TOKEN_EXPIRY_BUFFER_SECS: u64 = 299;

/// Successful refreshes are at least that far apart.
pub const MIN_TOKEN_REFRESH_INTERVAL_SECS: u64 = 10;

/// A failed refresh is tried again after that time.
pub const TOKEN_REFRESH_RETRY_SECS: u64 = 10;

/// A token that does not expire is refreshed after that time.
pub const NON_EXPIRING_REFRESH_SECS: u64 = 31_536_000;

/// So many seconds in nanoseconds.
pub open spec fn secs(n: int) -> int {
    n * 1_000_000_000
}

/// The times that the clock can show, with room for every delay that is added to them.
pub open spec fn in_range(now: u128) -> bool {
    now <= u128::MAX / 2
}

/// A token that can be used without asking for another.
pub open spec fn is_fresh(token: BearerToken, now: int) -> bool {
    match token.expires_on {
        Some(expires_on) => expires_on > now + secs(TOKEN_EXPIRY_BUFFER_SECS as int),
        None => true,
    }
}

/// When a token is refreshed that was acquired at that time: as soon as it is stale, but not
/// before the minimum interval.
pub open spec fn next_refresh(token: BearerToken, now: int) -> int {
    match token.expires_on {
        Some(expires_on) => {
            let stale = expires_on - secs(TOKEN_EXPIRY_BUFFER_SECS as int);
            let floor = now + secs(MIN_TOKEN_REFRESH_INTERVAL_SECS as int);
            if stale < floor {
                floor
            } else {
                stale
            }
        },
        None => now + secs(NON_EXPIRING_REFRESH_SECS as int),
    }
}

/// Refreshes never come in a rush.
pub proof fn refreshes_keep_their_distance(token: BearerToken, now: int)
    ensures
        next_refresh(token, now) >= now + secs(MIN_TOKEN_REFRESH_INTERVAL_SECS as int),
{
}

/// A token that lasts long enough is refreshed exactly when it becomes stale: until then it is
/// fresh, and from then on it is not.
pub proof fn refresh_meets_staleness(token: BearerToken, now: int, at: int)
    requires
        token.expires_on matches Some(expires_on) && expires_on >= now + secs(
            TOKEN_EXPIRY_BUFFER_SECS + MIN_TOKEN_REFRESH_INTERVAL_SECS,
        ),
    ensures
        is_fresh(token, at) == (at < next_refresh(token, now)),
{
}

/// Whether the token can be used without asking for another.
pub fn fresh(token: &BearerToken, now: u128) -> (r: bool)
    requires
        in_range(now),
    ensures
        r == is_fresh(*token, now as int),
{
    match token.expires_on {
        Some(expires_on) => expires_on > now + TOKEN_EXPIRY_BUFFER_SECS as u128 * NANOS_PER_SEC,
        None => true,
    }
}

/// When the token, which was acquired at that time, is refreshed.
pub fn get_next_token_refresh(token: &BearerToken, now: u128) -> (r: u128)
    requires
        in_range(now),
    ensures
        r == next_refresh(*token, now as int),
{
    let floor: u128 = now + MIN_TOKEN_REFRESH_INTERVAL_SECS as u128 * NANOS_PER_SEC;
    match token.expires_on {
        Some(expires_on) => {
            let buffer: u128 = TOKEN_EXPIRY_BUFFER_SECS as u128 * NANOS_PER_SEC;
            if expires_on < buffer {
                floor
            } else if expires_on - buffer < floor {
                floor
            } else {
                expires_on - buffer
            }
        },
        None => now + NON_EXPIRING_REFRESH_SECS as u128 * NANOS_PER_SEC,
    }
}

/// When a refresh that failed at that time is tried again.
pub fn retry_after_failure(now: u128) -> (r: u128)
    requires
        in_range(now),
    ensures
        r == now + secs(TOKEN_REFRESH_RETRY_SECS as int),
        r == now + 10 * 1_000_000_000,
{
    now + TOKEN_REFRESH_RETRY_SECS as u128 * NANOS_PER_SEC
}

/// The seconds from `now_unix` to `unix_secs`, none if that has passed. A difference that is
/// too large counts as the largest.
pub open spec fn secs_until(unix_secs: i64, now_unix: i64) -> int {
    let difference = unix_secs - now_unix;
    if difference < 0 {
        0
    } else if difference > i64::MAX {
        i64::MAX as int
    } else {
        difference
    }
}

/// The time on the monotonic clock for a time in seconds of the UNIX epoch, where `now` and
/// `now_unix` are the present on both.
pub fn unix_secs_to_instant(unix_secs: i64, now_unix: i64, now: u128) -> (r: u128)
    requires
        in_range(now),
    ensures
        r == now + secs(secs_until(unix_secs, now_unix)),
{
    let wide: i128 = unix_secs as i128 - now_unix as i128;
    let delta: u128 = if wide < 0 {
        0
    } else if wide > i64::MAX as i128 {
        i64::MAX as u128
    } else {
        wide as u128
    };
    now + delta * NANOS_PER_SEC
}

/// A span of whole seconds as hours, minutes and seconds.
pub open spec fn span_text(total: nat) -> Seq<char> {
    text::digits(total / 3600) + "h "@ + text::digits((total % 3600) / 60) + "m "@ + text::digits(
        total % 60,
    ) + "s"@
}

/// How long it is until the next refresh, in hours, minutes and seconds.
pub fn refresh_in(next: u128, now: u128) -> (r: String)
    requires
        next <= now + secs(u64::MAX as int),
    ensures
        r@ == span_text(
            if next < now {
                0
            } else {
                ((next - now) / 1_000_000_000) as nat
            },
        ),
{
    let total: u64 = if next < now {
        0
    } else {
        ((next - now) / NANOS_PER_SEC) as u64
    };
    let hours: String = text::decimal(total / 3600);
    let minutes: String = text::decimal((total % 3600) / 60);
    let seconds: String = text::decimal(total % 60);
    let mut r: String = text::joined5(
        hours.as_str(),
        "h ",
        minutes.as_str(),
        "m ",
        seconds.as_str(),
    );
    r.append("s");
    r
}

/// A token counts as fresh while it is more than 299 seconds away from its expiry, or does not
/// expire.
pub proof fn fresh_tokens_last_beyond_the_buffer(token: BearerToken, now: int)
    ensures
        token.expires_on is None ==> is_fresh(token, now),
        token.expires_on matches Some(at) ==> is_fresh(token, now) == (at - now > 299
            * 1_000_000_000),
{
}

/// A token is refreshed 299 seconds before it expires, but never sooner than 10 seconds after it
/// was acquired, and one that does not expire after a year.
pub proof fn refresh_comes_before_expiry(token: BearerToken, now: int)
    ensures
        token.expires_on matches Some(at) ==> {
            &&& at - now >= (299 + 10) * 1_000_000_000 ==> next_refresh(token, now) == at - 299
                * 1_000_000_000
            &&& at - now <= (299 + 10) * 1_000_000_000 ==> next_refresh(token, now) == now + 10
                * 1_000_000_000
        },
        token.expires_on is None ==> next_refresh(token, now) == now + 365 * 24 * 3600
            * 1_000_000_000,
{
}

/// A time of the UNIX epoch that has passed is now, a coming one is as far away as on that
/// clock.
pub proof fn clocks_agree_on_what_is_to_come(unix_secs: i64, now_unix: i64)
    requires
        unix_secs - now_unix <= i64::MAX,
    ensures
        unix_secs <= now_unix ==> secs_until(unix_secs, now_unix) == 0,
        unix_secs >= now_unix ==> now_unix + secs_until(unix_secs, now_unix) == unix_secs,
{
}

/// A span is shown in hours, minutes below sixty and seconds below sixty.
pub proof fn span_shows_hours_minutes_and_seconds(hours: nat, minutes: nat, seconds: nat)
    requires
        minutes < 60,
        seconds < 60,
    ensures
        span_text(hours * 3600 + minutes * 60 + seconds) == text::digits(hours) + "h "@
            + text::digits(minutes) + "m "@ + text::digits(seconds) + "s"@,
{
    let total = hours * 3600 + minutes * 60 + seconds;
    assert(total / 3600 == hours);
    assert((total % 3600) / 60 == minutes);
    assert(total % 60 == seconds);
}

} // verus!
