//! Azure identity for consumers that keep their own token: the token is refreshed by retrying
//! until Azure gives one.

use vstd::prelude::*;

use crate::azure_identity_auth::error::AuthError;
use crate::azure_identity_auth::extension::AccessToken;
use crate::azure_identity_auth::refresh;
use crate::extension::control::{ExtensionControlMsg, RecvError};
use crate::extensions::bearer_token_provider::{BearerToken, Secret};

verus! {

/// Names the extension in configurations.
pub const AZURE_IDENTITY_AUTH_EXTENSION_URN: &'static str =
    "urn:microsoft:extension:azure_identity_auth";

/// The shortest delay between attempts to get a token, in seconds.
pub const MIN_RETRY_DELAY_SECS: u64 = 5;

/// The longest delay between attempts to get a token, in seconds.
pub const MAX_RETRY_DELAY_SECS: u64 = 30;

/// A plugin as it is listed.
#[derive(Debug, Clone, Copy)]
pub struct ExtensionPlugin {
    pub name: &'static str,
    pub description: &'static str,
    pub documentation_url: &'static str,
}

/// The plugin of this extension.
pub fn azure_identity_auth_extension() -> (r: ExtensionPlugin)
    ensures
        r.name@ == AZURE_IDENTITY_AUTH_EXTENSION_URN@,
        r.description@ == "Azure Identity authentication via managed identity or developer tools"@,
        r.documentation_url@
            == "https://github.com/open-telemetry/otel-arrow/tree/main/rust/otap-dataflow/crates/contrib-nodes/src/extensions/azure_identity_auth_extension"@,
{
    ExtensionPlugin {
        name: AZURE_IDENTITY_AUTH_EXTENSION_URN,
        description: "Azure Identity authentication via managed identity or developer tools",
        documentation_url: "https://github.com/open-telemetry/otel-arrow/tree/main/rust/otap-dataflow/crates/contrib-nodes/src/extensions/azure_identity_auth_extension",
    }
}

/// Twice as much for each attempt after the first.
pub open spec fn doubled(attempt: nat) -> nat
    decreases attempt,
{
    if attempt <= 1 {
        MIN_RETRY_DELAY_SECS as nat
    } else {
        2 * doubled((attempt - 1) as nat)
    }
}

/// The delay after an attempt, before jitter: twice as long each time, up to the longest.
pub fn retry_delay_secs(attempt: u32) -> (r: u64)
    requires
        attempt >= 1,
    ensures
        r == if doubled(attempt as nat) < MAX_RETRY_DELAY_SECS {
            doubled(attempt as nat)
        } else {
            MAX_RETRY_DELAY_SECS as nat
        },
{
    let mut delay: u64 = MIN_RETRY_DELAY_SECS;
    let mut k: u32 = 1;
    while k < attempt && delay < MAX_RETRY_DELAY_SECS
        invariant
            1 <= k <= attempt,
            delay == doubled(k as nat),
            delay < 2 * MAX_RETRY_DELAY_SECS,
        decreases attempt - k,
    {
        delay = delay * 2;
        k = k + 1;
    }
    proof {
        lemma_doubled_grows(k as nat, attempt as nat);
    }
    if delay < MAX_RETRY_DELAY_SECS {
        delay
    } else {
        MAX_RETRY_DELAY_SECS
    }
}

proof fn lemma_doubled_grows(a: nat, b: nat)
    requires
        a <= b,
    ensures
        doubled(a) <= doubled(b),
    decreases b,
{
    if a < b {
        lemma_doubled_grows(a, (b - 1) as nat);
    }
}

/// When a token is refreshed: the buffer before it expires, but not before the minimum
/// interval. `now_secs` is the present in seconds of the UNIX epoch.
pub open spec fn next_refresh(expires_on: int, now_secs: int, now: int) -> int {
    let remaining = if expires_on > now_secs {
        expires_on - now_secs
    } else {
        0
    };
    let stale = now + refresh::secs(remaining - refresh::TOKEN_EXPIRY_BUFFER_SECS);
    let floor = now + refresh::secs(refresh::MIN_TOKEN_REFRESH_INTERVAL_SECS as int);
    if stale < floor {
        floor
    } else {
        stale
    }
}

/// When the token is refreshed.
pub fn get_next_token_refresh(token: &BearerToken, now_secs: i64, now: u128) -> (r: u128)
    requires
        now_secs >= 0,
        refresh::in_range(now),
    ensures
        r == next_refresh(token.expires_on as int, now_secs as int, now as int),
{
    let remaining: u128 = if token.expires_on > now_secs {
        (token.expires_on - now_secs) as u128
    } else {
        0
    };
    let buffer: u128 = refresh::TOKEN_EXPIRY_BUFFER_SECS as u128;
    let shortest: u128 = refresh::MIN_TOKEN_REFRESH_INTERVAL_SECS as u128;
    let wait: u128 = if remaining < buffer + shortest {
        shortest
    } else {
        remaining - buffer
    };
    now + wait * refresh::NANOS_PER_SEC
}

/// What comes after an attempt to get a token.
pub enum RetryStep {
    /// The token.
    Done(AccessToken),
    /// Try again after so many seconds, give or take a tenth at random.
    Retry { delay_secs: u64 },
}

/// Gets a token by trying until there is one: takes the answer to an attempt, the first of
/// which is number one, and says what comes next. Why an attempt failed does not matter.
pub fn get_token_with_retry(attempt: u32, answer: Result<AccessToken, AuthError>) -> (r: RetryStep)
    requires
        attempt >= 1,
    ensures
        match answer {
            Ok(token) => r == RetryStep::Done(token),
            Err(_) => r matches RetryStep::Retry { delay_secs } && delay_secs == if doubled(
                attempt as nat,
            ) < MAX_RETRY_DELAY_SECS {
                doubled(attempt as nat)
            } else {
                MAX_RETRY_DELAY_SECS as nat
            },
        },
{
    match answer {
        Ok(token) => RetryStep::Done(token),
        Err(_) => RetryStep::Retry { delay_secs: retry_delay_secs(attempt) },
    }
}

/// The token as consumers see it.
pub fn get_token(access: AccessToken) -> (r: BearerToken)
    ensures
        r.token@ == access.secret@,
        r.expires_on == access.expires_on,
{
    BearerToken::new(Secret::new(access.secret), access.expires_on)
}

/// What happens to the event loop.
pub enum LoopEvent {
    /// The token was due, and this came of it.
    Refreshed(Result<AccessToken, AuthError>),
    /// A control message, or the error that there is none.
    Control(Result<ExtensionControlMsg, RecvError>),
}

/// What the event loop has to do next.
pub enum LoopAction {
    /// Wait for the next refresh or for a control message.
    Wait,
    /// Hand the token on to those who subscribed, then wait.
    Broadcast(BearerToken),
    /// End.
    Stop,
    /// End with that error.
    Fail(RecvError),
}

/// The event loop. Refreshes come before control messages.
#[derive(Debug)]
pub struct EventLoop {
    pub next_token_refresh: u128,
}

impl EventLoop {
    /// A loop that refreshes at once.
    pub fn start(now: u128) -> (r: Self)
        ensures
            r.next_token_refresh == now,
    {
        EventLoop { next_token_refresh: now }
    }

    /// Takes what happened and says what comes next. `now_secs` and `now` are the present in
    /// seconds of the UNIX epoch and on the monotonic clock.
    pub fn run_event_loop(&mut self, event: LoopEvent, now_secs: i64, now: u128) -> (action:
        LoopAction)
        requires
            now_secs >= 0,
            refresh::in_range(now),
        ensures
            match event {
                LoopEvent::Refreshed(Ok(access)) => {
                    &&& action matches LoopAction::Broadcast(token) && token.token@
                        == access.secret@ && token.expires_on == access.expires_on
                    &&& final(self).next_token_refresh == next_refresh(
                        access.expires_on as int,
                        now_secs as int,
                        now as int,
                    )
                },
                LoopEvent::Refreshed(Err(_)) => {
                    &&& action is Wait
                    &&& final(self).next_token_refresh == now + refresh::secs(
                        refresh::TOKEN_REFRESH_RETRY_SECS as int,
                    )
                },
                LoopEvent::Control(message) => {
                    &&& final(self).next_token_refresh == old(self).next_token_refresh
                    &&& match message {
                        Ok(ExtensionControlMsg::Shutdown { .. }) => action is Stop,
                        Ok(_) => action is Wait,
                        Err(e) => action == LoopAction::Fail(e),
                    }
                },
            },
    {
        match event {
            LoopEvent::Refreshed(Ok(access)) => {
                let token: BearerToken = get_token(access);
                self.next_token_refresh = get_next_token_refresh(&token, now_secs, now);
                LoopAction::Broadcast(token)
            },
            LoopEvent::Refreshed(Err(_)) => {
                self.next_token_refresh = refresh::retry_after_failure(now);
                LoopAction::Wait
            },
            LoopEvent::Control(Ok(ExtensionControlMsg::Shutdown { .. })) => LoopAction::Stop,
            LoopEvent::Control(Ok(_)) => LoopAction::Wait,
            LoopEvent::Control(Err(e)) => LoopAction::Fail(e),
        }
    }
}

/// A token that lasts at least the buffer of 299 seconds and the minimum interval of 10 is
/// refreshed exactly the buffer before it expires.
pub proof fn lasting_token_is_refreshed_before_it_expires(
    expires_on: int,
    now_secs: int,
    now: int,
)
    requires
        expires_on - now_secs >= 299 + 10,
    ensures
        next_refresh(expires_on, now_secs, now) == now + (expires_on - now_secs - 299)
            * 1_000_000_000,
{
}

/// A token that lasts less, or has expired, is refreshed after the minimum interval.
pub proof fn short_token_is_refreshed_soon(expires_on: int, now_secs: int, now: int)
    requires
        expires_on - now_secs <= 299 + 10,
    ensures
        next_refresh(expires_on, now_secs, now) == now + 10 * 1_000_000_000,
{
}

/// A token that expires later is not refreshed earlier.
pub proof fn later_expiry_is_not_refreshed_earlier(
    sooner: int,
    later: int,
    now_secs: int,
    now: int,
)
    requires
        sooner <= later,
    ensures
        next_refresh(sooner, now_secs, now) <= next_refresh(later, now_secs, now),
{
}

/// The delay before the next attempt starts at 5 seconds, doubles with each attempt until it
/// reaches 30, and stays there.
pub proof fn delays_double_up_to_the_longest(attempt: nat)
    requires
        attempt >= 1,
    ensures
        MAX_RETRY_DELAY_SECS == 30,
        doubled(1) == 5,
        doubled(attempt + 1) == 2 * doubled(attempt),
        attempt >= 4 ==> doubled(attempt) > 30,
        attempt <= 3 ==> doubled(attempt) < 30,
{
    if attempt >= 4 {
        lemma_doubled_grows(4, attempt);
    } else {
        lemma_doubled_grows(attempt, 3);
    }
    reveal_with_fuel(doubled, 4);
}

} // verus!
