//! The extension that keeps a token at hand.
//!
//! A background task refreshes the token; consumers take the one at hand, or have one fetched
//! if it is stale. The functions here decide; the caller asks Azure and waits.

use vstd::prelude::*;
use vstd::string::*;

use super::auth::Auth;
use super::error::AuthError;
use super::metrics::{AzureIdentityAuthMetrics, AzureIdentityAuthMetricsTracker};
use super::refresh;
use crate::capability::bearer_token_provider::{BearerToken, Secret};
use crate::capability::error::{CapabilityError, CapabilityErrorSource};
use crate::extension::control::{ExtensionControlMsg, RecvError};

verus! {

/// The name of the extension's plugin.
pub const AZURE_IDENTITY_AUTH_URN: &'static str = "urn:microsoft:extension:azure_identity_auth";

/// The capability that the extension provides.
pub const BEARER_TOKEN_PROVIDER: &'static str = "bearer_token_provider";

/// A token as Azure gives it, with its expiry in seconds of the UNIX epoch.
pub struct AccessToken {
    pub secret: String,
    pub expires_on: i64,
}

/// The extension with the token at hand.
pub struct AzureIdentityAuthExtension {
    name: String,
    auth: Auth,
    published: Option<BearerToken>,
    cap_err: CapabilityErrorSource,
    metrics: AzureIdentityAuthMetricsTracker,
}

impl AzureIdentityAuthExtension {
    pub closed spec fn called(&self) -> Seq<char> {
        self.name@
    }

    pub closed spec fn credentials(&self) -> Auth {
        self.auth
    }

    /// The token that consumers see.
    pub closed spec fn at_hand(&self) -> Option<BearerToken> {
        self.published
    }

    pub closed spec fn counters(&self) -> AzureIdentityAuthMetricsTracker {
        self.metrics
    }

    pub closed spec fn errors(&self) -> CapabilityErrorSource {
        self.cap_err
    }

    /// Errors name this extension and its capability.
    pub open spec fn wf(&self) -> bool {
        &&& self.errors().bound_extension() == self.called()
        &&& self.errors().bound_capability() == "bearer_token_provider"@
    }

    /// The token at hand, if it can be used without asking for another.
    pub open spec fn cached(&self, now: int) -> Option<BearerToken> {
        match self.at_hand() {
            Some(token) if refresh::is_fresh(token, now) => Some(token),
            _ => None,
        }
    }

    /// Azure gave that answer: a token is kept at hand and returned, whether or not somebody
    /// listens; a failure leaves the token at hand as it was. Either is counted.
    pub open spec fn fetched(
        self,
        answer: Result<AccessToken, AuthError>,
        now_unix: i64,
        now: u128,
        after: Self,
        r: Result<BearerToken, AuthError>,
    ) -> bool {
        let counts = self.counters().counts();
        &&& after.called() == self.called()
        &&& after.credentials() == self.credentials()
        &&& after.errors() == self.errors()
        &&& match answer {
            Ok(access) => {
                &&& r matches Ok(token) && token.token@ == access.secret@ && token.expires_on
                    == Some(
                    (now + refresh::secs(refresh::secs_until(access.expires_on, now_unix))) as u128,
                ) && after.at_hand() == Some(token)
                &&& after.counters().counts() == (AzureIdentityAuthMetrics {
                    auth_successes: (counts.auth_successes + 1) as u64,
                    auth_token_publish: (counts.auth_token_publish + 1) as u64,
                    ..counts
                })
            },
            Err(e) => {
                &&& r == Err::<BearerToken, AuthError>(e)
                &&& after.at_hand() == self.at_hand()
                &&& after.counters().counts() == (AzureIdentityAuthMetrics {
                    auth_failures: (counts.auth_failures + 1) as u64,
                    ..counts
                })
            },
        }
    }

    /// An extension without a token.
    pub fn new(name: String, auth: Auth, metrics: AzureIdentityAuthMetricsTracker) -> (r: Self)
        ensures
            r.wf(),
            r.called() == name@,
            r.credentials() == auth,
            r.at_hand() is None,
            r.counters() == metrics,
    {
        let cap_err: CapabilityErrorSource = CapabilityErrorSource::new(
            name.clone(),
            BEARER_TOKEN_PROVIDER,
        );
        AzureIdentityAuthExtension { name, auth, published: None, cap_err, metrics }
    }

    pub fn name(&self) -> (r: &str)
        ensures
            r@ == self.called(),
    {
        self.name.as_str()
    }

    pub fn auth(&self) -> (r: &Auth)
        ensures
            *r == self.credentials(),
    {
        &self.auth
    }

    /// The counters.
    pub fn metrics(&self) -> (r: AzureIdentityAuthMetrics)
        ensures
            r == self.counters().counts(),
    {
        self.metrics.report()
    }

    /// The token at hand, if it can be used without asking for another. If not, one has to be
    /// fetched, by one caller at a time.
    pub fn fresh_cached(&self, now: u128) -> (r: Option<BearerToken>)
        requires
            refresh::in_range(now),
        ensures
            r == self.cached(now as int),
    {
        match &self.published {
            Some(token) => {
                if refresh::fresh(token, now) {
                    Some(token.clone())
                } else {
                    None
                }
            },
            None => None,
        }
    }

    /// Takes what Azure answered: counts it and keeps a token at hand.
    ///
    /// `now_unix` and `now` are the present in seconds of the UNIX epoch and on the monotonic
    /// clock.
    pub fn fetch_and_publish(
        &mut self,
        answer: Result<AccessToken, AuthError>,
        now_unix: i64,
        now: u128,
    ) -> (r: Result<BearerToken, AuthError>)
        requires
            refresh::in_range(now),
            old(self).counters().has_room(),
        ensures
            old(self).wf() ==> final(self).wf(),
            old(self).fetched(answer, now_unix, now, *final(self), r),
    {
        match answer {
            Ok(access) => {
                let expires_on: u128 = refresh::unix_secs_to_instant(
                    access.expires_on,
                    now_unix,
                    now,
                );
                let token: BearerToken = BearerToken::new(Secret::new(access.secret), expires_on);
                self.published = Some(token.clone());
                self.metrics.record_success();
                self.metrics.record_publish();
                Ok(token)
            },
            Err(e) => {
                self.metrics.record_failure();
                Err(e)
            },
        }
    }

    /// The error that a consumer sees.
    pub fn capability_error<E>(&self, cause: E) -> (r: CapabilityError<E>)
        requires
            self.wf(),
        ensures
            r.extension@ == self.called(),
            r.capability@ == "bearer_token_provider"@,
            r.source == cause,
    {
        self.cap_err.wrap(cause)
    }
}

/// A token that was fetched is kept and handed out, with its secret and its expiry, until it is
/// stale: exactly as long as it is more than the buffer away from its expiry. Who listens later
/// sees the same token.
pub proof fn fetched_token_is_handed_out_until_stale(
    before: AzureIdentityAuthExtension,
    access: AccessToken,
    now_unix: i64,
    now: u128,
    after: AzureIdentityAuthExtension,
    r: Result<BearerToken, AuthError>,
    later: int,
)
    requires
        refresh::in_range(now),
        before.fetched(Ok(access), now_unix, now, after, r),
    ensures
        r matches Ok(token) && {
            let expires_on = now + refresh::secs(
                refresh::secs_until(access.expires_on, now_unix),
            );
            &&& token.token@ == access.secret@
            &&& token.expires_on is Some
            &&& token.expires_on->0 == expires_on
            &&& after.at_hand() == Some(token)
            &&& after.cached(later) == if expires_on > later + refresh::secs(
                refresh::TOKEN_EXPIRY_BUFFER_SECS as int,
            ) {
                Some(token)
            } else {
                None
            }
        },
{
}

/// What happens to the refresh loop.
pub enum RefreshEvent<'a> {
    /// A control message, or that there will be none.
    Control(Result<ExtensionControlMsg, RecvError>),
    /// The refresh was due, and gave that token, or none if it failed.
    Refreshed(Option<&'a BearerToken>),
}

/// What the refresh loop has to do next.
#[derive(Debug, Clone, Copy, PartialEq, Eq, Structural)]
pub enum LoopAction {
    /// Wait for a control message or for the next refresh.
    Wait,
    /// Report the counters, then wait. That reporting fails does not matter.
    ReportMetrics,
    /// End.
    Stop,
}

/// The loop that keeps the token fresh. Control messages come before refreshes.
#[derive(Debug)]
pub struct RefreshLoop {
    pub next_refresh: u128,
}

impl RefreshLoop {
    /// A loop that refreshes at once.
    pub fn new(now: u128) -> (r: Self)
        ensures
            r.next_refresh == now,
    {
        RefreshLoop { next_refresh: now }
    }

    /// Takes what happened and says what comes next.
    pub fn start(&mut self, event: RefreshEvent, now: u128) -> (action: LoopAction)
        requires
            refresh::in_range(now),
        ensures
            match event {
                RefreshEvent::Control(message) => {
                    &&& final(self).next_refresh == old(self).next_refresh
                    &&& match message {
                        Ok(ExtensionControlMsg::Shutdown { .. }) => action is Stop,
                        Ok(ExtensionControlMsg::Config { .. }) => action is Wait,
                        Ok(ExtensionControlMsg::CollectTelemetry) => action is ReportMetrics,
                        Err(_) => action is Stop,
                    }
                },
                RefreshEvent::Refreshed(token) => {
                    &&& action is Wait
                    &&& final(self).next_refresh == match token {
                        Some(t) => refresh::next_refresh(*t, now as int),
                        None => now + refresh::secs(refresh::TOKEN_REFRESH_RETRY_SECS as int),
                    }
                },
            },
    {
        match event {
            RefreshEvent::Control(Ok(ExtensionControlMsg::Shutdown { .. })) => LoopAction::Stop,
            RefreshEvent::Control(Ok(ExtensionControlMsg::Config { .. })) => LoopAction::Wait,
            RefreshEvent::Control(Ok(ExtensionControlMsg::CollectTelemetry)) => {
                LoopAction::ReportMetrics
            },
            RefreshEvent::Control(Err(_)) => LoopAction::Stop,
            RefreshEvent::Refreshed(Some(token)) => {
                self.next_refresh = refresh::get_next_token_refresh(token, now);
                LoopAction::Wait
            },
            RefreshEvent::Refreshed(None) => {
                self.next_refresh = refresh::retry_after_failure(now);
                LoopAction::Wait
            },
        }
    }
}

/// A token lasts as long as Azure says: it expires as many seconds from now as its expiry is
/// ahead on the clock of the UNIX epoch, and at once if that has passed.
pub proof fn fetched_token_lasts_as_long_as_azure_says(
    before: AzureIdentityAuthExtension,
    access: AccessToken,
    now_unix: i64,
    now: u128,
    after: AzureIdentityAuthExtension,
    r: Result<BearerToken, AuthError>,
)
    requires
        refresh::in_range(now),
        now_unix >= 0,
        before.fetched(Ok(access), now_unix, now, after, r),
    ensures
        r is Ok,
        r->Ok_0.token@ == access.secret@,
        r->Ok_0.expires_on is Some,
        access.expires_on >= now_unix ==> r->Ok_0.expires_on->0 == now + (access.expires_on
            - now_unix) * 1_000_000_000,
        access.expires_on <= now_unix ==> r->Ok_0.expires_on->0 == now,
        after.at_hand() == Some(r->Ok_0),
{
}

/// A failure to get a token leaves the one at hand as it was, and is what the caller sees.
pub proof fn failed_fetch_keeps_the_token(
    before: AzureIdentityAuthExtension,
    error: AuthError,
    now_unix: i64,
    now: u128,
    after: AzureIdentityAuthExtension,
    r: Result<BearerToken, AuthError>,
    later: int,
)
    requires
        before.fetched(Err(error), now_unix, now, after, r),
    ensures
        r == Err::<BearerToken, AuthError>(error),
        after.at_hand() == before.at_hand(),
        after.cached(later) == before.cached(later),
{
}

/// Each answer of Azure counts once: a token as a success and as published, a failure as such.
pub proof fn each_answer_counts_once(
    before: AzureIdentityAuthExtension,
    answer: Result<AccessToken, AuthError>,
    now_unix: i64,
    now: u128,
    after: AzureIdentityAuthExtension,
    r: Result<BearerToken, AuthError>,
)
    requires
        before.counters().has_room(),
        before.fetched(answer, now_unix, now, after, r),
    ensures
        ({
            let c0 = before.counters().counts();
            let c1 = after.counters().counts();
            &&& answer is Ok ==> c1.auth_successes == c0.auth_successes + 1
                && c1.auth_token_publish == c0.auth_token_publish + 1 && c1.auth_failures
                == c0.auth_failures
            &&& answer is Err ==> c1.auth_failures == c0.auth_failures + 1 && c1.auth_successes
                == c0.auth_successes && c1.auth_token_publish == c0.auth_token_publish
        }),
{
}

} // verus!
