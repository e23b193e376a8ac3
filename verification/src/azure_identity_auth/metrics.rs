//! Counters of token requests.

use vstd::prelude::*;

verus! {

/// How many tokens were acquired, how many requests failed, and how many tokens were
/// published.
#[derive(Debug, Clone, Copy, PartialEq, Eq, Structural)]
pub struct AzureIdentityAuthMetrics {
    pub auth_successes: u64,
    pub auth_failures: u64,
    pub auth_token_publish: u64,
}

/// Counts the outcomes of token requests.
#[derive(Debug)]
pub struct AzureIdentityAuthMetricsTracker {
    metrics: AzureIdentityAuthMetrics,
}

impl AzureIdentityAuthMetricsTracker {
    pub closed spec fn counts(&self) -> AzureIdentityAuthMetrics {
        self.metrics
    }

    /// Whether every counter can go up.
    pub open spec fn has_room(&self) -> bool {
        &&& self.counts().auth_successes < u64::MAX
        &&& self.counts().auth_failures < u64::MAX
        &&& self.counts().auth_token_publish < u64::MAX
    }

    /// Goes on from those counters.
    pub fn new(metrics: AzureIdentityAuthMetrics) -> (r: Self)
        ensures
            r.counts() == metrics,
    {
        AzureIdentityAuthMetricsTracker { metrics }
    }

    /// Records a successful acquisition.
    pub fn record_success(&mut self)
        requires
            old(self).counts().auth_successes < u64::MAX,
        ensures
            final(self).counts() == (AzureIdentityAuthMetrics {
                auth_successes: (old(self).counts().auth_successes + 1) as u64,
                ..old(self).counts()
            }),
    {
        self.metrics.auth_successes = self.metrics.auth_successes + 1;
    }

    /// Records a failed acquisition.
    pub fn record_failure(&mut self)
        requires
            old(self).counts().auth_failures < u64::MAX,
        ensures
            final(self).counts() == (AzureIdentityAuthMetrics {
                auth_failures: (old(self).counts().auth_failures + 1) as u64,
                ..old(self).counts()
            }),
    {
        self.metrics.auth_failures = self.metrics.auth_failures + 1;
    }

    /// Records that a token was published.
    pub fn record_publish(&mut self)
        requires
            old(self).counts().auth_token_publish < u64::MAX,
        ensures
            final(self).counts() == (AzureIdentityAuthMetrics {
                auth_token_publish: (old(self).counts().auth_token_publish + 1) as u64,
                ..old(self).counts()
            }),
    {
        self.metrics.auth_token_publish = self.metrics.auth_token_publish + 1;
    }

    /// The counters.
    pub fn report(&self) -> (r: AzureIdentityAuthMetrics)
        ensures
            r == self.counts(),
    {
        self.metrics
    }
}

} // verus!
