//! When the exporter takes data, sends heartbeats and exports batches that do not fill.
//!
//! Times are nanoseconds of one monotonic clock.

use vstd::prelude::*;

verus! {

/// Max concurrent requests in flight to the ingestion API.
pub const MAX_IN_FLIGHT_EXPORTS: usize = 16;

/// Seconds between two looks at a batch that does not fill.
pub const PERIODIC_EXPORT_INTERVAL: u64 = 3;

/// Data is refused this many seconds before the current token expires.
pub const TOKEN_EXPIRY_BUFFER_SECS: u64 = 60;

/// A token without an expiry counts as good for this many seconds.
pub const NON_EXPIRING_TOKEN_SECS: u64 = 31_536_000;

pub const NANOS_PER_SEC: u128 = 1_000_000_000;

/// So many seconds in nanoseconds.
pub open spec fn secs(n: u64) -> int {
    n * 1_000_000_000
}

/// The time that much later, or the last time there is.
pub open spec fn later(at: u128, by: int) -> u128 {
    if at + by > u128::MAX {
        u128::MAX
    } else {
        (at + by) as u128
    }
}

/// What the exporter's loop may do next.
#[derive(Debug, Clone, Copy, PartialEq, Eq, Structural)]
pub struct Guards {
    /// The current token is good for a while.
    pub has_token: bool,
    /// All export slots are taken.
    pub at_capacity: bool,
    /// Data is taken, and the periodic export runs.
    pub accepting_pdata: bool,
    /// The heartbeat is sent.
    pub heartbeat: bool,
}

/// The clock of the exporter's loop.
#[derive(Debug, Clone, Copy, PartialEq, Eq, Structural)]
pub struct Schedule {
    pub token_expiry_at: u128,
    pub first_token_seen: bool,
    pub next_periodic_export: u128,
    pub next_heartbeat_send: u128,
    pub last_batch_queued_at: u128,
}

impl Schedule {
    /// The schedule after a usable token arrived.
    pub open spec fn with_token(self, now: u128, expires_on: Option<u128>) -> Schedule {
        Schedule {
            first_token_seen: true,
            token_expiry_at: match expires_on {
                Some(at) => at,
                None => later(now, secs(NON_EXPIRING_TOKEN_SECS)),
            },
            ..self
        }
    }

    /// The schedule after a heartbeat.
    pub open spec fn with_heartbeat(self, now: u128, frequency: u128) -> Schedule {
        Schedule { next_heartbeat_send: later(now, frequency as int), ..self }
    }

    /// The schedule after a look at the batch.
    pub open spec fn with_periodic_export(self, now: u128) -> Schedule {
        Schedule { next_periodic_export: later(now, secs(PERIODIC_EXPORT_INTERVAL)), ..self }
    }

    /// The schedule after a batch was queued.
    pub open spec fn with_batch_queued(self, now: u128) -> Schedule {
        Schedule { last_batch_queued_at: now, ..self }
    }

    /// No batch was queued for a whole interval.
    pub open spec fn is_overdue(self, now: u128) -> bool {
        now - self.last_batch_queued_at >= secs(PERIODIC_EXPORT_INTERVAL)
    }

    /// The schedule of an exporter that starts now: no token yet, a heartbeat due.
    pub fn new(now: u128) -> (r: Self)
        ensures
            r == (Schedule {
                token_expiry_at: now,
                first_token_seen: false,
                next_periodic_export: later(now, secs(PERIODIC_EXPORT_INTERVAL)),
                next_heartbeat_send: now,
                last_batch_queued_at: now,
            }),
    {
        let interval: u128 = PERIODIC_EXPORT_INTERVAL as u128 * NANOS_PER_SEC;
        Schedule {
            token_expiry_at: now,
            first_token_seen: false,
            next_periodic_export: now.saturating_add(interval),
            next_heartbeat_send: now,
            last_batch_queued_at: now,
        }
    }

    /// What may happen at `now`, with `in_flight` exports under way.
    pub fn guards(&self, now: u128, in_flight: usize, heartbeat_enabled: bool) -> (r: Guards)
        ensures
            r.has_token == (self.token_expiry_at > now + secs(TOKEN_EXPIRY_BUFFER_SECS)),
            r.at_capacity == (in_flight >= MAX_IN_FLIGHT_EXPORTS),
            r.accepting_pdata == (r.has_token && !r.at_capacity),
            r.heartbeat == (r.has_token && heartbeat_enabled),
    {
        let has_token: bool = self.token_expiry_at > now && self.token_expiry_at - now
            > TOKEN_EXPIRY_BUFFER_SECS as u128 * NANOS_PER_SEC;
        let at_capacity: bool = in_flight >= MAX_IN_FLIGHT_EXPORTS;
        Guards {
            has_token,
            at_capacity,
            accepting_pdata: has_token && !at_capacity,
            heartbeat: has_token && heartbeat_enabled,
        }
    }

    /// A usable token arrived. Says whether it is the first one.
    pub fn on_token(&mut self, now: u128, expires_on: Option<u128>) -> (first: bool)
        ensures
            first == !old(self).first_token_seen,
            *final(self) == old(self).with_token(now, expires_on),
    {
        let first: bool = !self.first_token_seen;
        self.first_token_seen = true;
        self.token_expiry_at = match expires_on {
            Some(at) => at,
            None => now.saturating_add(NON_EXPIRING_TOKEN_SECS as u128 * NANOS_PER_SEC),
        };
        first
    }

    /// A heartbeat is sent; the next one is due after `frequency` nanoseconds.
    pub fn on_heartbeat(&mut self, now: u128, frequency: u128)
        ensures
            *final(self) == old(self).with_heartbeat(now, frequency),
    {
        self.next_heartbeat_send = now.saturating_add(frequency);
    }

    /// The periodic export is due. Says whether the open batch is to be exported: it holds
    /// data, and no batch was queued for a whole interval.
    pub fn on_periodic_export(&mut self, now: u128, has_pending_data: bool) -> (flush: bool)
        ensures
            *final(self) == old(self).with_periodic_export(now),
            flush == (has_pending_data && old(self).is_overdue(now)),
    {
        let interval: u128 = PERIODIC_EXPORT_INTERVAL as u128 * NANOS_PER_SEC;
        self.next_periodic_export = now.saturating_add(interval);
        has_pending_data && now >= self.last_batch_queued_at && now - self.last_batch_queued_at
            >= interval
    }

    /// A batch was queued.
    pub fn on_batch_queued(&mut self, now: u128)
        ensures
            *final(self) == old(self).with_batch_queued(now),
    {
        self.last_batch_queued_at = now;
    }
}

/// A batch that does not fill is overdue three seconds after the last batch was queued, and not
/// before.
pub proof fn batches_are_overdue_after_the_interval(schedule: Schedule, queued_at: u128, now: u128)
    ensures
        schedule.with_batch_queued(queued_at).is_overdue(now) <==> now - queued_at >= 3
            * 1_000_000_000,
        schedule.with_batch_queued(queued_at) == (Schedule {
            last_batch_queued_at: queued_at,
            ..schedule
        }),
{
}

/// A token is good until it expires, one that does not expire for a year, and nothing else that
/// happens to the schedule changes that.
pub proof fn tokens_are_good_until_they_expire(
    schedule: Schedule,
    now: u128,
    expires_on: Option<u128>,
    later_on: u128,
    frequency: u128,
)
    requires
        now + 31_536_000 * 1_000_000_000 <= u128::MAX,
    ensures
        ({
            let after = schedule.with_token(now, expires_on);
            &&& after.first_token_seen
            &&& expires_on matches Some(at) ==> after.token_expiry_at == at
            &&& expires_on is None ==> after.token_expiry_at == now + 31_536_000 * 1_000_000_000
            &&& after.with_heartbeat(later_on, frequency).token_expiry_at == after.token_expiry_at
            &&& after.with_periodic_export(later_on).token_expiry_at == after.token_expiry_at
            &&& after.with_batch_queued(later_on).token_expiry_at == after.token_expiry_at
        }),
{
}

/// The next heartbeat is due the frequency after the last, and the next look at the open batch
/// three seconds after the last.
pub proof fn what_is_due_comes_again(schedule: Schedule, now: u128, frequency: u128)
    requires
        now + frequency <= u128::MAX,
        now + 3 * 1_000_000_000 <= u128::MAX,
    ensures
        schedule.with_heartbeat(now, frequency) == (Schedule {
            next_heartbeat_send: (now + frequency) as u128,
            ..schedule
        }),
        schedule.with_periodic_export(now) == (Schedule {
            next_periodic_export: (now + 3 * 1_000_000_000) as u128,
            ..schedule
        }),
{
}

} // verus!
