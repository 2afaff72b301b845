//! The cadence world snapshots go out on.
//!
//! Snapshots exist so a Lua plugin's `on_tick` hook sees the overlay's entities
//! the way it sees the in-terminal engine's. They are not a frame stream:
//! Neovim asks for an interval and gets one snapshot per interval, and nothing
//! is sent until it asks. Time is a monotonic clock reading in nanoseconds.

use vstd::prelude::*;

verus! {

/// The fastest cadence a client may ask for: one snapshot per simulated frame.
pub const MIN_INTERVAL_MS: u64 = 16;

/// The slowest. Past this the client is better off polling `GetStatus`.
pub const MAX_INTERVAL_MS: u64 = 5_000;

pub const NANOS_PER_MILLI: u64 = 1_000_000;

/// Whether Neovim wants snapshots, and when the last one went out.
#[derive(Debug)]
pub struct Subscription {
    interval_ms: Option<u64>,
    last_emitted_ns: Option<u64>,
}

/// The subscription as values: the interval in milliseconds, and the clock
/// reading of the last snapshot.
pub struct SubscriptionModel {
    pub interval_ms: Option<u64>,
    pub last_emitted_ns: Option<u64>,
}

impl View for Subscription {
    type V = SubscriptionModel;

    closed spec fn view(&self) -> SubscriptionModel {
        SubscriptionModel { interval_ms: self.interval_ms, last_emitted_ns: self.last_emitted_ns }
    }
}

/// The interval a request is held to.
pub open spec fn clamped_interval(requested: u64) -> u64 {
    if requested < MIN_INTERVAL_MS {
        MIN_INTERVAL_MS
    } else if requested > MAX_INTERVAL_MS {
        MAX_INTERVAL_MS
    } else {
        requested
    }
}

/// `Instant::duration_since`: the time from `earlier` to `later`, zero when
/// `later` is not after it.
pub open spec fn elapsed_since(later: u64, earlier: u64) -> u64 {
    if later >= earlier {
        (later - earlier) as u64
    } else {
        0
    }
}

/// What a poll at `now` reports and leaves behind.
pub open spec fn poll_model(m: SubscriptionModel, now: u64) -> (Option<u64>, SubscriptionModel) {
    match m.interval_ms {
        None => (None, m),
        Some(ms) => {
            let interval = ms * NANOS_PER_MILLI;
            match m.last_emitted_ns {
                None => (Some(interval as u64), SubscriptionModel { last_emitted_ns: Some(now), ..m }),
                Some(last) => if elapsed_since(now, last) < interval {
                    (None, m)
                } else {
                    (
                        Some(elapsed_since(now, last)),
                        SubscriptionModel { last_emitted_ns: Some(now), ..m },
                    )
                },
            }
        },
    }
}

impl Subscription {
    /// The interval, when subscribed, is always inside the bounds.
    pub open spec fn wf(&self) -> bool {
        self@.interval_ms matches Some(ms) ==> MIN_INTERVAL_MS <= ms <= MAX_INTERVAL_MS
    }

    /// Subscribes at a clamped interval, or unsubscribes on `None` or `0`.
    ///
    /// The interval is bounded rather than trusted: an unclamped `1` would ask
    /// the engine to serialise every entity a thousand times a second.
    pub fn set_interval_ms(&mut self, interval_ms: Option<u64>)
        ensures
            final(self).wf(),
            match interval_ms {
                None => final(self)@ == (SubscriptionModel {
                    interval_ms: None,
                    last_emitted_ns: None,
                }),
                Some(requested) => if requested == 0 {
                    final(self)@ == (SubscriptionModel { interval_ms: None, last_emitted_ns: None })
                } else {
                    final(self)@ == (SubscriptionModel {
                        interval_ms: Some(clamped_interval(requested)),
                        ..old(self)@
                    })
                },
            },
    {
        match interval_ms {
            None => {
                self.interval_ms = None;
                self.last_emitted_ns = None;
            },
            Some(requested) => {
                if requested == 0 {
                    self.interval_ms = None;
                    self.last_emitted_ns = None;
                } else {
                    let clamped = if requested < MIN_INTERVAL_MS {
                        MIN_INTERVAL_MS
                    } else if requested > MAX_INTERVAL_MS {
                        MAX_INTERVAL_MS
                    } else {
                        requested
                    };
                    self.interval_ms = Some(clamped);
                }
            },
        }
    }

    pub fn is_subscribed(&self) -> (subscribed: bool)
        ensures
            subscribed == self@.interval_ms is Some,
    {
        self.interval_ms.is_some()
    }

    /// Nanoseconds since the previous snapshot, if one is due at `now`.
    ///
    /// The first poll after subscribing reports the interval itself rather than
    /// the time since some unrelated earlier moment, so a plugin's first `dt` is
    /// the cadence it asked for.
    pub fn poll(&mut self, now: u64) -> (due: Option<u64>)
        requires
            old(self).wf(),
        ensures
            final(self).wf(),
            (due, final(self)@) == poll_model(old(self)@, now),
    {
        let interval = match self.interval_ms {
            None => {
                return None;
            },
            Some(ms) => ms * NANOS_PER_MILLI,
        };
        let elapsed = match self.last_emitted_ns {
            None => interval,
            Some(last) => {
                let elapsed = if now >= last {
                    now - last
                } else {
                    0
                };
                if elapsed < interval {
                    return None;
                }
                elapsed
            },
        };
        self.last_emitted_ns = Some(now);
        Some(elapsed)
    }
}

impl Default for Subscription {
    fn default() -> (subscription: Self)
        ensures
            subscription@ == (SubscriptionModel { interval_ms: None, last_emitted_ns: None }),
            subscription.wf(),
    {
        Subscription { interval_ms: None, last_emitted_ns: None }
    }
}

/// Nothing is due until someone subscribes, and unsubscribing forgets the
/// last snapshot, so a resubscribe starts with its first snapshot due at once.
pub proof fn law_unsubscribed_is_never_due(m: SubscriptionModel, now: u64)
    requires
        m.interval_ms is None,
    ensures
        poll_model(m, now) == (None::<u64>, m),
{
}

/// A snapshot is never reported early: whatever a poll reports is at least
/// the subscribed interval, and the first poll reports exactly the interval.
pub proof fn law_snapshots_keep_the_cadence(m: SubscriptionModel, now: u64)
    requires
        m.interval_ms is Some,
        MIN_INTERVAL_MS <= m.interval_ms->0 <= MAX_INTERVAL_MS,
    ensures
        poll_model(m, now).0 matches Some(dt) ==> dt >= m.interval_ms->0 * NANOS_PER_MILLI,
        m.last_emitted_ns is None ==> poll_model(m, now).0 == Some(
            (m.interval_ms->0 * NANOS_PER_MILLI) as u64,
        ),
        poll_model(m, now).0 is None ==> poll_model(m, now).1 == m,
{
}

} // verus!
