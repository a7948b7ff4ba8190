//! The synchronisation controller: historical catch-up, then the live stream.
use vstd::prelude::*;

verus! {

/// Seconds to wait before fetching the history again after a failure.
pub const RETRY_DELAY_SECS: u64 = 5;

/// Where the controller stands.
#[derive(PartialEq, Eq, Structural, Clone, Copy, Debug)]
pub enum Phase {
    /// The history is being fetched and replayed; nothing else is served.
    Bootstrapping,
    /// The history is applied; records arrive one by one from the subscription.
    Live,
}

/// What the surroundings report to the controller.
#[derive(PartialEq, Eq, Structural, Clone, Copy, Debug)]
pub enum SyncEvent {
    /// The process has started.
    Started,
    /// The historical fetch failed in transport.
    FetchFailed,
    /// Every record of the historical batch has been applied.
    HistoryApplied,
    /// A live record has been applied (whatever its own outcome).
    RecordApplied,
    /// The subscription reported an error or ended.
    StreamFailed,
}

/// What the controller asks of the surroundings next.
#[derive(PartialEq, Eq, Structural, Clone, Copy, Debug)]
pub enum SyncAction {
    /// Arm the live subscription, then fetch the whole history.
    SubscribeAndFetch,
    /// Wait this many seconds, then fetch the same history again.
    RetryFetchAfter(u64),
    /// Wait for the next live delivery.
    AwaitDelivery,
    /// Request the subscription again and keep waiting for deliveries.
    Resubscribe,
}

/// The phase and action that follow `event` in `phase`.
pub open spec fn next(phase: Phase, event: SyncEvent) -> (Phase, SyncAction) {
    match (phase, event) {
        (Phase::Bootstrapping, SyncEvent::Started) => (Phase::Bootstrapping, SyncAction::SubscribeAndFetch),
        (Phase::Bootstrapping, SyncEvent::FetchFailed) => (
            Phase::Bootstrapping,
            SyncAction::RetryFetchAfter(RETRY_DELAY_SECS),
        ),
        (Phase::Bootstrapping, SyncEvent::HistoryApplied) => (Phase::Live, SyncAction::AwaitDelivery),
        (Phase::Live, SyncEvent::StreamFailed) => (Phase::Live, SyncAction::Resubscribe),
        (p, _) => (p, SyncAction::AwaitDelivery),
    }
}

/// Decides what follows `event` in `phase`. Bootstrapping retries a failed
/// fetch forever and turns to the live phase only once the history is
/// applied; the live phase never leaves, and answers a stream failure by
/// subscribing again without touching the index.
pub fn step(phase: Phase, event: SyncEvent) -> (r: (Phase, SyncAction))
    ensures
        r == next(phase, event),
{
    match (phase, event) {
        (Phase::Bootstrapping, SyncEvent::Started) => (Phase::Bootstrapping, SyncAction::SubscribeAndFetch),
        (Phase::Bootstrapping, SyncEvent::FetchFailed) => (
            Phase::Bootstrapping,
            SyncAction::RetryFetchAfter(RETRY_DELAY_SECS),
        ),
        (Phase::Bootstrapping, SyncEvent::HistoryApplied) => (Phase::Live, SyncAction::AwaitDelivery),
        (Phase::Live, SyncEvent::StreamFailed) => (Phase::Live, SyncAction::Resubscribe),
        (p, _) => (p, SyncAction::AwaitDelivery),
    }
}

/// Once live, the controller stays live whatever happens.
pub proof fn lemma_live_is_final(event: SyncEvent)
    ensures
        next(Phase::Live, event).0 == Phase::Live,
{
}

} // verus!
