//! The upstream connector's decision core: a state machine from state and
//! event to next state and action.
//!
//! The surrounding runtime owns the socket, the timers and the fan-out
//! bus; it performs each returned action and feeds the outcome back in as
//! the next event. Every decision of the connector — when to leave the
//! poll wait, when to resubscribe, what to publish — is taken here.

use vstd::prelude::*;
use crate::FeedId;
use crate::feeds::{Feeds, union_of};
use crate::messages::{Subscription, SubscriptionModel, PriceUpdate, UpdateModel};
use crate::msgcodec::{encode_subscription, decode_price_update};
use crate::codec::{enc_subscription, enc_update, strip_ws};

verus! {

/// The type tag of an upstream subscribe request.
pub open spec fn subscribe_tag() -> Seq<u8> {
    seq![115u8, 117u8, 98u8, 115u8, 99u8, 114u8, 105u8, 98u8, 101u8]
}

/// The model of the subscribe request built for a given identifier list:
/// verbose off, binary proof encoding on.
pub open spec fn subscribe_model(ids: Seq<FeedId>) -> SubscriptionModel {
    SubscriptionModel { ids, msg_type: subscribe_tag(), verbose: false, binary: true }
}

/// Builds the subscribe request for the given identifiers, with the fixed
/// protocol flags: verbose off, binary proof encoding on.
pub fn subscribe_request(ids: Vec<FeedId>) -> (r: Subscription)
    ensures
        r@ == subscribe_model(ids@),
        r@.wf(),
{
    let mut t: Vec<u8> = Vec::new();
    t.push(115);
    t.push(117);
    t.push(98);
    t.push(115);
    t.push(99);
    t.push(114);
    t.push(105);
    t.push(98);
    t.push(101);
    proof {
        assert(t@ =~= subscribe_tag());
    }
    Subscription { ids, msg_type: t, verbose: false, binary: true }
}

/// Where the connector stands in its lifecycle.
pub enum ConnState {
    /// Waiting for the registry to become non-empty, polling once a second.
    Idle,
    /// About to open, or reopening, the upstream connection.
    Connecting,
    /// Connection is up; the subscribe request is in flight.
    Subscribing,
    /// Relaying upstream frames; `skipped` counts the initial frames
    /// discarded so far, up to two.
    Streaming { skipped: u8 },
}

/// What the runtime observed since the last step.
pub enum ConnEvent {
    /// The poll timer fired while idle.
    PollTick,
    /// The connection attempt finished with this handshake status code.
    Connected { status: u16 },
    /// The connection attempt failed outright.
    ConnectFailed,
    /// The subscribe request was written successfully.
    SendOk,
    /// Writing the subscribe request failed.
    SendFailed,
    /// One upstream frame arrived; `control` marks ping and close frames.
    Frame { control: bool, payload: Vec<u8> },
    /// Reading from upstream failed, or the stream closed.
    ReadFailed,
}

/// What the runtime must do next.
pub enum ConnAction {
    /// Sleep one poll interval, then report `PollTick`.
    SleepPoll,
    /// Open the upstream connection and report the outcome.
    Connect,
    /// Sleep the reconnect backoff, then report `PollTick`.
    Backoff,
    /// Report `PollTick` at once, without sleeping.
    RetryNow,
    /// Send this payload upstream as one text frame and report the outcome.
    SendSubscribe { payload: Vec<u8> },
    /// Read the next upstream frame and report it.
    Read,
    /// Publish this update on the fan-out bus; then reconnect when
    /// `resubscribe` is set, else read the next frame.
    Publish { update: PriceUpdate, resubscribe: bool },
}

/// Which events can arise in which states.
pub open spec fn accepts(state: ConnState, event: ConnEvent) -> bool {
    match state {
        ConnState::Idle => event is PollTick,
        ConnState::Connecting => event is Connected || event is ConnectFailed,
        ConnState::Subscribing => event is SendOk || event is SendFailed,
        ConnState::Streaming { .. } => event is Frame || event is ReadFailed,
    }
}

/// One step of the connector: consumes the event, consults and updates the
/// registry, and decides the next state and action.
///
/// A registry transition from empty to non-empty is noticed at the next
/// poll tick, which leaves the poll wait and starts a connection attempt;
/// the dirty flag is cleared before the attempt, and the subscribe payload
/// is always built from the union read at the moment the connection came
/// up — never from an earlier one.
#[verifier::rlimit(60)]
pub fn connector_step(state: ConnState, feeds: &mut Feeds, event: ConnEvent) -> (r: (
    ConnState,
    ConnAction,
))
    requires
        accepts(state, event),
    ensures
        // Idle: poll until the registry is non-empty, then connect at once.
        state is Idle && event is PollTick && old(feeds).sets().len() == 0 ==> r.0 is Idle && r.1
            is SleepPoll && *final(feeds) == *old(feeds),
        state is Idle && event is PollTick && old(feeds).sets().len() > 0 ==> r.0 is Connecting
            && r.1 is Connect && !final(feeds).dirty() && final(feeds).sets() == old(feeds).sets(),
        // Connecting: on an upgraded handshake, subscribe with the union
        // read now; otherwise retry.
        state is Connecting && (event matches ConnEvent::Connected { status } && status == 101)
            ==> r.0 is Subscribing && *final(feeds) == *old(feeds) && (r.1 matches
        ConnAction::SendSubscribe { payload } && (exists|ids: Seq<FeedId>|
            ids.to_set() == union_of(old(feeds).sets()) && ids.no_duplicates() && payload@
                == enc_subscription(#[trigger] subscribe_model(ids)))),
        state is Connecting && (event matches ConnEvent::Connected { status } && status != 101)
            ==> r.0 is Idle && r.1 is RetryNow && *final(feeds) == *old(feeds),
        state is Connecting && event is ConnectFailed ==> r.0 is Idle && r.1 is Backoff
            && *final(feeds) == *old(feeds),
        // Subscribing.
        state is Subscribing && event is SendOk ==> (r.0 matches ConnState::Streaming { skipped }
            && skipped == 0) && r.1 is Read && *final(feeds) == *old(feeds),
        state is Subscribing && event is SendFailed ==> r.0 is Connecting && r.1 is Connect
            && *final(feeds) == *old(feeds),
        // Streaming: discard the first two frames unconditionally.
        state matches ConnState::Streaming { skipped } ==> (skipped < 2 && event is Frame ==> ((
        r.0 matches ConnState::Streaming { skipped: k2 } && k2 == skipped + 1) && r.1 is Read
            && *final(feeds) == *old(feeds))),
        // Streaming: ignore control frames.
        state matches ConnState::Streaming { skipped } ==> (event matches ConnEvent::Frame {
            control,
            payload,
        } ==> (skipped >= 2 && control ==> (r.0 == state && r.1 is Read && *final(feeds) == *old(
            feeds,
        )))),
        // Streaming: skip undecodable data frames.
        state matches ConnState::Streaming { skipped } ==> (event matches ConnEvent::Frame {
            control,
            payload,
        } ==> (skipped >= 2 && !control && (forall|m: UpdateModel|
            m.wf() ==> strip_ws(payload@) != #[trigger] enc_update(m)) ==> (r.0 == state && r.1
            is Read && *final(feeds) == *old(feeds)))),
        // Streaming: a decoded update is published; the dirty flag decides
        // whether to keep reading or to rebuild the subscription.
        state matches ConnState::Streaming { skipped } ==> (event matches ConnEvent::Frame {
            control,
            payload,
        } ==> (skipped >= 2 && !control ==> (forall|m: UpdateModel|
            m.wf() && strip_ws(payload@) == #[trigger] enc_update(m) ==> ((r.1 matches ConnAction::Publish {
                update,
                resubscribe,
            } && update@ == m && resubscribe == old(feeds).dirty()) && !final(feeds).dirty()
                && final(feeds).sets() == old(feeds).sets() && (old(feeds).dirty() ==> r.0
                is Connecting) && (!old(feeds).dirty() ==> r.0 == state))))),
        // Streaming: read failure or closure reconnects.
        state is Streaming && event is ReadFailed ==> r.0 is Connecting && r.1 is Connect
            && *final(feeds) == *old(feeds),
{
    match state {
        ConnState::Idle => {
            if feeds.is_empty() {
                (ConnState::Idle, ConnAction::SleepPoll)
            } else {
                feeds.clear_dirty();
                (ConnState::Connecting, ConnAction::Connect)
            }
        },
        ConnState::Connecting => {
            match event {
                ConnEvent::Connected { status } => {
                    if status == 101 {
                        let ids = feeds.union();
                        let ghost gids = ids@;
                        let sub = subscribe_request(ids);
                        let payload = encode_subscription(&sub);
                        proof {
                            assert(gids.to_set() == union_of(feeds.sets())
                                && gids.no_duplicates() && payload@ == enc_subscription(
                                subscribe_model(gids),
                            ));
                        }
                        (ConnState::Subscribing, ConnAction::SendSubscribe { payload })
                    } else {
                        (ConnState::Idle, ConnAction::RetryNow)
                    }
                },
                _ => (ConnState::Idle, ConnAction::Backoff),
            }
        },
        ConnState::Subscribing => {
            match event {
                ConnEvent::SendOk => (ConnState::Streaming { skipped: 0 }, ConnAction::Read),
                _ => (ConnState::Connecting, ConnAction::Connect),
            }
        },
        ConnState::Streaming { skipped } => {
            match event {
                ConnEvent::Frame { control, payload } => {
                    if skipped < 2 {
                        (ConnState::Streaming { skipped: skipped + 1 }, ConnAction::Read)
                    } else if control {
                        (ConnState::Streaming { skipped }, ConnAction::Read)
                    } else {
                        match decode_price_update(&payload) {
                            Some(update) => {
                                let resubscribe = feeds.consume_dirty();
                                if resubscribe {
                                    (
                                        ConnState::Connecting,
                                        ConnAction::Publish { update, resubscribe },
                                    )
                                } else {
                                    (
                                        ConnState::Streaming { skipped },
                                        ConnAction::Publish { update, resubscribe },
                                    )
                                }
                            },
                            None => (ConnState::Streaming { skipped }, ConnAction::Read),
                        }
                    }
                },
                _ => (ConnState::Connecting, ConnAction::Connect),
            }
        },
    }
}

} // verus!
