//! The connection handler's decision core: the handshake, the per-update
//! filter and framing, and the lifecycle that registers a client's
//! subscription set on arrival and deregisters it on every exit path.

use vstd::prelude::*;
use crate::FeedId;
use crate::feeds::{Feeds, contains_id};
use crate::messages::{Subscription, SubscriptionModel, PriceUpdate};
use crate::msgcodec::{encode_price_update, decode_subscription};
use crate::codec::{enc_update, enc_subscription, strip_ws};

verus! {

/// The two client-facing transports.
#[derive(Clone, Copy, PartialEq, Eq, Structural, Debug)]
pub enum Transport {
    /// Message-framed: each update is one text message of JSON.
    MessageFramed,
    /// Byte-stream: each update is a two-byte big-endian length prefix
    /// followed by that many bytes of JSON.
    ByteStream,
}

/// Whether a subscription covering `ids` is owed an update for `id`.
pub open spec fn sub_matches(ids: Seq<FeedId>, id: FeedId) -> bool {
    ids.contains(id)
}

/// True exactly when this connection's subscription covers the update's
/// identifier.
pub fn update_matches(sub: &Subscription, u: &PriceUpdate) -> (r: bool)
    ensures
        r == sub_matches(sub@.ids, u@.price_feed.id),
{
    contains_id(&sub.ids, &u.price_feed.id)
}

/// The two-byte big-endian length prefix of a byte-stream frame.
pub open spec fn be16(n: int) -> Seq<u8> {
    seq![(n / 256) as u8, (n % 256) as u8]
}

/// Frames a payload for the byte-stream transport: length prefix, then
/// the payload. Fails exactly when the payload cannot be described by a
/// two-byte length.
pub fn frame_ipc(data: &Vec<u8>) -> (r: Option<Vec<u8>>)
    ensures
        data@.len() <= 0xFFFF ==> (r matches Some(f) && f@ == be16(data@.len() as int) + data@),
        data@.len() > 0xFFFF ==> r is None,
{
    if data.len() > 0xFFFF {
        return None;
    }
    let n: u16 = data.len() as u16;
    let mut out: Vec<u8> = Vec::new();
    out.push((n / 256) as u8);
    out.push((n % 256) as u8);
    crate::codec::push_bytes(&mut out, data);
    proof {
        assert(out@ =~= be16(data@.len() as int) + data@);
    }
    Some(out)
}

/// Reads a two-byte big-endian length prefix back into the byte count.
pub fn frame_len(b0: u8, b1: u8) -> (r: u16)
    ensures
        r as int == (b0 as int) * 256 + (b1 as int),
{
    (b0 as u16) * 256 + (b1 as u16)
}

/// A byte-stream frame's length prefix decodes to exactly the byte count
/// of the payload that follows it.
pub proof fn lemma_frame_prefix_len(data: Seq<u8>)
    requires
        data.len() <= 0xFFFF,
    ensures
        ({
            let f = be16(data.len() as int) + data;
            &&& f.len() == data.len() + 2
            &&& (f[0] as int) * 256 + (f[1] as int) == data.len()
            &&& f.skip(2) == data
        }),
{
    let n = data.len() as int;
    let f = be16(n) + data;
    assert(f[0] == (n / 256) as u8 && f[1] == (n % 256) as u8);
    assert(0 <= n / 256 < 256 && 0 <= n % 256 < 256);
    assert((n / 256) * 256 + n % 256 == n);
    assert(f.skip(2) =~= data);
}

/// An update for an identifier in one subscription set is owed to that
/// set's handler and never to a handler whose set is disjoint from it.
pub proof fn lemma_disjoint_delivery(a: Seq<FeedId>, b: Seq<FeedId>, id: FeedId)
    requires
        a.to_set().disjoint(b.to_set()),
        sub_matches(a, id),
    ensures
        sub_matches(a, id),
        !sub_matches(b, id),
{
    if b.contains(id) {
        assert(a.to_set().contains(id) && b.to_set().contains(id));
    }
}

/// The bytes owed to one client for one update: the encoded update when
/// the subscription covers its identifier — framed for the byte-stream
/// transport — and nothing otherwise. A byte-stream update whose encoding
/// exceeds the two-byte length range cannot be framed and is skipped.
pub fn handle_update(sub: &Subscription, u: &PriceUpdate, transport: Transport) -> (r: Option<
    Vec<u8>,
>)
    requires
        u@.wf(),
    ensures
        r is Some <==> sub_matches(sub@.ids, u@.price_feed.id) && (transport is MessageFramed
            || enc_update(u@).len() <= 0xFFFF),
        r matches Some(f) ==> (transport is MessageFramed ==> f@ == enc_update(u@)) && (transport
            is ByteStream ==> f@ == be16(enc_update(u@).len() as int) + enc_update(u@)),
{
    if !update_matches(sub, u) {
        return None;
    }
    let data = encode_price_update(u);
    match transport {
        Transport::MessageFramed => Some(data),
        Transport::ByteStream => frame_ipc(&data),
    }
}

/// Where one client connection stands.
pub enum HandlerState {
    /// Waiting for the client's initial subscribe request.
    AwaitRequest,
    /// Registered and relaying matching updates.
    Active { sub: Subscription },
    /// Finished; the subscription set is no longer registered.
    Closed,
}

/// What the runtime observed on one client connection.
pub enum HandlerEvent {
    /// The initial read produced this payload.
    Request { payload: Vec<u8> },
    /// The initial read failed.
    RequestFailed,
    /// The fan-out bus delivered one update.
    Bus { update: PriceUpdate },
    /// The fan-out bus signalled missed messages.
    Overrun,
    /// Writing to the client failed.
    WriteFailed,
    /// The process is shutting down.
    Shutdown,
}

/// What the runtime must do next for this connection.
pub enum HandlerAction {
    /// Close the connection.
    Close,
    /// Wait for the next bus message.
    Listen,
    /// Write this frame to the client, then wait for the next bus message.
    Send { frame: Vec<u8> },
}

/// Which events can arise in which handler states, and what they carry.
pub open spec fn handler_accepts(state: HandlerState, event: HandlerEvent) -> bool {
    match state {
        HandlerState::AwaitRequest => event is Request || event is RequestFailed,
        HandlerState::Active { .. } => (event matches HandlerEvent::Bus { update }
            ==> update@.wf()) && (event is Bus || event is Overrun || event is WriteFailed
            || event is Shutdown),
        HandlerState::Closed => false,
    }
}

/// One step of a connection handler.
///
/// A well-formed request registers the client's set; a failed or
/// malformed handshake closes without registering; bus overruns are
/// silently skipped; and every transition into `Closed` from `Active`
/// removes the set from the registry — there is no exit path that leaks a
/// registration.
pub fn handler_step(
    state: HandlerState,
    feeds: &mut Feeds,
    event: HandlerEvent,
    transport: Transport,
) -> (r: (HandlerState, HandlerAction))
    requires
        handler_accepts(state, event),
    ensures
        // Handshake: a well-rendered request registers exactly its set.
        state is AwaitRequest ==> (event matches HandlerEvent::Request { payload } ==> (
        forall|m: SubscriptionModel|
            m.wf() && strip_ws(payload@) == #[trigger] enc_subscription(m) ==> ((r.0 matches
            HandlerState::Active { sub } && sub@ == m) && r.1 is Listen && final(feeds).sets()
                == old(feeds).sets().push(m.ids) && final(feeds).dirty()))),
        // Handshake: anything else closes without registering.
        state is AwaitRequest ==> (event matches HandlerEvent::Request { payload } ==> ((forall|
            m: SubscriptionModel,
        |
            m.wf() ==> strip_ws(payload@) != #[trigger] enc_subscription(m)) ==> (r.0 is Closed
            && r.1 is Close && *final(feeds) == *old(feeds)))),
        state is AwaitRequest && event is RequestFailed ==> r.0 is Closed && r.1 is Close
            && *final(feeds) == *old(feeds),
        // Matching updates are framed and sent; others are skipped.
        state matches HandlerState::Active { sub } ==> (event matches HandlerEvent::Bus { update }
            ==> ((sub_matches(sub@.ids, update@.price_feed.id) && (transport is MessageFramed
            || enc_update(update@).len() <= 0xFFFF)) ==> ((r.0 matches HandlerState::Active {
            sub: s2,
        } && s2 == sub) && (r.1 matches HandlerAction::Send { frame } && (transport
            is MessageFramed ==> frame@ == enc_update(update@)) && (transport is ByteStream
            ==> frame@ == be16(enc_update(update@).len() as int) + enc_update(update@))) && *final(feeds) == *old(feeds)))),
        state matches HandlerState::Active { sub } ==> (event matches HandlerEvent::Bus { update }
            ==> (!(sub_matches(sub@.ids, update@.price_feed.id) && (transport is MessageFramed
            || enc_update(update@).len() <= 0xFFFF)) ==> ((r.0 matches HandlerState::Active {
            sub: s2,
        } && s2 == sub) && r.1 is Listen && *final(feeds) == *old(feeds)))),
        // Overruns are a silent gap.
        state matches HandlerState::Active { sub } ==> (event is Overrun ==> ((r.0 matches
        HandlerState::Active { sub: s2 } && s2 == sub) && r.1 is Listen && *final(feeds) == *old(feeds))),
        // Every exit path deregisters.
        state matches HandlerState::Active { sub } ==> ((event is WriteFailed || event is Shutdown)
            ==> (r.0 is Closed && r.1 is Close && (old(feeds).sets().index_of_first(sub.ids@)
            matches Some(k) ==> final(feeds).sets() =~= old(feeds).sets().remove(k)
            && final(feeds).dirty()) && (old(feeds).sets().index_of_first(sub.ids@) is None ==> *final(feeds)
            == *old(feeds)))),
{
    match state {
        HandlerState::AwaitRequest => {
            match event {
                HandlerEvent::Request { payload } => {
                    match decode_subscription(&payload) {
                        Some(sub) => {
                            let ids = clone_ids(&sub.ids);
                            feeds.add(ids);
                            (HandlerState::Active { sub }, HandlerAction::Listen)
                        },
                        None => (HandlerState::Closed, HandlerAction::Close),
                    }
                },
                _ => (HandlerState::Closed, HandlerAction::Close),
            }
        },
        HandlerState::Active { sub } => {
            match event {
                HandlerEvent::Bus { update } => {
                    match handle_update(&sub, &update, transport) {
                        Some(frame) => (
                            HandlerState::Active { sub },
                            HandlerAction::Send { frame },
                        ),
                        None => (HandlerState::Active { sub }, HandlerAction::Listen),
                    }
                },
                HandlerEvent::Overrun => (HandlerState::Active { sub }, HandlerAction::Listen),
                _ => {
                    feeds.remove(&sub.ids);
                    (HandlerState::Closed, HandlerAction::Close)
                },
            }
        },
        HandlerState::Closed => {
            proof {
                assert(false);
            }
            (HandlerState::Closed, HandlerAction::Close)
        },
    }
}

/// A copy of an identifier sequence, for registration.
pub fn clone_ids(ids: &Vec<FeedId>) -> (r: Vec<FeedId>)
    ensures
        r@ == ids@,
{
    let mut out: Vec<FeedId> = Vec::new();
    let mut i: usize = 0;
    while i < ids.len()
        invariant
            i <= ids@.len(),
            out@ == ids@.take(i as int),
        decreases ids@.len() - i,
    {
        out.push(ids[i]);
        proof {
            assert(out@ =~= ids@.take(i + 1));
        }
        i += 1;
    }
    proof {
        assert(ids@.take(ids@.len() as int) =~= ids@);
    }
    out
}

} // verus!
