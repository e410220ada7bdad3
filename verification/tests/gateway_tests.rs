use hermes_gateway::FeedId;
use hermes_gateway::feeds::Feeds;
use hermes_gateway::messages::{Price, PriceFeed, PriceUpdate};
use hermes_gateway::msgcodec::{encode_price_update, encode_subscription};
use hermes_gateway::connector::{connector_step, subscribe_request, ConnAction, ConnEvent, ConnState};
use hermes_gateway::handler::{
    frame_ipc, frame_len, handler_step, update_matches, HandlerAction, HandlerEvent, HandlerState,
    Transport,
};

fn id(n: u64) -> FeedId {
    FeedId::new(0, 0, 0, n)
}

fn update_for(feed: FeedId) -> PriceUpdate {
    PriceUpdate {
        msg_type: b"price_update".to_vec(),
        price_feed: PriceFeed {
            ema_price: Price {
                conf: b"1".to_vec(),
                expo: -8,
                price: b"100".to_vec(),
                publish_time: 10,
            },
            id: feed,
            price: Price {
                conf: b"2".to_vec(),
                expo: -8,
                price: b"101".to_vec(),
                publish_time: 11,
            },
            vaa: b"QQ==".to_vec(),
        },
    }
}

fn request_event(ids: Vec<FeedId>) -> HandlerEvent {
    let payload = encode_subscription(&subscribe_request(ids));
    HandlerEvent::Request { payload }
}

#[test]
fn matching_is_by_membership() {
    let a = subscribe_request(vec![id(1)]);
    let b = subscribe_request(vec![id(2), id(3)]);
    let u = update_for(id(1));
    assert!(update_matches(&a, &u));
    assert!(!update_matches(&b, &u));
}

#[test]
fn disjoint_subscribers_never_share_updates() {
    let mut feeds = Feeds::new();
    let (state_a, act_a) = handler_step(
        HandlerState::AwaitRequest,
        &mut feeds,
        request_event(vec![id(1)]),
        Transport::MessageFramed,
    );
    assert!(matches!(act_a, HandlerAction::Listen));
    let (state_b, act_b) = handler_step(
        HandlerState::AwaitRequest,
        &mut feeds,
        request_event(vec![id(2), id(3)]),
        Transport::MessageFramed,
    );
    assert!(matches!(act_b, HandlerAction::Listen));

    // Upstream emits an update for id2: B receives it, A receives nothing.
    let u = update_for(id(2));
    let expected = encode_price_update(&u);
    let (_, a_next) = handler_step(
        state_a,
        &mut feeds,
        HandlerEvent::Bus { update: u.clone() },
        Transport::MessageFramed,
    );
    assert!(matches!(a_next, HandlerAction::Listen));
    let (_, b_next) = handler_step(
        state_b,
        &mut feeds,
        HandlerEvent::Bus { update: u },
        Transport::MessageFramed,
    );
    match b_next {
        HandlerAction::Send { frame } => assert_eq!(frame, expected),
        _ => panic!("the matching handler must be sent the update"),
    }
}

#[test]
fn disconnect_removes_set_and_union_excludes_it() {
    let mut feeds = Feeds::new();
    let (state_a, _) = handler_step(
        HandlerState::AwaitRequest,
        &mut feeds,
        request_event(vec![id(1)]),
        Transport::MessageFramed,
    );
    let (state_b, _) = handler_step(
        HandlerState::AwaitRequest,
        &mut feeds,
        request_event(vec![id(2)]),
        Transport::MessageFramed,
    );

    // Client A disconnects: its set is removed on the exit path.
    let (closed, act) = handler_step(
        state_a,
        &mut feeds,
        HandlerEvent::WriteFailed,
        Transport::MessageFramed,
    );
    assert!(matches!(closed, HandlerState::Closed));
    assert!(matches!(act, HandlerAction::Close));

    // An update for the identifier only A had subscribed to reaches no one.
    let u = update_for(id(1));
    let (_, b_next) = handler_step(
        state_b,
        &mut feeds,
        HandlerEvent::Bus { update: u },
        Transport::MessageFramed,
    );
    assert!(matches!(b_next, HandlerAction::Listen));

    // The next resubscription's union excludes that identifier.
    let union = feeds.union();
    assert_eq!(union, vec![id(2)]);
}

#[test]
fn handshake_failures_register_nothing() {
    let mut feeds = Feeds::new();
    let (s1, a1) = handler_step(
        HandlerState::AwaitRequest,
        &mut feeds,
        HandlerEvent::Request { payload: b"not a subscription".to_vec() },
        Transport::MessageFramed,
    );
    assert!(matches!(s1, HandlerState::Closed));
    assert!(matches!(a1, HandlerAction::Close));
    let (s2, a2) = handler_step(
        HandlerState::AwaitRequest,
        &mut feeds,
        HandlerEvent::RequestFailed,
        Transport::ByteStream,
    );
    assert!(matches!(s2, HandlerState::Closed));
    assert!(matches!(a2, HandlerAction::Close));
    assert!(feeds.is_empty());
    assert!(!feeds.consume_dirty());
}

#[test]
fn overrun_is_a_silent_gap() {
    let mut feeds = Feeds::new();
    let (state, _) = handler_step(
        HandlerState::AwaitRequest,
        &mut feeds,
        request_event(vec![id(1)]),
        Transport::MessageFramed,
    );
    let (state2, act) = handler_step(state, &mut feeds, HandlerEvent::Overrun, Transport::MessageFramed);
    assert!(matches!(state2, HandlerState::Active { .. }));
    assert!(matches!(act, HandlerAction::Listen));
}

#[test]
fn empty_registry_keeps_connector_polling() {
    let mut feeds = Feeds::new();
    let (s, a) = connector_step(ConnState::Idle, &mut feeds, ConnEvent::PollTick);
    assert!(matches!(s, ConnState::Idle));
    assert!(matches!(a, ConnAction::SleepPoll));
}

#[test]
fn nonempty_registry_triggers_connection_within_one_poll() {
    let mut feeds = Feeds::new();
    feeds.add(vec![id(1)]);
    let (s, a) = connector_step(ConnState::Idle, &mut feeds, ConnEvent::PollTick);
    assert!(matches!(s, ConnState::Connecting));
    assert!(matches!(a, ConnAction::Connect));
    // The dirty flag was cleared before the connection attempt.
    assert!(!feeds.consume_dirty());
}

#[test]
fn failed_handshake_status_retries() {
    let mut feeds = Feeds::new();
    feeds.add(vec![id(1)]);
    let (s, a) = connector_step(ConnState::Connecting, &mut feeds, ConnEvent::Connected {
        status: 200,
    });
    assert!(matches!(s, ConnState::Idle));
    assert!(matches!(a, ConnAction::RetryNow));
    let (s2, a2) = connector_step(ConnState::Connecting, &mut feeds, ConnEvent::ConnectFailed);
    assert!(matches!(s2, ConnState::Idle));
    assert!(matches!(a2, ConnAction::Backoff));
}

#[test]
fn streaming_discards_two_frames_then_publishes() {
    let mut feeds = Feeds::new();
    feeds.add(vec![id(1)]);
    feeds.clear_dirty();
    let mut state = ConnState::Streaming { skipped: 0 };
    // the first two frames are discarded whatever they hold
    for _ in 0..2 {
        let (s, a) = connector_step(state, &mut feeds, ConnEvent::Frame {
            control: false,
            payload: encode_price_update(&update_for(id(1))),
        });
        assert!(matches!(a, ConnAction::Read));
        state = s;
    }
    // control frames are ignored
    let (s, a) = connector_step(state, &mut feeds, ConnEvent::Frame {
        control: true,
        payload: Vec::new(),
    });
    assert!(matches!(a, ConnAction::Read));
    state = s;
    // an undecodable frame is skipped
    let (s, a) = connector_step(state, &mut feeds, ConnEvent::Frame {
        control: false,
        payload: b"garbage".to_vec(),
    });
    assert!(matches!(a, ConnAction::Read));
    state = s;
    // a decodable frame is published and streaming goes on
    let u = update_for(id(1));
    let (s, a) = connector_step(state, &mut feeds, ConnEvent::Frame {
        control: false,
        payload: encode_price_update(&u),
    });
    match a {
        ConnAction::Publish { update, resubscribe } => {
            assert_eq!(update.price_feed.id, u.price_feed.id);
            assert!(!resubscribe);
        },
        _ => panic!("a decoded update must be published"),
    }
    assert!(matches!(s, ConnState::Streaming { .. }));
}

#[test]
fn dirty_flag_during_streaming_resubscribes_with_fresh_union() {
    let mut feeds = Feeds::new();
    feeds.add(vec![id(1)]);
    feeds.clear_dirty();
    let state = ConnState::Streaming { skipped: 2 };
    // a second client registers while streaming: the dirty flag goes up
    feeds.add(vec![id(2)]);
    let (s, a) = connector_step(state, &mut feeds, ConnEvent::Frame {
        control: false,
        payload: encode_price_update(&update_for(id(1))),
    });
    match a {
        ConnAction::Publish { resubscribe, .. } => assert!(resubscribe),
        _ => panic!("the update must still be published"),
    }
    assert!(matches!(s, ConnState::Connecting));
    // the next subscribe request is built from the union read now,
    // not from the union at the moment the flag went up
    feeds.add(vec![id(3)]);
    let (s2, a2) = connector_step(s, &mut feeds, ConnEvent::Connected { status: 101 });
    assert!(matches!(s2, ConnState::Subscribing));
    match a2 {
        ConnAction::SendSubscribe { payload } => {
            let text = String::from_utf8(payload).unwrap();
            assert!(text.contains(
                "0x0000000000000000000000000000000000000000000000000000000000000003"
            ));
        },
        _ => panic!("an upgraded handshake must send the subscription"),
    }
}

#[test]
fn send_outcomes_drive_the_machine() {
    let mut feeds = Feeds::new();
    let (s, a) = connector_step(ConnState::Subscribing, &mut feeds, ConnEvent::SendOk);
    assert!(matches!(s, ConnState::Streaming { skipped: 0 }));
    assert!(matches!(a, ConnAction::Read));
    let (s2, a2) = connector_step(ConnState::Subscribing, &mut feeds, ConnEvent::SendFailed);
    assert!(matches!(s2, ConnState::Connecting));
    assert!(matches!(a2, ConnAction::Connect));
    let (s3, a3) = connector_step(
        ConnState::Streaming { skipped: 2 },
        &mut feeds,
        ConnEvent::ReadFailed,
    );
    assert!(matches!(s3, ConnState::Connecting));
    assert!(matches!(a3, ConnAction::Connect));
}

#[test]
fn byte_stream_frames_carry_their_exact_length() {
    let u = update_for(id(9));
    let data = encode_price_update(&u);
    let framed = frame_ipc(&data).expect("short payloads frame");
    assert_eq!(framed.len(), data.len() + 2);
    let n = frame_len(framed[0], framed[1]);
    assert_eq!(n as usize, data.len());
    assert_eq!(&framed[2..], &data[..]);
}

#[test]
fn oversized_byte_stream_payloads_cannot_be_framed() {
    let data = vec![0x41u8; 0x10000];
    assert!(frame_ipc(&data).is_none());
    let just_fits = vec![0x41u8; 0xFFFF];
    let framed = frame_ipc(&just_fits).expect("65535 bytes still frame");
    assert_eq!(frame_len(framed[0], framed[1]), 0xFFFF);
}

#[test]
fn byte_stream_handler_sends_length_prefixed_frames() {
    let mut feeds = Feeds::new();
    let (state, _) = handler_step(
        HandlerState::AwaitRequest,
        &mut feeds,
        request_event(vec![id(5)]),
        Transport::ByteStream,
    );
    let u = update_for(id(5));
    let expected = encode_price_update(&u);
    let (_, act) = handler_step(state, &mut feeds, HandlerEvent::Bus { update: u }, Transport::ByteStream);
    match act {
        HandlerAction::Send { frame } => {
            let n = frame_len(frame[0], frame[1]);
            assert_eq!(n as usize, expected.len());
            assert_eq!(&frame[2..], &expected[..]);
        },
        _ => panic!("a matching update must be framed and sent"),
    }
}
