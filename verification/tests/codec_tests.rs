use hermes_gateway::FeedId;
use hermes_gateway::messages::{Price, PriceFeed, PriceUpdate};
use hermes_gateway::msgcodec::{
    decode_price_update, decode_subscription, encode_price_update, encode_subscription,
};
use hermes_gateway::connector::subscribe_request;

fn sample_update() -> PriceUpdate {
    PriceUpdate {
        msg_type: b"price_update".to_vec(),
        price_feed: PriceFeed {
            ema_price: Price {
                conf: b"1500".to_vec(),
                expo: -8,
                price: b"2912000000000".to_vec(),
                publish_time: 1700000000,
            },
            id: FeedId::new(0xe62df6c8b4a85fe1, 0xa67db44dc12de5db, 0x330f7ac66b72dc65, 0x8afedcc0f50b1ec1),
            price: Price {
                conf: b"1577".to_vec(),
                expo: -8,
                price: b"2916000000000".to_vec(),
                publish_time: 1700000001,
            },
            vaa: b"UE5BVQEAAAA=".to_vec(),
        },
    }
}

#[test]
fn update_round_trip_is_lossless() {
    let u = sample_update();
    let bytes = encode_price_update(&u);
    let d = decode_price_update(&bytes).expect("canonical encoding must decode");
    assert_eq!(d.msg_type, u.msg_type);
    assert_eq!(d.price_feed.id, u.price_feed.id);
    assert_eq!(d.price_feed.price.conf, u.price_feed.price.conf);
    assert_eq!(d.price_feed.price.expo, u.price_feed.price.expo);
    assert_eq!(d.price_feed.price.price, u.price_feed.price.price);
    assert_eq!(d.price_feed.price.publish_time, u.price_feed.price.publish_time);
    assert_eq!(d.price_feed.ema_price.conf, u.price_feed.ema_price.conf);
    assert_eq!(d.price_feed.ema_price.expo, u.price_feed.ema_price.expo);
    assert_eq!(d.price_feed.ema_price.price, u.price_feed.ema_price.price);
    assert_eq!(d.price_feed.ema_price.publish_time, u.price_feed.ema_price.publish_time);
    assert_eq!(d.price_feed.vaa, u.price_feed.vaa);
}

#[test]
fn subscription_round_trip_is_lossless() {
    let ids = vec![FeedId::new(1, 2, 3, 4), FeedId::new(5, 6, 7, 8)];
    let sub = subscribe_request(ids.clone());
    let bytes = encode_subscription(&sub);
    let d = decode_subscription(&bytes).expect("canonical encoding must decode");
    assert_eq!(d.ids, ids);
    assert_eq!(d.msg_type, b"subscribe".to_vec());
    assert!(!d.verbose);
    assert!(d.binary);
}

#[test]
fn subscription_encoding_is_exact() {
    let sub = subscribe_request(vec![FeedId::new(0, 0, 0, 1)]);
    let bytes = encode_subscription(&sub);
    let expected = "{\"ids\":[\"0x0000000000000000000000000000000000000000000000000000000000000001\"],\"type\":\"subscribe\",\"verbose\":false,\"binary\":true}";
    assert_eq!(String::from_utf8(bytes).unwrap(), expected);
}

#[test]
fn empty_subscription_encoding_is_exact() {
    let sub = subscribe_request(Vec::new());
    let bytes = encode_subscription(&sub);
    let expected = "{\"ids\":[],\"type\":\"subscribe\",\"verbose\":false,\"binary\":true}";
    assert_eq!(String::from_utf8(bytes).unwrap(), expected);
}

#[test]
fn update_encoding_is_exact() {
    let u = PriceUpdate {
        msg_type: b"price_update".to_vec(),
        price_feed: PriceFeed {
            ema_price: Price {
                conf: b"9".to_vec(),
                expo: 0,
                price: b"70".to_vec(),
                publish_time: 5,
            },
            id: FeedId::new(0, 0, 0, 0xff),
            price: Price {
                conf: b"10".to_vec(),
                expo: -2,
                price: b"71".to_vec(),
                publish_time: 6,
            },
            vaa: b"AA==".to_vec(),
        },
    };
    let bytes = encode_price_update(&u);
    let expected = "{\"type\":\"price_update\",\"price_feed\":{\"ema_price\":{\"conf\":\"9\",\"expo\":0,\"price\":\"70\",\"publish_time\":5},\"id\":\"0x00000000000000000000000000000000000000000000000000000000000000ff\",\"price\":{\"conf\":\"10\",\"expo\":-2,\"price\":\"71\",\"publish_time\":6},\"vaa\":\"AA==\"}}";
    assert_eq!(String::from_utf8(bytes).unwrap(), expected);
}

#[test]
fn update_decoding_from_text_is_exact() {
    let text = "{\"type\":\"price_update\",\"price_feed\":{\"ema_price\":{\"conf\":\"1\",\"expo\":-8,\"price\":\"2\",\"publish_time\":3},\"id\":\"0x0000000000000002000000000000000100000000000000040000000000000003\",\"price\":{\"conf\":\"4\",\"expo\":8,\"price\":\"5\",\"publish_time\":4294967295},\"vaa\":\"zz\"}}";
    let d = decode_price_update(&text.as_bytes().to_vec()).expect("must decode");
    assert_eq!(d.msg_type, b"price_update".to_vec());
    assert_eq!(d.price_feed.id, FeedId::new(2, 1, 4, 3));
    assert_eq!(d.price_feed.ema_price.expo, -8);
    assert_eq!(d.price_feed.price.expo, 8);
    assert_eq!(d.price_feed.price.publish_time, u32::MAX);
    assert_eq!(d.price_feed.vaa, b"zz".to_vec());
}

#[test]
fn malformed_update_payloads_are_rejected() {
    let cases: Vec<&str> = vec![
        "",
        "{}",
        "not json",
        "{\"type\":\"x\"}",
        // trailing garbage after a whole message
        "{\"type\":\"p\",\"price_feed\":{\"ema_price\":{\"conf\":\"9\",\"expo\":0,\"price\":\"70\",\"publish_time\":5},\"id\":\"0x00000000000000000000000000000000000000000000000000000000000000ff\",\"price\":{\"conf\":\"10\",\"expo\":-2,\"price\":\"71\",\"publish_time\":6},\"vaa\":\"AA==\"}}X",
        // upper-case hexadecimal digits are not canonical
        "{\"type\":\"p\",\"price_feed\":{\"ema_price\":{\"conf\":\"9\",\"expo\":0,\"price\":\"70\",\"publish_time\":5},\"id\":\"0x00000000000000000000000000000000000000000000000000000000000000FF\",\"price\":{\"conf\":\"10\",\"expo\":-2,\"price\":\"71\",\"publish_time\":6},\"vaa\":\"AA==\"}}",
        // a leading zero is not canonical
        "{\"type\":\"p\",\"price_feed\":{\"ema_price\":{\"conf\":\"9\",\"expo\":00,\"price\":\"70\",\"publish_time\":5},\"id\":\"0x00000000000000000000000000000000000000000000000000000000000000ff\",\"price\":{\"conf\":\"10\",\"expo\":-2,\"price\":\"71\",\"publish_time\":6},\"vaa\":\"AA==\"}}",
    ];
    for c in cases {
        assert!(decode_price_update(&c.as_bytes().to_vec()).is_none(), "accepted: {c}");
    }
}

#[test]
fn malformed_subscriptions_are_rejected() {
    let cases: Vec<&str> = vec![
        "",
        "{\"ids\":[]}",
        "{\"ids\":[],\"type\":\"subscribe\",\"verbose\":false,\"binary\":maybe}",
        "{\"ids\":[\"0xshort\"],\"type\":\"subscribe\",\"verbose\":false,\"binary\":true}",
    ];
    for c in cases {
        assert!(decode_subscription(&c.as_bytes().to_vec()).is_none(), "accepted: {c}");
    }
}

#[test]
fn encoded_messages_are_valid_json() {
    let u = sample_update();
    let bytes = encode_price_update(&u);
    let v: serde_json::Value = serde_json::from_slice(&bytes).expect("valid JSON");
    assert_eq!(v["type"].as_str().unwrap(), "price_update");
    assert_eq!(
        v["price_feed"]["id"].as_str().unwrap(),
        "0xe62df6c8b4a85fe1a67db44dc12de5db330f7ac66b72dc658afedcc0f50b1ec1"
    );
    assert_eq!(v["price_feed"]["price"]["expo"].as_i64().unwrap(), -8);
    assert_eq!(v["price_feed"]["price"]["conf"].as_str().unwrap(), "1577");
    assert_eq!(v["price_feed"]["price"]["publish_time"].as_u64().unwrap(), 1700000001);

    let sub = subscribe_request(vec![FeedId::new(1, 2, 3, 4)]);
    let sb = encode_subscription(&sub);
    let sv: serde_json::Value = serde_json::from_slice(&sb).expect("valid JSON");
    assert_eq!(sv["type"].as_str().unwrap(), "subscribe");
    assert_eq!(sv["verbose"].as_bool().unwrap(), false);
    assert_eq!(sv["binary"].as_bool().unwrap(), true);
    assert_eq!(sv["ids"].as_array().unwrap().len(), 1);
}

#[test]
fn extreme_exponents_round_trip() {
    let mut u = sample_update();
    u.price_feed.price.expo = i32::MIN;
    u.price_feed.ema_price.expo = i32::MAX;
    u.price_feed.price.publish_time = 0;
    let bytes = encode_price_update(&u);
    let text = String::from_utf8(bytes.clone()).unwrap();
    assert!(text.contains("\"expo\":-2147483648"));
    assert!(text.contains("\"expo\":2147483647"));
    assert!(text.contains("\"publish_time\":0"));
    let d = decode_price_update(&bytes).expect("must decode");
    assert_eq!(d.price_feed.price.expo, i32::MIN);
    assert_eq!(d.price_feed.ema_price.expo, i32::MAX);
    assert_eq!(d.price_feed.price.publish_time, 0);
}

#[test]
fn many_identifiers_round_trip_in_order() {
    let ids: Vec<FeedId> = (0..5).map(|n| FeedId::new(n, n + 1, n + 2, n + 3)).collect();
    let sub = subscribe_request(ids.clone());
    let bytes = encode_subscription(&sub);
    let d = decode_subscription(&bytes).expect("must decode");
    assert_eq!(d.ids, ids);
}


#[test]
fn whitespace_between_tokens_is_insignificant() {
    // the subscribe request with ordinary spaces, as a client may send it
    let spaced = "{\"ids\": [\"0x0000000000000000000000000000000000000000000000000000000000000001\"], \"type\": \"subscribe\", \"verbose\": false, \"binary\": true}";
    let d = decode_subscription(&spaced.as_bytes().to_vec()).expect("spaced request must decode");
    assert_eq!(d.ids, vec![FeedId::new(0, 0, 0, 1)]);
    assert_eq!(d.msg_type, b"subscribe".to_vec());
    assert!(!d.verbose && d.binary);

    // an update pretty-printed over several lines
    let pretty = "{\n  \"type\": \"price_update\",\n  \"price_feed\": {\n    \"ema_price\": {\"conf\": \"9\", \"expo\": 0, \"price\": \"70\", \"publish_time\": 5},\n    \"id\": \"0x00000000000000000000000000000000000000000000000000000000000000ff\",\n    \"price\": {\"conf\": \"10\", \"expo\": -2, \"price\": \"71\", \"publish_time\": 6},\n    \"vaa\": \"AA==\"\n  }\n}\n";
    let d2 = decode_price_update(&pretty.as_bytes().to_vec()).expect("pretty update must decode");
    assert_eq!(d2.price_feed.id, FeedId::new(0, 0, 0, 0xff));
    assert_eq!(d2.price_feed.price.expo, -2);
    assert_eq!(d2.price_feed.vaa, b"AA==".to_vec());
}

#[test]
fn whitespace_inside_strings_is_kept() {
    // the spaces inside the type string are contents, not separators
    let text = "{\"type\": \"a b c\",\"price_feed\":{\"ema_price\":{\"conf\":\"9\",\"expo\":0,\"price\":\"70\",\"publish_time\":5},\"id\":\"0x00000000000000000000000000000000000000000000000000000000000000ff\",\"price\":{\"conf\":\"10\",\"expo\":-2,\"price\":\"71\",\"publish_time\":6},\"vaa\":\"AA==\"}}";
    let d = decode_price_update(&text.as_bytes().to_vec()).expect("must decode");
    assert_eq!(d.msg_type, b"a b c".to_vec());
}
