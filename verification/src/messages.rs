//! Message types carried between clients, the gateway and the upstream
//! venue, together with their mathematical models.
//!
//! String-valued fields (decimal prices, the proof blob, the message type
//! tag) are held as byte vectors; a field is well formed when every byte may
//! stand unescaped inside a JSON string literal.

use vstd::prelude::*;
use crate::FeedId;

verus! {

/// True when every byte of `s` may appear verbatim inside a JSON string
/// literal: no control bytes, no quote, no backslash.
pub open spec fn safe_str(s: Seq<u8>) -> bool {
    forall|i: int| 0 <= i < s.len() ==> 0x20 <= #[trigger] s[i] && s[i] != 0x22 && s[i] != 0x5c
}

/// Model of one quote: decimal strings for value and confidence, a
/// base-ten exponent and a publish timestamp.
#[verifier::ext_equal]
pub struct QuoteModel {
    pub conf: Seq<u8>,
    pub expo: int,
    pub price: Seq<u8>,
    pub publish_time: int,
}

impl QuoteModel {
    pub open spec fn wf(self) -> bool {
        &&& safe_str(self.conf)
        &&& safe_str(self.price)
        &&& -0x8000_0000 <= self.expo < 0x8000_0000
        &&& 0 <= self.publish_time <= 0xFFFF_FFFF
    }
}

/// Model of one price feed: two quotes, the feed identifier and the
/// binary-encoded proof string.
#[verifier::ext_equal]
pub struct FeedModel {
    pub ema_price: QuoteModel,
    pub id: FeedId,
    pub price: QuoteModel,
    pub vaa: Seq<u8>,
}

impl FeedModel {
    pub open spec fn wf(self) -> bool {
        &&& self.ema_price.wf()
        &&& self.price.wf()
        &&& safe_str(self.vaa)
    }
}

/// Model of one update message as relayed from upstream: a type tag and
/// the feed payload.
#[verifier::ext_equal]
pub struct UpdateModel {
    pub msg_type: Seq<u8>,
    pub price_feed: FeedModel,
}

impl UpdateModel {
    pub open spec fn wf(self) -> bool {
        &&& safe_str(self.msg_type)
        &&& self.price_feed.wf()
    }
}

/// Model of a subscribe request: the requested identifiers, a type tag and
/// the two protocol flags.
#[verifier::ext_equal]
pub struct SubscriptionModel {
    pub ids: Seq<FeedId>,
    pub msg_type: Seq<u8>,
    pub verbose: bool,
    pub binary: bool,
}

impl SubscriptionModel {
    pub open spec fn wf(self) -> bool {
        safe_str(self.msg_type)
    }
}

/// One quote of a price feed.
#[derive(Clone, Debug)]
pub struct Price {
    pub conf: Vec<u8>,
    pub expo: i32,
    pub price: Vec<u8>,
    pub publish_time: u32,
}

impl View for Price {
    type V = QuoteModel;

    open spec fn view(&self) -> QuoteModel {
        QuoteModel {
            conf: self.conf@,
            expo: self.expo as int,
            price: self.price@,
            publish_time: self.publish_time as int,
        }
    }
}

/// One price feed as carried in an update message.
#[derive(Clone, Debug)]
pub struct PriceFeed {
    pub ema_price: Price,
    pub id: FeedId,
    pub price: Price,
    pub vaa: Vec<u8>,
}

impl View for PriceFeed {
    type V = FeedModel;

    open spec fn view(&self) -> FeedModel {
        FeedModel {
            ema_price: self.ema_price@,
            id: self.id,
            price: self.price@,
            vaa: self.vaa@,
        }
    }
}

/// One decoded update message, produced by the connector and consumed by
/// every connection handler whose subscription matches its identifier.
#[derive(Clone, Debug)]
pub struct PriceUpdate {
    pub msg_type: Vec<u8>,
    pub price_feed: PriceFeed,
}

impl View for PriceUpdate {
    type V = UpdateModel;

    open spec fn view(&self) -> UpdateModel {
        UpdateModel { msg_type: self.msg_type@, price_feed: self.price_feed@ }
    }
}

/// One client's subscribe request.
#[derive(Clone, Debug)]
pub struct Subscription {
    pub ids: Vec<FeedId>,
    pub msg_type: Vec<u8>,
    pub verbose: bool,
    pub binary: bool,
}

impl View for Subscription {
    type V = SubscriptionModel;

    open spec fn view(&self) -> SubscriptionModel {
        SubscriptionModel {
            ids: self.ids@,
            msg_type: self.msg_type@,
            verbose: self.verbose,
            binary: self.binary,
        }
    }
}

} // verus!
