//! Round-trip laws of the wire codec: the canonical encoding is
//! injective on well-formed messages, so decoding an encoded message
//! gives back exactly that message.

use vstd::prelude::*;
use crate::FeedId;
use crate::messages::{safe_str, QuoteModel, FeedModel, UpdateModel, SubscriptionModel};
use crate::numcodec::{
    is_digit, enc_dec, hex_digits, hex_val, lemma_enc_dec_props, lemma_enc_dec_unique,
    lemma_hex_digits_props, lemma_pow16_16,
};
use crate::codec::{
    key_conf, key_expo, key_price, key_publish_time, key_ema_price, key_id, key_vaa, key_type,
    key_price_feed, key_ids, key_type_mid, key_verbose, key_binary, enc_bool, enc_str, enc_int,
    id_hex, enc_id, enc_ids_inner, enc_ids, enc_quote, enc_feed, enc_update, enc_subscription,
    lemma_eq_parts, strip_ws, ws_clean, lemma_clean_app, lemma_clean_enc_str, lemma_strip_plain,
    lemma_strip_empty,
};
use crate::numcodec::{all_digits, is_hex_digit};

verus! {

/// Two JSON string literals with equal continuations are the same string
/// with the same continuation.
proof fn lemma_enc_str_unique(a: Seq<u8>, b: Seq<u8>, r1: Seq<u8>, r2: Seq<u8>)
    requires
        safe_str(a),
        safe_str(b),
        enc_str(a) + r1 == enc_str(b) + r2,
    ensures
        a == b,
        r1 == r2,
{
    let w = enc_str(a) + r1;
    if a.len() < b.len() {
        assert(w[1 + a.len() as int] == enc_str(a)[1 + a.len() as int]);
        assert(enc_str(a)[1 + a.len() as int] == 34);
        assert((enc_str(b) + r2)[1 + a.len() as int] == enc_str(b)[1 + a.len() as int]);
        assert(enc_str(b)[1 + a.len() as int] == b[a.len() as int]);
        assert(false);
    }
    if b.len() < a.len() {
        assert(w[1 + b.len() as int] == enc_str(a)[1 + b.len() as int]);
        assert(enc_str(a)[1 + b.len() as int] == a[b.len() as int]);
        assert((enc_str(b) + r2)[1 + b.len() as int] == enc_str(b)[1 + b.len() as int]);
        assert(enc_str(b)[1 + b.len() as int] == 34);
        assert(false);
    }
    lemma_eq_parts(enc_str(a), r1, enc_str(b), r2);
    assert forall|t: int| 0 <= t < a.len() implies a[t] == b[t] by {
        assert(enc_str(a)[1 + t] == a[t]);
        assert(enc_str(b)[1 + t] == b[t]);
    }
    assert(a =~= b);
}

/// Two signed canonical numbers with non-digit continuations coincide.
proof fn lemma_enc_int_unique(n1: int, n2: int, r1: Seq<u8>, r2: Seq<u8>)
    requires
        enc_int(n1) + r1 == enc_int(n2) + r2,
        r1.len() == 0 || !is_digit(r1[0]),
        r2.len() == 0 || !is_digit(r2[0]),
    ensures
        n1 == n2,
        r1 == r2,
{
    if n1 >= 0 && n2 >= 0 {
        lemma_enc_dec_unique(n1, n2, r1, r2);
    } else if n1 < 0 && n2 < 0 {
        assert(enc_int(n1) == seq![45u8] + enc_dec(-n1));
        assert(enc_int(n2) == seq![45u8] + enc_dec(-n2));
        assert((seq![45u8] + enc_dec(-n1)) + r1 =~= seq![45u8] + (enc_dec(-n1) + r1));
        assert((seq![45u8] + enc_dec(-n2)) + r2 =~= seq![45u8] + (enc_dec(-n2) + r2));
        lemma_eq_parts(seq![45u8], enc_dec(-n1) + r1, seq![45u8], enc_dec(-n2) + r2);
        lemma_enc_dec_unique(-n1, -n2, r1, r2);
    } else if n1 < 0 {
        lemma_enc_dec_props(n2);
        assert((enc_int(n1) + r1)[0] == 45);
        assert((enc_int(n2) + r2)[0] == enc_dec(n2)[0]);
        assert(is_digit(enc_dec(n2)[0]));
        assert(false);
    } else {
        lemma_enc_dec_props(n1);
        assert((enc_int(n2) + r2)[0] == 45);
        assert((enc_int(n1) + r1)[0] == enc_dec(n1)[0]);
        assert(is_digit(enc_dec(n1)[0]));
        assert(false);
    }
}

/// The encoded length of every identifier is 68 bytes.
proof fn lemma_id_parts(id: FeedId)
    ensures
        enc_id(id).len() == 68,
        hex_digits(id.w0 as int, 16).len() == 16,
        hex_digits(id.w1 as int, 16).len() == 16,
        hex_digits(id.w2 as int, 16).len() == 16,
        hex_digits(id.w3 as int, 16).len() == 16,
        hex_val(hex_digits(id.w0 as int, 16)) == id.w0,
        hex_val(hex_digits(id.w1 as int, 16)) == id.w1,
        hex_val(hex_digits(id.w2 as int, 16)) == id.w2,
        hex_val(hex_digits(id.w3 as int, 16)) == id.w3,
{
    lemma_pow16_16();
    lemma_hex_digits_props(id.w0 as int, 16);
    lemma_hex_digits_props(id.w1 as int, 16);
    lemma_hex_digits_props(id.w2 as int, 16);
    lemma_hex_digits_props(id.w3 as int, 16);
}

/// Two encoded identifiers with equal continuations coincide.
proof fn lemma_enc_id_unique(id1: FeedId, id2: FeedId, r1: Seq<u8>, r2: Seq<u8>)
    requires
        enc_id(id1) + r1 == enc_id(id2) + r2,
    ensures
        id1 == id2,
        r1 == r2,
{
    lemma_id_parts(id1);
    lemma_id_parts(id2);
    lemma_eq_parts(enc_id(id1), r1, enc_id(id2), r2);
    let h1 = id_hex(id1);
    let h2 = id_hex(id2);
    assert forall|t: int| 0 <= t < 66 implies h1[t] == h2[t] by {
        assert(enc_id(id1)[1 + t] == h1[t]);
        assert(enc_id(id2)[1 + t] == h2[t]);
    }
    assert(h1 =~= h2);
    let a0 = hex_digits(id1.w0 as int, 16);
    let a1 = hex_digits(id1.w1 as int, 16);
    let a2 = hex_digits(id1.w2 as int, 16);
    let a3 = hex_digits(id1.w3 as int, 16);
    let b0 = hex_digits(id2.w0 as int, 16);
    let b1 = hex_digits(id2.w1 as int, 16);
    let b2 = hex_digits(id2.w2 as int, 16);
    let b3 = hex_digits(id2.w3 as int, 16);
    assert(a0 =~= b0) by {
        assert(forall|t: int| 0 <= t < 16 ==> #[trigger] a0[t] == h1[2 + t] && b0[t] == h2[2 + t]);
    }
    assert(a1 =~= b1) by {
        assert(forall|t: int| 0 <= t < 16 ==> #[trigger] a1[t] == h1[18 + t] && b1[t] == h2[18
            + t]);
    }
    assert(a2 =~= b2) by {
        assert(forall|t: int| 0 <= t < 16 ==> #[trigger] a2[t] == h1[34 + t] && b2[t] == h2[34
            + t]);
    }
    assert(a3 =~= b3) by {
        assert(forall|t: int| 0 <= t < 16 ==> #[trigger] a3[t] == h1[50 + t] && b3[t] == h2[50
            + t]);
    }
    assert(id1.w0 == id2.w0 && id1.w1 == id2.w1 && id1.w2 == id2.w2 && id1.w3 == id2.w3);
}

/// Two encoded identifier lists followed by a closing bracket and equal
/// continuations coincide.
proof fn lemma_enc_ids_inner_unique(ids1: Seq<FeedId>, ids2: Seq<FeedId>, r1: Seq<u8>, r2: Seq<u8>)
    requires
        enc_ids_inner(ids1) + (seq![93u8] + r1) == enc_ids_inner(ids2) + (seq![93u8] + r2),
    ensures
        ids1 == ids2,
        r1 == r2,
    decreases ids1.len(),
{
    let w = enc_ids_inner(ids1) + (seq![93u8] + r1);
    if ids1.len() == 0 && ids2.len() == 0 {
        lemma_eq_parts(enc_ids_inner(ids1), seq![93u8] + r1, enc_ids_inner(ids2), seq![93u8] + r2);
        lemma_eq_parts(seq![93u8], r1, seq![93u8], r2);
        assert(ids1 =~= ids2);
    } else if ids1.len() == 0 {
        lemma_id_parts(ids2[0]);
        assert(w[0] == 93);
        assert(enc_ids_inner(ids2)[0] == enc_id(ids2[0])[0]);
        assert(enc_id(ids2[0])[0] == 34);
        assert((enc_ids_inner(ids2) + (seq![93u8] + r2))[0] == enc_ids_inner(ids2)[0]);
        assert(false);
    } else if ids2.len() == 0 {
        lemma_id_parts(ids1[0]);
        assert((enc_ids_inner(ids2) + (seq![93u8] + r2))[0] == 93);
        assert(enc_ids_inner(ids1)[0] == enc_id(ids1[0])[0]);
        assert(enc_id(ids1[0])[0] == 34);
        assert(w[0] == enc_ids_inner(ids1)[0]);
        assert(false);
    } else {
        lemma_id_parts(ids1[0]);
        lemma_id_parts(ids2[0]);
        // both lists start with one encoded identifier
        let t1 = if ids1.len() == 1 {
            seq![93u8] + r1
        } else {
            seq![44u8] + (enc_ids_inner(ids1.skip(1)) + (seq![93u8] + r1))
        };
        let t2 = if ids2.len() == 1 {
            seq![93u8] + r2
        } else {
            seq![44u8] + (enc_ids_inner(ids2.skip(1)) + (seq![93u8] + r2))
        };
        assert(w =~= enc_id(ids1[0]) + t1);
        assert(enc_ids_inner(ids2) + (seq![93u8] + r2) =~= enc_id(ids2[0]) + t2);
        lemma_enc_id_unique(ids1[0], ids2[0], t1, t2);
        if ids1.len() == 1 && ids2.len() == 1 {
            lemma_eq_parts(seq![93u8], r1, seq![93u8], r2);
            assert(ids1 =~= ids2);
        } else if ids1.len() == 1 {
            assert(t1[0] == 93 && t2[0] == 44);
            assert(false);
        } else if ids2.len() == 1 {
            assert(t1[0] == 44 && t2[0] == 93);
            assert(false);
        } else {
            lemma_eq_parts(
                seq![44u8],
                enc_ids_inner(ids1.skip(1)) + (seq![93u8] + r1),
                seq![44u8],
                enc_ids_inner(ids2.skip(1)) + (seq![93u8] + r2),
            );
            lemma_enc_ids_inner_unique(ids1.skip(1), ids2.skip(1), r1, r2);
            assert(ids1.len() == ids2.len());
            assert forall|t: int| 0 <= t < ids1.len() implies ids1[t] == ids2[t] by {
                if t > 0 {
                    assert(ids1[t] == ids1.skip(1)[t - 1]);
                    assert(ids2[t] == ids2.skip(1)[t - 1]);
                }
            }
            assert(ids1 =~= ids2);
        }
    }
}

/// Two encoded identifier arrays with equal continuations coincide.
proof fn lemma_enc_ids_unique(ids1: Seq<FeedId>, ids2: Seq<FeedId>, r1: Seq<u8>, r2: Seq<u8>)
    requires
        enc_ids(ids1) + r1 == enc_ids(ids2) + r2,
    ensures
        ids1 == ids2,
        r1 == r2,
{
    assert(enc_ids(ids1) + r1 =~= seq![91u8] + (enc_ids_inner(ids1) + (seq![93u8] + r1)));
    assert(enc_ids(ids2) + r2 =~= seq![91u8] + (enc_ids_inner(ids2) + (seq![93u8] + r2)));
    lemma_eq_parts(
        seq![91u8],
        enc_ids_inner(ids1) + (seq![93u8] + r1),
        seq![91u8],
        enc_ids_inner(ids2) + (seq![93u8] + r2),
    );
    lemma_enc_ids_inner_unique(ids1, ids2, r1, r2);
}

/// Two encoded booleans with equal continuations coincide.
proof fn lemma_enc_bool_unique(b1: bool, b2: bool, r1: Seq<u8>, r2: Seq<u8>)
    requires
        enc_bool(b1) + r1 == enc_bool(b2) + r2,
    ensures
        b1 == b2,
        r1 == r2,
{
    if b1 != b2 {
        assert((enc_bool(true) + r1)[0] == 116);
        assert((enc_bool(false) + r1)[0] == 102);
        assert((enc_bool(true) + r2)[0] == 116);
        assert((enc_bool(false) + r2)[0] == 102);
        assert(false);
    }
    lemma_eq_parts(enc_bool(b1), r1, enc_bool(b2), r2);
}

/// Two encoded quotes with equal continuations coincide.
#[verifier::rlimit(60)]
proof fn lemma_enc_quote_unique(q1: QuoteModel, q2: QuoteModel, r1: Seq<u8>, r2: Seq<u8>)
    requires
        q1.wf(),
        q2.wf(),
        enc_quote(q1) + r1 == enc_quote(q2) + r2,
    ensures
        q1 == q2,
        r1 == r2,
{
    let x1 = enc_str(q1.conf) + (key_expo() + (enc_int(q1.expo) + (key_price() + (enc_str(
        q1.price,
    ) + (key_publish_time() + (enc_dec(q1.publish_time) + (seq![125u8] + r1)))))));
    let x2 = enc_str(q2.conf) + (key_expo() + (enc_int(q2.expo) + (key_price() + (enc_str(
        q2.price,
    ) + (key_publish_time() + (enc_dec(q2.publish_time) + (seq![125u8] + r2)))))));
    assert(enc_quote(q1) + r1 =~= key_conf() + x1);
    assert(enc_quote(q2) + r2 =~= key_conf() + x2);
    lemma_eq_parts(key_conf(), x1, key_conf(), x2);
    lemma_enc_str_unique(
        q1.conf,
        q2.conf,
        key_expo() + (enc_int(q1.expo) + (key_price() + (enc_str(q1.price) + (key_publish_time()
            + (enc_dec(q1.publish_time) + (seq![125u8] + r1)))))),
        key_expo() + (enc_int(q2.expo) + (key_price() + (enc_str(q2.price) + (key_publish_time()
            + (enc_dec(q2.publish_time) + (seq![125u8] + r2)))))),
    );
    lemma_eq_parts(
        key_expo(),
        enc_int(q1.expo) + (key_price() + (enc_str(q1.price) + (key_publish_time() + (enc_dec(
            q1.publish_time,
        ) + (seq![125u8] + r1))))),
        key_expo(),
        enc_int(q2.expo) + (key_price() + (enc_str(q2.price) + (key_publish_time() + (enc_dec(
            q2.publish_time,
        ) + (seq![125u8] + r2))))),
    );
    assert((key_price() + (enc_str(q1.price) + (key_publish_time() + (enc_dec(q1.publish_time) + (
    seq![125u8] + r1)))))[0] == 44);
    assert((key_price() + (enc_str(q2.price) + (key_publish_time() + (enc_dec(q2.publish_time) + (
    seq![125u8] + r2)))))[0] == 44);
    lemma_enc_int_unique(
        q1.expo,
        q2.expo,
        key_price() + (enc_str(q1.price) + (key_publish_time() + (enc_dec(q1.publish_time) + (
        seq![125u8] + r1)))),
        key_price() + (enc_str(q2.price) + (key_publish_time() + (enc_dec(q2.publish_time) + (
        seq![125u8] + r2)))),
    );
    lemma_eq_parts(
        key_price(),
        enc_str(q1.price) + (key_publish_time() + (enc_dec(q1.publish_time) + (seq![125u8] + r1))),
        key_price(),
        enc_str(q2.price) + (key_publish_time() + (enc_dec(q2.publish_time) + (seq![125u8] + r2))),
    );
    lemma_enc_str_unique(
        q1.price,
        q2.price,
        key_publish_time() + (enc_dec(q1.publish_time) + (seq![125u8] + r1)),
        key_publish_time() + (enc_dec(q2.publish_time) + (seq![125u8] + r2)),
    );
    lemma_eq_parts(
        key_publish_time(),
        enc_dec(q1.publish_time) + (seq![125u8] + r1),
        key_publish_time(),
        enc_dec(q2.publish_time) + (seq![125u8] + r2),
    );
    assert((seq![125u8] + r1)[0] == 125);
    assert((seq![125u8] + r2)[0] == 125);
    lemma_enc_dec_unique(q1.publish_time, q2.publish_time, seq![125u8] + r1, seq![125u8] + r2);
    lemma_eq_parts(seq![125u8], r1, seq![125u8], r2);
    assert(q1 =~= q2);
}

/// Two encoded price feeds with equal continuations coincide.
#[verifier::rlimit(60)]
proof fn lemma_enc_feed_unique(f1: FeedModel, f2: FeedModel, r1: Seq<u8>, r2: Seq<u8>)
    requires
        f1.wf(),
        f2.wf(),
        enc_feed(f1) + r1 == enc_feed(f2) + r2,
    ensures
        f1 == f2,
        r1 == r2,
{
    let x1 = enc_quote(f1.ema_price) + (key_id() + (enc_id(f1.id) + (key_price() + (enc_quote(
        f1.price,
    ) + (key_vaa() + (enc_str(f1.vaa) + (seq![125u8] + r1)))))));
    let x2 = enc_quote(f2.ema_price) + (key_id() + (enc_id(f2.id) + (key_price() + (enc_quote(
        f2.price,
    ) + (key_vaa() + (enc_str(f2.vaa) + (seq![125u8] + r2)))))));
    assert(enc_feed(f1) + r1 =~= key_ema_price() + x1);
    assert(enc_feed(f2) + r2 =~= key_ema_price() + x2);
    lemma_eq_parts(key_ema_price(), x1, key_ema_price(), x2);
    lemma_enc_quote_unique(
        f1.ema_price,
        f2.ema_price,
        key_id() + (enc_id(f1.id) + (key_price() + (enc_quote(f1.price) + (key_vaa() + (enc_str(
            f1.vaa,
        ) + (seq![125u8] + r1)))))),
        key_id() + (enc_id(f2.id) + (key_price() + (enc_quote(f2.price) + (key_vaa() + (enc_str(
            f2.vaa,
        ) + (seq![125u8] + r2)))))),
    );
    lemma_eq_parts(
        key_id(),
        enc_id(f1.id) + (key_price() + (enc_quote(f1.price) + (key_vaa() + (enc_str(f1.vaa) + (
        seq![125u8] + r1))))),
        key_id(),
        enc_id(f2.id) + (key_price() + (enc_quote(f2.price) + (key_vaa() + (enc_str(f2.vaa) + (
        seq![125u8] + r2))))),
    );
    lemma_enc_id_unique(
        f1.id,
        f2.id,
        key_price() + (enc_quote(f1.price) + (key_vaa() + (enc_str(f1.vaa) + (seq![125u8] + r1)))),
        key_price() + (enc_quote(f2.price) + (key_vaa() + (enc_str(f2.vaa) + (seq![125u8] + r2)))),
    );
    lemma_eq_parts(
        key_price(),
        enc_quote(f1.price) + (key_vaa() + (enc_str(f1.vaa) + (seq![125u8] + r1))),
        key_price(),
        enc_quote(f2.price) + (key_vaa() + (enc_str(f2.vaa) + (seq![125u8] + r2))),
    );
    lemma_enc_quote_unique(
        f1.price,
        f2.price,
        key_vaa() + (enc_str(f1.vaa) + (seq![125u8] + r1)),
        key_vaa() + (enc_str(f2.vaa) + (seq![125u8] + r2)),
    );
    lemma_eq_parts(
        key_vaa(),
        enc_str(f1.vaa) + (seq![125u8] + r1),
        key_vaa(),
        enc_str(f2.vaa) + (seq![125u8] + r2),
    );
    lemma_enc_str_unique(f1.vaa, f2.vaa, seq![125u8] + r1, seq![125u8] + r2);
    lemma_eq_parts(seq![125u8], r1, seq![125u8], r2);
    assert(f1 =~= f2);
}

/// The canonical encoding of update messages is injective on well-formed
/// messages.
pub proof fn lemma_enc_update_injective(m1: UpdateModel, m2: UpdateModel)
    requires
        m1.wf(),
        m2.wf(),
        enc_update(m1) == enc_update(m2),
    ensures
        m1 == m2,
{
    let x1 = enc_str(m1.msg_type) + (key_price_feed() + (enc_feed(m1.price_feed) + (seq![125u8]
        + Seq::<u8>::empty())));
    let x2 = enc_str(m2.msg_type) + (key_price_feed() + (enc_feed(m2.price_feed) + (seq![125u8]
        + Seq::<u8>::empty())));
    assert(enc_update(m1) + Seq::<u8>::empty() =~= key_type() + x1);
    assert(enc_update(m2) + Seq::<u8>::empty() =~= key_type() + x2);
    lemma_eq_parts(key_type(), x1, key_type(), x2);
    lemma_enc_str_unique(
        m1.msg_type,
        m2.msg_type,
        key_price_feed() + (enc_feed(m1.price_feed) + (seq![125u8] + Seq::<u8>::empty())),
        key_price_feed() + (enc_feed(m2.price_feed) + (seq![125u8] + Seq::<u8>::empty())),
    );
    lemma_eq_parts(
        key_price_feed(),
        enc_feed(m1.price_feed) + (seq![125u8] + Seq::<u8>::empty()),
        key_price_feed(),
        enc_feed(m2.price_feed) + (seq![125u8] + Seq::<u8>::empty()),
    );
    lemma_enc_feed_unique(
        m1.price_feed,
        m2.price_feed,
        seq![125u8] + Seq::<u8>::empty(),
        seq![125u8] + Seq::<u8>::empty(),
    );
    assert(m1 =~= m2);
}

/// The canonical encoding of subscribe requests is injective on
/// well-formed requests.
#[verifier::rlimit(100)]
#[verifier::spinoff_prover]
pub proof fn lemma_enc_subscription_injective(m1: SubscriptionModel, m2: SubscriptionModel)
    requires
        m1.wf(),
        m2.wf(),
        enc_subscription(m1) == enc_subscription(m2),
    ensures
        m1 == m2,
{
    let x1 = enc_ids(m1.ids) + (key_type_mid() + (enc_str(m1.msg_type) + (key_verbose() + (
    enc_bool(m1.verbose) + (key_binary() + (enc_bool(m1.binary) + (seq![125u8]
        + Seq::<u8>::empty())))))));
    let x2 = enc_ids(m2.ids) + (key_type_mid() + (enc_str(m2.msg_type) + (key_verbose() + (
    enc_bool(m2.verbose) + (key_binary() + (enc_bool(m2.binary) + (seq![125u8]
        + Seq::<u8>::empty())))))));
    assert(enc_subscription(m1) + Seq::<u8>::empty() =~= key_ids() + x1);
    assert(enc_subscription(m2) + Seq::<u8>::empty() =~= key_ids() + x2);
    lemma_eq_parts(key_ids(), x1, key_ids(), x2);
    lemma_enc_ids_unique(
        m1.ids,
        m2.ids,
        key_type_mid() + (enc_str(m1.msg_type) + (key_verbose() + (enc_bool(m1.verbose) + (
        key_binary() + (enc_bool(m1.binary) + (seq![125u8] + Seq::<u8>::empty())))))),
        key_type_mid() + (enc_str(m2.msg_type) + (key_verbose() + (enc_bool(m2.verbose) + (
        key_binary() + (enc_bool(m2.binary) + (seq![125u8] + Seq::<u8>::empty())))))),
    );
    lemma_eq_parts(
        key_type_mid(),
        enc_str(m1.msg_type) + (key_verbose() + (enc_bool(m1.verbose) + (key_binary() + (enc_bool(
            m1.binary,
        ) + (seq![125u8] + Seq::<u8>::empty()))))),
        key_type_mid(),
        enc_str(m2.msg_type) + (key_verbose() + (enc_bool(m2.verbose) + (key_binary() + (enc_bool(
            m2.binary,
        ) + (seq![125u8] + Seq::<u8>::empty()))))),
    );
    lemma_enc_str_unique(
        m1.msg_type,
        m2.msg_type,
        key_verbose() + (enc_bool(m1.verbose) + (key_binary() + (enc_bool(m1.binary) + (
        seq![125u8] + Seq::<u8>::empty())))),
        key_verbose() + (enc_bool(m2.verbose) + (key_binary() + (enc_bool(m2.binary) + (
        seq![125u8] + Seq::<u8>::empty())))),
    );
    lemma_eq_parts(
        key_verbose(),
        enc_bool(m1.verbose) + (key_binary() + (enc_bool(m1.binary) + (seq![125u8]
            + Seq::<u8>::empty()))),
        key_verbose(),
        enc_bool(m2.verbose) + (key_binary() + (enc_bool(m2.binary) + (seq![125u8]
            + Seq::<u8>::empty()))),
    );
    lemma_enc_bool_unique(
        m1.verbose,
        m2.verbose,
        key_binary() + (enc_bool(m1.binary) + (seq![125u8] + Seq::<u8>::empty())),
        key_binary() + (enc_bool(m2.binary) + (seq![125u8] + Seq::<u8>::empty())),
    );
    lemma_eq_parts(
        key_binary(),
        enc_bool(m1.binary) + (seq![125u8] + Seq::<u8>::empty()),
        key_binary(),
        enc_bool(m2.binary) + (seq![125u8] + Seq::<u8>::empty()),
    );
    lemma_enc_bool_unique(
        m1.binary,
        m2.binary,
        seq![125u8] + Seq::<u8>::empty(),
        seq![125u8] + Seq::<u8>::empty(),
    );
    assert(m1 =~= m2);
}


// ---------------------------------------------------------------------
// Canonical encodings carry no insignificant whitespace
// ---------------------------------------------------------------------

/// A digit-or-sign run is clean: it holds no whitespace and no quotes.
proof fn lemma_clean_digits(s: Seq<u8>)
    requires
        all_digits(s),
    ensures
        ws_clean(s),
{
    lemma_strip_plain(s, false);
}

/// Every fixed literal of the wire format is clean.
proof fn lemma_clean_keys()
    ensures
        ws_clean(key_conf()),
        ws_clean(key_expo()),
        ws_clean(key_price()),
        ws_clean(key_publish_time()),
        ws_clean(key_ema_price()),
        ws_clean(key_id()),
        ws_clean(key_vaa()),
        ws_clean(key_type()),
        ws_clean(key_price_feed()),
        ws_clean(key_ids()),
        ws_clean(key_type_mid()),
        ws_clean(key_verbose()),
        ws_clean(key_binary()),
        ws_clean(enc_bool(true)),
        ws_clean(enc_bool(false)),
        ws_clean(seq![123u8]),
        ws_clean(seq![125u8]),
        ws_clean(seq![91u8]),
        ws_clean(seq![93u8]),
        ws_clean(seq![44u8]),
        ws_clean(seq![58u8]),
{
    lemma_strip_plain(seq![123u8], false);
    lemma_strip_plain(seq![125u8], false);
    lemma_strip_plain(seq![91u8], false);
    lemma_strip_plain(seq![93u8], false);
    lemma_strip_plain(seq![44u8], false);
    lemma_strip_plain(seq![58u8], false);
    lemma_strip_plain(enc_bool(true), false);
    lemma_strip_plain(enc_bool(false), false);
    assert(key_conf() =~= seq![123u8] + enc_str(seq![99u8, 111u8, 110u8, 102u8]) + seq![58u8]);
    lemma_clean_key(seq![123u8], seq![99u8, 111u8, 110u8, 102u8]);
    assert(key_expo() =~= seq![44u8] + enc_str(seq![101u8, 120u8, 112u8, 111u8]) + seq![58u8]);
    lemma_clean_key(seq![44u8], seq![101u8, 120u8, 112u8, 111u8]);
    assert(key_price() =~= seq![44u8] + enc_str(seq![112u8, 114u8, 105u8, 99u8, 101u8]) + seq![58u8]);
    lemma_clean_key(seq![44u8], seq![112u8, 114u8, 105u8, 99u8, 101u8]);
    assert(key_publish_time() =~= seq![44u8] + enc_str(seq![112u8, 117u8, 98u8, 108u8, 105u8, 115u8, 104u8, 95u8, 116u8, 105u8, 109u8, 101u8]) + seq![58u8]);
    lemma_clean_key(seq![44u8], seq![112u8, 117u8, 98u8, 108u8, 105u8, 115u8, 104u8, 95u8, 116u8, 105u8, 109u8, 101u8]);
    assert(key_ema_price() =~= seq![123u8] + enc_str(seq![101u8, 109u8, 97u8, 95u8, 112u8, 114u8, 105u8, 99u8, 101u8]) + seq![58u8]);
    lemma_clean_key(seq![123u8], seq![101u8, 109u8, 97u8, 95u8, 112u8, 114u8, 105u8, 99u8, 101u8]);
    assert(key_id() =~= seq![44u8] + enc_str(seq![105u8, 100u8]) + seq![58u8]);
    lemma_clean_key(seq![44u8], seq![105u8, 100u8]);
    assert(key_vaa() =~= seq![44u8] + enc_str(seq![118u8, 97u8, 97u8]) + seq![58u8]);
    lemma_clean_key(seq![44u8], seq![118u8, 97u8, 97u8]);
    assert(key_type() =~= seq![123u8] + enc_str(seq![116u8, 121u8, 112u8, 101u8]) + seq![58u8]);
    lemma_clean_key(seq![123u8], seq![116u8, 121u8, 112u8, 101u8]);
    assert(key_price_feed() =~= seq![44u8] + enc_str(seq![112u8, 114u8, 105u8, 99u8, 101u8, 95u8, 102u8, 101u8, 101u8, 100u8]) + seq![58u8]);
    lemma_clean_key(seq![44u8], seq![112u8, 114u8, 105u8, 99u8, 101u8, 95u8, 102u8, 101u8, 101u8, 100u8]);
    assert(key_ids() =~= seq![123u8] + enc_str(seq![105u8, 100u8, 115u8]) + seq![58u8]);
    lemma_clean_key(seq![123u8], seq![105u8, 100u8, 115u8]);
    assert(key_type_mid() =~= seq![44u8] + enc_str(seq![116u8, 121u8, 112u8, 101u8]) + seq![58u8]);
    lemma_clean_key(seq![44u8], seq![116u8, 121u8, 112u8, 101u8]);
    assert(key_verbose() =~= seq![44u8] + enc_str(seq![118u8, 101u8, 114u8, 98u8, 111u8, 115u8, 101u8]) + seq![58u8]);
    lemma_clean_key(seq![44u8], seq![118u8, 101u8, 114u8, 98u8, 111u8, 115u8, 101u8]);
    assert(key_binary() =~= seq![44u8] + enc_str(seq![98u8, 105u8, 110u8, 97u8, 114u8, 121u8]) + seq![58u8]);
    lemma_clean_key(seq![44u8], seq![98u8, 105u8, 110u8, 97u8, 114u8, 121u8]);
}

/// A key literal — punctuation, quoted name, colon — is clean.
proof fn lemma_clean_key(open_b: Seq<u8>, name: Seq<u8>)
    requires
        open_b.len() == 1,
        !crate::codec::is_ws(open_b[0]) && open_b[0] != 34,
        safe_str(name),
    ensures
        ws_clean(open_b + enc_str(name) + seq![58u8]),
{
    lemma_strip_plain(open_b, false);
    lemma_clean_enc_str(name);
    lemma_strip_plain(seq![58u8], false);
    lemma_clean_app(open_b, enc_str(name));
    lemma_clean_app(open_b + enc_str(name), seq![58u8]);
}

/// An encoded number is clean.
proof fn lemma_clean_enc_int(n: int)
    ensures
        ws_clean(enc_int(n)),
{
    lemma_enc_dec_props(if n < 0 {
        -n
    } else {
        n
    });
    if n < 0 {
        lemma_strip_plain(seq![45u8], false);
        lemma_clean_digits(enc_dec(-n));
        lemma_clean_app(seq![45u8], enc_dec(-n));
    } else {
        lemma_clean_digits(enc_dec(n));
    }
}

/// An encoded identifier is clean.
proof fn lemma_clean_enc_id(id: FeedId)
    ensures
        ws_clean(enc_id(id)),
{
    lemma_id_parts(id);
    assert(safe_str(id_hex(id))) by {
        let h = id_hex(id);
        assert forall|t: int| 0 <= t < h.len() implies 0x20 <= #[trigger] h[t] && h[t] != 0x22
            && h[t] != 0x5c by {
            if t >= 2 {
                let a0 = hex_digits(id.w0 as int, 16);
                let a1 = hex_digits(id.w1 as int, 16);
                let a2 = hex_digits(id.w2 as int, 16);
                let a3 = hex_digits(id.w3 as int, 16);
                lemma_pow16_16();
                lemma_hex_digits_props(id.w0 as int, 16);
                lemma_hex_digits_props(id.w1 as int, 16);
                lemma_hex_digits_props(id.w2 as int, 16);
                lemma_hex_digits_props(id.w3 as int, 16);
                if t < 18 {
                    assert(h[t] == a0[t - 2] && is_hex_digit(a0[t - 2]));
                } else if t < 34 {
                    assert(h[t] == a1[t - 18] && is_hex_digit(a1[t - 18]));
                } else if t < 50 {
                    assert(h[t] == a2[t - 34] && is_hex_digit(a2[t - 34]));
                } else {
                    assert(h[t] == a3[t - 50] && is_hex_digit(a3[t - 50]));
                }
            }
        }
    }
    lemma_clean_enc_str(id_hex(id));
}

/// An encoded identifier array is clean.
proof fn lemma_clean_enc_ids(ids: Seq<FeedId>)
    ensures
        ws_clean(enc_ids(ids)),
{
    lemma_clean_keys();
    lemma_clean_enc_ids_inner(ids);
    lemma_clean_app(seq![91u8], enc_ids_inner(ids));
    lemma_clean_app(seq![91u8] + enc_ids_inner(ids), seq![93u8]);
}

proof fn lemma_clean_enc_ids_inner(ids: Seq<FeedId>)
    ensures
        ws_clean(enc_ids_inner(ids)),
    decreases ids.len(),
{
    lemma_clean_keys();
    if ids.len() == 0 {
        lemma_strip_empty(false);
    } else if ids.len() == 1 {
        lemma_clean_enc_id(ids[0]);
    } else {
        lemma_clean_enc_id(ids[0]);
        lemma_clean_enc_ids_inner(ids.skip(1));
        lemma_clean_app(enc_id(ids[0]), seq![44u8]);
        lemma_clean_app(enc_id(ids[0]) + seq![44u8], enc_ids_inner(ids.skip(1)));
    }
}

/// An encoded quote is clean.
proof fn lemma_clean_enc_quote(q: QuoteModel)
    requires
        q.wf(),
    ensures
        ws_clean(enc_quote(q)),
{
    lemma_clean_keys();
    lemma_clean_enc_str(q.conf);
    lemma_clean_enc_int(q.expo);
    lemma_clean_enc_str(q.price);
    lemma_enc_dec_props(q.publish_time);
    lemma_clean_digits(enc_dec(q.publish_time));
    lemma_clean_app(key_conf(), enc_str(q.conf));
    lemma_clean_app(key_conf() + enc_str(q.conf), key_expo());
    lemma_clean_app(key_conf() + enc_str(q.conf) + key_expo(), enc_int(q.expo));
    lemma_clean_app(key_conf() + enc_str(q.conf) + key_expo() + enc_int(q.expo), key_price());
    lemma_clean_app(
        key_conf() + enc_str(q.conf) + key_expo() + enc_int(q.expo) + key_price(),
        enc_str(q.price),
    );
    lemma_clean_app(
        key_conf() + enc_str(q.conf) + key_expo() + enc_int(q.expo) + key_price() + enc_str(
            q.price,
        ),
        key_publish_time(),
    );
    lemma_clean_app(
        key_conf() + enc_str(q.conf) + key_expo() + enc_int(q.expo) + key_price() + enc_str(
            q.price,
        ) + key_publish_time(),
        enc_dec(q.publish_time),
    );
    lemma_clean_app(
        key_conf() + enc_str(q.conf) + key_expo() + enc_int(q.expo) + key_price() + enc_str(
            q.price,
        ) + key_publish_time() + enc_dec(q.publish_time),
        seq![125u8],
    );
}

/// An encoded price feed is clean.
proof fn lemma_clean_enc_feed(f: FeedModel)
    requires
        f.wf(),
    ensures
        ws_clean(enc_feed(f)),
{
    lemma_clean_keys();
    lemma_clean_enc_quote(f.ema_price);
    lemma_clean_enc_id(f.id);
    lemma_clean_enc_quote(f.price);
    lemma_clean_enc_str(f.vaa);
    lemma_clean_app(key_ema_price(), enc_quote(f.ema_price));
    lemma_clean_app(key_ema_price() + enc_quote(f.ema_price), key_id());
    lemma_clean_app(key_ema_price() + enc_quote(f.ema_price) + key_id(), enc_id(f.id));
    lemma_clean_app(
        key_ema_price() + enc_quote(f.ema_price) + key_id() + enc_id(f.id),
        key_price(),
    );
    lemma_clean_app(
        key_ema_price() + enc_quote(f.ema_price) + key_id() + enc_id(f.id) + key_price(),
        enc_quote(f.price),
    );
    lemma_clean_app(
        key_ema_price() + enc_quote(f.ema_price) + key_id() + enc_id(f.id) + key_price()
            + enc_quote(f.price),
        key_vaa(),
    );
    lemma_clean_app(
        key_ema_price() + enc_quote(f.ema_price) + key_id() + enc_id(f.id) + key_price()
            + enc_quote(f.price) + key_vaa(),
        enc_str(f.vaa),
    );
    lemma_clean_app(
        key_ema_price() + enc_quote(f.ema_price) + key_id() + enc_id(f.id) + key_price()
            + enc_quote(f.price) + key_vaa() + enc_str(f.vaa),
        seq![125u8],
    );
}

/// The canonical encoding of a well-formed update message holds no
/// insignificant whitespace: stripping leaves it unchanged.
pub proof fn lemma_enc_update_clean(m: UpdateModel)
    requires
        m.wf(),
    ensures
        strip_ws(enc_update(m)) == enc_update(m),
{
    lemma_clean_keys();
    lemma_clean_enc_str(m.msg_type);
    lemma_clean_enc_feed(m.price_feed);
    lemma_clean_app(key_type(), enc_str(m.msg_type));
    lemma_clean_app(key_type() + enc_str(m.msg_type), key_price_feed());
    lemma_clean_app(key_type() + enc_str(m.msg_type) + key_price_feed(), enc_feed(m.price_feed));
    lemma_clean_app(
        key_type() + enc_str(m.msg_type) + key_price_feed() + enc_feed(m.price_feed),
        seq![125u8],
    );
}

/// The canonical encoding of a well-formed subscribe request holds no
/// insignificant whitespace: stripping leaves it unchanged.
pub proof fn lemma_enc_subscription_clean(m: SubscriptionModel)
    requires
        m.wf(),
    ensures
        strip_ws(enc_subscription(m)) == enc_subscription(m),
{
    lemma_clean_keys();
    lemma_clean_enc_ids(m.ids);
    lemma_clean_enc_str(m.msg_type);
    lemma_clean_app(key_ids(), enc_ids(m.ids));
    lemma_clean_app(key_ids() + enc_ids(m.ids), key_type_mid());
    lemma_clean_app(key_ids() + enc_ids(m.ids) + key_type_mid(), enc_str(m.msg_type));
    lemma_clean_app(
        key_ids() + enc_ids(m.ids) + key_type_mid() + enc_str(m.msg_type),
        key_verbose(),
    );
    lemma_clean_app(
        key_ids() + enc_ids(m.ids) + key_type_mid() + enc_str(m.msg_type) + key_verbose(),
        enc_bool(m.verbose),
    );
    lemma_clean_app(
        key_ids() + enc_ids(m.ids) + key_type_mid() + enc_str(m.msg_type) + key_verbose()
            + enc_bool(m.verbose),
        key_binary(),
    );
    lemma_clean_app(
        key_ids() + enc_ids(m.ids) + key_type_mid() + enc_str(m.msg_type) + key_verbose()
            + enc_bool(m.verbose) + key_binary(),
        enc_bool(m.binary),
    );
    lemma_clean_app(
        key_ids() + enc_ids(m.ids) + key_type_mid() + enc_str(m.msg_type) + key_verbose()
            + enc_bool(m.verbose) + key_binary() + enc_bool(m.binary),
        seq![125u8],
    );
}

/// The unique well-formed update message a byte sequence encodes, if any.
pub open spec fn decoded_update(s: Seq<u8>) -> Option<UpdateModel> {
    if exists|m: UpdateModel| m.wf() && enc_update(m) == s {
        Some(choose|m: UpdateModel| m.wf() && enc_update(m) == s)
    } else {
        None
    }
}

/// The unique well-formed subscribe request a byte sequence encodes, if
/// any.
pub open spec fn decoded_subscription(s: Seq<u8>) -> Option<SubscriptionModel> {
    if exists|m: SubscriptionModel| m.wf() && enc_subscription(m) == s {
        Some(choose|m: SubscriptionModel| m.wf() && enc_subscription(m) == s)
    } else {
        None
    }
}

/// Encoding then decoding an update message is lossless: every field of
/// the decoded message equals the message encoded.
pub proof fn lemma_update_round_trip(m: UpdateModel)
    requires
        m.wf(),
    ensures
        decoded_update(enc_update(m)) == Some(m),
        strip_ws(enc_update(m)) == enc_update(m),
{
    lemma_enc_update_clean(m);
    assert(m.wf() && enc_update(m) == enc_update(m));
    let m2 = choose|m2: UpdateModel| m2.wf() && enc_update(m2) == enc_update(m);
    lemma_enc_update_injective(m2, m);
}

/// Encoding then decoding a subscribe request is lossless: every field of
/// the decoded request equals the request encoded.
pub proof fn lemma_subscription_round_trip(m: SubscriptionModel)
    requires
        m.wf(),
    ensures
        decoded_subscription(enc_subscription(m)) == Some(m),
        strip_ws(enc_subscription(m)) == enc_subscription(m),
{
    lemma_enc_subscription_clean(m);
    assert(m.wf() && enc_subscription(m) == enc_subscription(m));
    let m2 = choose|m2: SubscriptionModel| m2.wf() && enc_subscription(m2) == enc_subscription(m);
    lemma_enc_subscription_injective(m2, m);
}

} // verus!
