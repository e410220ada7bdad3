//! Encoders and decoders for whole messages: quotes, price feeds, update
//! messages and subscribe requests. A decoder accepts every input whose
//! whitespace-stripped form is the canonical encoding of a well-formed
//! message, and rejects everything else.

use vstd::prelude::*;
use crate::FeedId;
use crate::messages::{
    QuoteModel, FeedModel, UpdateModel, SubscriptionModel, Price, PriceFeed, PriceUpdate,
    Subscription,
};
use crate::numcodec::{is_digit, enc_dec};
use crate::codec::{
    key_conf, key_expo, key_price, key_publish_time, key_ema_price, key_id, key_vaa, key_type,
    key_price_feed, key_ids, key_type_mid, key_verbose, key_binary, enc_bool, enc_str, enc_int,
    enc_id, enc_ids_inner, enc_ids, enc_quote, enc_feed, enc_update, enc_subscription, LitTag,
    lit_of, push_lit, eat_lit, push_str, parse_string, push_dec, parse_dec, push_int, parse_int,
    push_feed_id, parse_feed_id, parse_bool, lemma_eq_parts, strip_ws, strip_ws_vec,
};

verus! {

// ---------------------------------------------------------------------
// Quotes
// ---------------------------------------------------------------------

/// Appends the canonical encoding of one quote to `out`.
pub fn push_quote(out: &mut Vec<u8>, q: &Price)
    requires
        q@.wf(),
    ensures
        final(out)@ == old(out)@ + enc_quote(q@),
{
    let ghost orig = out@;
    push_lit(out, LitTag::Conf);
    push_str(out, &q.conf);
    push_lit(out, LitTag::Expo);
    push_int(out, q.expo);
    push_lit(out, LitTag::PriceKey);
    push_str(out, &q.price);
    push_lit(out, LitTag::PublishTime);
    push_dec(out, q.publish_time as u64);
    out.push(125);
    proof {
        assert(out@ =~= orig + enc_quote(q@));
    }
}

/// Parses one quote object at `i`: succeeds exactly on the canonical
/// encoding of a well-formed quote.
#[verifier::rlimit(100)]
pub fn parse_quote(s: &Vec<u8>, i: usize) -> (r: Option<(Price, usize)>)
    requires
        i <= s@.len(),
    ensures
        r matches Some(p) ==> {
            &&& i <= p.1 <= s@.len()
            &&& p.0@.wf()
            &&& p.1 == i + enc_quote(p.0@).len()
            &&& s@.skip(i as int) == enc_quote(p.0@) + s@.skip(p.1 as int)
        },
        forall|q: QuoteModel, rest: Seq<u8>|
            q.wf() && s@.skip(i as int) == #[trigger] (enc_quote(q) + rest) ==> (r matches Some(p)
                && p.0@ == q && p.1 == i + enc_quote(q).len()),
{
    let ghost t8 = |q: QuoteModel, rest: Seq<u8>| seq![125u8] + rest;
    let ghost t7 = |q: QuoteModel, rest: Seq<u8>| enc_dec(q.publish_time) + t8(q, rest);
    let ghost t6 = |q: QuoteModel, rest: Seq<u8>| key_publish_time() + t7(q, rest);
    let ghost t5 = |q: QuoteModel, rest: Seq<u8>| enc_str(q.price) + t6(q, rest);
    let ghost t4 = |q: QuoteModel, rest: Seq<u8>| key_price() + t5(q, rest);
    let ghost t3 = |q: QuoteModel, rest: Seq<u8>| enc_int(q.expo) + t4(q, rest);
    let ghost t2 = |q: QuoteModel, rest: Seq<u8>| key_expo() + t3(q, rest);
    let ghost t1 = |q: QuoteModel, rest: Seq<u8>| enc_str(q.conf) + t2(q, rest);

    let mut ok: bool = true;
    let mut pos: usize = i;
    let mut conf: Vec<u8> = Vec::new();
    let mut expo: i32 = 0;
    let mut price: Vec<u8> = Vec::new();
    let mut ptime: u32 = 0;

    proof {
        assert forall|q: QuoteModel, rest: Seq<u8>|
            q.wf() && s@.skip(i as int) == #[trigger] (enc_quote(q) + rest) implies s@.skip(
            i as int,
        ) == key_conf() + t1(q, rest) by {
            assert(enc_quote(q) + rest =~= key_conf() + t1(q, rest));
        }
    }
    match eat_lit(s, pos, LitTag::Conf) {
        Some(j) => {
            pos = j;
        },
        None => {
            ok = false;
        },
    }
    proof {
        assert forall|q: QuoteModel, rest: Seq<u8>|
            q.wf() && s@.skip(i as int) == #[trigger] (enc_quote(q) + rest) implies (ok && pos
            <= s@.len() && s@.skip(pos as int) == t1(q, rest)) by {
            assert(s@.skip(i as int) == lit_of(LitTag::Conf) + t1(q, rest));
            lemma_eq_parts(
                lit_of(LitTag::Conf),
                s@.skip(pos as int),
                lit_of(LitTag::Conf),
                t1(q, rest),
            );
        }
    }
    if ok {
        match parse_string(s, pos) {
            Some(p) => {
                conf = p.0;
                pos = p.1;
            },
            None => {
                ok = false;
            },
        }
    }
    proof {
        assert forall|q: QuoteModel, rest: Seq<u8>|
            q.wf() && s@.skip(i as int) == #[trigger] (enc_quote(q) + rest) implies (ok && pos
            <= s@.len() && conf@ == q.conf && s@.skip(pos as int) == t2(q, rest)) by {
            assert(t1(q, rest) == enc_str(q.conf) + t2(q, rest));
            lemma_eq_parts(enc_str(conf@), s@.skip(pos as int), enc_str(q.conf), t2(q, rest));
        }
    }
    let ghost pos2 = pos;
    if ok {
        match eat_lit(s, pos, LitTag::Expo) {
            Some(j) => {
                pos = j;
            },
            None => {
                ok = false;
            },
        }
    }
    proof {
        assert forall|q: QuoteModel, rest: Seq<u8>|
            q.wf() && s@.skip(i as int) == #[trigger] (enc_quote(q) + rest) implies (ok && pos
            <= s@.len() && conf@ == q.conf && s@.skip(pos as int) == t3(q, rest)) by {
            assert(s@.skip(pos2 as int) == lit_of(LitTag::Expo) + t3(q, rest));
            lemma_eq_parts(
                lit_of(LitTag::Expo),
                s@.skip(pos as int),
                lit_of(LitTag::Expo),
                t3(q, rest),
            );
        }
    }
    if ok {
        match parse_int(s, pos) {
            Some(p) => {
                expo = p.0;
                pos = p.1;
            },
            None => {
                ok = false;
            },
        }
    }
    proof {
        assert forall|q: QuoteModel, rest: Seq<u8>|
            q.wf() && s@.skip(i as int) == #[trigger] (enc_quote(q) + rest) implies (ok && pos
            <= s@.len() && conf@ == q.conf && expo == q.expo && s@.skip(pos as int) == t4(
            q,
            rest,
        )) by {
            assert(t3(q, rest) == enc_int(q.expo) + t4(q, rest));
            assert(t4(q, rest)[0] == 44 && t4(q, rest).len() > 0);
            assert(!is_digit(44u8));
            lemma_eq_parts(enc_int(expo as int), s@.skip(pos as int), enc_int(q.expo), t4(q, rest));
        }
    }
    let ghost pos4 = pos;
    if ok {
        match eat_lit(s, pos, LitTag::PriceKey) {
            Some(j) => {
                pos = j;
            },
            None => {
                ok = false;
            },
        }
    }
    proof {
        assert forall|q: QuoteModel, rest: Seq<u8>|
            q.wf() && s@.skip(i as int) == #[trigger] (enc_quote(q) + rest) implies (ok && pos
            <= s@.len() && conf@ == q.conf && expo == q.expo && s@.skip(pos as int) == t5(
            q,
            rest,
        )) by {
            assert(s@.skip(pos4 as int) == lit_of(LitTag::PriceKey) + t5(q, rest));
            lemma_eq_parts(
                lit_of(LitTag::PriceKey),
                s@.skip(pos as int),
                lit_of(LitTag::PriceKey),
                t5(q, rest),
            );
        }
    }
    if ok {
        match parse_string(s, pos) {
            Some(p) => {
                price = p.0;
                pos = p.1;
            },
            None => {
                ok = false;
            },
        }
    }
    proof {
        assert forall|q: QuoteModel, rest: Seq<u8>|
            q.wf() && s@.skip(i as int) == #[trigger] (enc_quote(q) + rest) implies (ok && pos
            <= s@.len() && conf@ == q.conf && expo == q.expo && price@ == q.price && s@.skip(
            pos as int,
        ) == t6(q, rest)) by {
            assert(t5(q, rest) == enc_str(q.price) + t6(q, rest));
            lemma_eq_parts(enc_str(price@), s@.skip(pos as int), enc_str(q.price), t6(q, rest));
        }
    }
    let ghost pos6 = pos;
    if ok {
        match eat_lit(s, pos, LitTag::PublishTime) {
            Some(j) => {
                pos = j;
            },
            None => {
                ok = false;
            },
        }
    }
    proof {
        assert forall|q: QuoteModel, rest: Seq<u8>|
            q.wf() && s@.skip(i as int) == #[trigger] (enc_quote(q) + rest) implies (ok && pos
            <= s@.len() && conf@ == q.conf && expo == q.expo && price@ == q.price && s@.skip(
            pos as int,
        ) == t7(q, rest)) by {
            assert(s@.skip(pos6 as int) == lit_of(LitTag::PublishTime) + t7(q, rest));
            lemma_eq_parts(
                lit_of(LitTag::PublishTime),
                s@.skip(pos as int),
                lit_of(LitTag::PublishTime),
                t7(q, rest),
            );
        }
    }
    if ok {
        match parse_dec(s, pos, 0xFFFF_FFFF) {
            Some(p) => {
                ptime = p.0 as u32;
                pos = p.1;
            },
            None => {
                ok = false;
            },
        }
    }
    proof {
        assert forall|q: QuoteModel, rest: Seq<u8>|
            q.wf() && s@.skip(i as int) == #[trigger] (enc_quote(q) + rest) implies (ok && pos
            <= s@.len() && conf@ == q.conf && expo == q.expo && price@ == q.price && ptime
            == q.publish_time && s@.skip(pos as int) == t8(q, rest)) by {
            assert(t7(q, rest) == enc_dec(q.publish_time) + t8(q, rest));
            assert(t8(q, rest)[0] == 125 && t8(q, rest).len() > 0);
            assert(!is_digit(125u8));
            lemma_eq_parts(
                enc_dec(ptime as int),
                s@.skip(pos as int),
                enc_dec(q.publish_time),
                t8(q, rest),
            );
        }
    }
    if ok && pos < s.len() && s[pos] == 125 {
        let quote = Price { conf, expo, price, publish_time: ptime };
        proof {
            assert(s@.skip(pos as int) =~= seq![125u8] + s@.skip(pos + 1));
            assert(s@.skip(i as int) =~= enc_quote(quote@) + s@.skip(pos + 1));
            assert forall|q: QuoteModel, rest: Seq<u8>|
                q.wf() && s@.skip(i as int) == #[trigger] (enc_quote(q) + rest) implies (quote@
                =~= q && pos + 1 == i + enc_quote(q).len()) by {
                assert(s@.skip(pos + 1) =~= t8(q, rest).drop_first());
                assert(s@.skip(pos + 1) =~= rest);
            }
        }
        return Some((quote, pos + 1));
    }
    proof {
        assert forall|q: QuoteModel, rest: Seq<u8>|
            q.wf() && s@.skip(i as int) == #[trigger] (enc_quote(q) + rest) implies false by {
            assert(s@.skip(pos as int)[0] == s@[pos as int]);
            assert(t8(q, rest)[0] == 125);
        }
    }
    None
}

// ---------------------------------------------------------------------
// Identifier lists
// ---------------------------------------------------------------------

/// Appends the identifier list elements from `from` on, joined by commas.
fn push_ids_inner(out: &mut Vec<u8>, ids: &Vec<FeedId>, from: usize)
    requires
        from <= ids@.len(),
    ensures
        final(out)@ == old(out)@ + enc_ids_inner(ids@.skip(from as int)),
    decreases ids@.len() - from,
{
    let ghost orig = out@;
    if from < ids.len() {
        push_feed_id(out, &ids[from]);
        if from + 1 < ids.len() {
            out.push(44);
            push_ids_inner(out, ids, from + 1);
            proof {
                assert(ids@.skip(from as int).skip(1) =~= ids@.skip(from + 1));
                assert(ids@.skip(from as int)[0] == ids@[from as int]);
                assert(enc_ids_inner(ids@.skip(from as int)) == enc_id(ids@[from as int])
                    + seq![44u8] + enc_ids_inner(ids@.skip(from + 1)));
                assert(out@ =~= orig + enc_ids_inner(ids@.skip(from as int)));
            }
        } else {
            proof {
                assert(ids@.skip(from as int).len() == 1);
                assert(ids@.skip(from as int)[0] == ids@[from as int]);
                assert(enc_ids_inner(ids@.skip(from as int)) == enc_id(ids@[from as int]));
                assert(out@ =~= orig + enc_ids_inner(ids@.skip(from as int)));
            }
        }
    } else {
        proof {
            assert(ids@.skip(from as int).len() == 0);
            assert(out@ =~= orig + enc_ids_inner(ids@.skip(from as int)));
        }
    }
}

/// Appends the JSON array of identifiers to `out`.
pub fn push_ids(out: &mut Vec<u8>, ids: &Vec<FeedId>)
    ensures
        final(out)@ == old(out)@ + enc_ids(ids@),
{
    let ghost orig = out@;
    out.push(91);
    push_ids_inner(out, ids, 0);
    out.push(93);
    proof {
        assert(ids@.skip(0) =~= ids@);
        assert(out@ =~= orig + enc_ids(ids@));
    }
}

/// Parses `id ( ',' id )* ']'` starting at the first identifier.
#[verifier::rlimit(100)]
fn parse_ids_elems(s: &Vec<u8>, i: usize) -> (r: Option<(Vec<FeedId>, usize)>)
    requires
        i <= s@.len(),
    ensures
        r matches Some(p) ==> {
            &&& i <= p.1 <= s@.len()
            &&& p.0@.len() >= 1
            &&& p.1 == i + enc_ids_inner(p.0@).len() + 1
            &&& s@.skip(i as int) == enc_ids_inner(p.0@) + (seq![93u8] + s@.skip(p.1 as int))
        },
        forall|ids: Seq<FeedId>, tail: Seq<u8>|
            ids.len() >= 1 && s@.skip(i as int) == #[trigger] (enc_ids_inner(ids) + tail)
                && tail.len() > 0 && tail[0] == 93 ==> (r matches Some(p) && p.0@ == ids && p.1
                == i + enc_ids_inner(ids).len() + 1),
    decreases s@.len() - i,
{
    proof {
        lemma_enc_id_len();
    }
    let r0 = parse_feed_id(s, i);
    let (id0, j) = match r0 {
        Some(p) => p,
        None => {
            proof {
                assert forall|ids: Seq<FeedId>, tail: Seq<u8>|
                    ids.len() >= 1 && s@.skip(i as int) == (enc_ids_inner(ids) + tail)
                        && tail.len() > 0 && tail[0] == 93 implies false by {
                    if ids.len() == 1 {
                        assert(s@.skip(i as int) == enc_id(ids[0]) + tail);
                    } else {
                        assert(enc_ids_inner(ids) == enc_id(ids[0]) + seq![44u8]
                            + enc_ids_inner(ids.skip(1)));
                        assert(s@.skip(i as int) =~= enc_id(ids[0]) + (seq![44u8]
                            + enc_ids_inner(ids.skip(1)) + tail));
                    }
                }
            }
            return None;
        },
    };
    if j < s.len() && s[j] == 44 {
        let r1 = parse_ids_elems(s, j + 1);
        match r1 {
            Some(p) => {
                let (tail_ids, j2) = p;
                let mut v = tail_ids;
                let ghost gtail = v@;
                v.insert(0, id0);
                proof {
                    assert(v@ =~= seq![id0] + gtail);
                    assert(v@.len() >= 2);
                    assert(v@[0] == id0);
                    assert(v@.skip(1) =~= gtail);
                    assert(enc_ids_inner(v@) == enc_id(id0) + seq![44u8] + enc_ids_inner(
                        v@.skip(1),
                    ));
                    assert(s@.skip(j as int) =~= seq![44u8] + s@.skip(j + 1));
                    assert(s@.skip(i as int) =~= enc_ids_inner(v@) + (seq![93u8] + s@.skip(
                        j2 as int,
                    )));
                    assert forall|ids: Seq<FeedId>, tail: Seq<u8>|
                        ids.len() >= 1 && s@.skip(i as int) == #[trigger] (enc_ids_inner(ids)
                            + tail) && tail.len() > 0 && tail[0] == 93 implies (v@ == ids && j2
                        == i + enc_ids_inner(ids).len() + 1) by {
                        if ids.len() == 1 {
                            assert(s@.skip(i as int) == enc_id(ids[0]) + tail);
                            lemma_eq_parts(
                                enc_id(id0),
                                s@.skip(j as int),
                                enc_id(ids[0]),
                                tail,
                            );
                            assert(s@.skip(j as int)[0] == s@[j as int]);
                            assert(false);
                        } else {
                            assert(enc_ids_inner(ids) == enc_id(ids[0]) + seq![44u8]
                                + enc_ids_inner(ids.skip(1)));
                            assert(s@.skip(i as int) =~= enc_id(ids[0]) + (seq![44u8] + (
                            enc_ids_inner(ids.skip(1)) + tail)));
                            lemma_eq_parts(
                                enc_id(id0),
                                s@.skip(j as int),
                                enc_id(ids[0]),
                                seq![44u8] + (enc_ids_inner(ids.skip(1)) + tail),
                            );
                            assert(s@.skip(j + 1) =~= s@.skip(j as int).skip(1));
                            assert(s@.skip(j + 1) =~= enc_ids_inner(ids.skip(1)) + tail);
                            assert(ids.skip(1).len() >= 1);
                            assert(v@.skip(1) == ids.skip(1));
                            assert(v@ =~= ids);
                        }
                    }
                }
                return Some((v, j2));
            },
            None => {
                proof {
                    assert forall|ids: Seq<FeedId>, tail: Seq<u8>|
                        ids.len() >= 1 && s@.skip(i as int) == (enc_ids_inner(ids) + tail)
                            && tail.len() > 0 && tail[0] == 93 implies false by {
                        if ids.len() == 1 {
                            assert(s@.skip(i as int) == enc_id(ids[0]) + tail);
                            lemma_eq_parts(
                                enc_id(id0),
                                s@.skip(j as int),
                                enc_id(ids[0]),
                                tail,
                            );
                            assert(s@.skip(j as int)[0] == s@[j as int]);
                        } else {
                            assert(enc_ids_inner(ids) == enc_id(ids[0]) + seq![44u8]
                                + enc_ids_inner(ids.skip(1)));
                            assert(s@.skip(i as int) =~= enc_id(ids[0]) + (seq![44u8] + (
                            enc_ids_inner(ids.skip(1)) + tail)));
                            lemma_eq_parts(
                                enc_id(id0),
                                s@.skip(j as int),
                                enc_id(ids[0]),
                                seq![44u8] + (enc_ids_inner(ids.skip(1)) + tail),
                            );
                            assert(s@.skip(j + 1) =~= s@.skip(j as int).skip(1));
                            assert(s@.skip(j + 1) =~= enc_ids_inner(ids.skip(1)) + tail);
                            assert(ids.skip(1).len() >= 1);
                        }
                    }
                }
                return None;
            },
        }
    } else if j < s.len() && s[j] == 93 {
        let mut v: Vec<FeedId> = Vec::new();
        v.push(id0);
        proof {
            assert(v@.len() == 1 && v@[0] == id0);
            assert(enc_ids_inner(v@) == enc_id(id0));
            assert(s@.skip(j as int) =~= seq![93u8] + s@.skip(j + 1));
            assert(s@.skip(i as int) =~= enc_ids_inner(v@) + (seq![93u8] + s@.skip(j + 1)));
            assert forall|ids: Seq<FeedId>, tail: Seq<u8>|
                ids.len() >= 1 && s@.skip(i as int) == #[trigger] (enc_ids_inner(ids) + tail)
                    && tail.len() > 0 && tail[0] == 93 implies (v@ == ids && j + 1 == i
                + enc_ids_inner(ids).len() + 1) by {
                if ids.len() == 1 {
                    assert(s@.skip(i as int) == enc_id(ids[0]) + tail);
                    lemma_eq_parts(enc_id(id0), s@.skip(j as int), enc_id(ids[0]), tail);
                    assert(v@ =~= ids);
                } else {
                    assert(enc_ids_inner(ids) == enc_id(ids[0]) + seq![44u8] + enc_ids_inner(
                        ids.skip(1),
                    ));
                    assert(s@.skip(i as int) =~= enc_id(ids[0]) + (seq![44u8] + (enc_ids_inner(
                        ids.skip(1),
                    ) + tail)));
                    lemma_eq_parts(
                        enc_id(id0),
                        s@.skip(j as int),
                        enc_id(ids[0]),
                        seq![44u8] + (enc_ids_inner(ids.skip(1)) + tail),
                    );
                    assert(s@.skip(j as int)[0] == s@[j as int]);
                    assert(false);
                }
            }
        }
        return Some((v, j + 1));
    } else {
        proof {
            assert forall|ids: Seq<FeedId>, tail: Seq<u8>|
                ids.len() >= 1 && s@.skip(i as int) == (enc_ids_inner(ids) + tail) && tail.len()
                    > 0 && tail[0] == 93 implies false by {
                if ids.len() == 1 {
                    assert(s@.skip(i as int) == enc_id(ids[0]) + tail);
                    lemma_eq_parts(enc_id(id0), s@.skip(j as int), enc_id(ids[0]), tail);
                    assert(s@.skip(j as int)[0] == s@[j as int]);
                    assert(s@.skip(j as int).len() > 0);
                } else {
                    assert(enc_ids_inner(ids) == enc_id(ids[0]) + seq![44u8] + enc_ids_inner(
                        ids.skip(1),
                    ));
                    assert(s@.skip(i as int) =~= enc_id(ids[0]) + (seq![44u8] + (enc_ids_inner(
                        ids.skip(1),
                    ) + tail)));
                    lemma_eq_parts(
                        enc_id(id0),
                        s@.skip(j as int),
                        enc_id(ids[0]),
                        seq![44u8] + (enc_ids_inner(ids.skip(1)) + tail),
                    );
                    assert(s@.skip(j as int)[0] == s@[j as int]);
                    assert(s@.skip(j as int).len() > 0);
                }
            }
        }
        return None;
    }
}

/// The encoded form of every identifier is 68 bytes long.
proof fn lemma_enc_id_len()
    ensures
        forall|id: FeedId| #[trigger] enc_id(id).len() == 68,
{
    assert forall|id: FeedId| #[trigger] enc_id(id).len() == 68 by {
        crate::numcodec::lemma_pow16_16();
        crate::numcodec::lemma_hex_digits_props(id.w0 as int, 16);
        crate::numcodec::lemma_hex_digits_props(id.w1 as int, 16);
        crate::numcodec::lemma_hex_digits_props(id.w2 as int, 16);
        crate::numcodec::lemma_hex_digits_props(id.w3 as int, 16);
    }
}

/// Parses a JSON array of feed identifiers at `i`.
pub fn parse_ids(s: &Vec<u8>, i: usize) -> (r: Option<(Vec<FeedId>, usize)>)
    requires
        i <= s@.len(),
    ensures
        r matches Some(p) ==> {
            &&& i <= p.1 <= s@.len()
            &&& p.1 == i + enc_ids(p.0@).len()
            &&& s@.skip(i as int) == enc_ids(p.0@) + s@.skip(p.1 as int)
        },
        forall|ids: Seq<FeedId>, rest: Seq<u8>|
            s@.skip(i as int) == #[trigger] (enc_ids(ids) + rest) ==> (r matches Some(p) && p.0@
                == ids && p.1 == i + enc_ids(ids).len()),
{
    if i >= s.len() || s[i] != 91 {
        proof {
            assert forall|ids: Seq<FeedId>, rest: Seq<u8>|
                s@.skip(i as int) == (enc_ids(ids) + rest) implies false by {
                assert((enc_ids(ids) + rest).len() >= 2);
                assert(s@.skip(i as int).len() == s@.len() - i);
                assert(i < s@.len());
                assert((enc_ids(ids) + rest)[0] == 91);
                assert(s@.skip(i as int)[0] == s@[i as int]);
            }
        }
        return None;
    }
    if i + 1 < s.len() && s[i + 1] == 93 {
        let v: Vec<FeedId> = Vec::new();
        proof {
            assert(enc_ids_inner(v@) == Seq::<u8>::empty());
            assert(s@.skip(i as int) =~= enc_ids(v@) + s@.skip(i + 2));
            assert forall|ids: Seq<FeedId>, rest: Seq<u8>|
                s@.skip(i as int) == #[trigger] (enc_ids(ids) + rest) implies (v@ == ids && i + 2
                == i + enc_ids(ids).len()) by {
                if ids.len() > 0 {
                    lemma_enc_id_len();
                    assert(enc_ids_inner(ids)[0] == enc_id(ids[0])[0]);
                    assert(enc_id(ids[0])[0] == 34);
                    assert((enc_ids(ids) + rest)[1] == enc_ids_inner(ids)[0]);
                    assert(s@.skip(i as int)[1] == s@[i + 1]);
                    assert(false);
                }
                assert(v@ =~= ids);
            }
        }
        return Some((v, i + 2));
    }
    proof {
        assert forall|ids: Seq<FeedId>, rest: Seq<u8>|
            s@.skip(i as int) == #[trigger] (enc_ids(ids) + rest) implies (ids.len() >= 1
            && s@.skip(i + 1) == enc_ids_inner(ids) + (seq![93u8] + rest)) by {
            assert(s@.skip(i + 1) =~= s@.skip(i as int).skip(1));
            assert(s@.skip(i + 1) =~= enc_ids_inner(ids) + (seq![93u8] + rest));
            if ids.len() == 0 {
                assert(enc_ids_inner(ids).len() == 0);
                assert(s@.skip(i + 1)[0] == (seq![93u8] + rest)[0]);
                assert(s@[i + 1] == 93);
                assert(i + 1 < s@.len());
                assert(false);
            }
        }
    }
    let r0 = parse_ids_elems(s, i + 1);
    match r0 {
        Some(p) => {
            let (v, j) = p;
            proof {
                assert(s@.skip(i as int) =~= seq![91u8] + s@.skip(i + 1));
                assert(s@.skip(i as int) =~= enc_ids(v@) + s@.skip(j as int));
                assert forall|ids: Seq<FeedId>, rest: Seq<u8>|
                    s@.skip(i as int) == #[trigger] (enc_ids(ids) + rest) implies (v@ == ids && j
                    == i + enc_ids(ids).len()) by {
                    assert((seq![93u8] + rest).len() > 0 && (seq![93u8] + rest)[0] == 93);
                }
            }
            Some((v, j))
        },
        None => {
            proof {
                assert forall|ids: Seq<FeedId>, rest: Seq<u8>|
                    s@.skip(i as int) == #[trigger] (enc_ids(ids) + rest) implies false by {
                    assert((seq![93u8] + rest).len() > 0 && (seq![93u8] + rest)[0] == 93);
                }
            }
            None
        },
    }
}

// ---------------------------------------------------------------------
// Price feeds
// ---------------------------------------------------------------------

/// Appends the canonical encoding of one price feed to `out`.
pub fn push_feed(out: &mut Vec<u8>, f: &PriceFeed)
    requires
        f@.wf(),
    ensures
        final(out)@ == old(out)@ + enc_feed(f@),
{
    let ghost orig = out@;
    push_lit(out, LitTag::EmaPrice);
    push_quote(out, &f.ema_price);
    push_lit(out, LitTag::IdKey);
    push_feed_id(out, &f.id);
    push_lit(out, LitTag::PriceKey);
    push_quote(out, &f.price);
    push_lit(out, LitTag::Vaa);
    push_str(out, &f.vaa);
    out.push(125);
    proof {
        assert(out@ =~= orig + enc_feed(f@));
    }
}

/// Parses one price-feed object at `i`: succeeds exactly on the canonical
/// encoding of a well-formed feed.
#[verifier::rlimit(100)]
pub fn parse_feed(s: &Vec<u8>, i: usize) -> (r: Option<(PriceFeed, usize)>)
    requires
        i <= s@.len(),
    ensures
        r matches Some(p) ==> {
            &&& i <= p.1 <= s@.len()
            &&& p.0@.wf()
            &&& p.1 == i + enc_feed(p.0@).len()
            &&& s@.skip(i as int) == enc_feed(p.0@) + s@.skip(p.1 as int)
        },
        forall|f: FeedModel, rest: Seq<u8>|
            f.wf() && s@.skip(i as int) == #[trigger] (enc_feed(f) + rest) ==> (r matches Some(p)
                && p.0@ == f && p.1 == i + enc_feed(f).len()),
{
    let ghost u8t = |f: FeedModel, rest: Seq<u8>| seq![125u8] + rest;
    let ghost u7t = |f: FeedModel, rest: Seq<u8>| enc_str(f.vaa) + u8t(f, rest);
    let ghost u6t = |f: FeedModel, rest: Seq<u8>| key_vaa() + u7t(f, rest);
    let ghost u5t = |f: FeedModel, rest: Seq<u8>| enc_quote(f.price) + u6t(f, rest);
    let ghost u4t = |f: FeedModel, rest: Seq<u8>| key_price() + u5t(f, rest);
    let ghost u3t = |f: FeedModel, rest: Seq<u8>| enc_id(f.id) + u4t(f, rest);
    let ghost u2t = |f: FeedModel, rest: Seq<u8>| key_id() + u3t(f, rest);
    let ghost u1t = |f: FeedModel, rest: Seq<u8>| enc_quote(f.ema_price) + u2t(f, rest);

    let mut ok: bool = true;
    let mut pos: usize = i;
    let mut ema: Price = Price { conf: Vec::new(), expo: 0, price: Vec::new(), publish_time: 0 };
    let mut fid: FeedId = FeedId { w0: 0, w1: 0, w2: 0, w3: 0 };
    let mut quote: Price = Price { conf: Vec::new(), expo: 0, price: Vec::new(), publish_time: 0 };
    let mut vaa: Vec<u8> = Vec::new();

    proof {
        assert forall|f: FeedModel, rest: Seq<u8>|
            f.wf() && s@.skip(i as int) == #[trigger] (enc_feed(f) + rest) implies s@.skip(
            i as int,
        ) == key_ema_price() + u1t(f, rest) by {
            assert(enc_feed(f) + rest =~= key_ema_price() + u1t(f, rest));
        }
    }
    match eat_lit(s, pos, LitTag::EmaPrice) {
        Some(j) => {
            pos = j;
        },
        None => {
            ok = false;
        },
    }
    proof {
        assert forall|f: FeedModel, rest: Seq<u8>|
            f.wf() && s@.skip(i as int) == #[trigger] (enc_feed(f) + rest) implies (ok && pos
            <= s@.len() && s@.skip(pos as int) == u1t(f, rest)) by {
            assert(s@.skip(i as int) == lit_of(LitTag::EmaPrice) + u1t(f, rest));
            lemma_eq_parts(
                lit_of(LitTag::EmaPrice),
                s@.skip(pos as int),
                lit_of(LitTag::EmaPrice),
                u1t(f, rest),
            );
        }
    }
    if ok {
        match parse_quote(s, pos) {
            Some(p) => {
                ema = p.0;
                pos = p.1;
            },
            None => {
                ok = false;
            },
        }
    }
    proof {
        assert forall|f: FeedModel, rest: Seq<u8>|
            f.wf() && s@.skip(i as int) == #[trigger] (enc_feed(f) + rest) implies (ok && pos
            <= s@.len() && ema@ == f.ema_price && s@.skip(pos as int) == u2t(f, rest)) by {
            assert(u1t(f, rest) == enc_quote(f.ema_price) + u2t(f, rest));
            lemma_eq_parts(enc_quote(ema@), s@.skip(pos as int), enc_quote(f.ema_price), u2t(f, rest));
        }
    }
    let ghost posa = pos;
    if ok {
        match eat_lit(s, pos, LitTag::IdKey) {
            Some(j) => {
                pos = j;
            },
            None => {
                ok = false;
            },
        }
    }
    proof {
        assert forall|f: FeedModel, rest: Seq<u8>|
            f.wf() && s@.skip(i as int) == #[trigger] (enc_feed(f) + rest) implies (ok && pos
            <= s@.len() && ema@ == f.ema_price && s@.skip(pos as int) == u3t(f, rest)) by {
            assert(s@.skip(posa as int) == lit_of(LitTag::IdKey) + u3t(f, rest));
            lemma_eq_parts(
                lit_of(LitTag::IdKey),
                s@.skip(pos as int),
                lit_of(LitTag::IdKey),
                u3t(f, rest),
            );
        }
    }
    if ok {
        match parse_feed_id(s, pos) {
            Some(p) => {
                fid = p.0;
                pos = p.1;
            },
            None => {
                ok = false;
            },
        }
    }
    proof {
        assert forall|f: FeedModel, rest: Seq<u8>|
            f.wf() && s@.skip(i as int) == #[trigger] (enc_feed(f) + rest) implies (ok && pos
            <= s@.len() && ema@ == f.ema_price && fid == f.id && s@.skip(pos as int) == u4t(
            f,
            rest,
        )) by {
            assert(u3t(f, rest) == enc_id(f.id) + u4t(f, rest));
            lemma_eq_parts(enc_id(fid), s@.skip(pos as int), enc_id(f.id), u4t(f, rest));
        }
    }
    let ghost posb = pos;
    if ok {
        match eat_lit(s, pos, LitTag::PriceKey) {
            Some(j) => {
                pos = j;
            },
            None => {
                ok = false;
            },
        }
    }
    proof {
        assert forall|f: FeedModel, rest: Seq<u8>|
            f.wf() && s@.skip(i as int) == #[trigger] (enc_feed(f) + rest) implies (ok && pos
            <= s@.len() && ema@ == f.ema_price && fid == f.id && s@.skip(pos as int) == u5t(
            f,
            rest,
        )) by {
            assert(s@.skip(posb as int) == lit_of(LitTag::PriceKey) + u5t(f, rest));
            lemma_eq_parts(
                lit_of(LitTag::PriceKey),
                s@.skip(pos as int),
                lit_of(LitTag::PriceKey),
                u5t(f, rest),
            );
        }
    }
    if ok {
        match parse_quote(s, pos) {
            Some(p) => {
                quote = p.0;
                pos = p.1;
            },
            None => {
                ok = false;
            },
        }
    }
    proof {
        assert forall|f: FeedModel, rest: Seq<u8>|
            f.wf() && s@.skip(i as int) == #[trigger] (enc_feed(f) + rest) implies (ok && pos
            <= s@.len() && ema@ == f.ema_price && fid == f.id && quote@ == f.price && s@.skip(
            pos as int,
        ) == u6t(f, rest)) by {
            assert(u5t(f, rest) == enc_quote(f.price) + u6t(f, rest));
            lemma_eq_parts(enc_quote(quote@), s@.skip(pos as int), enc_quote(f.price), u6t(f, rest));
        }
    }
    let ghost posc = pos;
    if ok {
        match eat_lit(s, pos, LitTag::Vaa) {
            Some(j) => {
                pos = j;
            },
            None => {
                ok = false;
            },
        }
    }
    proof {
        assert forall|f: FeedModel, rest: Seq<u8>|
            f.wf() && s@.skip(i as int) == #[trigger] (enc_feed(f) + rest) implies (ok && pos
            <= s@.len() && ema@ == f.ema_price && fid == f.id && quote@ == f.price && s@.skip(
            pos as int,
        ) == u7t(f, rest)) by {
            assert(s@.skip(posc as int) == lit_of(LitTag::Vaa) + u7t(f, rest));
            lemma_eq_parts(
                lit_of(LitTag::Vaa),
                s@.skip(pos as int),
                lit_of(LitTag::Vaa),
                u7t(f, rest),
            );
        }
    }
    if ok {
        match parse_string(s, pos) {
            Some(p) => {
                vaa = p.0;
                pos = p.1;
            },
            None => {
                ok = false;
            },
        }
    }
    proof {
        assert forall|f: FeedModel, rest: Seq<u8>|
            f.wf() && s@.skip(i as int) == #[trigger] (enc_feed(f) + rest) implies (ok && pos
            <= s@.len() && ema@ == f.ema_price && fid == f.id && quote@ == f.price && vaa@ == f.vaa
            && s@.skip(pos as int) == u8t(f, rest)) by {
            assert(u7t(f, rest) == enc_str(f.vaa) + u8t(f, rest));
            lemma_eq_parts(enc_str(vaa@), s@.skip(pos as int), enc_str(f.vaa), u8t(f, rest));
        }
    }
    if ok && pos < s.len() && s[pos] == 125 {
        let feed = PriceFeed { ema_price: ema, id: fid, price: quote, vaa };
        proof {
            assert(s@.skip(pos as int) =~= seq![125u8] + s@.skip(pos + 1));
            assert(s@.skip(i as int) =~= enc_feed(feed@) + s@.skip(pos + 1));
            assert forall|f: FeedModel, rest: Seq<u8>|
                f.wf() && s@.skip(i as int) == #[trigger] (enc_feed(f) + rest) implies (feed@ =~= f
                && pos + 1 == i + enc_feed(f).len()) by {
                assert(s@.skip(pos + 1) =~= u8t(f, rest).drop_first());
                assert(s@.skip(pos + 1) =~= rest);
            }
        }
        return Some((feed, pos + 1));
    }
    proof {
        assert forall|f: FeedModel, rest: Seq<u8>|
            f.wf() && s@.skip(i as int) == #[trigger] (enc_feed(f) + rest) implies false by {
            assert(s@.skip(pos as int)[0] == s@[pos as int]);
            assert(u8t(f, rest)[0] == 125);
        }
    }
    None
}

// ---------------------------------------------------------------------
// Update messages
// ---------------------------------------------------------------------

/// Builds the canonical wire encoding of one update message.
pub fn encode_price_update(u: &PriceUpdate) -> (r: Vec<u8>)
    requires
        u@.wf(),
    ensures
        r@ == enc_update(u@),
{
    let mut out: Vec<u8> = Vec::new();
    push_lit(&mut out, LitTag::TypeFirst);
    push_str(&mut out, &u.msg_type);
    push_lit(&mut out, LitTag::PriceFeedKey);
    push_feed(&mut out, &u.price_feed);
    out.push(125);
    proof {
        assert(out@ =~= enc_update(u@));
    }
    out
}

/// Parses one update message at `i`.
#[verifier::rlimit(100)]
fn parse_update(s: &Vec<u8>, i: usize) -> (r: Option<(PriceUpdate, usize)>)
    requires
        i <= s@.len(),
    ensures
        r matches Some(p) ==> {
            &&& i <= p.1 <= s@.len()
            &&& p.0@.wf()
            &&& p.1 == i + enc_update(p.0@).len()
            &&& s@.skip(i as int) == enc_update(p.0@) + s@.skip(p.1 as int)
        },
        forall|m: UpdateModel, rest: Seq<u8>|
            m.wf() && s@.skip(i as int) == #[trigger] (enc_update(m) + rest) ==> (r matches Some(p)
                && p.0@ == m && p.1 == i + enc_update(m).len()),
{
    let ghost v4t = |m: UpdateModel, rest: Seq<u8>| seq![125u8] + rest;
    let ghost v3t = |m: UpdateModel, rest: Seq<u8>| enc_feed(m.price_feed) + v4t(m, rest);
    let ghost v2t = |m: UpdateModel, rest: Seq<u8>| key_price_feed() + v3t(m, rest);
    let ghost v1t = |m: UpdateModel, rest: Seq<u8>| enc_str(m.msg_type) + v2t(m, rest);

    let mut ok: bool = true;
    let mut pos: usize = i;
    let mut mtype: Vec<u8> = Vec::new();
    let mut feed: PriceFeed = PriceFeed {
        ema_price: Price { conf: Vec::new(), expo: 0, price: Vec::new(), publish_time: 0 },
        id: FeedId { w0: 0, w1: 0, w2: 0, w3: 0 },
        price: Price { conf: Vec::new(), expo: 0, price: Vec::new(), publish_time: 0 },
        vaa: Vec::new(),
    };

    proof {
        assert forall|m: UpdateModel, rest: Seq<u8>|
            m.wf() && s@.skip(i as int) == #[trigger] (enc_update(m) + rest) implies s@.skip(
            i as int,
        ) == key_type() + v1t(m, rest) by {
            assert(enc_update(m) + rest =~= key_type() + v1t(m, rest));
        }
    }
    match eat_lit(s, pos, LitTag::TypeFirst) {
        Some(j) => {
            pos = j;
        },
        None => {
            ok = false;
        },
    }
    proof {
        assert forall|m: UpdateModel, rest: Seq<u8>|
            m.wf() && s@.skip(i as int) == #[trigger] (enc_update(m) + rest) implies (ok && pos
            <= s@.len() && s@.skip(pos as int) == v1t(m, rest)) by {
            assert(s@.skip(i as int) == lit_of(LitTag::TypeFirst) + v1t(m, rest));
            lemma_eq_parts(
                lit_of(LitTag::TypeFirst),
                s@.skip(pos as int),
                lit_of(LitTag::TypeFirst),
                v1t(m, rest),
            );
        }
    }
    if ok {
        match parse_string(s, pos) {
            Some(p) => {
                mtype = p.0;
                pos = p.1;
            },
            None => {
                ok = false;
            },
        }
    }
    proof {
        assert forall|m: UpdateModel, rest: Seq<u8>|
            m.wf() && s@.skip(i as int) == #[trigger] (enc_update(m) + rest) implies (ok && pos
            <= s@.len() && mtype@ == m.msg_type && s@.skip(pos as int) == v2t(m, rest)) by {
            assert(v1t(m, rest) == enc_str(m.msg_type) + v2t(m, rest));
            lemma_eq_parts(enc_str(mtype@), s@.skip(pos as int), enc_str(m.msg_type), v2t(m, rest));
        }
    }
    let ghost posd = pos;
    if ok {
        match eat_lit(s, pos, LitTag::PriceFeedKey) {
            Some(j) => {
                pos = j;
            },
            None => {
                ok = false;
            },
        }
    }
    proof {
        assert forall|m: UpdateModel, rest: Seq<u8>|
            m.wf() && s@.skip(i as int) == #[trigger] (enc_update(m) + rest) implies (ok && pos
            <= s@.len() && mtype@ == m.msg_type && s@.skip(pos as int) == v3t(m, rest)) by {
            assert(s@.skip(posd as int) == lit_of(LitTag::PriceFeedKey) + v3t(m, rest));
            lemma_eq_parts(
                lit_of(LitTag::PriceFeedKey),
                s@.skip(pos as int),
                lit_of(LitTag::PriceFeedKey),
                v3t(m, rest),
            );
        }
    }
    if ok {
        match parse_feed(s, pos) {
            Some(p) => {
                feed = p.0;
                pos = p.1;
            },
            None => {
                ok = false;
            },
        }
    }
    proof {
        assert forall|m: UpdateModel, rest: Seq<u8>|
            m.wf() && s@.skip(i as int) == #[trigger] (enc_update(m) + rest) implies (ok && pos
            <= s@.len() && mtype@ == m.msg_type && feed@ == m.price_feed && s@.skip(pos as int)
            == v4t(m, rest)) by {
            assert(v3t(m, rest) == enc_feed(m.price_feed) + v4t(m, rest));
            lemma_eq_parts(enc_feed(feed@), s@.skip(pos as int), enc_feed(m.price_feed), v4t(m, rest));
        }
    }
    if ok && pos < s.len() && s[pos] == 125 {
        let upd = PriceUpdate { msg_type: mtype, price_feed: feed };
        proof {
            assert(s@.skip(pos as int) =~= seq![125u8] + s@.skip(pos + 1));
            assert(s@.skip(i as int) =~= enc_update(upd@) + s@.skip(pos + 1));
            assert forall|m: UpdateModel, rest: Seq<u8>|
                m.wf() && s@.skip(i as int) == #[trigger] (enc_update(m) + rest) implies (upd@ =~= m
                && pos + 1 == i + enc_update(m).len()) by {
                assert(s@.skip(pos + 1) =~= v4t(m, rest).drop_first());
                assert(s@.skip(pos + 1) =~= rest);
            }
        }
        return Some((upd, pos + 1));
    }
    proof {
        assert forall|m: UpdateModel, rest: Seq<u8>|
            m.wf() && s@.skip(i as int) == #[trigger] (enc_update(m) + rest) implies false by {
            assert(s@.skip(pos as int)[0] == s@[pos as int]);
            assert(v4t(m, rest)[0] == 125);
        }
    }
    None
}

/// Decodes one whole update message: succeeds exactly when the input is
/// the canonical encoding of a well-formed update, up to insignificant
/// whitespace, and returns it.
pub fn decode_price_update(s: &Vec<u8>) -> (r: Option<PriceUpdate>)
    ensures
        r matches Some(u) ==> u@.wf() && strip_ws(s@) == enc_update(u@),
        forall|m: UpdateModel| m.wf() && strip_ws(s@) == #[trigger] enc_update(m) ==> (r matches
        Some(u) && u@ == m),
{
    let t = strip_ws_vec(s);
    proof {
        assert(t@.skip(0) =~= t@);
        assert forall|m: UpdateModel| m.wf() && strip_ws(s@) == #[trigger] enc_update(m)
            implies t@.skip(0) == enc_update(m) + Seq::<u8>::empty() by {
            assert(enc_update(m) + Seq::<u8>::empty() =~= enc_update(m));
        }
    }
    match parse_update(&t, 0) {
        Some(p) => {
            let (u, j) = p;
            if j == t.len() {
                proof {
                    assert(t@.skip(j as int) =~= Seq::<u8>::empty());
                    assert(t@ =~= enc_update(u@));
                }
                Some(u)
            } else {
                proof {
                    assert forall|m: UpdateModel| m.wf() && strip_ws(s@) == #[trigger] enc_update(
                        m,
                    ) implies false by {
                        assert(t@.skip(0).len() == t@.len());
                    }
                }
                None
            }
        },
        None => {
            None
        },
    }
}

// ---------------------------------------------------------------------
// Subscribe requests
// ---------------------------------------------------------------------

/// Builds the canonical wire encoding of one subscribe request.
pub fn encode_subscription(sub: &Subscription) -> (r: Vec<u8>)
    requires
        sub@.wf(),
    ensures
        r@ == enc_subscription(sub@),
{
    let mut out: Vec<u8> = Vec::new();
    push_lit(&mut out, LitTag::Ids);
    push_ids(&mut out, &sub.ids);
    push_lit(&mut out, LitTag::TypeMid);
    push_str(&mut out, &sub.msg_type);
    push_lit(&mut out, LitTag::Verbose);
    push_bool(&mut out, sub.verbose);
    push_lit(&mut out, LitTag::Binary);
    push_bool(&mut out, sub.binary);
    out.push(125);
    proof {
        assert(out@ =~= enc_subscription(sub@));
    }
    out
}

/// Appends a JSON boolean literal to `out`.
pub fn push_bool(out: &mut Vec<u8>, b: bool)
    ensures
        final(out)@ == old(out)@ + enc_bool(b),
{
    if b {
        push_lit(out, LitTag::TrueLit);
    } else {
        push_lit(out, LitTag::FalseLit);
    }
}

/// Parses one subscribe request at `i`.
#[verifier::rlimit(100)]
#[verifier::spinoff_prover]
fn parse_subscription_at(s: &Vec<u8>, i: usize) -> (r: Option<(Subscription, usize)>)
    requires
        i <= s@.len(),
    ensures
        r matches Some(p) ==> {
            &&& i <= p.1 <= s@.len()
            &&& p.0@.wf()
            &&& p.1 == i + enc_subscription(p.0@).len()
            &&& s@.skip(i as int) == enc_subscription(p.0@) + s@.skip(p.1 as int)
        },
        forall|m: SubscriptionModel, rest: Seq<u8>|
            m.wf() && s@.skip(i as int) == #[trigger] (enc_subscription(m) + rest) ==> (r matches
            Some(p) && p.0@ == m && p.1 == i + enc_subscription(m).len()),
{
    let ghost w8t = |m: SubscriptionModel, rest: Seq<u8>| seq![125u8] + rest;
    let ghost w7t = |m: SubscriptionModel, rest: Seq<u8>| enc_bool(m.binary) + w8t(m, rest);
    let ghost w6t = |m: SubscriptionModel, rest: Seq<u8>| key_binary() + w7t(m, rest);
    let ghost w5t = |m: SubscriptionModel, rest: Seq<u8>| enc_bool(m.verbose) + w6t(m, rest);
    let ghost w4t = |m: SubscriptionModel, rest: Seq<u8>| key_verbose() + w5t(m, rest);
    let ghost w3t = |m: SubscriptionModel, rest: Seq<u8>| enc_str(m.msg_type) + w4t(m, rest);
    let ghost w2t = |m: SubscriptionModel, rest: Seq<u8>| key_type_mid() + w3t(m, rest);
    let ghost w1t = |m: SubscriptionModel, rest: Seq<u8>| enc_ids(m.ids) + w2t(m, rest);

    let mut ok: bool = true;
    let mut pos: usize = i;
    let mut ids: Vec<FeedId> = Vec::new();
    let mut mtype: Vec<u8> = Vec::new();
    let mut verbose: bool = false;
    let mut binary: bool = false;

    proof {
        assert forall|m: SubscriptionModel, rest: Seq<u8>|
            m.wf() && s@.skip(i as int) == #[trigger] (enc_subscription(m) + rest) implies s@.skip(
            i as int,
        ) == key_ids() + w1t(m, rest) by {
            assert(enc_subscription(m) + rest =~= key_ids() + w1t(m, rest));
        }
    }
    match eat_lit(s, pos, LitTag::Ids) {
        Some(j) => {
            pos = j;
        },
        None => {
            ok = false;
        },
    }
    proof {
        assert forall|m: SubscriptionModel, rest: Seq<u8>|
            m.wf() && s@.skip(i as int) == #[trigger] (enc_subscription(m) + rest) implies (ok
            && pos <= s@.len() && s@.skip(pos as int) == w1t(m, rest)) by {
            assert(s@.skip(i as int) == lit_of(LitTag::Ids) + w1t(m, rest));
            lemma_eq_parts(
                lit_of(LitTag::Ids),
                s@.skip(pos as int),
                lit_of(LitTag::Ids),
                w1t(m, rest),
            );
        }
    }
    if ok {
        match parse_ids(s, pos) {
            Some(p) => {
                ids = p.0;
                pos = p.1;
            },
            None => {
                ok = false;
            },
        }
    }
    proof {
        assert forall|m: SubscriptionModel, rest: Seq<u8>|
            m.wf() && s@.skip(i as int) == #[trigger] (enc_subscription(m) + rest) implies (ok
            && pos <= s@.len() && ids@ == m.ids && s@.skip(pos as int) == w2t(m, rest)) by {
            assert(w1t(m, rest) == enc_ids(m.ids) + w2t(m, rest));
            lemma_eq_parts(enc_ids(ids@), s@.skip(pos as int), enc_ids(m.ids), w2t(m, rest));
        }
    }
    let ghost pose = pos;
    if ok {
        match eat_lit(s, pos, LitTag::TypeMid) {
            Some(j) => {
                pos = j;
            },
            None => {
                ok = false;
            },
        }
    }
    proof {
        assert forall|m: SubscriptionModel, rest: Seq<u8>|
            m.wf() && s@.skip(i as int) == #[trigger] (enc_subscription(m) + rest) implies (ok
            && pos <= s@.len() && s@.skip(pos as int) == w3t(m, rest)) by {
            assert(s@.skip(pose as int) == lit_of(LitTag::TypeMid) + w3t(m, rest));
            lemma_eq_parts(
                lit_of(LitTag::TypeMid),
                s@.skip(pos as int),
                lit_of(LitTag::TypeMid),
                w3t(m, rest),
            );
        }
    }
    if ok {
        match parse_string(s, pos) {
            Some(p) => {
                mtype = p.0;
                pos = p.1;
            },
            None => {
                ok = false;
            },
        }
    }
    proof {
        assert forall|m: SubscriptionModel, rest: Seq<u8>|
            m.wf() && s@.skip(i as int) == #[trigger] (enc_subscription(m) + rest) implies (ok
            && pos <= s@.len() && mtype@ == m.msg_type && s@.skip(pos as int) == w4t(m, rest)) by {
            assert(w3t(m, rest) == enc_str(m.msg_type) + w4t(m, rest));
            lemma_eq_parts(enc_str(mtype@), s@.skip(pos as int), enc_str(m.msg_type), w4t(m, rest));
        }
    }
    let ghost posf = pos;
    if ok {
        match eat_lit(s, pos, LitTag::Verbose) {
            Some(j) => {
                pos = j;
            },
            None => {
                ok = false;
            },
        }
    }
    proof {
        assert forall|m: SubscriptionModel, rest: Seq<u8>|
            m.wf() && s@.skip(i as int) == #[trigger] (enc_subscription(m) + rest) implies (ok
            && pos <= s@.len() && s@.skip(pos as int) == w5t(m, rest)) by {
            assert(s@.skip(posf as int) == lit_of(LitTag::Verbose) + w5t(m, rest));
            lemma_eq_parts(
                lit_of(LitTag::Verbose),
                s@.skip(pos as int),
                lit_of(LitTag::Verbose),
                w5t(m, rest),
            );
        }
    }
    if ok {
        match parse_bool(s, pos) {
            Some(p) => {
                verbose = p.0;
                pos = p.1;
            },
            None => {
                ok = false;
            },
        }
    }
    proof {
        assert forall|m: SubscriptionModel, rest: Seq<u8>|
            m.wf() && s@.skip(i as int) == #[trigger] (enc_subscription(m) + rest) implies (ok
            && pos <= s@.len() && verbose == m.verbose && s@.skip(pos as int) == w6t(m, rest)) by {
            assert(w5t(m, rest) == enc_bool(m.verbose) + w6t(m, rest));
            lemma_eq_parts(enc_bool(verbose), s@.skip(pos as int), enc_bool(m.verbose), w6t(m, rest));
        }
    }
    let ghost posg = pos;
    if ok {
        match eat_lit(s, pos, LitTag::Binary) {
            Some(j) => {
                pos = j;
            },
            None => {
                ok = false;
            },
        }
    }
    proof {
        assert forall|m: SubscriptionModel, rest: Seq<u8>|
            m.wf() && s@.skip(i as int) == #[trigger] (enc_subscription(m) + rest) implies (ok
            && pos <= s@.len() && s@.skip(pos as int) == w7t(m, rest)) by {
            assert(s@.skip(posg as int) == lit_of(LitTag::Binary) + w7t(m, rest));
            lemma_eq_parts(
                lit_of(LitTag::Binary),
                s@.skip(pos as int),
                lit_of(LitTag::Binary),
                w7t(m, rest),
            );
        }
    }
    if ok {
        match parse_bool(s, pos) {
            Some(p) => {
                binary = p.0;
                pos = p.1;
            },
            None => {
                ok = false;
            },
        }
    }
    proof {
        assert forall|m: SubscriptionModel, rest: Seq<u8>|
            m.wf() && s@.skip(i as int) == #[trigger] (enc_subscription(m) + rest) implies (ok
            && pos <= s@.len() && binary == m.binary && s@.skip(pos as int) == w8t(m, rest)) by {
            assert(w7t(m, rest) == enc_bool(m.binary) + w8t(m, rest));
            lemma_eq_parts(enc_bool(binary), s@.skip(pos as int), enc_bool(m.binary), w8t(m, rest));
        }
    }
    if ok && pos < s.len() && s[pos] == 125 {
        let sub = Subscription { ids, msg_type: mtype, verbose, binary };
        proof {
            assert(s@.skip(pos as int) =~= seq![125u8] + s@.skip(pos + 1));
            assert(s@.skip(i as int) =~= enc_subscription(sub@) + s@.skip(pos + 1));
            assert forall|m: SubscriptionModel, rest: Seq<u8>|
                m.wf() && s@.skip(i as int) == #[trigger] (enc_subscription(m) + rest) implies (
            sub@ =~= m && pos + 1 == i + enc_subscription(m).len()) by {
                assert(s@.skip(pos + 1) =~= w8t(m, rest).drop_first());
                assert(s@.skip(pos + 1) =~= rest);
            }
        }
        return Some((sub, pos + 1));
    }
    proof {
        assert forall|m: SubscriptionModel, rest: Seq<u8>|
            m.wf() && s@.skip(i as int) == #[trigger] (enc_subscription(m) + rest) implies false by {
            assert(s@.skip(pos as int)[0] == s@[pos as int]);
            assert(w8t(m, rest)[0] == 125);
        }
    }
    None
}

/// Decodes one whole subscribe request: succeeds exactly when the input is
/// the canonical encoding of a well-formed request, up to insignificant
/// whitespace, and returns it.
pub fn decode_subscription(s: &Vec<u8>) -> (r: Option<Subscription>)
    ensures
        r matches Some(u) ==> u@.wf() && strip_ws(s@) == enc_subscription(u@),
        forall|m: SubscriptionModel| m.wf() && strip_ws(s@) == #[trigger] enc_subscription(m)
            ==> (r matches Some(u) && u@ == m),
{
    let t = strip_ws_vec(s);
    proof {
        assert(t@.skip(0) =~= t@);
        assert forall|m: SubscriptionModel| m.wf() && strip_ws(s@) == #[trigger] enc_subscription(
            m,
        ) implies t@.skip(0) == enc_subscription(m) + Seq::<u8>::empty() by {
            assert(enc_subscription(m) + Seq::<u8>::empty() =~= enc_subscription(m));
        }
    }
    match parse_subscription_at(&t, 0) {
        Some(p) => {
            let (u, j) = p;
            if j == t.len() {
                proof {
                    assert(t@.skip(j as int) =~= Seq::<u8>::empty());
                    assert(t@ =~= enc_subscription(u@));
                }
                Some(u)
            } else {
                proof {
                    assert forall|m: SubscriptionModel| m.wf() && strip_ws(s@)
                        == #[trigger] enc_subscription(m) implies false by {
                        assert(t@.skip(0).len() == t@.len());
                    }
                }
                None
            }
        },
        None => {
            None
        },
    }
}

} // verus!
