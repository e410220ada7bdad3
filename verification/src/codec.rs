//! The wire codec: canonical JSON serialization of subscribe requests and
//! price-feed updates, and the building blocks of its decoder, which
//! accepts the canonical form up to insignificant whitespace.
//!
//! Every encoder ensures that its output is the canonical encoding of its
//! argument's model; every parser here ensures both soundness (a
//! successful parse returns a value whose encoding is the consumed input)
//! and completeness (on input that is a canonical encoding, the parse
//! succeeds and returns exactly the encoded value). Whitespace handling
//! lives in one place: the decoders strip insignificant whitespace first
//! and run these parsers on the stripped bytes.

use vstd::prelude::*;
use crate::FeedId;
use crate::messages::{safe_str, QuoteModel, FeedModel, UpdateModel, SubscriptionModel};
use crate::numcodec::{
    is_digit, all_digits, dec_digits, enc_dec, dec_val, pow10, is_hex_digit, hex_char,
    hex_val_char, hex_digits, hex_val, pow16, lemma_pow10_pos, lemma_pow16_16,
    lemma_dec_val_nonneg, lemma_dec_val_split, lemma_dec_val_canon, lemma_hex_digits_props,
    lemma_hex_val_canon, lemma_enc_dec_unique, lemma_enc_dec_props, lemma_pow16_mono,
};

verus! {

// ---------------------------------------------------------------------
// Sequence helpers
// ---------------------------------------------------------------------

/// Equal sequences split at the same length have equal parts.
pub proof fn lemma_eq_parts(a1: Seq<u8>, b1: Seq<u8>, a2: Seq<u8>, b2: Seq<u8>)
    requires
        a1 + b1 == a2 + b2,
        a1.len() == a2.len(),
    ensures
        a1 == a2,
        b1 == b2,
{
    let w = a1 + b1;
    assert forall|i: int| 0 <= i < a1.len() implies a1[i] == a2[i] by {
        assert(a1[i] == w[i]);
        assert(a2[i] == w[i]);
    }
    assert(a1 =~= a2);
    assert((a1 + b1).len() == a1.len() + b1.len());
    assert((a2 + b2).len() == a2.len() + b2.len());
    assert(b1.len() == b2.len());
    assert forall|i: int| 0 <= i < b1.len() implies b1[i] == b2[i] by {
        assert(b1[i] == w[a1.len() + i]);
        assert(b2[i] == w[a2.len() + i]);
    }
    assert(b1 =~= b2);
}

// ---------------------------------------------------------------------
// The JSON literals of the two message shapes
// ---------------------------------------------------------------------

pub open spec fn key_conf() -> Seq<u8> {
    // `{"conf":`
    seq![123u8, 34u8, 99u8, 111u8, 110u8, 102u8, 34u8, 58u8]
}

pub open spec fn key_expo() -> Seq<u8> {
    // `,"expo":`
    seq![44u8, 34u8, 101u8, 120u8, 112u8, 111u8, 34u8, 58u8]
}

pub open spec fn key_price() -> Seq<u8> {
    // `,"price":`
    seq![44u8, 34u8, 112u8, 114u8, 105u8, 99u8, 101u8, 34u8, 58u8]
}

pub open spec fn key_publish_time() -> Seq<u8> {
    // `,"publish_time":`
    seq![44u8, 34u8, 112u8, 117u8, 98u8, 108u8, 105u8, 115u8, 104u8, 95u8, 116u8, 105u8, 109u8,
        101u8, 34u8, 58u8]
}

pub open spec fn key_ema_price() -> Seq<u8> {
    // `{"ema_price":`
    seq![123u8, 34u8, 101u8, 109u8, 97u8, 95u8, 112u8, 114u8, 105u8, 99u8, 101u8, 34u8, 58u8]
}

pub open spec fn key_id() -> Seq<u8> {
    // `,"id":`
    seq![44u8, 34u8, 105u8, 100u8, 34u8, 58u8]
}

pub open spec fn key_vaa() -> Seq<u8> {
    // `,"vaa":`
    seq![44u8, 34u8, 118u8, 97u8, 97u8, 34u8, 58u8]
}

pub open spec fn key_type() -> Seq<u8> {
    // `{"type":`
    seq![123u8, 34u8, 116u8, 121u8, 112u8, 101u8, 34u8, 58u8]
}

pub open spec fn key_price_feed() -> Seq<u8> {
    // `,"price_feed":`
    seq![44u8, 34u8, 112u8, 114u8, 105u8, 99u8, 101u8, 95u8, 102u8, 101u8, 101u8, 100u8, 34u8,
        58u8]
}

pub open spec fn key_ids() -> Seq<u8> {
    // `{"ids":`
    seq![123u8, 34u8, 105u8, 100u8, 115u8, 34u8, 58u8]
}

pub open spec fn key_type_mid() -> Seq<u8> {
    // `,"type":`
    seq![44u8, 34u8, 116u8, 121u8, 112u8, 101u8, 34u8, 58u8]
}

pub open spec fn key_verbose() -> Seq<u8> {
    // `,"verbose":`
    seq![44u8, 34u8, 118u8, 101u8, 114u8, 98u8, 111u8, 115u8, 101u8, 34u8, 58u8]
}

pub open spec fn key_binary() -> Seq<u8> {
    // `,"binary":`
    seq![44u8, 34u8, 98u8, 105u8, 110u8, 97u8, 114u8, 121u8, 34u8, 58u8]
}

pub open spec fn lit_true() -> Seq<u8> {
    seq![116u8, 114u8, 117u8, 101u8]
}

pub open spec fn lit_false() -> Seq<u8> {
    seq![102u8, 97u8, 108u8, 115u8, 101u8]
}

pub open spec fn enc_bool(b: bool) -> Seq<u8> {
    if b {
        lit_true()
    } else {
        lit_false()
    }
}

// ---------------------------------------------------------------------
// The encodings
// ---------------------------------------------------------------------

/// A JSON string literal: quote, verbatim contents, quote.
pub open spec fn enc_str(s: Seq<u8>) -> Seq<u8> {
    seq![34u8] + s + seq![34u8]
}

/// The signed decimal encoding of the exponent.
pub open spec fn enc_int(n: int) -> Seq<u8> {
    if n < 0 {
        seq![45u8] + enc_dec(-n)
    } else {
        enc_dec(n)
    }
}

/// The hexadecimal text of a feed identifier: `0x` and 64 lower-case
/// digits, most significant first.
pub open spec fn id_hex(id: FeedId) -> Seq<u8> {
    seq![48u8, 120u8] + hex_digits(id.w0 as int, 16) + hex_digits(id.w1 as int, 16) + hex_digits(
        id.w2 as int,
        16,
    ) + hex_digits(id.w3 as int, 16)
}

/// A feed identifier as it stands in a message: the hexadecimal text in a
/// JSON string literal.
pub open spec fn enc_id(id: FeedId) -> Seq<u8> {
    enc_str(id_hex(id))
}

/// The identifier list without its brackets: encodings joined by commas.
pub open spec fn enc_ids_inner(ids: Seq<FeedId>) -> Seq<u8>
    decreases ids.len(),
{
    if ids.len() == 0 {
        Seq::empty()
    } else if ids.len() == 1 {
        enc_id(ids[0])
    } else {
        enc_id(ids[0]) + seq![44u8] + enc_ids_inner(ids.skip(1))
    }
}

/// The JSON array of feed identifiers.
pub open spec fn enc_ids(ids: Seq<FeedId>) -> Seq<u8> {
    seq![91u8] + enc_ids_inner(ids) + seq![93u8]
}

/// One quote object.
pub open spec fn enc_quote(q: QuoteModel) -> Seq<u8> {
    key_conf() + enc_str(q.conf) + key_expo() + enc_int(q.expo) + key_price() + enc_str(q.price)
        + key_publish_time() + enc_dec(q.publish_time) + seq![125u8]
}

/// One price-feed object.
pub open spec fn enc_feed(f: FeedModel) -> Seq<u8> {
    key_ema_price() + enc_quote(f.ema_price) + key_id() + enc_id(f.id) + key_price() + enc_quote(
        f.price,
    ) + key_vaa() + enc_str(f.vaa) + seq![125u8]
}

/// One update message.
pub open spec fn enc_update(u: UpdateModel) -> Seq<u8> {
    key_type() + enc_str(u.msg_type) + key_price_feed() + enc_feed(u.price_feed) + seq![125u8]
}

/// One subscribe request.
pub open spec fn enc_subscription(s: SubscriptionModel) -> Seq<u8> {
    key_ids() + enc_ids(s.ids) + key_type_mid() + enc_str(s.msg_type) + key_verbose() + enc_bool(
        s.verbose,
    ) + key_binary() + enc_bool(s.binary) + seq![125u8]
}


// ---------------------------------------------------------------------
// Insignificant whitespace
// ---------------------------------------------------------------------

/// The four JSON whitespace bytes.
pub open spec fn is_ws(b: u8) -> bool {
    b == 32 || b == 9 || b == 10 || b == 13
}

/// Whether scanning `s` from a position with string-state `in_str` ends
/// inside a string literal: each quote toggles the state.
#[verifier::opaque]
pub open spec fn str_state_after(s: Seq<u8>, in_str: bool) -> bool
    decreases s.len(),
{
    if s.len() == 0 {
        in_str
    } else {
        str_state_after(
            s.skip(1),
            if s[0] == 34 {
                !in_str
            } else {
                in_str
            },
        )
    }
}

/// `s` with every whitespace byte outside a string literal removed,
/// scanning from string-state `in_str`.
#[verifier::opaque]
pub open spec fn strip_ws_st(s: Seq<u8>, in_str: bool) -> Seq<u8>
    decreases s.len(),
{
    if s.len() == 0 {
        Seq::empty()
    } else {
        let tail = strip_ws_st(
            s.skip(1),
            if s[0] == 34 {
                !in_str
            } else {
                in_str
            },
        );
        if !in_str && is_ws(s[0]) {
            tail
        } else {
            seq![s[0]] + tail
        }
    }
}

/// `s` with its insignificant whitespace removed: whitespace inside
/// string literals stays, everything else goes.
pub open spec fn strip_ws(s: Seq<u8>) -> Seq<u8> {
    strip_ws_st(s, false)
}

/// Stripping distributes over concatenation, threading the string state.
pub proof fn lemma_strip_app(a: Seq<u8>, b: Seq<u8>, st: bool)
    ensures
        strip_ws_st(a + b, st) == strip_ws_st(a, st) + strip_ws_st(b, str_state_after(a, st)),
        str_state_after(a + b, st) == str_state_after(b, str_state_after(a, st)),
    decreases a.len(),
{
    reveal(strip_ws_st);
    reveal(str_state_after);
    if a.len() == 0 {
        assert(a + b =~= b);
        assert(strip_ws_st(a, st) + strip_ws_st(b, st) =~= strip_ws_st(b, st));
    } else {
        let st2 = if a[0] == 34 {
            !st
        } else {
            st
        };
        assert((a + b).skip(1) =~= a.skip(1) + b);
        lemma_strip_app(a.skip(1), b, st2);
        assert((a + b)[0] == a[0]);
        if !st && is_ws(a[0]) {
        } else {
            assert(seq![a[0]] + (strip_ws_st(a.skip(1), st2) + strip_ws_st(
                b,
                str_state_after(a.skip(1), st2),
            )) =~= (seq![a[0]] + strip_ws_st(a.skip(1), st2)) + strip_ws_st(
                b,
                str_state_after(a.skip(1), st2),
            ));
        }
    }
}

/// A sequence without whitespace and without quotes is left unchanged by
/// stripping, in either string state, and does not change the state.
pub proof fn lemma_strip_plain(s: Seq<u8>, st: bool)
    requires
        forall|i: int| 0 <= i < s.len() ==> !is_ws(#[trigger] s[i]) && s[i] != 34,
    ensures
        strip_ws_st(s, st) == s,
        str_state_after(s, st) == st,
    decreases s.len(),
{
    reveal(strip_ws_st);
    reveal(str_state_after);
    if s.len() > 0 {
        lemma_strip_plain(s.skip(1), st);
        assert(seq![s[0]] + s.skip(1) =~= s);
    }
}

/// Inside a string literal nothing is stripped until the closing quote.
proof fn lemma_strip_in_string(s: Seq<u8>, st: bool)
    requires
        st,
        forall|i: int| 0 <= i < s.len() ==> #[trigger] s[i] != 34,
    ensures
        strip_ws_st(s, st) == s,
        str_state_after(s, st) == st,
    decreases s.len(),
{
    reveal(strip_ws_st);
    reveal(str_state_after);
    if s.len() > 0 {
        lemma_strip_in_string(s.skip(1), st);
        assert(seq![s[0]] + s.skip(1) =~= s);
    }
}

/// `s` is already free of insignificant whitespace, with balanced string
/// quotes: stripping leaves it unchanged and ends outside a string.
pub open spec fn ws_clean(s: Seq<u8>) -> bool {
    strip_ws_st(s, false) == s && str_state_after(s, false) == false
}

/// Clean sequences concatenate to a clean sequence.
pub proof fn lemma_clean_app(a: Seq<u8>, b: Seq<u8>)
    requires
        ws_clean(a),
        ws_clean(b),
    ensures
        ws_clean(a + b),
{
    lemma_strip_app(a, b, false);
}

/// Stripping nothing yields nothing and keeps the string state.
pub proof fn lemma_strip_empty(st: bool)
    ensures
        strip_ws_st(Seq::<u8>::empty(), st) == Seq::<u8>::empty(),
        str_state_after(Seq::<u8>::empty(), st) == st,
{
    reveal(strip_ws_st);
    reveal(str_state_after);
}

/// Stripping one byte: whitespace outside a string goes, all else stays;
/// a quote flips the string state.
pub proof fn lemma_strip_one(b: u8, st: bool)
    ensures
        strip_ws_st(seq![b], st) == (if !st && is_ws(b) {
            Seq::<u8>::empty()
        } else {
            seq![b]
        }),
        str_state_after(seq![b], st) == (if b == 34 {
            !st
        } else {
            st
        }),
{
    reveal_with_fuel(strip_ws_st, 2);
    reveal_with_fuel(str_state_after, 2);
    assert(seq![b].skip(1) =~= Seq::<u8>::empty());
    if !st && is_ws(b) {
    } else {
        assert(seq![b] + Seq::<u8>::empty() =~= seq![b]);
    }
}

/// A JSON string literal of safe contents is clean.
pub proof fn lemma_clean_enc_str(c: Seq<u8>)
    requires
        safe_str(c),
    ensures
        ws_clean(enc_str(c)),
{
    let q = seq![34u8];
    lemma_strip_one(34u8, false);
    lemma_strip_one(34u8, true);
    lemma_strip_in_string(c, true);
    lemma_strip_app(c, q, true);
    assert(strip_ws_st(c + q, true) == c + q && str_state_after(c + q, true) == false);
    lemma_strip_app(q, c + q, false);
    assert(enc_str(c) =~= q + (c + q));
    assert(strip_ws_st(enc_str(c), false) =~= enc_str(c));
}

/// Builds the whitespace-stripped form of `s`.
pub fn strip_ws_vec(s: &Vec<u8>) -> (r: Vec<u8>)
    ensures
        r@ == strip_ws(s@),
{
    let mut out: Vec<u8> = Vec::new();
    let mut in_str: bool = false;
    let mut i: usize = 0;
    proof {
        assert(s@.take(0) =~= Seq::<u8>::empty());
        lemma_strip_empty(false);
    }
    while i < s.len()
        invariant
            i <= s@.len(),
            out@ == strip_ws_st(s@.take(i as int), false),
            in_str == str_state_after(s@.take(i as int), false),
        decreases s@.len() - i,
    {
        let b = s[i];
        let ghost pre = s@.take(i as int);
        let ghost one = seq![b];
        proof {
            lemma_strip_app(pre, one, false);
            lemma_strip_one(b, in_str);
            assert(s@.take(i + 1) =~= pre + one);
        }
        if b == 34 {
            out.push(b);
            in_str = !in_str;
            proof {
                assert(out@ =~= strip_ws_st(s@.take(i + 1), false));
            }
        } else if !in_str && (b == 32 || b == 9 || b == 10 || b == 13) {
            proof {
                assert(out@ =~= strip_ws_st(s@.take(i + 1), false));
            }
        } else {
            out.push(b);
            proof {
                assert(out@ =~= strip_ws_st(s@.take(i + 1), false));
            }
        }
        i += 1;
    }
    proof {
        assert(s@.take(s@.len() as int) =~= s@);
    }
    out
}

// ---------------------------------------------------------------------
// Executable literal constructors
// ---------------------------------------------------------------------

/// Names one of the fixed byte literals of the wire format.
#[derive(Clone, Copy, PartialEq, Eq, Structural, Debug)]
pub enum LitTag {
    Conf,
    Expo,
    PriceKey,
    PublishTime,
    EmaPrice,
    IdKey,
    Vaa,
    TypeFirst,
    PriceFeedKey,
    Ids,
    TypeMid,
    Verbose,
    Binary,
    TrueLit,
    FalseLit,
}

/// The byte sequence each literal tag stands for.
pub open spec fn lit_of(tag: LitTag) -> Seq<u8> {
    match tag {
        LitTag::Conf => key_conf(),
        LitTag::Expo => key_expo(),
        LitTag::PriceKey => key_price(),
        LitTag::PublishTime => key_publish_time(),
        LitTag::EmaPrice => key_ema_price(),
        LitTag::IdKey => key_id(),
        LitTag::Vaa => key_vaa(),
        LitTag::TypeFirst => key_type(),
        LitTag::PriceFeedKey => key_price_feed(),
        LitTag::Ids => key_ids(),
        LitTag::TypeMid => key_type_mid(),
        LitTag::Verbose => key_verbose(),
        LitTag::Binary => key_binary(),
        LitTag::TrueLit => lit_true(),
        LitTag::FalseLit => lit_false(),
    }
}

/// Builds the byte vector of one literal tag.
pub fn lit_vec(tag: LitTag) -> (v: Vec<u8>)
    ensures
        v@ == lit_of(tag),
{
    let mut v: Vec<u8> = Vec::new();
    match tag {
        LitTag::Conf => {
            v.push(123);
            v.push(34);
            v.push(99);
            v.push(111);
            v.push(110);
            v.push(102);
            v.push(34);
            v.push(58);
            proof {
                assert(v@ =~= key_conf());
            }
        },
        LitTag::Expo => {
            v.push(44);
            v.push(34);
            v.push(101);
            v.push(120);
            v.push(112);
            v.push(111);
            v.push(34);
            v.push(58);
            proof {
                assert(v@ =~= key_expo());
            }
        },
        LitTag::PriceKey => {
            v.push(44);
            v.push(34);
            v.push(112);
            v.push(114);
            v.push(105);
            v.push(99);
            v.push(101);
            v.push(34);
            v.push(58);
            proof {
                assert(v@ =~= key_price());
            }
        },
        LitTag::PublishTime => {
            v.push(44);
            v.push(34);
            v.push(112);
            v.push(117);
            v.push(98);
            v.push(108);
            v.push(105);
            v.push(115);
            v.push(104);
            v.push(95);
            v.push(116);
            v.push(105);
            v.push(109);
            v.push(101);
            v.push(34);
            v.push(58);
            proof {
                assert(v@ =~= key_publish_time());
            }
        },
        LitTag::EmaPrice => {
            v.push(123);
            v.push(34);
            v.push(101);
            v.push(109);
            v.push(97);
            v.push(95);
            v.push(112);
            v.push(114);
            v.push(105);
            v.push(99);
            v.push(101);
            v.push(34);
            v.push(58);
            proof {
                assert(v@ =~= key_ema_price());
            }
        },
        LitTag::IdKey => {
            v.push(44);
            v.push(34);
            v.push(105);
            v.push(100);
            v.push(34);
            v.push(58);
            proof {
                assert(v@ =~= key_id());
            }
        },
        LitTag::Vaa => {
            v.push(44);
            v.push(34);
            v.push(118);
            v.push(97);
            v.push(97);
            v.push(34);
            v.push(58);
            proof {
                assert(v@ =~= key_vaa());
            }
        },
        LitTag::TypeFirst => {
            v.push(123);
            v.push(34);
            v.push(116);
            v.push(121);
            v.push(112);
            v.push(101);
            v.push(34);
            v.push(58);
            proof {
                assert(v@ =~= key_type());
            }
        },
        LitTag::PriceFeedKey => {
            v.push(44);
            v.push(34);
            v.push(112);
            v.push(114);
            v.push(105);
            v.push(99);
            v.push(101);
            v.push(95);
            v.push(102);
            v.push(101);
            v.push(101);
            v.push(100);
            v.push(34);
            v.push(58);
            proof {
                assert(v@ =~= key_price_feed());
            }
        },
        LitTag::Ids => {
            v.push(123);
            v.push(34);
            v.push(105);
            v.push(100);
            v.push(115);
            v.push(34);
            v.push(58);
            proof {
                assert(v@ =~= key_ids());
            }
        },
        LitTag::TypeMid => {
            v.push(44);
            v.push(34);
            v.push(116);
            v.push(121);
            v.push(112);
            v.push(101);
            v.push(34);
            v.push(58);
            proof {
                assert(v@ =~= key_type_mid());
            }
        },
        LitTag::Verbose => {
            v.push(44);
            v.push(34);
            v.push(118);
            v.push(101);
            v.push(114);
            v.push(98);
            v.push(111);
            v.push(115);
            v.push(101);
            v.push(34);
            v.push(58);
            proof {
                assert(v@ =~= key_verbose());
            }
        },
        LitTag::Binary => {
            v.push(44);
            v.push(34);
            v.push(98);
            v.push(105);
            v.push(110);
            v.push(97);
            v.push(114);
            v.push(121);
            v.push(34);
            v.push(58);
            proof {
                assert(v@ =~= key_binary());
            }
        },
        LitTag::TrueLit => {
            v.push(116);
            v.push(114);
            v.push(117);
            v.push(101);
            proof {
                assert(v@ =~= lit_true());
            }
        },
        LitTag::FalseLit => {
            v.push(102);
            v.push(97);
            v.push(108);
            v.push(115);
            v.push(101);
            proof {
                assert(v@ =~= lit_false());
            }
        },
    }
    v
}

// ---------------------------------------------------------------------
// Executable building blocks
// ---------------------------------------------------------------------

/// Appends all of `b` to `out`.
pub fn push_bytes(out: &mut Vec<u8>, b: &Vec<u8>)
    ensures
        final(out)@ == old(out)@ + b@,
{
    let ghost orig = out@;
    let mut k: usize = 0;
    proof {
        assert(orig + b@.take(0) =~= orig);
    }
    while k < b.len()
        invariant
            k <= b@.len(),
            out@ == orig + b@.take(k as int),
        decreases b@.len() - k,
    {
        out.push(b[k]);
        proof {
            assert((orig + b@.take(k as int)).push(b@[k as int]) =~= orig + b@.take(k + 1));
        }
        k += 1;
    }
    proof {
        assert(b@.take(b@.len() as int) =~= b@);
    }
}

/// Appends one literal to `out`.
pub fn push_lit(out: &mut Vec<u8>, tag: LitTag)
    ensures
        final(out)@ == old(out)@ + lit_of(tag),
{
    let l = lit_vec(tag);
    push_bytes(out, &l);
}

/// Consumes one literal at `i`, and fails exactly when the input does not
/// continue with it.
pub fn eat_lit(s: &Vec<u8>, i: usize, tag: LitTag) -> (r: Option<usize>)
    requires
        i <= s@.len(),
    ensures
        r matches Some(j) ==> i <= j <= s@.len() && j == i + lit_of(tag).len() && s@.skip(i as int)
            == lit_of(tag) + s@.skip(j as int),
        forall|rest: Seq<u8>| s@.skip(i as int) == #[trigger] (lit_of(tag) + rest) ==> (r matches
        Some(j) && j == i + lit_of(tag).len()),
{
    let lit = lit_vec(tag);
    if s.len() - i < lit.len() {
        proof {
            assert(s@.skip(i as int).len() == s@.len() - i);
        }
        return None;
    }
    let mut k: usize = 0;
    while k < lit.len()
        invariant
            i + lit@.len() <= s@.len(),
            s@.len() <= usize::MAX,
            k <= lit@.len(),
            lit@ == lit_of(tag),
            forall|t: int| 0 <= t < k ==> s@[i + t] == lit@[t],
        decreases lit@.len() - k,
    {
        if s[i + k] != lit[k] {
            proof {
                assert forall|rest: Seq<u8>| s@.skip(i as int) == (lit_of(tag) + rest) implies
                    false by {
                    assert((lit_of(tag) + rest)[k as int] == lit_of(tag)[k as int]);
                    assert(s@.skip(i as int)[k as int] == s@[i + k]);
                }
            }
            return None;
        }
        k += 1;
    }
    proof {
        assert(s@.skip(i as int) =~= lit_of(tag) + s@.skip(i + lit_of(tag).len()));
    }
    Some(i + lit.len())
}

// ---------------------------------------------------------------------
// String literals
// ---------------------------------------------------------------------

/// Appends the JSON string literal holding `s` to `out`.
pub fn push_str(out: &mut Vec<u8>, s: &Vec<u8>)
    requires
        safe_str(s@),
    ensures
        final(out)@ == old(out)@ + enc_str(s@),
{
    let ghost orig = out@;
    out.push(34);
    push_bytes(out, s);
    out.push(34);
    proof {
        assert(out@ =~= orig + enc_str(s@));
    }
}

/// Parses one JSON string literal at `i`: succeeds exactly on a quote, a
/// run of safe bytes, and a closing quote, returning the contents.
pub fn parse_string(s: &Vec<u8>, i: usize) -> (r: Option<(Vec<u8>, usize)>)
    requires
        i <= s@.len(),
    ensures
        r matches Some(p) ==> {
            &&& i <= p.1 <= s@.len()
            &&& safe_str(p.0@)
            &&& p.1 == i + p.0@.len() + 2
            &&& s@.skip(i as int) == enc_str(p.0@) + s@.skip(p.1 as int)
        },
        forall|m: Seq<u8>, rest: Seq<u8>|
            safe_str(m) && s@.skip(i as int) == #[trigger] (enc_str(m) + rest) ==> (r matches Some(
                p,
            ) && p.0@ == m && p.1 == i + m.len() + 2),
{
    if i >= s.len() || s[i] != 34 {
        proof {
            assert forall|m: Seq<u8>, rest: Seq<u8>|
                safe_str(m) && s@.skip(i as int) == (enc_str(m) + rest) implies false by {
                assert((enc_str(m) + rest).len() == m.len() + 2 + rest.len());
                assert(s@.skip(i as int).len() == s@.len() - i);
                assert(i < s@.len());
                assert((enc_str(m) + rest)[0] == 34);
                assert(s@.skip(i as int)[0] == s@[i as int]);
            }
        }
        return None;
    }
    let mut out: Vec<u8> = Vec::new();
    let mut k: usize = i + 1;
    while k < s.len()
        invariant
            i + 1 <= k <= s@.len(),
            i < s@.len() && s@[i as int] == 34,
            out@ == s@.subrange(i + 1, k as int),
            safe_str(out@),
            forall|t: int| i + 1 <= t < k ==> s@[t] != 34,
        decreases s@.len() - k,
    {
        let b = s[k];
        if b == 34 {
            proof {
                assert(s@.skip(i as int) =~= enc_str(out@) + s@.skip(k + 1));
                assert forall|m: Seq<u8>, rest: Seq<u8>|
                    safe_str(m) && s@.skip(i as int) == (enc_str(m) + rest) implies (out@ == m && k
                    + 1 == i + m.len() + 2) by {
                    let whole = s@.skip(i as int);
                    assert(whole == (seq![34u8] + m + seq![34u8]) + rest);
                    if i + 1 + m.len() < k {
                        assert(s@[i + 1 + m.len() as int] == whole[1 + m.len() as int]);
                        assert(whole[1 + m.len() as int] == 34);
                        assert(false);
                    }
                    if i + 1 + m.len() > k {
                        assert(m[k - i - 1] == whole[k - i]);
                        assert(s@[k as int] == whole[k - i]);
                        assert(m[k - i - 1] != 34);
                        assert(false);
                    }
                    assert(i + 1 + m.len() == k);
                    assert forall|t: int| 0 <= t < m.len() implies m[t] == out@[t] by {
                        assert(m[t] == whole[1 + t]);
                        assert(whole[1 + t] == s@[i + 1 + t]);
                        assert(out@[t] == s@[i + 1 + t]);
                    }
                    assert(out@.len() == m.len());
                    assert(out@ =~= m);
                }
            }
            return Some((out, k + 1));
        }
        if b < 32 || b == 92 {
            proof {
                assert forall|m: Seq<u8>, rest: Seq<u8>|
                    safe_str(m) && s@.skip(i as int) == (enc_str(m) + rest) implies false by {
                    let whole = s@.skip(i as int);
                    assert(whole == (seq![34u8] + m + seq![34u8]) + rest);
                    if k - i - 1 < m.len() {
                        assert(m[k - i - 1] == whole[k - i]);
                        assert(s@[k as int] == whole[k - i]);
                    } else if k - i - 1 == m.len() {
                        assert(whole[k - i] == 34);
                        assert(s@[k as int] == whole[k - i]);
                    } else {
                        assert(s@[i + 1 + m.len() as int] == whole[1 + m.len() as int]);
                        assert(whole[1 + m.len() as int] == 34);
                    }
                }
            }
            return None;
        }
        out.push(b);
        proof {
            assert(out@ =~= s@.subrange(i + 1, k + 1));
        }
        k += 1;
    }
    proof {
        assert forall|m: Seq<u8>, rest: Seq<u8>|
            safe_str(m) && s@.skip(i as int) == (enc_str(m) + rest) implies false by {
            let whole = s@.skip(i as int);
            assert(whole == (seq![34u8] + m + seq![34u8]) + rest);
            assert(whole[1 + m.len() as int] == 34);
            assert(s@[i + 1 + m.len() as int] == whole[1 + m.len() as int]);
            assert(i + 1 + (m.len() as int) < s@.len());
        }
    }
    None
}

// ---------------------------------------------------------------------
// Decimal numbers
// ---------------------------------------------------------------------

/// Appends the canonical decimal digits of `n` to `out`.
pub fn push_dec(out: &mut Vec<u8>, n: u64)
    ensures
        final(out)@ == old(out)@ + enc_dec(n as int),
{
    if n == 0 {
        out.push(48);
        proof {
            assert(out@ =~= old(out)@ + enc_dec(0));
        }
    } else {
        push_dec_digits(out, n);
    }
}

fn push_dec_digits(out: &mut Vec<u8>, n: u64)
    requires
        n > 0,
    ensures
        final(out)@ == old(out)@ + dec_digits(n as int),
    decreases n,
{
    let ghost orig = out@;
    if n >= 10 {
        push_dec_digits(out, n / 10);
    }
    out.push(48 + (n % 10) as u8);
    proof {
        if n >= 10 {
            assert(out@ =~= orig + dec_digits(n as int));
        } else {
            assert(dec_digits(0) == Seq::<u8>::empty());
            assert(dec_digits(n as int) == dec_digits((n as int) / 10).push(
                (48 + (n as int) % 10) as u8,
            ));
            assert(dec_digits(n as int) =~= seq![(48 + n % 10) as u8]);
            assert(out@ =~= orig + dec_digits(n as int));
        }
    }
}

/// Parses a canonical decimal number at `i`, up to `max`: succeeds exactly
/// on the canonical digits of some `n <= max` followed by a non-digit.
pub fn parse_dec(s: &Vec<u8>, i: usize, max: u64) -> (r: Option<(u64, usize)>)
    requires
        i <= s@.len(),
        max <= 0xFFFF_FFFF,
    ensures
        r matches Some(p) ==> {
            &&& i <= p.1 <= s@.len()
            &&& p.0 <= max
            &&& p.1 == i + enc_dec(p.0 as int).len()
            &&& s@.skip(i as int) == enc_dec(p.0 as int) + s@.skip(p.1 as int)
        },
        forall|n: int, rest: Seq<u8>|
            0 <= n <= max && s@.skip(i as int) == #[trigger] (enc_dec(n) + rest) && (rest.len()
                == 0 || !is_digit(rest[0])) ==> (r matches Some(p) && p.0 == n && p.1 == i
                + enc_dec(n).len()),
{
    if i >= s.len() || s[i] < 48 || s[i] > 57 {
        proof {
            assert forall|n: int, rest: Seq<u8>|
                0 <= n <= max && s@.skip(i as int) == (enc_dec(n) + rest) && (rest.len() == 0
                    || !is_digit(rest[0])) implies false by {
                lemma_enc_dec_props(n);
                assert((enc_dec(n) + rest)[0] == enc_dec(n)[0]);
                assert(is_digit(enc_dec(n)[0]));
                assert(s@.skip(i as int)[0] == s@[i as int]);
            }
        }
        return None;
    }
    if s[i] == 48 {
        proof {
            assert(s@.skip(i as int) =~= enc_dec(0) + s@.skip(i + 1));
            assert forall|n: int, rest: Seq<u8>|
                0 <= n <= max && s@.skip(i as int) == (enc_dec(n) + rest) && (rest.len() == 0
                    || !is_digit(rest[0])) implies (n == 0 && i + 1 == i + enc_dec(n).len()) by {
                lemma_enc_dec_props(n);
                if n > 0 {
                    assert((enc_dec(n) + rest)[0] == enc_dec(n)[0]);
                    assert(s@.skip(i as int)[0] == s@[i as int]);
                    assert(false);
                }
            }
        }
        return Some((0, i + 1));
    }
    // first digit is 1..=9
    let mut k: usize = i;
    let mut acc: u64 = 0;
    while k < s.len() && 48 <= s[k] && s[k] <= 57
        invariant
            i <= k <= s@.len(),
            i < s@.len() && 49 <= s@[i as int] <= 57,
            max <= 0xFFFF_FFFF,
            all_digits(s@.subrange(i as int, k as int)),
            acc == dec_val(s@.subrange(i as int, k as int)),
            acc <= max,
            k > i ==> acc >= 1,
        decreases s@.len() - k,
    {
        let ghost pre = s@.subrange(i as int, k as int);
        let d: u64 = (s[k] - 48) as u64;
        let na: u64 = acc * 10 + d;
        proof {
            assert(s@.subrange(i as int, k + 1).drop_last() =~= pre);
            assert(s@.subrange(i as int, k + 1).last() == s@[k as int]);
            assert(all_digits(s@.subrange(i as int, k + 1)));
            assert(dec_val(s@.subrange(i as int, k + 1)) == acc * 10 + d);
        }
        if na > max {
            proof {
                assert forall|n: int, rest: Seq<u8>|
                    0 <= n <= max && s@.skip(i as int) == (enc_dec(n) + rest) && (rest.len() == 0
                        || !is_digit(rest[0])) implies false by {
                    lemma_enc_dec_props(n);
                    let ed = enc_dec(n);
                    let ll = ed.len();
                    assert(s@.skip(i as int).len() == ll + rest.len());
                    // the digit at k lies inside the encoded digits
                    if k + 1 > i + ll {
                        if i + ll < s@.len() {
                            assert(rest.len() > 0);
                            assert(rest[0] == s@.skip(i as int)[ll as int]);
                            assert(s@[i + ll as int] == rest[0]);
                            assert(is_digit(s@.subrange(i as int, k + 1)[ll as int]));
                            assert(s@.subrange(i as int, k + 1)[ll as int] == s@[i + ll as int]);
                            assert(false);
                        } else {
                            assert(k + 1 <= s@.len());
                            assert(false);
                        }
                    }
                    // so subrange(i, k+1) is a prefix of the digits of n
                    assert(s@.subrange(i as int, k + 1) =~= ed.take(k + 1 - i)) by {
                        assert(forall|t: int| 0 <= t < k + 1 - i ==> s@.subrange(i as int, k + 1)[t]
                            == s@[i + t] && #[trigger] ed[t] == s@.skip(i as int)[t]);
                    }
                    lemma_dec_val_split(ed, k + 1 - i);
                    lemma_dec_val_nonneg(ed.skip(k + 1 - i));
                    lemma_pow10_pos((ll - (k + 1 - i)) as nat);
                    assert(dec_val(ed) == n);
                    assert(dec_val(ed.take(k + 1 - i)) == na);
                    assert(na * pow10((ll - (k + 1 - i)) as nat) >= na) by (nonlinear_arith)
                        requires
                            na >= 0,
                            pow10((ll - (k + 1 - i)) as nat) >= 1,
                    ;
                    assert(n >= na);
                    assert(false);
                }
            }
            return None;
        }
        acc = na;
        k += 1;
    }
    proof {
        let digits = s@.subrange(i as int, k as int);
        assert(digits.len() >= 1);
        assert(digits[0] == s@[i as int]);
        lemma_dec_val_canon(digits);
        assert(enc_dec(acc as int) == digits);
        assert(s@.skip(i as int) =~= digits + s@.skip(k as int));
        assert forall|n: int, rest: Seq<u8>|
            0 <= n <= max && s@.skip(i as int) == (enc_dec(n) + rest) && (rest.len() == 0
                || !is_digit(rest[0])) implies (acc == n && k == i + enc_dec(n).len()) by {
            lemma_enc_dec_props(n);
            assert(enc_dec(acc as int) + s@.skip(k as int) == enc_dec(n) + rest);
            if k < s@.len() {
                assert(s@.skip(k as int)[0] == s@[k as int]);
                assert(!is_digit(s@.skip(k as int)[0]));
            } else {
                assert(s@.skip(k as int).len() == 0);
            }
            lemma_enc_dec_unique(acc as int, n, s@.skip(k as int), rest);
        }
    }
    Some((acc, k))
}

// ---------------------------------------------------------------------
// Signed decimal numbers
// ---------------------------------------------------------------------

/// Appends the signed canonical decimal encoding of `n` to `out`.
pub fn push_int(out: &mut Vec<u8>, n: i32)
    ensures
        final(out)@ == old(out)@ + enc_int(n as int),
{
    let ghost orig = out@;
    if n < 0 {
        out.push(45);
        let m: u64 = (-(n as i64)) as u64;
        push_dec(out, m);
        proof {
            assert(out@ =~= orig + enc_int(n as int));
        }
    } else {
        push_dec(out, n as u64);
    }
}

/// Parses a signed canonical decimal number in the 32-bit signed range:
/// succeeds exactly on the canonical encoding of some such number followed
/// by a non-digit.
pub fn parse_int(s: &Vec<u8>, i: usize) -> (r: Option<(i32, usize)>)
    requires
        i <= s@.len(),
    ensures
        r matches Some(p) ==> {
            &&& i <= p.1 <= s@.len()
            &&& p.1 == i + enc_int(p.0 as int).len()
            &&& s@.skip(i as int) == enc_int(p.0 as int) + s@.skip(p.1 as int)
        },
        forall|n: int, rest: Seq<u8>|
            -0x8000_0000 <= n < 0x8000_0000 && s@.skip(i as int) == #[trigger] (enc_int(n) + rest)
                && (rest.len() == 0 || !is_digit(rest[0])) ==> (r matches Some(p) && p.0 == n && p.1
                == i + enc_int(n).len()),
{
    if i < s.len() && s[i] == 45 {
        let r0 = parse_dec(s, i + 1, 0x8000_0000);
        proof {
            assert(s@.skip(i as int).drop_first() =~= s@.skip(i + 1));
            assert forall|n: int, rest: Seq<u8>|
                -0x8000_0000 <= n < 0x8000_0000 && s@.skip(i as int) == (enc_int(n) + rest) && (
                rest.len() == 0 || !is_digit(rest[0])) implies (n < 0 && s@.skip(i + 1) == enc_dec(
                -n,
            ) + rest) by {
                lemma_enc_dec_props(if n < 0 { -n } else { n });
                if n >= 0 {
                    assert((enc_int(n) + rest)[0] == enc_dec(n)[0]);
                    assert(s@.skip(i as int)[0] == s@[i as int]);
                    assert(is_digit(enc_dec(n)[0]));
                    assert(false);
                }
                assert(enc_int(n) == seq![45u8] + enc_dec(-n));
                assert(s@.skip(i + 1) =~= (enc_int(n) + rest).drop_first());
                assert(s@.skip(i + 1) =~= enc_dec(-n) + rest);
            }
        }
        match r0 {
            Some((v, j)) => {
                if v == 0 {
                    proof {
                        assert forall|n: int, rest: Seq<u8>|
                            -0x8000_0000 <= n < 0x8000_0000 && s@.skip(i as int) == (enc_int(n)
                                + rest) && (rest.len() == 0 || !is_digit(rest[0])) implies false by {
                            assert(n < 0 && s@.skip(i + 1) == enc_dec(-n) + rest);
                            assert(v as int == -n);
                        }
                    }
                    return None;
                }
                let m: i32 = if v >= 0x8000_0000 {
                    i32::MIN
                } else {
                    -((v as i32))
                };
                proof {
                    assert(m as int == -(v as int));
                    assert(enc_int(m as int) == seq![45u8] + enc_dec(v as int));
                    assert(s@.skip(i as int) =~= seq![45u8] + s@.skip(i + 1));
                    assert(s@.skip(i as int) =~= enc_int(m as int) + s@.skip(j as int));
                    assert(enc_int(m as int).len() == 1 + enc_dec(v as int).len());
                }
                Some((m, j))
            },
            None => {
                proof {
                    assert forall|n: int, rest: Seq<u8>|
                        -0x8000_0000 <= n < 0x8000_0000 && s@.skip(i as int) == (enc_int(n) + rest)
                            && (rest.len() == 0 || !is_digit(rest[0])) implies false by {
                        assert(n < 0 && s@.skip(i + 1) == enc_dec(-n) + rest);
                    }
                }
                None
            },
        }
    } else {
        let r0 = parse_dec(s, i, 0x7FFF_FFFF);
        proof {
            assert forall|n: int, rest: Seq<u8>|
                -0x8000_0000 <= n < 0x8000_0000 && s@.skip(i as int) == (enc_int(n) + rest) && (
                rest.len() == 0 || !is_digit(rest[0])) implies (0 <= n && s@.skip(i as int)
                == enc_dec(n) + rest) by {
                if n < 0 {
                    assert(enc_int(n) == seq![45u8] + enc_dec(-n));
                    assert((enc_int(n) + rest)[0] == 45);
                    assert(s@.skip(i as int)[0] == s@[i as int]);
                    assert(s@.skip(i as int).len() > 0);
                    assert(i < s@.len());
                    assert(false);
                }
            }
        }
        match r0 {
            Some((v, j)) => Some((v as i32, j)),
            None => None,
        }
    }
}

// ---------------------------------------------------------------------
// Hexadecimal numbers and feed identifiers
// ---------------------------------------------------------------------

/// Appends the fixed-width hexadecimal digits of `n` to `out`.
fn push_hex(out: &mut Vec<u8>, n: u64, w: usize)
    ensures
        final(out)@ == old(out)@ + hex_digits(n as int, w as nat),
    decreases w,
{
    let ghost orig = out@;
    if w > 0 {
        push_hex(out, n / 16, w - 1);
        let d: u8 = (n % 16) as u8;
        if d < 10 {
            out.push(48 + d);
        } else {
            out.push(87 + d);
        }
        proof {
            assert(hex_char((n as int) % 16) == (if d < 10 {
                (48 + d) as u8
            } else {
                (87 + d) as u8
            }));
            assert(out@ =~= orig + hex_digits(n as int, w as nat));
        }
    } else {
        proof {
            assert(out@ =~= orig + hex_digits(n as int, 0));
        }
    }
}

/// Parses sixteen lower-case hexadecimal digits at `i`.
fn parse_hex16(s: &Vec<u8>, i: usize) -> (r: Option<(u64, usize)>)
    requires
        i <= s@.len(),
    ensures
        r matches Some(p) ==> {
            &&& i + 16 <= s@.len()
            &&& p.1 == i + 16
            &&& s@.skip(i as int) == hex_digits(p.0 as int, 16) + s@.skip(p.1 as int)
        },
        forall|n: int, rest: Seq<u8>|
            0 <= n < 0x1_0000_0000_0000_0000 && s@.skip(i as int) == #[trigger] (hex_digits(n, 16)
                + rest) ==> (r matches Some(p) && p.0 == n && p.1 == i + 16),
{
    proof {
        lemma_pow16_16();
    }
    if s.len() - i < 16 {
        proof {
            assert forall|n: int, rest: Seq<u8>|
                0 <= n < 0x1_0000_0000_0000_0000 && s@.skip(i as int) == (hex_digits(n, 16) + rest)
                implies false by {
                lemma_hex_digits_props(n, 16);
                assert(s@.skip(i as int).len() == s@.len() - i);
            }
        }
        return None;
    }
    let mut k: usize = 0;
    let mut acc: u64 = 0;
    while k < 16
        invariant
            i + 16 <= s@.len(),
            s@.len() <= usize::MAX,
            k <= 16,
            forall|t: int| 0 <= t < k ==> is_hex_digit(#[trigger] s@.subrange(i as int, i + k)[t]),
            acc == hex_val(s@.subrange(i as int, i + k)),
            acc < pow16(k as nat),
        decreases 16 - k,
    {
        let b = s[i + k];
        let ok: bool = (48 <= b && b <= 57) || (97 <= b && b <= 102);
        if !ok {
            proof {
                assert forall|n: int, rest: Seq<u8>|
                    0 <= n < 0x1_0000_0000_0000_0000 && s@.skip(i as int) == (hex_digits(n, 16)
                        + rest) implies false by {
                    lemma_pow16_16();
                    lemma_hex_digits_props(n, 16);
                    assert((hex_digits(n, 16) + rest)[k as int] == hex_digits(n, 16)[k as int]);
                    assert(s@.skip(i as int)[k as int] == s@[i + k]);
                    assert(is_hex_digit(hex_digits(n, 16)[k as int]));
                }
            }
            return None;
        }
        let d: u64 = if b <= 57 {
            (b - 48) as u64
        } else {
            (b - 87) as u64
        };
        proof {
            lemma_pow16_mono(k as nat, 15);
            assert(pow16(15) == 0x1000_0000_0000_0000) by {
                lemma_pow16_16();
            }
            assert(acc * 16 + d < pow16((k + 1) as nat)) by (nonlinear_arith)
                requires
                    acc < pow16(k as nat),
                    0 <= d < 16,
                    pow16((k + 1) as nat) == 16 * pow16(k as nat),
            ;
            let pre = s@.subrange(i as int, i + k);
            let cur = s@.subrange(i as int, i + k + 1);
            assert(cur.drop_last() =~= pre);
            assert(cur.last() == s@[i + k]);
            assert(hex_val_char(s@[i + k]) == d);
            assert(hex_val(cur) == acc * 16 + d);
            assert(forall|t: int| 0 <= t < k + 1 ==> is_hex_digit(#[trigger] cur[t]));
        }
        acc = acc * 16 + d;
        k += 1;
    }
    proof {
        let digits = s@.subrange(i as int, i + 16);
        lemma_hex_val_canon(digits);
        assert(hex_digits(acc as int, 16) == digits);
        assert(s@.skip(i as int) =~= digits + s@.skip(i + 16));
        assert forall|n: int, rest: Seq<u8>|
            0 <= n < 0x1_0000_0000_0000_0000 && s@.skip(i as int) == (hex_digits(n, 16) + rest)
            implies (acc == n && true) by {
            lemma_hex_digits_props(n, 16);
            lemma_eq_parts(digits, s@.skip(i + 16), hex_digits(n, 16), rest);
            assert(hex_val(digits) == hex_val(hex_digits(n, 16)));
        }
    }
    Some((acc, i + 16))
}

/// Appends the JSON form of a feed identifier to `out`.
pub fn push_feed_id(out: &mut Vec<u8>, id: &FeedId)
    ensures
        final(out)@ == old(out)@ + enc_id(*id),
{
    let ghost orig = out@;
    out.push(34);
    out.push(48);
    out.push(120);
    push_hex(out, id.w0, 16);
    push_hex(out, id.w1, 16);
    push_hex(out, id.w2, 16);
    push_hex(out, id.w3, 16);
    out.push(34);
    proof {
        assert(out@ =~= orig + enc_id(*id));
    }
}

/// Two sixteen-digit hexadecimal runs heading the same suffix carry the
/// same value and leave the same continuation.
proof fn lemma_hex16_step(s: Seq<u8>, p: int, j: int, w: u64, v: u64, tail: Seq<u8>)
    requires
        s.skip(p) == hex_digits(v as int, 16) + tail,
        s.skip(p) == hex_digits(w as int, 16) + s.skip(j),
    ensures
        w == v,
        s.skip(j) == tail,
{
    lemma_pow16_16();
    lemma_hex_digits_props(v as int, 16);
    lemma_hex_digits_props(w as int, 16);
    lemma_eq_parts(hex_digits(w as int, 16), s.skip(j), hex_digits(v as int, 16), tail);
    assert(hex_val(hex_digits(w as int, 16)) == hex_val(hex_digits(v as int, 16)));
}

/// Parses one feed identifier at `i`: a JSON string holding `0x` and 64
/// lower-case hexadecimal digits.
pub fn parse_feed_id(s: &Vec<u8>, i: usize) -> (r: Option<(FeedId, usize)>)
    requires
        i <= s@.len(),
    ensures
        r matches Some(p) ==> {
            &&& i <= p.1 <= s@.len()
            &&& p.1 == i + 68
            &&& s@.skip(i as int) == enc_id(p.0) + s@.skip(p.1 as int)
        },
        forall|id: FeedId, rest: Seq<u8>|
            s@.skip(i as int) == #[trigger] (enc_id(id) + rest) ==> (r matches Some(p) && p.0 == id
                && p.1 == i + 68),
{
    proof {
        lemma_pow16_16();
        assert forall|id: FeedId| enc_id(id).len() == 68 by {
            lemma_hex_digits_props(id.w0 as int, 16);
            lemma_hex_digits_props(id.w1 as int, 16);
            lemma_hex_digits_props(id.w2 as int, 16);
            lemma_hex_digits_props(id.w3 as int, 16);
        }
    }
    if s.len() - i < 68 {
        proof {
            assert(s@.skip(i as int).len() == s@.len() - i);
        }
        return None;
    }
    if s[i] != 34 || s[i + 1] != 48 || s[i + 2] != 120 {
        proof {
            assert forall|id: FeedId, rest: Seq<u8>| s@.skip(i as int) == (enc_id(id) + rest)
                implies false by {
                assert((enc_id(id) + rest)[0] == 34);
                assert((enc_id(id) + rest)[1] == id_hex(id)[0]);
                assert((enc_id(id) + rest)[2] == id_hex(id)[1]);
                assert(id_hex(id)[0] == 48 && id_hex(id)[1] == 120);
                assert(s@.skip(i as int)[0] == s@[i as int]);
                assert(s@.skip(i as int)[1] == s@[i + 1]);
                assert(s@.skip(i as int)[2] == s@[i + 2]);
            }
        }
        return None;
    }
    // the residue expected after each of the four limbs, in a matching world
    let ghost u2t = |id: FeedId, rest: Seq<u8>| seq![34u8] + rest;
    let ghost u1t = |id: FeedId, rest: Seq<u8>| hex_digits(id.w3 as int, 16) + u2t(id, rest);
    let ghost u0t = |id: FeedId, rest: Seq<u8>| hex_digits(id.w2 as int, 16) + u1t(id, rest);
    let ghost decomp = |id: FeedId, rest: Seq<u8>|
        s@.skip(i + 3) == hex_digits(id.w0 as int, 16) + (hex_digits(id.w1 as int, 16) + u0t(
            id,
            rest,
        ));
    proof {
        assert forall|id: FeedId, rest: Seq<u8>| s@.skip(i as int) == (enc_id(id) + rest)
            implies decomp(id, rest) by {
            lemma_hex_digits_props(id.w0 as int, 16);
            lemma_hex_digits_props(id.w1 as int, 16);
            lemma_hex_digits_props(id.w2 as int, 16);
            lemma_hex_digits_props(id.w3 as int, 16);
            assert(s@.skip(i + 3) =~= s@.skip(i as int).skip(3));
            assert(s@.skip(i as int).skip(3) =~= hex_digits(id.w0 as int, 16) + (hex_digits(
                id.w1 as int,
                16,
            ) + u0t(id, rest)));
        }
    }
    let r0 = parse_hex16(s, i + 3);
    let (w0, j0) = match r0 {
        Some(p) => p,
        None => {
            proof {
                assert forall|id: FeedId, rest: Seq<u8>| s@.skip(i as int) == (enc_id(id) + rest)
                    implies false by {
                    assert(decomp(id, rest));
                }
            }
            return None;
        },
    };
    let r1 = parse_hex16(s, j0);
    let (w1, j1) = match r1 {
        Some(p) => p,
        None => {
            proof {
                assert forall|id: FeedId, rest: Seq<u8>| s@.skip(i as int) == (enc_id(id) + rest)
                    implies false by {
                    assert(decomp(id, rest));
                    lemma_hex16_step(
                        s@,
                        i + 3,
                        j0 as int,
                        w0,
                        id.w0,
                        hex_digits(id.w1 as int, 16) + u0t(id, rest),
                    );
                }
            }
            return None;
        },
    };
    let r2 = parse_hex16(s, j1);
    let (w2, j2) = match r2 {
        Some(p) => p,
        None => {
            proof {
                assert forall|id: FeedId, rest: Seq<u8>| s@.skip(i as int) == (enc_id(id) + rest)
                    implies false by {
                    assert(decomp(id, rest));
                    lemma_hex16_step(
                        s@,
                        i + 3,
                        j0 as int,
                        w0,
                        id.w0,
                        hex_digits(id.w1 as int, 16) + u0t(id, rest),
                    );
                    lemma_hex16_step(s@, j0 as int, j1 as int, w1, id.w1, u0t(id, rest));
                }
            }
            return None;
        },
    };
    let r3 = parse_hex16(s, j2);
    let (w3, j3) = match r3 {
        Some(p) => p,
        None => {
            proof {
                assert forall|id: FeedId, rest: Seq<u8>| s@.skip(i as int) == (enc_id(id) + rest)
                    implies false by {
                    assert(decomp(id, rest));
                    lemma_hex16_step(
                        s@,
                        i + 3,
                        j0 as int,
                        w0,
                        id.w0,
                        hex_digits(id.w1 as int, 16) + u0t(id, rest),
                    );
                    lemma_hex16_step(s@, j0 as int, j1 as int, w1, id.w1, u0t(id, rest));
                    lemma_hex16_step(s@, j1 as int, j2 as int, w2, id.w2, u1t(id, rest));
                }
            }
            return None;
        },
    };
    if s[j3] != 34 {
        proof {
            assert forall|id: FeedId, rest: Seq<u8>| s@.skip(i as int) == (enc_id(id) + rest)
                implies false by {
                assert(decomp(id, rest));
                lemma_hex16_step(
                    s@,
                    i + 3,
                    j0 as int,
                    w0,
                    id.w0,
                    hex_digits(id.w1 as int, 16) + u0t(id, rest),
                );
                lemma_hex16_step(s@, j0 as int, j1 as int, w1, id.w1, u0t(id, rest));
                lemma_hex16_step(s@, j1 as int, j2 as int, w2, id.w2, u1t(id, rest));
                lemma_hex16_step(s@, j2 as int, j3 as int, w3, id.w3, u2t(id, rest));
                assert(s@.skip(j3 as int)[0] == s@[j3 as int]);
                assert((seq![34u8] + rest)[0] == 34);
            }
        }
        return None;
    }
    let fid = FeedId { w0, w1, w2, w3 };
    proof {
        lemma_hex_digits_props(w0 as int, 16);
        lemma_hex_digits_props(w1 as int, 16);
        lemma_hex_digits_props(w2 as int, 16);
        lemma_hex_digits_props(w3 as int, 16);
        assert(s@.skip(j3 as int) =~= seq![34u8] + s@.skip(j3 + 1));
        assert(s@.skip(j2 as int) == hex_digits(w3 as int, 16) + (seq![34u8] + s@.skip(j3 + 1)));
        assert(s@.skip(j1 as int) == hex_digits(w2 as int, 16) + (hex_digits(w3 as int, 16) + (
        seq![34u8] + s@.skip(j3 + 1))));
        assert(s@.skip(j0 as int) == hex_digits(w1 as int, 16) + (hex_digits(w2 as int, 16) + (
        hex_digits(w3 as int, 16) + (seq![34u8] + s@.skip(j3 + 1)))));
        assert(s@.skip(i + 3) == hex_digits(w0 as int, 16) + (hex_digits(w1 as int, 16) + (
        hex_digits(w2 as int, 16) + (hex_digits(w3 as int, 16) + (seq![34u8] + s@.skip(
            j3 + 1,
        ))))));
        assert(s@.skip(i as int) =~= seq![34u8, 48u8, 120u8] + s@.skip(i + 3));
        assert(enc_id(fid) + s@.skip(j3 + 1) =~= seq![34u8, 48u8, 120u8] + (hex_digits(
            w0 as int,
            16,
        ) + (hex_digits(w1 as int, 16) + (hex_digits(w2 as int, 16) + (hex_digits(w3 as int, 16)
            + (seq![34u8] + s@.skip(j3 + 1)))))));
        assert(s@.skip(i as int) =~= enc_id(fid) + s@.skip(j3 + 1));
        assert forall|id: FeedId, rest: Seq<u8>| s@.skip(i as int) == (enc_id(id) + rest)
            implies (fid == id && j3 + 1 == i + 68) by {
            assert(decomp(id, rest));
            lemma_hex16_step(
                s@,
                i + 3,
                j0 as int,
                w0,
                id.w0,
                hex_digits(id.w1 as int, 16) + u0t(id, rest),
            );
            lemma_hex16_step(s@, j0 as int, j1 as int, w1, id.w1, u0t(id, rest));
            lemma_hex16_step(s@, j1 as int, j2 as int, w2, id.w2, u1t(id, rest));
            lemma_hex16_step(s@, j2 as int, j3 as int, w3, id.w3, u2t(id, rest));
        }
    }
    Some((fid, j3 + 1))
}


/// Parses a JSON boolean literal at `i`.
pub fn parse_bool(s: &Vec<u8>, i: usize) -> (r: Option<(bool, usize)>)
    requires
        i <= s@.len(),
    ensures
        r matches Some(p) ==> {
            &&& i <= p.1 <= s@.len()
            &&& p.1 == i + enc_bool(p.0).len()
            &&& s@.skip(i as int) == enc_bool(p.0) + s@.skip(p.1 as int)
        },
        forall|b: bool, rest: Seq<u8>|
            s@.skip(i as int) == #[trigger] (enc_bool(b) + rest) ==> (r matches Some(p) && p.0 == b
                && p.1 == i + enc_bool(b).len()),
{
    if let Some(j) = eat_lit(s, i, LitTag::TrueLit) {
        proof {
            assert forall|b: bool, rest: Seq<u8>| s@.skip(i as int) == (enc_bool(b) + rest)
                implies (b == true && j == i + enc_bool(b).len()) by {
                if !b {
                    assert((lit_of(LitTag::TrueLit) + s@.skip(j as int))[0] == 116);
                    assert((enc_bool(false) + rest)[0] == 102);
                }
            }
        }
        return Some((true, j));
    }
    let r1 = eat_lit(s, i, LitTag::FalseLit);
    if let Some(j) = r1 {
        proof {
            assert forall|b: bool, rest: Seq<u8>| s@.skip(i as int) == (enc_bool(b) + rest)
                implies (b == false && j == i + enc_bool(b).len()) by {
                if b {
                    assert(s@.skip(i as int) == lit_of(LitTag::TrueLit) + rest);
                }
            }
        }
        return Some((false, j));
    }
    proof {
        assert forall|b: bool, rest: Seq<u8>| s@.skip(i as int) == (enc_bool(b) + rest)
            implies false by {
            if b {
                assert(s@.skip(i as int) == lit_of(LitTag::TrueLit) + rest);
            } else {
                assert(s@.skip(i as int) == lit_of(LitTag::FalseLit) + rest);
            }
        }
    }
    None
}

} // verus!
