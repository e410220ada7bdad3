//! Canonical decimal and hexadecimal digit codecs used by the wire format:
//! the encodings, their numeric values, and the lemmas connecting the two.

use vstd::prelude::*;

verus! {

pub open spec fn is_digit(b: u8) -> bool {
    48 <= b <= 57
}

pub open spec fn all_digits(s: Seq<u8>) -> bool {
    forall|i: int| 0 <= i < s.len() ==> is_digit(#[trigger] s[i])
}

/// The decimal digits of `n`, most significant first; empty for zero.
pub open spec fn dec_digits(n: int) -> Seq<u8>
    decreases n,
{
    if n <= 0 {
        Seq::empty()
    } else {
        dec_digits(n / 10).push((48 + n % 10) as u8)
    }
}

/// The canonical decimal encoding of `n >= 0`: no sign, no leading zero.
pub open spec fn enc_dec(n: int) -> Seq<u8> {
    if n == 0 {
        seq![48u8]
    } else {
        dec_digits(n)
    }
}

/// The numeric value of a decimal digit sequence.
pub open spec fn dec_val(s: Seq<u8>) -> int
    decreases s.len(),
{
    if s.len() == 0 {
        0
    } else {
        dec_val(s.drop_last()) * 10 + (s.last() - 48)
    }
}

pub open spec fn pow10(k: nat) -> int
    decreases k,
{
    if k == 0 {
        1
    } else {
        10 * pow10((k - 1) as nat)
    }
}

pub open spec fn is_hex_digit(b: u8) -> bool {
    48 <= b <= 57 || 97 <= b <= 102
}

/// The lower-case character of one hexadecimal digit value.
pub open spec fn hex_char(d: int) -> u8 {
    if d < 10 {
        (48 + d) as u8
    } else {
        (87 + d) as u8
    }
}

pub open spec fn hex_val_char(b: u8) -> int {
    if b <= 57 {
        b - 48
    } else {
        b - 87
    }
}

/// The fixed-width hexadecimal encoding of `n`, most significant first.
pub open spec fn hex_digits(n: int, w: nat) -> Seq<u8>
    decreases w,
{
    if w == 0 {
        Seq::empty()
    } else {
        hex_digits(n / 16, (w - 1) as nat).push(hex_char(n % 16))
    }
}

/// The numeric value of a hexadecimal digit sequence.
pub open spec fn hex_val(s: Seq<u8>) -> int
    decreases s.len(),
{
    if s.len() == 0 {
        0
    } else {
        hex_val(s.drop_last()) * 16 + hex_val_char(s.last())
    }
}

pub open spec fn pow16(k: nat) -> int
    decreases k,
{
    if k == 0 {
        1
    } else {
        16 * pow16((k - 1) as nat)
    }
}

pub proof fn lemma_pow10_pos(k: nat)
    ensures
        pow10(k) >= 1,
    decreases k,
{
    if k > 0 {
        lemma_pow10_pos((k - 1) as nat);
    }
}

pub proof fn lemma_pow16_pos(k: nat)
    ensures
        pow16(k) >= 1,
    decreases k,
{
    if k > 0 {
        lemma_pow16_pos((k - 1) as nat);
    }
}

pub proof fn lemma_pow16_16()
    ensures
        pow16(16) == 0x1_0000_0000_0000_0000,
{
    assert(pow16(0) == 1);
    assert(pow16(1) == 0x10);
    assert(pow16(2) == 0x100);
    assert(pow16(3) == 0x1000);
    assert(pow16(4) == 0x1_0000);
    assert(pow16(5) == 0x10_0000);
    assert(pow16(6) == 0x100_0000);
    assert(pow16(7) == 0x1000_0000);
    assert(pow16(8) == 0x1_0000_0000);
    assert(pow16(9) == 0x10_0000_0000);
    assert(pow16(10) == 0x100_0000_0000);
    assert(pow16(11) == 0x1000_0000_0000);
    assert(pow16(12) == 0x1_0000_0000_0000);
    assert(pow16(13) == 0x10_0000_0000_0000);
    assert(pow16(14) == 0x100_0000_0000_0000);
    assert(pow16(15) == 0x1000_0000_0000_0000);
    assert(pow16(16) == 0x1_0000_0000_0000_0000);
}

/// The decimal digits of a positive number are digits, start nonzero, and
/// evaluate back to the number.
pub proof fn lemma_dec_digits_props(n: int)
    requires
        n >= 0,
    ensures
        all_digits(dec_digits(n)),
        dec_val(dec_digits(n)) == n,
        n > 0 ==> dec_digits(n).len() >= 1 && dec_digits(n)[0] != 48,
    decreases n,
{
    if n > 0 {
        lemma_dec_digits_props(n / 10);
        let pre = dec_digits(n / 10);
        let d = (48 + n % 10) as u8;
        assert(pre.push(d).drop_last() =~= pre);
        assert(dec_val(pre.push(d)) == dec_val(pre) * 10 + (d - 48));
        if n / 10 == 0 {
            assert(dec_digits(n) =~= seq![d]);
            assert(n % 10 == n);
            assert(d != 48);
        } else {
            assert(dec_digits(n)[0] == pre[0]);
        }
    }
}

/// The value of every decimal digit sequence is non-negative.
pub proof fn lemma_dec_val_nonneg(s: Seq<u8>)
    requires
        all_digits(s),
    ensures
        dec_val(s) >= 0,
    decreases s.len(),
{
    if s.len() > 0 {
        assert(all_digits(s.drop_last()));
        lemma_dec_val_nonneg(s.drop_last());
    }
}

/// Splitting a digit sequence splits its value by the matching power of
/// ten.
pub proof fn lemma_dec_val_split(s: Seq<u8>, k: int)
    requires
        all_digits(s),
        0 <= k <= s.len(),
    ensures
        dec_val(s) == dec_val(s.take(k)) * pow10((s.len() - k) as nat) + dec_val(s.skip(k)),
    decreases s.len() - k,
{
    if k == s.len() {
        assert(s.take(k) =~= s);
        assert(s.skip(k) =~= Seq::<u8>::empty());
    } else {
        let dl = s.drop_last();
        let d = s.last() - 48;
        assert(all_digits(dl));
        lemma_dec_val_split(dl, k);
        assert(dl.take(k) =~= s.take(k));
        assert(s.skip(k).drop_last() =~= dl.skip(k));
        assert(s.skip(k).last() == s.last());
        assert(dec_val(s.skip(k)) == dec_val(dl.skip(k)) * 10 + d);
        let p = pow10((s.len() - 1 - k) as nat);
        assert(pow10((s.len() - k) as nat) == 10 * p);
        assert(dec_val(s) == dec_val(dl) * 10 + d);
        assert(dec_val(dl) == dec_val(s.take(k)) * p + dec_val(dl.skip(k)));
        assert((dec_val(s.take(k)) * p + dec_val(dl.skip(k))) * 10 == dec_val(s.take(k)) * (10 * p)
            + dec_val(dl.skip(k)) * 10) by (nonlinear_arith);
    }
}

/// A digit sequence with no leading zero is the canonical encoding of its
/// value, and that value is bounded by the matching powers of ten.
pub proof fn lemma_dec_val_canon(s: Seq<u8>)
    requires
        all_digits(s),
        s.len() >= 1,
        s.len() == 1 || s[0] != 48,
    ensures
        0 <= dec_val(s) < pow10(s.len() as nat),
        s[0] != 48 ==> dec_val(s) >= pow10((s.len() - 1) as nat),
        enc_dec(dec_val(s)) == s,
    decreases s.len(),
{
    lemma_dec_val_nonneg(s);
    assert(pow10(0) == 1);
    assert(pow10(1) == 10);
    assert(dec_val(Seq::<u8>::empty()) == 0);
    assert(dec_digits(0) == Seq::<u8>::empty());
    if s.len() == 1 {
        let d = s[0] - 48;
        assert(s.drop_last() =~= Seq::<u8>::empty());
        assert(dec_val(s) == dec_val(s.drop_last()) * 10 + d);
        assert(dec_val(s) == d);
        if d == 0 {
            assert(enc_dec(0) =~= s);
        } else {
            assert(dec_digits(d) == dec_digits(d / 10).push((48 + d % 10) as u8));
            assert(d / 10 == 0 && d % 10 == d);
            assert(dec_digits(d) =~= seq![(48 + d) as u8]);
            assert(enc_dec(d) =~= s);
        }
    } else {
        let dl = s.drop_last();
        let d = s.last() - 48;
        assert(all_digits(dl));
        assert(dl[0] == s[0]);
        lemma_dec_val_canon(dl);
        let v = dec_val(s);
        let vp = dec_val(dl);
        assert(v == vp * 10 + d);
        assert(vp >= pow10((s.len() - 2) as nat));
        lemma_pow10_pos((s.len() - 2) as nat);
        assert(vp >= 1);
        assert(v >= 10 * pow10((s.len() - 2) as nat)) by {
            assert(vp * 10 >= pow10((s.len() - 2) as nat) * 10) by (nonlinear_arith)
                requires vp >= pow10((s.len() - 2) as nat);
        }
        assert(pow10((s.len() - 1) as nat) == 10 * pow10((s.len() - 2) as nat));
        assert(v < pow10(s.len() as nat)) by {
            assert(vp <= pow10((s.len() - 1) as nat) - 1);
            assert(vp * 10 <= (pow10((s.len() - 1) as nat) - 1) * 10) by (nonlinear_arith)
                requires vp <= pow10((s.len() - 1) as nat) - 1;
            assert(pow10(s.len() as nat) == 10 * pow10((s.len() - 1) as nat));
        }
        assert(v > 0);
        assert(v / 10 == vp && v % 10 == d) by (nonlinear_arith)
            requires
                v == vp * 10 + d,
                0 <= d < 10,
                vp >= 0,
        ;
        assert(dec_digits(v) == dec_digits(vp).push((48 + d) as u8));
        assert(enc_dec(vp) == dec_digits(vp));
        assert(dec_digits(v) =~= s) by {
            assert(dec_digits(vp) == dl);
            assert(dl.push(s.last()) =~= s);
        }
    }
}

/// Hexadecimal analogue of the two lemmas above, for a fixed width.
pub proof fn lemma_hex_digits_props(n: int, w: nat)
    requires
        0 <= n < pow16(w),
    ensures
        hex_digits(n, w).len() == w,
        forall|i: int| 0 <= i < w ==> is_hex_digit(#[trigger] hex_digits(n, w)[i]),
        hex_val(hex_digits(n, w)) == n,
    decreases w,
{
    if w > 0 {
        assert(n / 16 < pow16((w - 1) as nat)) by (nonlinear_arith)
            requires
                0 <= n < 16 * pow16((w - 1) as nat),
        ;
        assert(n / 16 >= 0);
        lemma_hex_digits_props(n / 16, (w - 1) as nat);
        let pre = hex_digits(n / 16, (w - 1) as nat);
        let c = hex_char(n % 16);
        assert(pre.push(c).drop_last() =~= pre);
        assert(is_hex_digit(c));
        assert(hex_val_char(c) == n % 16);
        assert(hex_val(pre.push(c)) == hex_val(pre) * 16 + (n % 16));
        assert(hex_val(pre) * 16 + n % 16 == n) by (nonlinear_arith)
            requires
                hex_val(pre) == n / 16,
                n >= 0,
        ;
        assert(forall|i: int| 0 <= i < w ==> is_hex_digit(#[trigger] pre.push(c)[i]));
    }
}

/// A hexadecimal digit sequence is the canonical encoding of its value at
/// its own width.
pub proof fn lemma_hex_val_canon(s: Seq<u8>)
    requires
        forall|i: int| 0 <= i < s.len() ==> is_hex_digit(#[trigger] s[i]),
    ensures
        0 <= hex_val(s) < pow16(s.len() as nat),
        hex_digits(hex_val(s), s.len() as nat) == s,
    decreases s.len(),
{
    if s.len() == 0 {
        assert(hex_digits(0, 0) =~= s);
    } else {
        let dl = s.drop_last();
        let d = hex_val_char(s.last());
        lemma_hex_val_canon(dl);
        let v = hex_val(s);
        let vp = hex_val(dl);
        assert(v == vp * 16 + d);
        assert(0 <= d < 16);
        assert(0 <= v < pow16(s.len() as nat)) by (nonlinear_arith)
            requires
                v == vp * 16 + d,
                0 <= d < 16,
                0 <= vp < pow16((s.len() - 1) as nat),
                pow16(s.len() as nat) == 16 * pow16((s.len() - 1) as nat),
        ;
        assert(v / 16 == vp && v % 16 == d) by (nonlinear_arith)
            requires
                v == vp * 16 + d,
                0 <= d < 16,
                vp >= 0,
        ;
        assert(hex_char(d) == s.last());
        assert(hex_digits(v, s.len() as nat) == hex_digits(vp, (s.len() - 1) as nat).push(
            hex_char(d),
        ));
        assert(hex_digits(v, s.len() as nat) =~= s) by {
            assert(hex_digits(vp, (s.len() - 1) as nat) == dl);
            assert(dl.push(s.last()) =~= s);
        }
    }
}

/// Powers of sixteen grow monotonically.
pub proof fn lemma_pow16_mono(a: nat, b: nat)
    requires
        a <= b,
    ensures
        pow16(a) <= pow16(b),
    decreases b,
{
    if a < b {
        lemma_pow16_mono(a, (b - 1) as nat);
        lemma_pow16_pos((b - 1) as nat);
    }
}

/// The canonical decimal encoding is a non-empty digit string without a
/// leading zero, and evaluates back to its number.
pub proof fn lemma_enc_dec_props(n: int)
    requires
        n >= 0,
    ensures
        all_digits(enc_dec(n)),
        enc_dec(n).len() >= 1,
        dec_val(enc_dec(n)) == n,
        n > 0 ==> enc_dec(n)[0] != 48,
        n == 0 ==> enc_dec(n) == seq![48u8],
{
    lemma_dec_digits_props(n);
    if n == 0 {
        assert(enc_dec(0) == seq![48u8]);
        assert(seq![48u8].drop_last() =~= Seq::<u8>::empty());
        assert(dec_val(seq![48u8]) == 0);
        assert(all_digits(seq![48u8]));
    }
}

/// Two canonically encoded numbers followed by non-digit tails coincide
/// only when the numbers and the tails coincide.
pub proof fn lemma_enc_dec_unique(n1: int, n2: int, r1: Seq<u8>, r2: Seq<u8>)
    requires
        n1 >= 0,
        n2 >= 0,
        enc_dec(n1) + r1 == enc_dec(n2) + r2,
        r1.len() == 0 || !is_digit(r1[0]),
        r2.len() == 0 || !is_digit(r2[0]),
    ensures
        n1 == n2,
        r1 == r2,
{
    lemma_enc_dec_props(n1);
    lemma_enc_dec_props(n2);
    let d1 = enc_dec(n1);
    let d2 = enc_dec(n2);
    let whole = d1 + r1;
    assert(whole.len() == d1.len() + r1.len() && whole.len() == d2.len() + r2.len());
    if d1.len() < d2.len() {
        assert(r1.len() > 0);
        assert(whole[d1.len() as int] == r1[0]);
        assert(whole[d1.len() as int] == d2[d1.len() as int]);
        assert(is_digit(d2[d1.len() as int]));
        assert(false);
    }
    if d2.len() < d1.len() {
        assert(r2.len() > 0);
        assert((d2 + r2)[d2.len() as int] == r2[0]);
        assert((d2 + r2)[d2.len() as int] == d1[d2.len() as int]);
        assert(is_digit(d1[d2.len() as int]));
        assert(false);
    }
    assert forall|i: int| 0 <= i < d1.len() implies d1[i] == d2[i] by {
        assert(d1[i] == whole[i]);
        assert(d2[i] == whole[i]);
    }
    assert(d1 =~= d2);
    assert(dec_val(d1) == dec_val(d2));
    assert forall|i: int| 0 <= i < r1.len() implies r1[i] == r2[i] by {
        assert(r1[i] == whole[d1.len() + i]);
        assert(r2[i] == whole[d2.len() + i]);
    }
    assert(r1.len() == r2.len());
    assert(r1 =~= r2);
}

} // verus!
