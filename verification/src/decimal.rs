//! Decimal encoder: fixed-length big-endian two's-complement bytes from a
//! textual decimal with an optional sign and decimal point.
//!
//! Values whose precision stays within 128-bit arithmetic take a fast path
//! on `i128`; wider values go through arbitrary-precision arithmetic. Both
//! paths produce `twos_complement_be(value, length)` bit for bit.

use vstd::arithmetic::div_mod::{
    lemma_basic_div, lemma_fundamental_div_mod, lemma_mod_division_less_than_divisor,
    lemma_small_mod,
};
use vstd::arithmetic::power::{lemma_pow_increases, lemma_pow_positive, pow};
use vstd::prelude::*;

verus! {

pub open spec fn is_ascii_digit(c: u8) -> bool {
    48 <= c <= 57
}

pub open spec fn is_sign(c: u8) -> bool {
    c == 43 || c == 45
}

/// A non-empty run of decimal digits.
pub open spec fn digits_wf(s: Seq<u8>) -> bool {
    s.len() > 0 && forall|i: int| 0 <= i < s.len() ==> is_ascii_digit(#[trigger] s[i])
}

/// An optional leading `+` or `-`, then at least one digit.
pub open spec fn signed_digits_wf(s: Seq<u8>) -> bool {
    if s.len() == 0 {
        false
    } else if is_sign(s[0]) {
        digits_wf(s.skip(1))
    } else {
        digits_wf(s)
    }
}

/// Numeric value of a run of digits, most significant first.
pub open spec fn digits_value(s: Seq<u8>) -> int
    decreases s.len(),
{
    if s.len() == 0 {
        0
    } else {
        digits_value(s.drop_last()) * 10 + (s.last() - 48)
    }
}

/// Numeric value of an optionally signed run of digits.
pub open spec fn signed_digits_value(s: Seq<u8>) -> int {
    if s.len() > 0 && s[0] == 45 {
        -digits_value(s.skip(1))
    } else if s.len() > 0 && s[0] == 43 {
        digits_value(s.skip(1))
    } else {
        digits_value(s)
    }
}

/// The text with every decimal point removed: the digits that remain carry
/// the value scaled by the column's fixed scale.
pub open spec fn strip_point(s: Seq<u8>) -> Seq<u8>
    decreases s.len(),
{
    if s.len() == 0 {
        Seq::empty()
    } else if s.last() == 46 {
        strip_point(s.drop_last())
    } else {
        strip_point(s.drop_last()).push(s.last())
    }
}

/// A decimal text is well formed when, after dropping the point, an optional
/// sign and at least one digit remain.
pub open spec fn decimal_text_wf(s: Seq<u8>) -> bool {
    signed_digits_wf(strip_point(s))
}

/// The unscaled integer value a decimal text denotes.
pub open spec fn decimal_value(s: Seq<u8>) -> int {
    signed_digits_value(strip_point(s))
}

/// Big-endian unsigned value of a byte string.
pub open spec fn unsigned_be_value(s: Seq<u8>) -> int
    decreases s.len(),
{
    if s.len() == 0 {
        0
    } else {
        unsigned_be_value(s.drop_last()) * 256 + s.last()
    }
}

/// Big-endian two's-complement value of a byte string.
pub open spec fn signed_be_value(s: Seq<u8>) -> int {
    if s.len() == 0 {
        0
    } else if s[0] >= 128 {
        unsigned_be_value(s) - pow(256, s.len())
    } else {
        unsigned_be_value(s)
    }
}

/// The `len`-byte big-endian two's-complement encoding of `v`; the low byte
/// is `v` modulo 256, the rest encodes the arithmetic shift of `v`.
pub open spec fn twos_complement_be(v: int, len: nat) -> Seq<u8>
    decreases len,
{
    if len == 0 {
        Seq::empty()
    } else {
        twos_complement_be(v / 256, (len - 1) as nat).push((v % 256) as u8)
    }
}

/// Whether `v` is representable in `len` bytes of two's complement.
pub open spec fn fits_signed(v: int, len: nat) -> bool {
    if len == 0 {
        v == 0
    } else {
        -(128 * pow(256, (len - 1) as nat)) <= v < 128 * pow(256, (len - 1) as nat)
    }
}

/// Shortest two's-complement length that can hold `v`.
pub open spec fn min_signed_len(v: int) -> nat
    decreases (if v < 0 { -v } else { v }),
{
    if -128 <= v < 128 {
        1
    } else {
        1 + min_signed_len(v / 256)
    }
}

/// Digit runs denote non-negative values.
pub proof fn lemma_digits_value_non_negative(s: Seq<u8>)
    requires
        forall|i: int| 0 <= i < s.len() ==> is_ascii_digit(#[trigger] s[i]),
    ensures
        digits_value(s) >= 0,
    decreases s.len(),
{
    if s.len() > 0 {
        lemma_digits_value_non_negative(s.drop_last());
    }
}

/// The sign-extension byte of a value: `0xFF` for negative, `0x00` otherwise.
pub open spec fn fill_byte(v: int) -> u8 {
    if v < 0 {
        255
    } else {
        0
    }
}

/// `n` copies of byte `b`.
pub open spec fn filled(b: u8, n: nat) -> Seq<u8> {
    Seq::new(n, |i: int| b)
}

/// Powers of 256 unfold one step at a time.
proof fn lemma_pow256_unfold(n: nat)
    requires
        n > 0,
    ensures
        pow(256, n) == 256 * pow(256, (n - 1) as nat),
        pow(256, n) == pow(256, (n - 1) as nat) * 256,
        pow(256, n) > 0,
        pow(256, (n - 1) as nat) > 0,
{
    reveal(pow);
    lemma_pow_positive(256, n);
    lemma_pow_positive(256, (n - 1) as nat);
}

/// The unsigned value of a byte string lies in `[0, 256^len)`.
pub proof fn lemma_unsigned_be_value_bounds(s: Seq<u8>)
    ensures
        0 <= unsigned_be_value(s) < pow(256, s.len()),
    decreases s.len(),
{
    reveal(pow);
    if s.len() == 0 {
        assert(pow(256, 0) == 1);
    } else {
        lemma_unsigned_be_value_bounds(s.drop_last());
        lemma_pow256_unfold(s.len());
        let u = unsigned_be_value(s.drop_last());
        assert(u * 256 <= (pow(256, (s.len() - 1) as nat) - 1) * 256) by (nonlinear_arith)
            requires
                u <= pow(256, (s.len() - 1) as nat) - 1,
        ;
        assert(u * 256 >= 0) by (nonlinear_arith)
            requires
                u >= 0,
        ;
    }
}

/// Dividing by 256 keeps a value inside a one-byte-shorter signed range.
proof fn lemma_fits_signed_shrink(v: int, len: nat)
    requires
        len >= 2,
        fits_signed(v, len),
    ensures
        fits_signed(v / 256, (len - 1) as nat),
        v >= 0 ==> v / 256 >= 0,
        v < 0 ==> v / 256 < 0,
    decreases len,
{
    reveal(pow);
    let p = pow(256, (len - 2) as nat);
    lemma_pow256_unfold((len - 1) as nat);
    lemma_fundamental_div_mod(v, 256);
    lemma_mod_division_less_than_divisor(v, 256);
    let q = v / 256;
    let r = v % 256;
    assert(v == 256 * q + r);
    assert(-(128 * (p * 256)) <= 256 * q + r < 128 * (p * 256));
    assert(-(128 * p) <= q < 128 * p) by (nonlinear_arith)
        requires
            -(128 * (p * 256)) <= 256 * q + r < 128 * (p * 256),
            0 <= r < 256,
            p > 0,
    ;
}

/// A `len`-byte encoding indeed has `len` bytes.
pub proof fn lemma_tcbe_len(v: int, len: nat)
    ensures
        twos_complement_be(v, len).len() == len,
    decreases len,
{
    if len > 0 {
        lemma_tcbe_len(v / 256, (len - 1) as nat);
    }
}

/// Splitting off the low byte of a value splits its residue: the identity
/// behind reading a two's-complement string back as an integer. Unlike
/// vstd's breakdown lemma it holds for negative values too.
proof fn lemma_mod_breakdown_any(x: int, y: int, z: int)
    requires
        0 < y,
        0 < z,
    ensures
        x % (y * z) == y * ((x / y) % z) + x % y,
{
    lemma_fundamental_div_mod(x, y);
    lemma_mod_division_less_than_divisor(x, y);
    let q1 = x / y;
    let r1 = x % y;
    lemma_fundamental_div_mod(q1, z);
    lemma_mod_division_less_than_divisor(q1, z);
    let q2 = q1 / z;
    let r2 = q1 % z;
    assert(x == y * (z * q2 + r2) + r1);
    assert(y * (z * q2 + r2) + r1 == q2 * (y * z) + (y * r2 + r1)) by (nonlinear_arith);
    assert(0 <= y * r2 + r1 < y * z) by (nonlinear_arith)
        requires
            0 <= r1 < y,
            0 <= r2 < z,
            y > 0,
            z > 0,
    ;
    assert(y * z > 0) by (nonlinear_arith)
        requires
            y > 0,
            z > 0,
    ;
    vstd::arithmetic::div_mod::lemma_fundamental_div_mod_converse_mod(
        x,
        y * z,
        q2,
        y * r2 + r1,
    );
}

/// The unsigned reading of the `len`-byte two's complement of `v` is
/// `v` modulo `256^len`.
pub proof fn lemma_unsigned_of_twos_complement(v: int, len: nat)
    ensures
        unsigned_be_value(twos_complement_be(v, len)) == v % pow(256, len),
    decreases len,
{
    reveal(pow);
    if len == 0 {
        assert(pow(256, 0) == 1);
        assert(v % 1 == 0) by {
            vstd::arithmetic::div_mod::lemma_fundamental_div_mod(v, 1);
            vstd::arithmetic::div_mod::lemma_mod_division_less_than_divisor(v, 1);
        }
    } else {
        let s = twos_complement_be(v, len);
        lemma_unsigned_of_twos_complement(v / 256, (len - 1) as nat);
        lemma_pow256_unfold(len);
        assert(s.drop_last() =~= twos_complement_be(v / 256, (len - 1) as nat));
        lemma_mod_division_less_than_divisor(v, 256);
        lemma_mod_breakdown_any(v, 256, pow(256, (len - 1) as nat));
        assert(unsigned_be_value(s) == ((v / 256) % pow(256, (len - 1) as nat)) * 256 + v % 256);
        assert(((v / 256) % pow(256, (len - 1) as nat)) * 256 == 256 * ((v / 256) % pow(
            256,
            (len - 1) as nat,
        ))) by (nonlinear_arith);
    }
}

/// The top bit of the two's-complement encoding tells the sign, as long as
/// the value fits.
pub proof fn lemma_top_byte_sign(v: int, len: nat)
    requires
        len > 0,
        fits_signed(v, len),
    ensures
        twos_complement_be(v, len)[0] >= 128 <==> v < 0,
    decreases len,
{
    reveal(pow);
    lemma_tcbe_len(v, len);
    lemma_tcbe_len(v / 256, (len - 1) as nat);
    if len == 1 {
        lemma_fundamental_div_mod(v, 256);
        lemma_mod_division_less_than_divisor(v, 256);
        assert(twos_complement_be(v, 1)[0] == (v % 256) as u8);
        if v >= 0 {
            lemma_small_mod(v as nat, 256);
        } else {
            assert(v % 256 == v + 256);
        }
    } else {
        lemma_fits_signed_shrink(v, len);
        lemma_top_byte_sign(v / 256, (len - 1) as nat);
        assert(twos_complement_be(v, len)[0] == twos_complement_be(v / 256, (len - 1) as nat)[0]);
    }
}

/// Round trip: encoding a value that fits `len` bytes and decoding the
/// resulting two's-complement bytes recovers the value exactly.
pub proof fn lemma_twos_complement_round_trip(v: int, len: nat)
    requires
        fits_signed(v, len),
    ensures
        signed_be_value(twos_complement_be(v, len)) == v,
{
    reveal(pow);
    lemma_tcbe_len(v, len);
    if len == 0 {
    } else {
        let s = twos_complement_be(v, len);
        lemma_unsigned_of_twos_complement(v, len);
        lemma_top_byte_sign(v, len);
        lemma_pow256_unfold(len);
        let p1 = pow(256, (len - 1) as nat);
        let p = pow(256, len);
        assert(128 * p1 <= p) by (nonlinear_arith)
            requires
                p == 256 * p1,
                p1 > 0,
        ;
        if v >= 0 {
            lemma_small_mod(v as nat, p as nat);
        } else {
            lemma_fundamental_div_mod(v, p);
            lemma_mod_division_less_than_divisor(v, p);
            let q = v / p;
            let r = v % p;
            assert(v == p * q + r);
            assert(q == -1) by (nonlinear_arith)
                requires
                    v == p * q + r,
                    0 <= r < p,
                    -p <= v < 0,
                    p > 0,
            ;
            assert(v % p == v + p);
        }
    }
}

/// One sign-extension byte in front of a fitting encoding encodes the same
/// value one byte wider.
proof fn lemma_sign_extend_one(v: int, len: nat)
    requires
        fits_signed(v, len),
    ensures
        twos_complement_be(v, (len + 1) as nat) =~= seq![fill_byte(v)] + twos_complement_be(
            v,
            len,
        ),
    decreases len,
{
    reveal(pow);
    lemma_tcbe_len(v, len);
    lemma_tcbe_len(v, (len + 1) as nat);
    lemma_tcbe_len(v / 256, len);
    lemma_tcbe_len(v / 256, (len - 1) as nat);
    if len == 0 {
        assert(v == 0);
        assert(twos_complement_be(0, 0) =~= Seq::<u8>::empty());
        assert(0int % 256 == 0 && 0int / 256 == 0) by {
            lemma_fundamental_div_mod(0, 256);
            lemma_basic_div(0, 256);
            lemma_small_mod(0, 256);
        }
        assert(twos_complement_be(0, 1) =~= seq![0u8]);
    } else if len == 1 {
        assert(-128 <= v < 128);
        lemma_fundamental_div_mod(v, 256);
        lemma_mod_division_less_than_divisor(v, 256);
        let q = v / 256;
        let r = v % 256;
        assert(twos_complement_be(v, 1) =~= twos_complement_be(q, 0).push(r as u8));
        assert(twos_complement_be(v, 2) =~= twos_complement_be(q, 1).push(r as u8));
        if v >= 0 {
            assert(q == 0) by {
                lemma_basic_div(v, 256);
            }
            assert(0int % 256 == 0 && 0int / 256 == 0) by {
                lemma_fundamental_div_mod(0, 256);
                lemma_basic_div(0, 256);
            }
            assert(twos_complement_be(0, 1) =~= seq![0u8]);
        } else {
            assert(q == -1) by (nonlinear_arith)
                requires
                    v == 256 * q + r,
                    0 <= r < 256,
                    -256 <= v < 0,
            ;
            assert((-1) % 256 == 255 && (-1) / 256 == -1) by {
                lemma_fundamental_div_mod(-1, 256);
                lemma_mod_division_less_than_divisor(-1, 256);
                let qq = (-1) / 256;
                let rr = (-1) % 256;
                assert(qq == -1) by (nonlinear_arith)
                    requires
                        -1 == 256 * qq + rr,
                        0 <= rr < 256,
                ;
            }
            assert(twos_complement_be(-1, 1) =~= seq![255u8]);
        }
    } else {
        lemma_fits_signed_shrink(v, len);
        lemma_sign_extend_one(v / 256, (len - 1) as nat);
        let w = v / 256;
        let r = (v % 256) as u8;
        assert(twos_complement_be(v, (len + 1) as nat) =~= twos_complement_be(
            w,
            len,
        ).push(r));
        assert(twos_complement_be(v, len) =~= twos_complement_be(w, (len - 1) as nat).push(r));
        assert(fill_byte(w) == fill_byte(v));
    }
}

/// Sign-extending a fitting encoding to any wider fixed length encodes the
/// same value: the wide and the minimal two's-complement forms agree byte
/// for byte on their overlap, with only fill bytes in front.
pub proof fn lemma_sign_extend(v: int, len: nat, wide: nat)
    requires
        fits_signed(v, len),
        len <= wide,
    ensures
        twos_complement_be(v, wide) =~= filled(fill_byte(v), (wide - len) as nat)
            + twos_complement_be(v, len),
        fits_signed(v, wide),
    decreases wide - len,
{
    reveal(pow);
    lemma_tcbe_len(v, len);
    lemma_tcbe_len(v, wide);
    lemma_tcbe_len(v, (len + 1) as nat);
    if wide == len {
        assert(twos_complement_be(v, wide) =~= filled(fill_byte(v), 0) + twos_complement_be(
            v,
            len,
        ));
    } else {
        lemma_sign_extend_one(v, len);
        if len > 0 {
            lemma_pow256_unfold(len);
            let p1 = pow(256, (len - 1) as nat);
            assert(128 * p1 <= 128 * (256 * p1)) by (nonlinear_arith)
                requires
                    p1 > 0,
            ;
        } else {
            assert(pow(256, 0) == 1);
        }
        assert(fits_signed(v, (len + 1) as nat));
        lemma_sign_extend(v, (len + 1) as nat, wide);
    }
}

/// A value fits its minimal length, and no shorter length.
pub proof fn lemma_min_signed_len_fits(v: int)
    ensures
        min_signed_len(v) >= 1,
        fits_signed(v, min_signed_len(v)),
    decreases (if v < 0 { -v } else { v }),
{
    reveal(pow);
    if -128 <= v < 128 {
        assert(pow(256, 0) == 1);
    } else {
        lemma_fundamental_div_mod(v, 256);
        lemma_mod_division_less_than_divisor(v, 256);
        lemma_min_signed_len_fits(v / 256);
        let l = min_signed_len(v / 256);
        lemma_pow256_unfold((l + 1) as nat);
        let p1 = pow(256, (l - 1) as nat);
        lemma_pow_positive(256, (l - 1) as nat);
        assert(pow(256, l) == 256 * p1) by {
            lemma_pow256_unfold(l);
        }
        assert(-(128 * (256 * p1)) <= 256 * (v / 256) + v % 256 < 128 * (256 * p1))
            by (nonlinear_arith)
            requires
                -(128 * p1) <= v / 256 < 128 * p1,
                0 <= v % 256 < 256,
                p1 > 0,
        ;
    }
}

/// A value fits a length exactly when the length reaches its minimal one.
pub proof fn lemma_fits_iff_min_len(v: int, len: nat)
    requires
        len >= 1,
    ensures
        fits_signed(v, len) <==> min_signed_len(v) <= len,
    decreases len,
{
    reveal(pow);
    if -128 <= v < 128 {
        lemma_min_signed_len_fits(v);
        lemma_sign_extend(v, 1, len);
    } else {
        if len == 1 {
            assert(pow(256, 0) == 1);
            assert(!fits_signed(v, 1));
            lemma_min_signed_len_fits(v / 256);
            assert(min_signed_len(v) == 1 + min_signed_len(v / 256));
        } else {
            lemma_fits_iff_min_len(v / 256, (len - 1) as nat);
            if fits_signed(v, len) {
                lemma_fits_signed_shrink(v, len);
            }
            if min_signed_len(v) <= len {
                // rebuild fits(v, len) from fits(v / 256, len - 1)
                lemma_fundamental_div_mod(v, 256);
                lemma_mod_division_less_than_divisor(v, 256);
                lemma_pow256_unfold((len - 1) as nat);
                let p2 = pow(256, (len - 2) as nat);
                assert(-(128 * (256 * p2)) <= 256 * (v / 256) + v % 256 < 128 * (256 * p2))
                    by (nonlinear_arith)
                    requires
                        -(128 * p2) <= v / 256 < 128 * p2,
                        0 <= v % 256 < 256,
                        p2 > 0,
                ;
                assert(pow(256, (len - 1) as nat) == 256 * p2);
            }
        }
    }
}

/// Extending a digit run to the right never shrinks its value.
pub proof fn lemma_digits_value_prefix_le(s: Seq<u8>, i: int)
    requires
        0 <= i <= s.len(),
        forall|j: int| 0 <= j < s.len() ==> is_ascii_digit(#[trigger] s[j]),
    ensures
        digits_value(s.take(i)) <= digits_value(s),
    decreases s.len() - i,
{
    if i < s.len() {
        let t = s.take(i + 1);
        assert(t.drop_last() =~= s.take(i));
        lemma_digits_value_non_negative(s.take(i));
        assert(digits_value(t) == digits_value(s.take(i)) * 10 + (t.last() - 48));
        assert(digits_value(s.take(i)) * 10 >= digits_value(s.take(i))) by (nonlinear_arith)
            requires
                digits_value(s.take(i)) >= 0,
        ;
        lemma_digits_value_prefix_le(s, i + 1);
        assert(s.take(s.len() as int) =~= s);
    } else {
        assert(s.take(s.len() as int) =~= s);
    }
}

/// Whether a mathematical integer lies in the 128-bit signed range.
pub open spec fn in_i128(v: int) -> bool {
    i128::MIN <= v <= i128::MAX
}

/// The concrete powers of 256 up to sixteen bytes: the 128-bit range is
/// exactly sixteen bytes of two's complement.
pub proof fn lemma_pow256_i128()
    ensures
        pow(256, 15) == 0x1000000000000000000000000000000,
        128 * pow(256, 15) == 0x80000000000000000000000000000000,
{
    reveal(pow);
    assert(pow(256, 0) == 1);
    lemma_pow256_unfold(1);
    lemma_pow256_unfold(2);
    lemma_pow256_unfold(3);
    lemma_pow256_unfold(4);
    lemma_pow256_unfold(5);
    lemma_pow256_unfold(6);
    lemma_pow256_unfold(7);
    lemma_pow256_unfold(8);
    lemma_pow256_unfold(9);
    lemma_pow256_unfold(10);
    lemma_pow256_unfold(11);
    lemma_pow256_unfold(12);
    lemma_pow256_unfold(13);
    lemma_pow256_unfold(14);
    lemma_pow256_unfold(15);
}

/// Every 128-bit value fits sixteen bytes, so its minimal length is at
/// most sixteen.
pub proof fn lemma_i128_fits_16(v: i128)
    ensures
        fits_signed(v as int, 16),
        min_signed_len(v as int) <= 16,
{
    lemma_pow256_i128();
    lemma_fits_iff_min_len(v as int, 16);
}

/// A byte string read back as a signed value always fits its own length.
pub proof fn lemma_signed_be_value_fits(s: Seq<u8>)
    requires
        s.len() > 0,
    ensures
        fits_signed(signed_be_value(s), s.len()),
    decreases s.len(),
{
    reveal(pow);
    lemma_unsigned_be_value_bounds(s);
    lemma_unsigned_be_front(s);
    lemma_unsigned_be_value_bounds(s.skip(1));
    lemma_pow256_unfold(s.len());
    let p1 = pow(256, (s.len() - 1) as nat);
    let u = unsigned_be_value(s);
    let tail = unsigned_be_value(s.skip(1));
    assert(u == s[0] * p1 + tail);
    if s[0] >= 128 {
        assert(u >= 128 * p1) by (nonlinear_arith)
            requires
                u == s[0] * p1 + tail,
                s[0] >= 128,
                tail >= 0,
                p1 > 0,
        ;
    } else {
        assert(u < 128 * p1) by (nonlinear_arith)
            requires
                u == s[0] * p1 + tail,
                s[0] <= 127,
                tail < p1,
                p1 > 0,
        ;
    }
}

/// The unsigned reading splits at the front: top byte times its weight,
/// plus the rest.
pub proof fn lemma_unsigned_be_front(s: Seq<u8>)
    requires
        s.len() > 0,
    ensures
        unsigned_be_value(s) == s[0] * pow(256, (s.len() - 1) as nat) + unsigned_be_value(
            s.skip(1),
        ),
    decreases s.len(),
{
    reveal(pow);
    if s.len() == 1 {
        assert(s.skip(1) =~= Seq::<u8>::empty());
        assert(s.drop_last() =~= Seq::<u8>::empty());
        assert(unsigned_be_value(Seq::<u8>::empty()) == 0);
        assert(unsigned_be_value(s) == s[0]);
    } else {
        let d = s.drop_last();
        lemma_unsigned_be_front(d);
        lemma_pow256_unfold((s.len() - 1) as nat);
        assert(d.skip(1) =~= s.skip(1).drop_last());
        assert(s.skip(1).last() == s.last());
        assert(unsigned_be_value(s.skip(1)) == unsigned_be_value(d.skip(1)) * 256 + s.last());
        let p2 = pow(256, (s.len() - 2) as nat);
        assert(unsigned_be_value(s) == (s[0] * p2 + unsigned_be_value(d.skip(1))) * 256
            + s.last());
        assert((s[0] * p2 + unsigned_be_value(d.skip(1))) * 256 == s[0] * (p2 * 256)
            + unsigned_be_value(d.skip(1)) * 256) by (nonlinear_arith);
    }
}

/// Appending a byte shifts the signed reading by one byte.
pub proof fn lemma_signed_be_push(s: Seq<u8>, b: u8)
    requires
        s.len() > 0,
    ensures
        signed_be_value(s.push(b)) == signed_be_value(s) * 256 + b,
{
    reveal(pow);
    let t = s.push(b);
    assert(t.drop_last() =~= s);
    assert(t.last() == b);
    assert(unsigned_be_value(t) == unsigned_be_value(s) * 256 + b);
    assert(t[0] == s[0]);
    lemma_pow256_unfold(t.len());
    if s[0] >= 128 {
        let p = pow(256, s.len());
        assert((unsigned_be_value(s) - p) * 256 == unsigned_be_value(s) * 256 - p * 256)
            by (nonlinear_arith);
    }
}

/// Reads an optionally signed digit run into an `i128`; `None` exactly when
/// the value overflows 128 bits.
pub fn parse_signed_digits_i128(digits: &Vec<u8>) -> (r: Option<i128>)
    requires
        signed_digits_wf(digits@),
    ensures
        match r {
            Some(v) => v as int == signed_digits_value(digits@),
            None => !in_i128(signed_digits_value(digits@)),
        },
{
    let first: u8 = digits[0];
    let negative: bool = first == 45;
    let offset: usize = if first == 43 || first == 45 {
        1
    } else {
        0
    };
    let ghost tail = digits@.skip(offset as int);
    proof {
        assert(digits@.skip(0) =~= digits@);
        assert(tail.len() > 0 && forall|j: int|
            0 <= j < tail.len() ==> is_ascii_digit(#[trigger] tail[j]));
        if negative {
            assert(signed_digits_value(digits@) == -digits_value(tail));
        } else {
            assert(signed_digits_value(digits@) == digits_value(tail));
        }
    }
    let mut acc: i128 = 0;
    let mut i: usize = offset;
    proof {
        assert(tail.take(0) =~= Seq::<u8>::empty());
    }
    while i < digits.len()
        invariant
            offset <= i <= digits@.len(),
            tail == digits@.skip(offset as int),
            tail.len() == digits@.len() - offset,
            forall|j: int| 0 <= j < tail.len() ==> is_ascii_digit(#[trigger] tail[j]),
            negative ==> signed_digits_value(digits@) == -digits_value(tail),
            !negative ==> signed_digits_value(digits@) == digits_value(tail),
            negative ==> acc as int == -digits_value(tail.take(i - offset)),
            !negative ==> acc as int == digits_value(tail.take(i - offset)),
        decreases digits@.len() - i,
    {
        let c: u8 = digits[i];
        proof {
            assert(tail[i - offset] == digits@[i as int]);
            assert(is_ascii_digit(c));
        }
        let d: i128 = (c - 48) as i128;
        let ghost pre = tail.take(i - offset);
        let ghost pre1 = tail.take(i + 1 - offset);
        proof {
            assert(pre1.drop_last() =~= pre);
            assert(pre1.last() == tail[i - offset]);
            assert(digits_value(pre1) == digits_value(pre) * 10 + d);
            lemma_digits_value_prefix_le(tail, i + 1 - offset);
            assert(tail.take(tail.len() as int) =~= tail);
        }
        let step = acc.checked_mul(10);
        let next: Option<i128> = match step {
            Some(m) => {
                if negative {
                    m.checked_sub(d)
                } else {
                    m.checked_add(d)
                }
            },
            None => None,
        };
        match next {
            Some(a) => {
                acc = a;
            },
            None => {
                proof {
                    lemma_digits_value_non_negative(pre);
                    if negative {
                        assert(-digits_value(pre1) < i128::MIN);
                        assert(signed_digits_value(digits@) == -digits_value(tail));
                        assert(digits_value(tail) >= digits_value(pre1));
                    } else {
                        assert(digits_value(pre1) > i128::MAX);
                        assert(digits_value(tail) >= digits_value(pre1));
                    }
                }
                return None;
            },
        }
        i = i + 1;
    }
    proof {
        assert(tail.take(tail.len() as int) =~= tail);
    }
    Some(acc)
}

/// Minimal two's-complement byte length of a 128-bit value.
pub fn min_len_i128(v: i128) -> (n: usize)
    ensures
        n == min_signed_len(v as int),
        1 <= n <= 16,
{
    let mut w: i128 = v;
    let mut n: usize = 1;
    proof {
        lemma_i128_fits_16(v);
        lemma_min_signed_len_fits(v as int);
    }
    while !(-128 <= w && w < 128)
        invariant
            min_signed_len(v as int) == n - 1 + min_signed_len(w as int),
            min_signed_len(v as int) <= 16,
            1 <= n,
            n - 1 + min_signed_len(w as int) >= n,
        decreases (if w < 0 { -(w as int) } else { w as int }),
    {
        let ghost w0 = w as int;
        proof {
            lemma_fundamental_div_mod(w as int, 256);
            lemma_mod_division_less_than_divisor(w as int, 256);
            lemma_min_signed_len_fits(w as int);
        }
        let q = match w.checked_div_euclid(256) {
            Some(q) => q,
            None => {
                proof {
                    assert(false);
                }
                0
            },
        };
        w = q;
        n = n + 1;
        proof {
            assert(min_signed_len(w0) == 1 + min_signed_len(w as int));
            lemma_min_signed_len_fits(w as int);
        }
    }
    proof {
        assert(min_signed_len(w as int) == 1);
    }
    n
}

/// Clears the scratch buffer and refills it with the text minus any
/// decimal points.
pub fn strip_point_into(text: &Vec<u8>, digits: &mut Vec<u8>)
    ensures
        final(digits)@ == strip_point(text@),
{
    digits.clear();
    let mut i: usize = 0;
    proof {
        assert(text@.take(0) =~= Seq::<u8>::empty());
    }
    while i < text.len()
        invariant
            i <= text@.len(),
            digits@ == strip_point(text@.take(i as int)),
        decreases text@.len() - i,
    {
        let c: u8 = text[i];
        let ghost pre = text@.take(i as int);
        let ghost pre1 = text@.take(i + 1);
        proof {
            assert(pre1.drop_last() =~= pre);
            assert(pre1.last() == text@[i as int]);
        }
        if c != 46 {
            digits.push(c);
        }
        i = i + 1;
    }
    proof {
        assert(text@.take(text@.len() as int) =~= text@);
    }
}

/// Whether the scratch buffer holds an optional sign and then only digits.
pub fn check_signed_digits(digits: &Vec<u8>) -> (ok: bool)
    ensures
        ok == signed_digits_wf(digits@),
{
    if digits.len() == 0 {
        return false;
    }
    let first: u8 = digits[0];
    let offset: usize = if first == 43 || first == 45 {
        1
    } else {
        0
    };
    if digits.len() == offset {
        return false;
    }
    let ghost tail = digits@.skip(offset as int);
    proof {
        assert(digits@.skip(0) =~= digits@);
    }
    let mut i: usize = offset;
    while i < digits.len()
        invariant
            offset <= i <= digits@.len(),
            offset <= 1,
            offset == 1 ==> is_sign(digits@[0]),
            offset == 0 ==> !is_sign(digits@[0]),
            offset < digits@.len(),
            tail == digits@.skip(offset as int),
            forall|j: int| offset <= j < i ==> is_ascii_digit(#[trigger] digits@[j]),
        decreases digits@.len() - i,
    {
        let c: u8 = digits[i];
        if c < 48 || c > 57 {
            proof {
                assert(digits@.skip(0) =~= digits@);
                assert(tail[i - offset] == digits@[i as int]);
                assert(!is_ascii_digit(tail[i - offset]));
                assert(!digits_wf(tail));
                assert(!signed_digits_wf(digits@));
            }
            return false;
        }
        i = i + 1;
    }
    proof {
        assert(forall|j: int|
            0 <= j < tail.len() ==> #[trigger] tail[j] == digits@[j + offset]);
        assert(digits_wf(tail));
        assert(signed_digits_wf(digits@));
    }
    true
}

/// Fast path: the two's complement of a textual decimal through 128-bit
/// arithmetic, sized to `length` bytes. `digits` is the reusable scratch
/// buffer; it comes back holding the digits without the decimal point.
pub fn twos_complement_i128(decimal: &Vec<u8>, length: usize, digits: &mut Vec<u8>) -> (r: Result<
    Vec<u8>,
    crate::EncodeError,
>)
    ensures
        final(digits)@ == strip_point(decimal@),
        r is Ok <==> decimal_text_wf(decimal@) && in_i128(decimal_value(decimal@)) && fits_signed(
            decimal_value(decimal@),
            length as nat,
        ),
        (match r {
            Ok(out) => out@ == twos_complement_be(decimal_value(decimal@), length as nat),
            Err(e) => (e == crate::EncodeError::MalformedDecimal <==> !decimal_text_wf(decimal@))
                && (e == crate::EncodeError::DecimalOutOfRange <==> decimal_text_wf(decimal@) && !(
            in_i128(decimal_value(decimal@)) && fits_signed(
                decimal_value(decimal@),
                length as nat,
            ))),
        }),
{
    strip_point_into(decimal, digits);
    if !check_signed_digits(digits) {
        return Err(crate::EncodeError::MalformedDecimal);
    }
    match parse_signed_digits_i128(digits) {
        None => Err(crate::EncodeError::DecimalOutOfRange),
        Some(v) => {
            if length == 0 {
                if v == 0 {
                    Ok(Vec::new())
                } else {
                    Err(crate::EncodeError::DecimalOutOfRange)
                }
            } else {
                let ml = min_len_i128(v);
                proof {
                    lemma_fits_iff_min_len(v as int, length as nat);
                }
                if ml > length {
                    Err(crate::EncodeError::DecimalOutOfRange)
                } else {
                    Ok(encode_be_fixed(v, length))
                }
            }
        },
    }
}

/// Relies on `atoi::FromRadix10Signed` for `atoi::Integer<num_bigint::BigInt>`
/// (reads an optional sign, then radix-10 digits, into an integer) and on
/// `num_bigint::BigInt::to_signed_bytes_be` (the shortest big-endian
/// two's-complement byte string holding the value).
#[verifier::external_body]
fn bigint_signed_bytes_be(digits: &Vec<u8>) -> (r: Vec<u8>)
    requires
        signed_digits_wf(digits@),
    ensures
        r@ == twos_complement_be(
            signed_digits_value(digits@),
            min_signed_len(signed_digits_value(digits@)),
        ),
{
    let (num, _) = <atoi::Integer<num_bigint::BigInt> as atoi::FromRadix10Signed>::from_radix_10_signed(
        digits.as_slice(),
    );
    num.0.to_signed_bytes_be()
}

/// Wide path: the two's complement of a textual decimal through
/// arbitrary-precision arithmetic, sized to `length` bytes. Bit for bit the
/// same output as the fast path wherever both apply.
pub fn twos_complement_big_int(decimal: &Vec<u8>, length: usize, digits: &mut Vec<u8>) -> (r:
    Result<Vec<u8>, crate::EncodeError>)
    ensures
        final(digits)@ == strip_point(decimal@),
        r is Ok <==> decimal_text_wf(decimal@) && fits_signed(
            decimal_value(decimal@),
            length as nat,
        ),
        (match r {
            Ok(out) => out@ == twos_complement_be(decimal_value(decimal@), length as nat),
            Err(e) => (e == crate::EncodeError::MalformedDecimal <==> !decimal_text_wf(decimal@))
                && (e == crate::EncodeError::DecimalOutOfRange <==> decimal_text_wf(decimal@)
                && !fits_signed(decimal_value(decimal@), length as nat)),
        }),
{
    strip_point_into(decimal, digits);
    if !check_signed_digits(digits) {
        return Err(crate::EncodeError::MalformedDecimal);
    }
    let m = bigint_signed_bytes_be(digits);
    let ghost v = signed_digits_value(digits@);
    let ghost ml = min_signed_len(v);
    proof {
        lemma_min_signed_len_fits(v);
        lemma_tcbe_len(v, ml);
        assert(m@.len() == ml);
    }
    if length == 0 {
        // Only the value zero fits zero bytes; its minimal form is `[0]`.
        if m.len() == 1 && m[0] == 0 {
            proof {
                lemma_twos_complement_round_trip(v, 1);
                assert(unsigned_be_value(m@.drop_last()) == 0) by {
                    assert(m@.drop_last() =~= Seq::<u8>::empty());
                }
                assert(signed_be_value(m@) == 0);
                assert(twos_complement_be(v, 0) =~= Seq::<u8>::empty());
            }
            return Ok(Vec::new());
        } else {
            proof {
                if v == 0 {
                    assert(min_signed_len(0) == 1);
                    assert(0int / 256 == 0 && 0int % 256 == 0) by {
                        lemma_basic_div(0, 256);
                        lemma_fundamental_div_mod(0, 256);
                    }
                    assert(twos_complement_be(0, 0) =~= Seq::<u8>::empty());
                    assert(twos_complement_be(0, 1) =~= seq![0u8]);
                    assert(m@ =~= seq![0u8]);
                }
            }
            return Err(crate::EncodeError::DecimalOutOfRange);
        }
    }
    proof {
        lemma_fits_iff_min_len(v, length as nat);
    }
    if m.len() > length {
        return Err(crate::EncodeError::DecimalOutOfRange);
    }
    let fill: u8 = if m[0] >= 128 {
        255
    } else {
        0
    };
    proof {
        lemma_top_byte_sign(v, ml);
        assert(fill == fill_byte(v));
        lemma_sign_extend(v, ml, length as nat);
    }
    let pad: usize = length - m.len();
    let mut out: Vec<u8> = Vec::new();
    let mut i: usize = 0;
    proof {
        assert(out@ =~= filled(fill, 0));
    }
    while i < pad
        invariant
            i <= pad,
            out@ == filled(fill, i as nat),
        decreases pad - i,
    {
        out.push(fill);
        i = i + 1;
        proof {
            assert(out@ =~= filled(fill, i as nat));
        }
    }
    let mut k: usize = 0;
    while k < m.len()
        invariant
            k <= m@.len(),
            out@ == filled(fill, pad as nat) + m@.take(k as int),
        decreases m@.len() - k,
    {
        let b: u8 = m[k];
        out.push(b);
        k = k + 1;
        proof {
            assert(filled(fill, pad as nat) + m@.take(k as int) =~= (filled(fill, pad as nat)
                + m@.take(k - 1)).push(b));
        }
    }
    proof {
        assert(m@.take(m@.len() as int) =~= m@);
        assert(out@ =~= twos_complement_be(v, length as nat));
    }
    Ok(out)
}

/// Decodes a big-endian two's-complement byte string of at most sixteen
/// bytes back into its 128-bit value.
pub fn decode_signed_be(bytes: &Vec<u8>) -> (r: Option<i128>)
    ensures
        r is Some <==> bytes@.len() <= 16,
        (match r {
            Some(v) => v as int == signed_be_value(bytes@),
            None => true,
        }),
{
    if bytes.len() > 16 {
        return None;
    }
    if bytes.len() == 0 {
        return Some(0);
    }
    let b0: u8 = bytes[0];
    let mut acc: i128 = if b0 >= 128 {
        b0 as i128 - 256
    } else {
        b0 as i128
    };
    proof {
        lemma_pow256_i128();
        assert(bytes@.take(1).drop_last() =~= Seq::<u8>::empty());
        assert(unsigned_be_value(Seq::<u8>::empty()) == 0);
        assert(bytes@.take(1).last() == b0);
        assert(unsigned_be_value(bytes@.take(1)) == b0);
        assert(pow(256, 1) == 256) by {
            lemma_pow256_unfold(1);
            reveal(pow);
        }
        assert(acc as int == signed_be_value(bytes@.take(1)));
    }
    let mut i: usize = 1;
    while i < bytes.len()
        invariant
            1 <= i <= bytes@.len(),
            bytes@.len() <= 16,
            acc as int == signed_be_value(bytes@.take(i as int)),
        decreases bytes@.len() - i,
    {
        let b: u8 = bytes[i];
        let ghost pre = bytes@.take(i as int);
        let ghost pre1 = bytes@.take(i + 1);
        proof {
            assert(pre1 =~= pre.push(b));
            lemma_signed_be_push(pre, b);
            lemma_signed_be_value_fits(pre);
            lemma_pow256_i128();
            lemma_pow_increases(256, i as nat, 15);
            lemma_pow256_unfold(i as nat);
            let p1 = pow(256, (i - 1) as nat);
            assert(acc * 256 + b < 128 * (256 * p1)) by (nonlinear_arith)
                requires
                    acc < 128 * p1,
                    0 <= b < 256,
                    p1 > 0,
            ;
            assert(-(128 * (256 * p1)) <= acc * 256 + b) by (nonlinear_arith)
                requires
                    acc >= -(128 * p1),
                    0 <= b,
                    p1 > 0,
            ;
            assert(128 * pow(256, i as nat) <= 128 * pow(256, 15)) by (nonlinear_arith)
                requires
                    pow(256, i as nat) <= pow(256, 15),
            ;
        }
        acc = acc * 256 + b as i128;
        i = i + 1;
    }
    proof {
        assert(bytes@.take(bytes@.len() as int) =~= bytes@);
    }
    Some(acc)
}

/// The fast 128-bit path and the arbitrary-precision path agree: for any
/// value that fits `len` bytes, the direct `len`-byte encoding equals the
/// minimal encoding sign-extended to `len` bytes, so both encoders yield
/// identical byte output on their common range.
pub proof fn lemma_encoder_paths_agree(v: int, len: nat)
    requires
        len >= 1,
        fits_signed(v, len),
    ensures
        twos_complement_be(v, len) == filled(fill_byte(v), (len - min_signed_len(v)) as nat)
            + twos_complement_be(v, min_signed_len(v)),
{
    lemma_min_signed_len_fits(v);
    lemma_fits_iff_min_len(v, len);
    lemma_sign_extend(v, min_signed_len(v), len);
}

/// Reversal of a byte string.
spec fn rev_bytes(s: Seq<u8>) -> Seq<u8> {
    Seq::new(s.len(), |i: int| s[s.len() - 1 - i])
}

/// Writes the `length`-byte big-endian two's complement of `v`.
pub fn encode_be_fixed(v: i128, length: usize) -> (out: Vec<u8>)
    ensures
        out@ == twos_complement_be(v as int, length as nat),
{
    let mut tmp: Vec<u8> = Vec::new();
    let mut w: i128 = v;
    let mut j: usize = 0;
    proof {
        lemma_tcbe_len(v as int, length as nat);
        assert(twos_complement_be(v as int, length as nat) =~= twos_complement_be(
            v as int,
            length as nat,
        ) + rev_bytes(tmp@));
    }
    while j < length
        invariant
            j <= length,
            tmp@.len() == j,
            twos_complement_be(v as int, length as nat) == twos_complement_be(
                w as int,
                (length - j) as nat,
            ) + rev_bytes(tmp@),
        decreases length - j,
    {
        proof {
            lemma_fundamental_div_mod(w as int, 256);
            lemma_mod_division_less_than_divisor(w as int, 256);
        }
        let r = match w.checked_rem_euclid(256) {
            Some(r) => r,
            None => {
                proof {
                    assert(false);
                }
                0
            },
        };
        let b: u8 = r as u8;
        let q = match w.checked_div_euclid(256) {
            Some(q) => q,
            None => {
                proof {
                    assert(false);
                }
                0
            },
        };
        let ghost w0 = w as int;
        let ghost tmp0 = tmp@;
        tmp.push(b);
        w = q;
        j = j + 1;
        proof {
            assert(twos_complement_be(w0, (length - j + 1) as nat) =~= twos_complement_be(
                w as int,
                (length - j) as nat,
            ).push(b));
            assert(rev_bytes(tmp@) =~= seq![b] + rev_bytes(tmp0));
            assert(twos_complement_be(w as int, (length - j) as nat).push(b) + rev_bytes(tmp0)
                =~= twos_complement_be(w as int, (length - j) as nat) + (seq![b] + rev_bytes(
                tmp0,
            )));
        }
    }
    proof {
        assert(twos_complement_be(w as int, 0) + rev_bytes(tmp@) =~= rev_bytes(tmp@));
    }
    let mut out: Vec<u8> = Vec::new();
    let mut i: usize = 0;
    while i < length
        invariant
            i <= length,
            tmp@.len() == length,
            out@ == rev_bytes(tmp@).take(i as int),
            rev_bytes(tmp@) == twos_complement_be(v as int, length as nat),
        decreases length - i,
    {
        let b = tmp[length - 1 - i];
        out.push(b);
        i = i + 1;
        proof {
            assert(rev_bytes(tmp@).take(i as int) =~= rev_bytes(tmp@).take(i - 1).push(b));
        }
    }
    proof {
        assert(rev_bytes(tmp@).take(length as int) =~= rev_bytes(tmp@));
    }
    out
}

} // verus!
