//! Bitwise AND and the two shifts.
//!
//! The shifts are named by what they do to the number: `div_pow2` gives
//! `x / 2^n` rounded down and `mul_pow2` gives `x * 2^n`. The operators `<<`
//! and `>>` stand beside them. For this type they run against the usual
//! convention: `x << n` divides and `x >> n` multiplies. Prefer the names.

use crate::bytes::{
    byte_at, le_bytes, le_bytes_grown, lemma_le_bytes_of_value, lemma_le_bytes_value,
    lemma_pow256_adds,
    lemma_pow256_step, lemma_pow256_zero, lemma_value_bound, lemma_value_concat,
    lemma_value_digit, lemma_value_push, lemma_value_split, lemma_value_take_step,
    lemma_value_zeros, longer_len, pow256, value, zeros,
};
use crate::canonical::lemma_signature_single;
use crate::uint::DynUint;
use vstd::arithmetic::div_mod::{
    lemma_basic_div, lemma_div_basics_2, lemma_div_by_multiple,
    lemma_div_by_multiple_is_strongly_ordered, lemma_div_denominator,
    lemma_div_is_ordered_by_denominator, lemma_fundamental_div_mod,
    lemma_fundamental_div_mod_converse, lemma_mod_bound, lemma_small_mod,
};
use vstd::arithmetic::power2::{
    lemma2_to64, lemma_pow2_adds, lemma_pow2_pos, lemma_pow2_strictly_increases, pow2,
};
use vstd::prelude::*;
use vstd::std_specs::ops::{BitAndSpecImpl, ShlSpecImpl, ShrSpecImpl};

verus! {

/// The buffer of a bitwise AND: as long as the longer operand, each byte the
/// AND of the two bytes at its index, the shorter operand read as zero past
/// its end.
pub open spec fn and_bytes(a: Seq<u8>, b: Seq<u8>) -> Seq<u8> {
    Seq::new(longer_len(a, b), |i: int| byte_at(a, i) & byte_at(b, i))
}

/// The buffer of `a / 2^n`, rounded down: the `n / 8` lowest bytes are
/// gone, and what is left holds the quotient.
pub open spec fn div_pow2_bytes(a: Seq<u8>, n: nat) -> Seq<u8> {
    le_bytes(
        value(a) / pow2(n),
        if n / 8 <= a.len() {
            (a.len() - n / 8) as nat
        } else {
            0
        },
    )
}

/// The buffer of `a * 2^n`: `n / 8` bytes longer than `a`, and one byte
/// more where the product does not fit in those.
pub open spec fn mul_pow2_bytes(a: Seq<u8>, n: nat) -> Seq<u8> {
    le_bytes_grown(value(a) * pow2(n), a.len() + n / 8)
}


/// Shifting a byte down by `r` bits and filling its top from the low bits
/// of the byte above it.
proof fn lemma_byte_shift_down(x: u8, y: u8, r: u8)
    requires
        1 <= r <= 7,
    ensures
        ((x >> r) | (y << ((8 - r) as u8))) as nat == (x as nat) / pow2(r as nat) + ((y as nat)
            % pow2(r as nat)) * pow2((8 - r) as nat),
        pow2(r as nat) * pow2((8 - r) as nat) == 256,
        pow2(r as nat) > 0,
{
    lemma2_to64();
    lemma_pow2_adds(r as nat, (8 - r) as nat);
    if r == 1 {
        assert(((x >> 1u8) | (y << 7u8)) == x / 2 + (y % 2) * 128) by (bit_vector);
    } else if r == 2 {
        assert(((x >> 2u8) | (y << 6u8)) == x / 4 + (y % 4) * 64) by (bit_vector);
    } else if r == 3 {
        assert(((x >> 3u8) | (y << 5u8)) == x / 8 + (y % 8) * 32) by (bit_vector);
    } else if r == 4 {
        assert(((x >> 4u8) | (y << 4u8)) == x / 16 + (y % 16) * 16) by (bit_vector);
    } else if r == 5 {
        assert(((x >> 5u8) | (y << 3u8)) == x / 32 + (y % 32) * 8) by (bit_vector);
    } else if r == 6 {
        assert(((x >> 6u8) | (y << 2u8)) == x / 64 + (y % 64) * 4) by (bit_vector);
    } else {
        assert(((x >> 7u8) | (y << 1u8)) == x / 128 + (y % 128) * 2) by (bit_vector);
    }
}

/// Shifting a byte up by `r` bits, taking in the bits that left the byte
/// below it and giving out its own top bits.
proof fn lemma_byte_shift_up(x: u8, c: u8, r: u8)
    requires
        1 <= r <= 7,
        (c as nat) < pow2(r as nat),
    ensures
        ((x << r) | c) as nat + 256 * ((x >> ((8 - r) as u8)) as nat) == (x as nat) * pow2(
            r as nat,
        ) + (c as nat),
        ((x >> ((8 - r) as u8)) as nat) < pow2(r as nat),
{
    lemma2_to64();
    if r == 1 {
        assert(c < 2 ==> ((x << 1u8) | c) + 256 * (x >> 7u8) == x * 2 + c && (x >> 7u8) < 2)
            by (bit_vector);
    } else if r == 2 {
        assert(c < 4 ==> ((x << 2u8) | c) + 256 * (x >> 6u8) == x * 4 + c && (x >> 6u8) < 4)
            by (bit_vector);
    } else if r == 3 {
        assert(c < 8 ==> ((x << 3u8) | c) + 256 * (x >> 5u8) == x * 8 + c && (x >> 5u8) < 8)
            by (bit_vector);
    } else if r == 4 {
        assert(c < 16 ==> ((x << 4u8) | c) + 256 * (x >> 4u8) == x * 16 + c && (x >> 4u8) < 16)
            by (bit_vector);
    } else if r == 5 {
        assert(c < 32 ==> ((x << 5u8) | c) + 256 * (x >> 3u8) == x * 32 + c && (x >> 3u8) < 32)
            by (bit_vector);
    } else if r == 6 {
        assert(c < 64 ==> ((x << 6u8) | c) + 256 * (x >> 2u8) == x * 64 + c && (x >> 2u8) < 64)
            by (bit_vector);
    } else {
        assert(c < 128 ==> ((x << 7u8) | c) + 256 * (x >> 1u8) == x * 128 + c && (x >> 1u8)
            < 128) by (bit_vector);
    }
}


/// One byte of a shift down by `d = 2^r`: `b` is the new byte at weight
/// `p`, made of the byte `x` that stood there and the byte `y` above it.
proof fn lemma_shift_down_step(t: nat, m0: nat, s: nat, x: nat, y: nat, b: nat, d: nat, e: nat, p: nat)
    requires
        d > 0,
        d * e == 256,
        d * t + m0 == s + (x % d) * p,
        b == x / d + (y % d) * e,
    ensures
        d * (t + b * p) + m0 == (s + x * p) + (y % d) * (256 * p),
{
    lemma_fundamental_div_mod(x as int, d as int);
    let k = x / d;
    let m = x % d;
    let w = y % d;
    assert(d * (t + (k + w * e) * p) == d * t + (d * k) * p + w * ((d * e) * p))
        by (nonlinear_arith);
    assert((d * k + m) * p == (d * k) * p + m * p) by (nonlinear_arith);
}

/// One byte of a shift up by `d = 2^r`: the byte `x` at weight `p` takes the
/// carry `c` in and gives `out` with the carry `c2`.
proof fn lemma_shift_up_step(t: nat, c: nat, s: nat, x: nat, out: nat, c2: nat, d: nat, p: nat)
    requires
        t + c * p == d * s,
        out + 256 * c2 == x * d + c,
    ensures
        (t + out * p) + c2 * (256 * p) == d * (s + x * p),
{
    assert((out + 256 * c2) * p == out * p + c2 * (256 * p)) by (nonlinear_arith);
    assert((x * d + c) * p == d * (x * p) + c * p) by (nonlinear_arith);
    assert(d * (s + x * p) == d * s + d * (x * p)) by (nonlinear_arith);
}

/// Dividing by `256^q` and then by `2^r` divides by `2^(8q + r)`.
proof fn lemma_div_pow2_compose(v: nat, q: nat, r: nat)
    ensures
        (v / pow256(q)) / pow2(r) == v / pow2(8 * q + r),
        pow256(q) * pow2(r) == pow2(8 * q + r),
{
    lemma_pow2_adds(8 * q, r);
    lemma_pow2_pos(8 * q);
    lemma_pow2_pos(r);
    lemma_div_denominator(v as int, pow256(q) as int, pow2(r) as int);
}

/// The buffer of a product by a power of two denotes that product.
pub proof fn lemma_mul_pow2_bytes_value(a: Seq<u8>, n: nat)
    ensures
        value(mul_pow2_bytes(a, n)) == value(a) * pow2(n),
{
    let q = n / 8;
    let r = (n % 8) as nat;
    let len = a.len() + q;
    let v = value(a) * pow2(n);
    lemma_value_bound(a);
    lemma_pow256_adds(a.len(), q);
    lemma_pow256_step(len);
    lemma_pow2_adds(8 * q, r);
    lemma_pow2_strictly_increases(r, 8);
    lemma2_to64();
    assert(value(a) * (pow256(q) * pow2(r)) == (value(a) * pow2(r)) * pow256(q))
        by (nonlinear_arith);
    lemma_pow2_pos(8 * q);
    assert(value(a) * pow2(r) < pow256(a.len()) * 256) by (nonlinear_arith)
        requires
            value(a) < pow256(a.len()),
            pow2(r) < 256,
    ;
    assert(v < pow256(len + 1)) by (nonlinear_arith)
        requires
            v == (value(a) * pow2(r)) * pow256(q),
            value(a) * pow2(r) < pow256(a.len()) * 256,
            pow256(q) > 0,
            pow256(len + 1) == 256 * (pow256(a.len()) * pow256(q)),
    ;
    lemma_le_bytes_value(v, len);
    lemma_le_bytes_value(v, len + 1);
}

/// The buffer of a quotient by a power of two denotes that quotient.
pub proof fn lemma_div_pow2_bytes_value(a: Seq<u8>, n: nat)
    ensures
        value(div_pow2_bytes(a, n)) == value(a) / pow2(n),
{
    let q = n / 8;
    let r = (n % 8) as nat;
    let v = value(a) / pow2(n);
    lemma_value_bound(a);
    lemma_pow2_pos(n);
    lemma_pow2_pos(r);
    lemma_pow2_pos(8 * q);
    if q <= a.len() {
        let keep = (a.len() - q) as nat;
        lemma_pow256_adds(q, keep);
        lemma_div_pow2_compose(value(a), q, r);
        // value(a) < 256^q * 256^keep, so value(a) / 256^q < 256^keep
        assert(pow256(q) * pow256(keep) == pow256(keep) * pow256(q)) by (nonlinear_arith);
        lemma_div_by_multiple_is_strongly_ordered(
            value(a) as int,
            pow256(a.len()) as int,
            pow256(keep) as int,
            pow256(q) as int,
        );
        lemma_div_by_multiple(pow256(keep) as int, pow256(q) as int);
        lemma_div_is_ordered_by_denominator((value(a) / pow256(q)) as int, 1, pow2(r) as int);
        lemma_div_basics_2((value(a) / pow256(q)) as int);
        lemma_le_bytes_value(v, keep);
    } else {
        lemma_pow2_adds(8 * a.len(), (n - 8 * a.len()) as nat);
        lemma_pow2_pos((n - 8 * a.len()) as nat);
        assert(pow2(n) >= pow256(a.len())) by (nonlinear_arith)
            requires
                pow2(n) == pow256(a.len()) * pow2((n - 8 * a.len()) as nat),
                pow2((n - 8 * a.len()) as nat) >= 1,
        ;
        lemma_basic_div(value(a) as int, pow2(n) as int);
        lemma_le_bytes_value(v, 0);
    }
}

/// A shift by no place at all leaves the buffer as it is.
pub proof fn lemma_shift_by_zero(a: Seq<u8>)
    ensures
        div_pow2_bytes(a, 0) == a,
        mul_pow2_bytes(a, 0) == a,
{
    lemma2_to64();
    lemma_value_bound(a);
    lemma_div_basics_2(value(a) as int);
    assert(value(a) * pow2(0) == value(a)) by (nonlinear_arith)
        requires
            pow2(0) == 1,
    ;
    lemma_le_bytes_of_value(a);
}

/// A buffer that denotes less than 256 and more than zero holds that number
/// in its lowest byte.
proof fn lemma_small_value(s: Seq<u8>)
    requires
        0 < value(s) < 256,
    ensures
        s.len() > 0,
        s[0] == value(s),
{
    lemma_pow256_zero();
    lemma_value_digit(s, 0);
    lemma_small_mod(value(s), 256);
}

/// Drops the `q` lowest bytes: every byte moves `q` places down.
fn drop_low_bytes(v: &mut Vec<u8>, q: usize)
    requires
        q <= old(v)@.len(),
    ensures
        final(v)@ == old(v)@.skip(q as int),
{
    let len = v.len();
    let keep = len - q;
    let mut i: usize = 0;
    while i < keep
        invariant
            i <= keep,
            keep + q == len,
            v@.len() == len,
            old(v)@.len() == len,
            forall|j: int| 0 <= j < i ==> v@[j] == old(v)@[j + q],
            forall|j: int| i <= j < len ==> v@[j] == old(v)@[j],
        decreases keep - i,
    {
        let b = v[i + q];
        v[i] = b;
        i += 1;
    }
    v.truncate(keep);
    assert(v@ =~= old(v)@.skip(q as int));
}

/// Shifts the whole buffer down by `r` bits. Each byte takes the low bits
/// of the byte above it into the bits that it gave up.
fn shift_bits_down(v: &mut Vec<u8>, r: u8)
    requires
        1 <= r <= 7,
    ensures
        final(v)@.len() == old(v)@.len(),
        value(final(v)@) == value(old(v)@) / pow2(r as nat),
{
    let len = v.len();
    let ghost s = v@;
    let ghost d = pow2(r as nat);
    let ghost e = pow2((8 - r) as nat);
    let ghost m0 = (byte_at(s, 0) as nat) % d;
    let mut i: usize = 0;
    proof {
        lemma_byte_shift_down(0, 0, r);
        lemma_pow256_zero();
        assert(m0 * pow256(0) == m0) by (nonlinear_arith)
            requires
                pow256(0) == 1,
        ;
        assert(d * value(v@.take(0)) == 0) by (nonlinear_arith)
            requires
                value(v@.take(0)) == 0,
        ;
    }
    while i < len
        invariant
            1 <= r <= 7,
            i <= len,
            v@.len() == len,
            s.len() == len,
            d == pow2(r as nat),
            e == pow2((8 - r) as nat),
            d > 0,
            d * e == 256,
            m0 == (byte_at(s, 0) as nat) % d,
            forall|j: int| i <= j < len ==> v@[j] == s[j],
            d * value(v@.take(i as int)) + m0 == value(s.take(i as int)) + ((byte_at(s, i as int)
                as nat) % d) * pow256(i as nat),
        decreases len - i,
    {
        let ghost before = v@;
        let hi: u8 = if i + 1 < len {
            v[i + 1]
        } else {
            0
        };
        let b: u8 = (v[i] >> r) | (hi << (8 - r));
        v[i] = b;
        proof {
            assert(v@.take(i as int) =~= before.take(i as int));
            lemma_byte_shift_down(s[i as int], hi, r);
            lemma_value_take_step(v@, i as int);
            lemma_value_take_step(s, i as int);
            lemma_pow256_step(i as nat);
            lemma_shift_down_step(
                value(before.take(i as int)),
                m0,
                value(s.take(i as int)),
                s[i as int] as nat,
                hi as nat,
                b as nat,
                d,
                e,
                pow256(i as nat),
            );
        }
        i += 1;
    }
    proof {
        assert(v@.take(len as int) =~= v@);
        assert(s.take(len as int) =~= s);
        assert(((byte_at(s, len as int) as nat) % d) * pow256(len as nat) == 0) by {
            lemma_small_mod(0, d);
            assert(0 * pow256(len as nat) == 0);
        }
        lemma_mod_bound(byte_at(s, 0) as int, d as int);
        assert(value(v@) * d == d * value(v@)) by (nonlinear_arith);
        lemma_fundamental_div_mod_converse(value(s) as int, d as int, value(v@) as int, m0 as int);
    }
}

/// Makes room at the low end: the bytes below the `q` zero bytes at the high
/// end move `q` places up and leave zero bytes behind.
fn raise_bytes(v: &mut Vec<u8>, q: usize)
    requires
        q <= old(v)@.len(),
        forall|j: int| old(v)@.len() - q <= j < old(v)@.len() ==> old(v)@[j] == 0,
    ensures
        final(v)@ == zeros(q as nat) + old(v)@.take(old(v)@.len() - q),
{
    let len = v.len();
    let mut i: usize = if q > 0 {
        len - q
    } else {
        0
    };
    while i > 0
        invariant
            q > 0 || i == 0,
            i + q <= len,
            v@.len() == len,
            old(v)@.len() == len,
            forall|j: int| 0 <= j < i ==> v@[j] == old(v)@[j],
            forall|j: int| i <= j < i + q ==> v@[j] == 0,
            forall|j: int| i + q <= j < len ==> v@[j] == old(v)@[j - q],
        decreases i,
    {
        i -= 1;
        let b = v[i];
        v[i + q] = b;
        v[i] = 0;
    }
    assert(v@ =~= zeros(q as nat) + old(v)@.take(old(v)@.len() - q));
}

/// Shifts the whole buffer up by `r` bits. Each byte takes in the bits
/// that left the byte below it; what leaves the last byte becomes one more
/// byte.
fn shift_bits_up(v: &mut Vec<u8>, r: u8)
    requires
        1 <= r <= 7,
    ensures
        value(final(v)@) == value(old(v)@) * pow2(r as nat),
        final(v)@.len() == old(v)@.len() + (if value(old(v)@) * pow2(r as nat) < pow256(
            old(v)@.len(),
        ) {
            0nat
        } else {
            1nat
        }),
{
    let len = v.len();
    let ghost s = v@;
    let ghost d = pow2(r as nat);
    let mut carry: u8 = 0;
    let mut i: usize = 0;
    proof {
        lemma_pow2_pos(r as nat);
        lemma_pow256_zero();
        assert(d * value(s.take(0)) == 0) by (nonlinear_arith)
            requires
                value(s.take(0)) == 0,
        ;
    }
    while i < len
        invariant
            1 <= r <= 7,
            i <= len,
            v@.len() == len,
            s.len() == len,
            d == pow2(r as nat),
            (carry as nat) < d,
            forall|j: int| i <= j < len ==> v@[j] == s[j],
            value(v@.take(i as int)) + (carry as nat) * pow256(i as nat) == d * value(
                s.take(i as int),
            ),
        decreases len - i,
    {
        let ghost before = v@;
        let ghost c = carry;
        let b: u8 = v[i];
        v[i] = (b << r) | carry;
        carry = b >> (8 - r);
        proof {
            assert(v@.take(i as int) =~= before.take(i as int));
            lemma_byte_shift_up(b, c, r);
            lemma_value_take_step(v@, i as int);
            lemma_value_take_step(s, i as int);
            lemma_pow256_step(i as nat);
            lemma_shift_up_step(
                value(before.take(i as int)),
                c as nat,
                value(s.take(i as int)),
                b as nat,
                v@[i as int] as nat,
                carry as nat,
                d,
                pow256(i as nat),
            );
        }
        i += 1;
    }
    proof {
        assert(v@.take(len as int) =~= v@);
        assert(s.take(len as int) =~= s);
        lemma_value_bound(v@);
        lemma_value_push(v@, carry);
        lemma_pow256_step(len as nat);
        assert(value(s) * d == d * value(s)) by (nonlinear_arith);
        if carry > 0 {
            assert((carry as nat) * pow256(len as nat) >= pow256(len as nat)) by (nonlinear_arith)
                requires
                    carry >= 1,
            ;
        } else {
            assert((carry as nat) * pow256(len as nat) == 0) by (nonlinear_arith)
                requires
                    carry == 0,
            ;
        }
    }
    if carry > 0 {
        v.push(carry);
    }
}

impl DynUint {
    /// `self / 2^n`, rounded down. The `n / 8` lowest bytes are dropped and
    /// the rest is shifted down by the remaining bits, so the buffer gets
    /// shorter by `n / 8` bytes, and empty where it has no more than that.
    ///
    /// The amount is split into bytes and bits by taking 8 from it again and
    /// again: the time this takes grows with `n`.
    pub fn div_pow2(self, n: DynUint) -> (r: DynUint)
        ensures
            r@ == div_pow2_bytes(self@, n.value()),
            r.value() == self.value() / pow2(n.value()),
            n.value() == 0 ==> r@ == self@,
    {
        proof {
            lemma_shift_by_zero(self@);
        }
        let mut out = self;
        let len = out.inner.len();
        let eight = DynUint::from(8u8);
        let ghost a = out@;
        let ghost amount = n.value();
        let mut rem = n;
        let mut shifted: usize = 0;
        while rem >= eight
            invariant
                eight@ == seq![8u8],
                eight.value() == 8,
                a == self@,
                amount == n.value(),
                out@ == a,
                len == a.len(),
                shifted <= len,
                rem.value() + 8 * shifted == amount,
            decreases rem.value(),
        {
            proof {
                lemma_signature_single(rem@, eight@);
            }
            if shifted == len {
                out.inner.clear();
                proof {
                    lemma_value_bound(a);
                    lemma_pow2_adds(8 * (len as nat), (amount - 8 * len) as nat);
                    lemma_pow2_pos((amount - 8 * len) as nat);
                    assert(pow2(amount) >= pow256(len as nat)) by (nonlinear_arith)
                        requires
                            pow2(amount) == pow256(len as nat) * pow2((amount - 8 * len) as nat),
                            pow2((amount - 8 * len) as nat) >= 1,
                    ;
                    lemma_basic_div(value(a) as int, pow2(amount) as int);
                    assert(amount / 8 > len);
                    assert(out@ =~= div_pow2_bytes(a, amount));
                }
                return out;
            }
            rem = (rem - eight.clone()).unwrap();
            shifted += 1;
        }
        proof {
            lemma_signature_single(rem@, eight@);
            lemma_value_split(a, shifted as int);
            lemma_pow2_pos(8 * (shifted as nat));
            assert(value(a.skip(shifted as int)) * pow256(shifted as nat) == pow256(shifted as nat)
                * value(a.skip(shifted as int))) by (nonlinear_arith);
            lemma_fundamental_div_mod_converse(
                value(a) as int,
                pow256(shifted as nat) as int,
                value(a.skip(shifted as int)) as int,
                value(a.take(shifted as int)) as int,
            );
            lemma_div_pow2_compose(value(a), shifted as nat, rem.value());
        }
        drop_low_bytes(&mut out.inner, shifted);
        if rem > DynUint::zero() {
            proof {
                lemma_signature_single(rem@, Seq::<u8>::empty());
                lemma_small_value(rem@);
            }
            let bit_shift: u8 = rem.inner[0];
            shift_bits_down(&mut out.inner, bit_shift);
        } else {
            proof {
                lemma_signature_single(rem@, Seq::<u8>::empty());
                lemma2_to64();
                lemma_div_basics_2(value(out@) as int);
            }
        }
        proof {
            lemma_le_bytes_of_value(out@);
        }
        out
    }

    /// `self * 2^n`. The buffer gets `n / 8` zero bytes at its low end and
    /// is shifted up by the remaining bits; it grows by one more byte only
    /// where bits leave its last byte.
    ///
    /// The amount is split into bytes and bits by taking 8 from it again and
    /// again: the time this takes grows with `n`.
    pub fn mul_pow2(self, n: DynUint) -> (r: DynUint)
        ensures
            r@ == mul_pow2_bytes(self@, n.value()),
            r.value() == self.value() * pow2(n.value()),
            n.value() == 0 ==> r@ == self@,
    {
        proof {
            lemma_shift_by_zero(self@);
        }
        let mut out = self;
        let len = out.inner.len();
        let eight = DynUint::from(8u8);
        let ghost a = out@;
        let ghost amount = n.value();
        let mut rem = n;
        let mut pushed: usize = 0;
        assert(out@ =~= a + zeros(0));
        while rem >= eight
            invariant
                eight@ == seq![8u8],
                eight.value() == 8,
                len == a.len(),
                out@ == a + zeros(pushed as nat),
                rem.value() + 8 * pushed == amount,
            decreases rem.value(),
        {
            proof {
                lemma_signature_single(rem@, eight@);
            }
            rem = (rem - eight.clone()).unwrap();
            out.inner.push(0);
            assert(out.inner.len() == len + pushed + 1);
            pushed += 1;
            assert(out@ =~= a + zeros(pushed as nat));
        }
        raise_bytes(&mut out.inner, pushed);
        proof {
            lemma_signature_single(rem@, eight@);
            assert((a + zeros(pushed as nat)).take(len as int) =~= a);
            lemma_value_concat(zeros(pushed as nat), a);
            lemma_value_zeros(pushed as nat);
            lemma_value_bound(out@);
            lemma_div_pow2_compose(0, pushed as nat, rem.value());
            assert(value(a) * (pow256(pushed as nat) * pow2(rem.value())) == (pow256(
                pushed as nat,
            ) * value(a)) * pow2(rem.value())) by (nonlinear_arith);
        }
        if rem > DynUint::zero() {
            proof {
                lemma_signature_single(rem@, Seq::<u8>::empty());
                lemma_small_value(rem@);
            }
            let bit_shift: u8 = rem.inner[0];
            shift_bits_up(&mut out.inner, bit_shift);
        } else {
            proof {
                lemma_signature_single(rem@, Seq::<u8>::empty());
                lemma2_to64();
                assert(value(out@) * pow2(0) == value(out@)) by (nonlinear_arith)
                    requires
                        pow2(0) == 1,
                ;
            }
        }
        proof {
            lemma_le_bytes_of_value(out@);
        }
        out
    }
}

impl core::ops::BitAnd for DynUint {
    type Output = DynUint;

    /// The bitwise AND, in a buffer as long as the longer operand.
    fn bitand(self, rhs: DynUint) -> (r: DynUint)
        ensures
            r@ == and_bytes(self@, rhs@),
    {
        let (long, short) = DynUint::get_ls(&self, &rhs);
        let len = long.inner.len();
        let mut inner: Vec<u8> = Vec::with_capacity(len);
        let mut i: usize = 0;
        while i < len
            invariant
                i <= len,
                len == long@.len(),
                short@.len() <= len,
                inner@.len() == i,
                forall|j: int| 0 <= j < i ==> inner@[j] == long@[j] & byte_at(short@, j),
            decreases len - i,
        {
            let sb: u8 = if i < short.inner.len() {
                short.inner[i]
            } else {
                0
            };
            inner.push(long.inner[i] & sb);
            i += 1;
        }
        proof {
            assert forall|j: int| 0 <= j < len implies inner@[j] == byte_at(self@, j) & byte_at(
                rhs@,
                j,
            ) by {
                let x = byte_at(self@, j);
                let y = byte_at(rhs@, j);
                assert(x & y == y & x) by (bit_vector);
            }
            assert(inner@ =~= and_bytes(self@, rhs@));
        }
        DynUint { inner }
    }
}

impl BitAndSpecImpl for DynUint {
    open spec fn obeys_bitand_spec() -> bool {
        false
    }

    open spec fn bitand_req(self, rhs: DynUint) -> bool {
        true
    }

    open spec fn bitand_spec(self, rhs: DynUint) -> DynUint {
        arbitrary()
    }
}

impl core::ops::Shl for DynUint {
    type Output = DynUint;

    /// `self / 2^rhs`, rounded down: the same as `div_pow2`.
    fn shl(self, rhs: DynUint) -> (r: DynUint)
        ensures
            r@ == div_pow2_bytes(self@, rhs.value()),
            r.value() == self.value() / pow2(rhs.value()),
            rhs.value() == 0 ==> r@ == self@,
    {
        self.div_pow2(rhs)
    }
}

impl ShlSpecImpl for DynUint {
    open spec fn obeys_shl_spec() -> bool {
        false
    }

    open spec fn shl_req(self, rhs: DynUint) -> bool {
        true
    }

    open spec fn shl_spec(self, rhs: DynUint) -> DynUint {
        arbitrary()
    }
}

impl core::ops::Shr for DynUint {
    type Output = DynUint;

    /// `self * 2^rhs`: the same as `mul_pow2`.
    fn shr(self, rhs: DynUint) -> (r: DynUint)
        ensures
            r@ == mul_pow2_bytes(self@, rhs.value()),
            r.value() == self.value() * pow2(rhs.value()),
            rhs.value() == 0 ==> r@ == self@,
    {
        self.mul_pow2(rhs)
    }
}

impl ShrSpecImpl for DynUint {
    open spec fn obeys_shr_spec() -> bool {
        false
    }

    open spec fn shr_req(self, rhs: DynUint) -> bool {
        true
    }

    open spec fn shr_spec(self, rhs: DynUint) -> DynUint {
        arbitrary()
    }
}

} // verus!
