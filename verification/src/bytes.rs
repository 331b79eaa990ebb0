//! The mathematical reading of a little-endian byte sequence.
//!
//! A buffer is a `Seq<u8>` whose byte at index `i` weighs `256^i`. Everything
//! the integer type promises is stated over the functions of this module:
//! the number a buffer denotes and the encoding of a number in a buffer of a
//! given length.

use vstd::arithmetic::div_mod::{
    lemma_fundamental_div_mod_converse, lemma_mod_breakdown, lemma_small_mod,
};
use vstd::arithmetic::power2::{
    lemma2_to64, lemma_pow2_adds, lemma_pow2_pos, lemma_pow2_strictly_increases, pow2,
};
use vstd::prelude::*;

verus! {

/// `256^e`, the weight of the byte at index `e`.
pub open spec fn pow256(e: nat) -> nat {
    pow2(8 * e)
}

/// The number that `s` denotes: the byte at index `i` contributes `s[i] * 256^i`.
pub open spec fn value(s: Seq<u8>) -> nat
    decreases s.len(),
{
    if s.len() == 0 {
        0
    } else {
        value(s.drop_last()) + (s.last() as nat) * pow256((s.len() - 1) as nat)
    }
}

/// The byte of `s` at index `i`, reading every index past the end as zero.
pub open spec fn byte_at(s: Seq<u8>, i: int) -> u8 {
    if 0 <= i < s.len() {
        s[i]
    } else {
        0
    }
}

/// The length of the longer of two buffers.
pub open spec fn longer_len(a: Seq<u8>, b: Seq<u8>) -> nat {
    if a.len() >= b.len() {
        a.len()
    } else {
        b.len()
    }
}

/// A buffer of `n` zero bytes.
pub open spec fn zeros(n: nat) -> Seq<u8> {
    Seq::new(n, |i: int| 0u8)
}

/// The first `n` bytes of `s`, reading every index past its end as zero.
pub open spec fn window(s: Seq<u8>, n: nat) -> Seq<u8> {
    Seq::new(n, |i: int| byte_at(s, i))
}

/// Whether every byte of `s` from index `from` on is zero.
pub open spec fn zero_from(s: Seq<u8>, from: int) -> bool {
    forall|i: int| from <= i < s.len() ==> s[i] == 0
}

/// A buffer of `n` bytes, each `0xFF`: the largest number that `n` bytes hold.
pub open spec fn saturated(n: nat) -> Seq<u8> {
    Seq::new(n, |i: int| 255u8)
}

/// What a buffer becomes when its length is set to `n`. Growing appends zero
/// bytes. Shrinking drops the bytes from `n` on where all of them are zero;
/// where one of them is not, the number no longer fits and the `n` bytes
/// that remain are saturated.
pub open spec fn resized(s: Seq<u8>, n: nat) -> Seq<u8> {
    if n >= s.len() {
        s + zeros((n - s.len()) as nat)
    } else if zero_from(s, n as int) {
        s.take(n as int)
    } else {
        saturated(n)
    }
}

/// The little-endian encoding of `v` in exactly `len` bytes; the digits of
/// `v` that do not fit are dropped.
pub open spec fn le_bytes(v: nat, len: nat) -> Seq<u8> {
    Seq::new(len, |i: int| ((v / pow256(i as nat)) % 256) as u8)
}

/// The encoding of `v` in `len` bytes, or in `len + 1` bytes where `v` does
/// not fit in `len`.
pub open spec fn le_bytes_grown(v: nat, len: nat) -> Seq<u8> {
    if v < pow256(len) {
        le_bytes(v, len)
    } else {
        le_bytes(v, len + 1)
    }
}

/// The lowest byte weighs one.
pub proof fn lemma_pow256_zero()
    ensures
        pow256(0) == 1,
{
    lemma2_to64();
}

/// Each byte weighs 256 times the byte below it.
pub proof fn lemma_pow256_step(e: nat)
    ensures
        pow256(e + 1) == 256 * pow256(e),
        pow256(e) > 0,
{
    lemma_pow2_adds(8, 8 * e);
    lemma_pow2_pos(8 * e);
    lemma2_to64();
}

/// The weights multiply as the indices add.
pub proof fn lemma_pow256_adds(a: nat, b: nat)
    ensures
        pow256(a + b) == pow256(a) * pow256(b),
        pow256(a) > 0,
{
    lemma_pow2_adds(8 * a, 8 * b);
    lemma_pow2_pos(8 * a);
}

/// A higher byte never weighs less.
pub proof fn lemma_pow256_monotonic(a: nat, b: nat)
    requires
        a <= b,
    ensures
        pow256(a) <= pow256(b),
{
    if a < b {
        lemma_pow2_strictly_increases(8 * a, 8 * b);
    }
}

/// Appending a byte at the high end adds that byte at its weight.
pub proof fn lemma_value_push(s: Seq<u8>, b: u8)
    ensures
        value(s.push(b)) == value(s) + (b as nat) * pow256(s.len()),
{
    assert(s.push(b).drop_last() =~= s);
}

/// One more byte of a prefix adds that byte at its weight.
pub proof fn lemma_value_take_step(s: Seq<u8>, i: int)
    requires
        0 <= i < s.len(),
    ensures
        value(s.take(i + 1)) == value(s.take(i)) + (s[i] as nat) * pow256(i as nat),
{
    assert(s.take(i + 1).drop_last() =~= s.take(i));
}

/// A buffer of `n` bytes denotes a number below `256^n`.
pub proof fn lemma_value_bound(s: Seq<u8>)
    ensures
        value(s) < pow256(s.len()),
    decreases s.len(),
{
    if s.len() == 0 {
        lemma_pow256_zero();
    } else {
        let n = (s.len() - 1) as nat;
        lemma_value_bound(s.drop_last());
        lemma_pow256_step(n);
        assert(value(s.drop_last()) + (s.last() as nat) * pow256(n) < 256 * pow256(n))
            by (nonlinear_arith)
            requires
                value(s.drop_last()) < pow256(n),
                s.last() < 256,
        ;
    }
}

/// The low part weighs in as it is, the high part at `256^a.len()`.
pub proof fn lemma_value_concat(a: Seq<u8>, b: Seq<u8>)
    ensures
        value(a + b) == value(a) + pow256(a.len()) * value(b),
    decreases b.len(),
{
    if b.len() == 0 {
        assert(a + b =~= a);
        assert(pow256(a.len()) * value(b) == 0) by (nonlinear_arith)
            requires
                value(b) == 0,
        ;
    } else {
        let n = (b.len() - 1) as nat;
        let p = pow256(a.len());
        let lo = value(b.drop_last());
        let top = b.last() as nat;
        assert((a + b).drop_last() =~= a + b.drop_last());
        assert((a + b).last() == b.last());
        lemma_value_concat(a, b.drop_last());
        lemma_pow256_adds(a.len(), n);
        assert(value(a + b) == value(a) + p * lo + top * pow256(a.len() + n));
        assert(p * lo + top * (p * pow256(n)) == p * (lo + top * pow256(n)))
            by (nonlinear_arith);
    }
}

/// Splitting a buffer at `k` splits its number at `256^k`.
pub proof fn lemma_value_split(s: Seq<u8>, k: int)
    requires
        0 <= k <= s.len(),
    ensures
        value(s) == value(s.take(k)) + pow256(k as nat) * value(s.skip(k)),
        value(s.take(k)) < pow256(k as nat),
{
    assert(s =~= s.take(k) + s.skip(k));
    lemma_value_concat(s.take(k), s.skip(k));
    lemma_value_bound(s.take(k));
}

/// The lowest byte weighs one, the rest 256 times what it denotes alone.
pub proof fn lemma_value_front(s: Seq<u8>)
    requires
        s.len() > 0,
    ensures
        value(s) == (s[0] as nat) + 256 * value(s.drop_first()),
{
    lemma_value_split(s, 1);
    assert(s.skip(1) =~= s.drop_first());
    assert(s.take(1) =~= Seq::<u8>::empty().push(s[0]));
    lemma_value_push(Seq::<u8>::empty(), s[0]);
    lemma_pow256_zero();
    lemma_pow256_step(0);
    assert(value(Seq::<u8>::empty()) == 0);
    assert((s[0] as nat) * pow256(0) == s[0] as nat) by (nonlinear_arith)
        requires
            pow256(0) == 1,
    ;
    assert(value(s.take(1)) == s[0] as nat);
    assert(pow256(1) == 256);
}

/// A buffer denotes zero exactly when it holds no nonzero byte.
pub proof fn lemma_value_zero(s: Seq<u8>)
    ensures
        value(s) == 0 <==> zero_from(s, 0),
    decreases s.len(),
{
    if s.len() > 0 {
        let n = (s.len() - 1) as nat;
        lemma_value_zero(s.drop_last());
        lemma_pow256_step(n);
        if s.last() != 0 {
            assert((s.last() as nat) * pow256(n) > 0) by (nonlinear_arith)
                requires
                    s.last() > 0,
                    pow256(n) > 0,
            ;
            assert(s[s.len() - 1] != 0);
        } else {
            assert((s.last() as nat) * pow256(n) == 0) by (nonlinear_arith)
                requires
                    s.last() == 0,
            ;
            if zero_from(s.drop_last(), 0) {
                assert forall|i: int| 0 <= i < s.len() implies s[i] == 0 by {
                    if i < s.len() - 1 {
                        assert(s.drop_last()[i] == 0);
                    }
                }
            }
            if zero_from(s, 0) {
                assert forall|i: int| 0 <= i < s.drop_last().len() implies s.drop_last()[i]
                    == 0 by {
                    assert(s[i] == 0);
                }
            }
        }
    }
}

/// Zero bytes at the high end do not change the number.
pub proof fn lemma_value_zero_tail(s: Seq<u8>, k: int)
    requires
        0 <= k <= s.len(),
        zero_from(s, k),
    ensures
        value(s) == value(s.take(k)),
{
    let hi = s.skip(k);
    lemma_value_split(s, k);
    assert forall|i: int| 0 <= i < hi.len() implies hi[i] == 0 by {
        assert(s[k + i] == 0);
    }
    lemma_value_zero(hi);
    assert(pow256(k as nat) * value(hi) == 0) by (nonlinear_arith)
        requires
            value(hi) == 0,
    ;
}

/// A buffer of zero bytes denotes zero.
pub proof fn lemma_value_zeros(n: nat)
    ensures
        value(zeros(n)) == 0,
{
    lemma_value_zero(zeros(n));
}

/// A window that leaves out zero bytes only denotes the same number.
pub proof fn lemma_window_value(s: Seq<u8>, n: nat)
    requires
        zero_from(s, n as int),
    ensures
        value(window(s, n)) == value(s),
{
    if n <= s.len() {
        assert(window(s, n) =~= s.take(n as int));
        lemma_value_zero_tail(s, n as int);
    } else {
        let pad = zeros((n - s.len()) as nat);
        assert(window(s, n) =~= s + pad);
        lemma_value_concat(s, pad);
        lemma_value_zeros((n - s.len()) as nat);
        assert(pow256(s.len()) * value(pad) == 0) by (nonlinear_arith)
            requires
                value(pad) == 0,
        ;
    }
}

/// Each byte is the digit of the number at that position.
pub proof fn lemma_value_digit(s: Seq<u8>, i: int)
    requires
        0 <= i < s.len(),
    ensures
        s[i] == (value(s) / pow256(i as nat)) % 256,
{
    let p = pow256(i as nat);
    let hi = s.skip(i);
    lemma_value_split(s, i);
    lemma_pow256_step(i as nat);
    lemma_value_front(hi);
    lemma_fundamental_div_mod_converse(value(s) as int, p as int, value(hi) as int, value(s.take(i)) as int);
    lemma_fundamental_div_mod_converse(
        value(hi) as int,
        256,
        value(hi.drop_first()) as int,
        hi[0] as int,
    );
}

/// A buffer is the encoding of its number in its own length.
pub proof fn lemma_le_bytes_of_value(s: Seq<u8>)
    ensures
        le_bytes(value(s), s.len()) == s,
{
    assert forall|i: int| 0 <= i < s.len() implies le_bytes(value(s), s.len())[i] == s[i] by {
        lemma_value_digit(s, i);
    }
    assert(le_bytes(value(s), s.len()) =~= s);
}

/// Two buffers of one length that denote the same number are the same buffer.
pub proof fn lemma_value_unique(a: Seq<u8>, b: Seq<u8>)
    requires
        a.len() == b.len(),
        value(a) == value(b),
    ensures
        a == b,
{
    lemma_le_bytes_of_value(a);
    lemma_le_bytes_of_value(b);
}

/// An encoding denotes the number it was made from, reduced to what its
/// length can hold.
pub proof fn lemma_le_bytes_value(v: nat, len: nat)
    ensures
        le_bytes(v, len).len() == len,
        value(le_bytes(v, len)) == v % pow256(len),
        v < pow256(len) ==> value(le_bytes(v, len)) == v,
    decreases len,
{
    let s = le_bytes(v, len);
    if len == 0 {
        lemma_pow256_zero();
    } else {
        let n = (len - 1) as nat;
        let p = pow256(n);
        assert(s.drop_last() =~= le_bytes(v, n));
        lemma_le_bytes_value(v, n);
        lemma_pow256_step(n);
        // v % (p * 256) == v % p + p * ((v / p) % 256)
        lemma_mod_breakdown(v as int, p as int, 256);
        assert(s.last() == (v / p) % 256);
        assert(p * 256 == pow256(len)) by (nonlinear_arith)
            requires
                pow256(len) == 256 * p,
        ;
        assert(((v / p) % 256) * p == p * ((v / p) % 256)) by (nonlinear_arith);
    }
    if v < pow256(len) {
        lemma_small_mod(v, pow256(len));
    }
}

} // verus!
