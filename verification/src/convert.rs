//! Conversions from the machine's integers.
//!
//! Each conversion keeps the bytes of the source as they lie in memory on a
//! little-endian machine, without trimming them: a `usize` gives as many
//! bytes as the machine word has, an `i32` four, a `u8` or a `bool` one.

use crate::bytes::{
    le_bytes, lemma_le_bytes_value, lemma_pow256_step, lemma_pow256_zero, lemma_value_front,
    pow256,
};
use crate::uint::DynUint;
use vstd::arithmetic::div_mod::lemma_div_denominator;
use vstd::arithmetic::power2::{lemma2_to64, lemma_pow2_pos};
use vstd::prelude::*;
use vstd::std_specs::convert::FromSpecImpl;

verus! {

/// The number of bytes in a machine word.
pub open spec fn word_len() -> nat {
    (usize::BITS / 8) as nat
}

/// The number whose low 32 bits are the two's complement form of `v`.
pub open spec fn i32_pattern(v: i32) -> nat {
    if v >= 0 {
        v as nat
    } else {
        (v + 0x1_0000_0000) as nat
    }
}

/// The byte that stands for a truth value: 1 for `true`, 0 for `false`.
pub open spec fn bool_byte(v: bool) -> u8 {
    if v {
        1
    } else {
        0
    }
}

/// The first `len` little-endian digits of `v`.
fn digits(v: u64, len: usize) -> (r: Vec<u8>)
    ensures
        r@ == le_bytes(v as nat, len as nat),
{
    let mut inner: Vec<u8> = Vec::with_capacity(len);
    let mut rest: u64 = v;
    let mut i: usize = 0;
    proof {
        lemma_pow256_zero();
        assert(inner@ =~= le_bytes(v as nat, 0));
    }
    while i < len
        invariant
            i <= len,
            inner@ == le_bytes(v as nat, i as nat),
            rest == (v as nat) / pow256(i as nat),
        decreases len - i,
    {
        proof {
            lemma_pow2_pos(8 * (i as nat));
            lemma_div_denominator(v as int, pow256(i as nat) as int, 256);
            lemma_pow256_step(i as nat);
            assert(pow256(i as nat) * 256 == pow256((i + 1) as nat));
        }
        inner.push((rest % 256) as u8);
        rest = rest / 256;
        i += 1;
        assert(inner@ =~= le_bytes(v as nat, i as nat));
    }
    inner
}

impl From<usize> for DynUint {
    /// The bytes of a machine word, least significant first.
    fn from(v: usize) -> (r: DynUint)
        ensures
            r@ == le_bytes(v as nat, word_len()),
            r.value() == v,
    {
        let len: usize = (usize::BITS / 8) as usize;
        proof {
            lemma2_to64();
            lemma_le_bytes_value(v as nat, word_len());
        }
        DynUint { inner: digits(v as u64, len) }
    }
}

impl FromSpecImpl<usize> for DynUint {
    open spec fn obeys_from_spec() -> bool {
        false
    }

    open spec fn from_spec(v: usize) -> DynUint {
        arbitrary()
    }
}

impl From<i32> for DynUint {
    /// The four bytes of the two's complement form, least significant
    /// first. They denote `v` itself where `v` is not negative.
    fn from(v: i32) -> (r: DynUint)
        ensures
            r@ == le_bytes(i32_pattern(v), 4),
            v >= 0 ==> r.value() == v,
    {
        let pattern: u64 = if v >= 0 {
            v as u64
        } else {
            (v as i64 + 0x1_0000_0000) as u64
        };
        proof {
            lemma2_to64();
            lemma_le_bytes_value(i32_pattern(v), 4);
        }
        DynUint { inner: digits(pattern, 4) }
    }
}

impl FromSpecImpl<i32> for DynUint {
    open spec fn obeys_from_spec() -> bool {
        false
    }

    open spec fn from_spec(v: i32) -> DynUint {
        arbitrary()
    }
}

impl From<u8> for DynUint {
    /// The byte itself.
    fn from(v: u8) -> (r: DynUint)
        ensures
            r@ == seq![v],
            r.value() == v,
    {
        let mut inner: Vec<u8> = Vec::new();
        inner.push(v);
        proof {
            lemma_value_front(inner@);
            assert(inner@.drop_first() =~= Seq::<u8>::empty());
            assert(inner@ =~= seq![v]);
        }
        DynUint { inner }
    }
}

impl FromSpecImpl<u8> for DynUint {
    open spec fn obeys_from_spec() -> bool {
        false
    }

    open spec fn from_spec(v: u8) -> DynUint {
        arbitrary()
    }
}

impl From<bool> for DynUint {
    /// One byte: 1 for `true`, 0 for `false`.
    fn from(v: bool) -> (r: DynUint)
        ensures
            r@ == seq![bool_byte(v)],
            r.value() == bool_byte(v),
    {
        let byte: u8 = if v { 1 } else { 0 };
        let mut inner: Vec<u8> = Vec::new();
        inner.push(byte);
        proof {
            lemma_value_front(inner@);
            assert(inner@.drop_first() =~= Seq::<u8>::empty());
            assert(inner@ =~= seq![byte]);
        }
        DynUint { inner }
    }
}

impl FromSpecImpl<bool> for DynUint {
    open spec fn obeys_from_spec() -> bool {
        false
    }

    open spec fn from_spec(v: bool) -> DynUint {
        arbitrary()
    }
}

} // verus!
