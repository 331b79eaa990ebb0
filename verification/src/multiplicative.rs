//! Multiplication, and the remainder by a power of two.

use crate::additive::{add_bytes, lemma_add_bytes_value};
use crate::bitwise::{and_bytes, lemma_mul_pow2_bytes_value, mul_pow2_bytes};
use crate::bytes::{
    byte_at, le_bytes, lemma_le_bytes_of_value, lemma_pow256_step, lemma_pow256_zero,
    lemma_value_bound, lemma_value_front, lemma_value_push, lemma_value_split,
    lemma_value_unique, lemma_value_zero, lemma_value_zero_tail, lemma_window_value,
    longer_len, pow256, saturated, value, window,
};
use crate::canonical::{
    lemma_same_number, lemma_significant_len, lemma_significant_len_bounds,
    lemma_signature_single,
};
use crate::error::DynUintError;
use crate::uint::DynUint;
use vstd::arithmetic::div_mod::{
    lemma_fundamental_div_mod_converse, lemma_mod_breakdown, lemma_mod_multiples_vanish,
    lemma_small_mod,
};
use vstd::arithmetic::power2::{
    lemma2_to64, lemma_pow2_adds, lemma_pow2_pos, lemma_pow2_strictly_increases,
    lemma_pow2_unfold, pow2,
};
use vstd::prelude::*;
use vstd::std_specs::ops::{MulSpecImpl, RemSpecImpl};

verus! {

/// What shift-and-add leaves in the accumulator. For each bit of
/// `multiplier`, lowest first, the multiplicand times the weight of that
/// bit is added to `acc` where the bit is set; `count` is the position of
/// the lowest bit.
pub open spec fn shift_add(long: Seq<u8>, multiplier: nat, count: nat, acc: Seq<u8>) -> Seq<u8>
    decreases multiplier,
{
    if multiplier == 0 {
        acc
    } else {
        shift_add(
            long,
            multiplier / 2,
            count + 1,
            if multiplier % 2 == 1 {
                add_bytes(acc, mul_pow2_bytes(long, count))
            } else {
                acc
            },
        )
    }
}

/// The buffer of a product. It is empty where an operand is zero, and the
/// other operand as it is where an operand is one. Otherwise the longer
/// operand is the multiplicand and the number of the shorter one the
/// multiplier of a shift-and-add that starts from a single zero byte.
pub open spec fn mul_bytes(a: Seq<u8>, b: Seq<u8>) -> Seq<u8> {
    if value(a) == 0 || value(b) == 0 {
        Seq::empty()
    } else if value(a) == 1 {
        b
    } else if value(b) == 1 {
        a
    } else if a.len() >= b.len() {
        shift_add(a, value(b), 0, seq![0u8])
    } else {
        shift_add(b, value(a), 0, seq![0u8])
    }
}

/// Whether `v` is `2^k` for some `k`.
pub open spec fn is_power_of_two(v: nat) -> bool {
    exists|k: nat| v == pow2(k)
}

/// What a remainder gives. There is none by zero. By one it is zero, in an
/// empty buffer. By another power of two it is the remainder in a buffer as
/// long as the longer operand. No other divisor is supported.
pub open spec fn rem_bytes(a: Seq<u8>, b: Seq<u8>) -> Result<Seq<u8>, DynUintError> {
    if value(b) == 0 {
        Err(DynUintError::DivisionByZero)
    } else if value(b) == 1 {
        Ok(Seq::empty())
    } else if is_power_of_two(value(b)) {
        Ok(le_bytes(value(a) % value(b), longer_len(a, b)))
    } else {
        Err(DynUintError::Unsupported)
    }
}

/// The buffer of `len` bytes in which bit `k` alone is set.
pub open spec fn unit_bytes(len: nat, k: nat) -> Seq<u8> {
    Seq::new(
        len,
        |i: int|
            if i == k / 8 {
                pow2(k % 8) as u8
            } else {
                0u8
            },
    )
}

/// The buffer of `len` bytes in which the bits below bit `k` are set.
pub open spec fn low_mask_bytes(len: nat, k: nat) -> Seq<u8> {
    Seq::new(
        len,
        |i: int|
            if i < k / 8 {
                255u8
            } else if i == k / 8 {
                (pow2(k % 8) - 1) as u8
            } else {
                0u8
            },
    )
}

/// The powers of two that a byte can hold.
proof fn lemma_pow2_byte(j: nat)
    requires
        j < 8,
    ensures
        1 <= pow2(j) <= 128,
        pow2(j) * pow2((8 - j) as nat) == 256,
        j == 0 ==> pow2(j) == 1,
        j == 1 ==> pow2(j) == 2,
        j == 2 ==> pow2(j) == 4,
        j == 3 ==> pow2(j) == 8,
        j == 4 ==> pow2(j) == 16,
        j == 5 ==> pow2(j) == 32,
        j == 6 ==> pow2(j) == 64,
        j == 7 ==> pow2(j) == 128,
{
    lemma2_to64();
    lemma_pow2_adds(j, (8 - j) as nat);
}

/// A byte holds a power of two exactly when it is not zero and loses its
/// only set bit to the AND with its predecessor.
proof fn lemma_single_bit(x: u8)
    requires
        x != 0,
    ensures
        (x & ((x - 1) as u8)) == 0 <==> (exists|j: nat| j < 8 && x == pow2(j)),
{
    assert((x & ((x - 1) as u8)) == 0 <==> (x == 1 || x == 2 || x == 4 || x == 8 || x == 16 || x
        == 32 || x == 64 || x == 128)) by (bit_vector)
        requires
            x != 0,
    ;
    lemma2_to64();
    if (x & ((x - 1) as u8)) == 0 {
        let j: nat = if x == 1 {
            0
        } else if x == 2 {
            1
        } else if x == 4 {
            2
        } else if x == 8 {
            3
        } else if x == 16 {
            4
        } else if x == 32 {
            5
        } else if x == 64 {
            6
        } else {
            7
        };
        assert(j < 8 && x == pow2(j));
    }
    if exists|j: nat| j < 8 && x == pow2(j) {
        let j = choose|j: nat| j < 8 && x == pow2(j);
        lemma_pow2_byte(j);
    }
}

/// The AND of a byte with the low `j` bits set is its remainder by `2^j`.
proof fn lemma_low_bits(x: u8, j: nat)
    requires
        j < 8,
    ensures
        (x & ((pow2(j) - 1) as u8)) as nat == (x as nat) % pow2(j),
        x & 255 == x,
        x & 0 == 0,
{
    lemma_pow2_byte(j);
    assert(x & 255 == x) by (bit_vector);
    assert(x & 0 == 0) by (bit_vector);
    if j == 0 {
        assert(x & 0 == x % 1) by (bit_vector);
    } else if j == 1 {
        assert(x & 1 == x % 2) by (bit_vector);
    } else if j == 2 {
        assert(x & 3 == x % 4) by (bit_vector);
    } else if j == 3 {
        assert(x & 7 == x % 8) by (bit_vector);
    } else if j == 4 {
        assert(x & 15 == x % 16) by (bit_vector);
    } else if j == 5 {
        assert(x & 31 == x % 32) by (bit_vector);
    } else if j == 6 {
        assert(x & 63 == x % 64) by (bit_vector);
    } else {
        assert(x & 127 == x % 128) by (bit_vector);
    }
}

/// A saturated buffer denotes the largest number of its length.
pub proof fn lemma_saturated_value(n: nat)
    ensures
        value(saturated(n)) + 1 == pow256(n),
    decreases n,
{
    if n == 0 {
        lemma_pow256_zero();
    } else {
        let m = (n - 1) as nat;
        lemma_saturated_value(m);
        assert(saturated(n) =~= saturated(m).push(255u8));
        lemma_value_push(saturated(m), 255u8);
        lemma_pow256_step(m);
    }
}

/// The buffer with bit `k` alone set denotes `2^k`.
pub proof fn lemma_unit_value(len: nat, k: nat)
    requires
        k / 8 < len,
    ensures
        value(unit_bytes(len, k)) == pow2(k),
{
    let q = k / 8;
    let j = k % 8;
    let u = unit_bytes(len, k);
    let hi = u.skip(q as int);
    lemma_pow2_byte(j);
    lemma_value_split(u, q as int);
    lemma_value_zero(u.take(q as int));
    lemma_value_front(hi);
    lemma_value_zero(hi.drop_first());
    lemma_pow2_adds(8 * q, j);
    assert(pow256(q) * pow2(j) == pow2(k));
}

/// The buffer with the bits below bit `k` set denotes `2^k - 1`.
pub proof fn lemma_low_mask_value(len: nat, k: nat)
    requires
        k / 8 < len,
    ensures
        value(low_mask_bytes(len, k)) + 1 == pow2(k),
{
    let q = k / 8;
    let j = k % 8;
    let m = low_mask_bytes(len, k);
    let hi = m.skip(q as int);
    lemma_pow2_byte(j);
    lemma_value_split(m, q as int);
    assert(m.take(q as int) =~= saturated(q));
    lemma_saturated_value(q);
    lemma_value_front(hi);
    lemma_value_zero(hi.drop_first());
    lemma_pow2_adds(8 * q, j);
    assert(pow256(q) - 1 + pow256(q) * (pow2(j) - 1) + 1 == pow256(q) * pow2(j))
        by (nonlinear_arith);
}

/// A buffer that denotes `2^k` holds bit `k` and nothing else.
pub proof fn lemma_power_of_two_shape(s: Seq<u8>, k: nat)
    requires
        value(s) == pow2(k),
    ensures
        k / 8 < s.len(),
        s == unit_bytes(s.len(), k),
{
    lemma_value_bound(s);
    if 8 * s.len() <= k {
        if 8 * s.len() < k {
            lemma_pow2_strictly_increases(8 * s.len(), k);
        }
    }
    lemma_unit_value(s.len(), k);
    lemma_value_unique(s, unit_bytes(s.len(), k));
}

/// The AND with the low `k` bits is the remainder by `2^k`.
pub proof fn lemma_and_low_mask(a: Seq<u8>, len: nat, k: nat)
    requires
        k / 8 < len,
    ensures
        value(and_bytes(a, low_mask_bytes(len, k))) == value(a) % pow2(k),
{
    let q = k / 8;
    let j = k % 8;
    let m = low_mask_bytes(len, k);
    let r = and_bytes(a, m);
    let n = r.len();
    let w = window(a, n);
    let p = pow256(q);
    let d = pow2(j);
    let hi = w.skip(q as int);
    lemma_pow2_byte(j);
    lemma_pow2_pos(8 * q);
    lemma_pow2_adds(8 * q, j);
    lemma_window_value(a, n);
    assert forall|i: int| 0 <= i < n implies r[i] == (if i < q {
        w[i]
    } else if i == q {
        ((w[i] as nat) % d) as u8
    } else {
        0u8
    }) by {
        lemma_low_bits(byte_at(a, i), j);
    }
    // the result: the low bytes of `a`, then one byte reduced, then zeros
    lemma_value_zero_tail(r, (q + 1) as int);
    assert(r.take((q + 1) as int) =~= w.take(q as int).push(r[q as int]));
    lemma_value_push(w.take(q as int), r[q as int]);
    // the number of `a`, split at the same byte
    lemma_value_split(w, q as int);
    lemma_value_front(hi);
    assert(value(hi) * p == p * value(hi)) by (nonlinear_arith);
    lemma_fundamental_div_mod_converse(
        value(w) as int,
        p as int,
        value(hi) as int,
        value(w.take(q as int)) as int,
    );
    lemma_mod_breakdown(value(w) as int, p as int, d as int);
    let e = pow2((8 - j) as nat);
    let rest = value(hi.drop_first());
    assert(256 * rest == d * (e * rest)) by (nonlinear_arith)
        requires
            d * e == 256,
    ;
    lemma_mod_multiples_vanish((e * rest) as int, hi[0] as int, d as int);
    assert(((w[q as int] as nat) % d) * p == p * ((w[q as int] as nat) % d)) by (nonlinear_arith);
}

/// Shift-and-add adds the multiplicand times the multiplier, at the weight
/// of the position it starts from.
pub proof fn lemma_shift_add_value(long: Seq<u8>, multiplier: nat, count: nat, acc: Seq<u8>)
    ensures
        value(shift_add(long, multiplier, count, acc)) == value(acc) + value(long) * pow2(count)
            * multiplier,
    decreases multiplier,
{
    let v = value(long);
    let p = pow2(count);
    if multiplier == 0 {
        assert(v * p * multiplier == 0) by (nonlinear_arith)
            requires
                multiplier == 0,
        ;
    } else {
        let term = mul_pow2_bytes(long, count);
        let next = if multiplier % 2 == 1 {
            add_bytes(acc, term)
        } else {
            acc
        };
        let half = multiplier / 2;
        let bit = multiplier % 2;
        lemma_mul_pow2_bytes_value(long, count);
        lemma_add_bytes_value(acc, term);
        lemma_shift_add_value(long, half, count + 1, next);
        lemma_pow2_unfold(count + 1);
        assert(value(next) == value(acc) + v * p * bit) by (nonlinear_arith)
            requires
                bit == 0 || bit == 1,
                bit == 1 ==> value(next) == value(acc) + v * p,
                bit == 0 ==> value(next) == value(acc),
        ;
        assert(v * p * bit + v * (2 * p) * half == v * p * multiplier) by (nonlinear_arith)
            requires
                multiplier == 2 * half + bit,
        ;
    }
}

/// The buffer of a product denotes the product.
pub proof fn lemma_mul_bytes_value(a: Seq<u8>, b: Seq<u8>)
    ensures
        value(mul_bytes(a, b)) == value(a) * value(b),
{
    let x = value(a);
    let y = value(b);
    lemma2_to64();
    if x == 0 || y == 0 {
        assert(x * y == 0) by (nonlinear_arith)
            requires
                x == 0 || y == 0,
        ;
    } else if x == 1 || y == 1 {
        assert(x == 1 ==> x * y == y) by (nonlinear_arith);
        assert(y == 1 ==> x * y == x) by (nonlinear_arith);
    } else {
        let start = seq![0u8];
        lemma_value_front(start);
        assert(start.drop_first() =~= Seq::<u8>::empty());
        lemma_shift_add_value(a, y, 0, start);
        lemma_shift_add_value(b, x, 0, start);
        assert(x * pow2(0) * y == x * y && y * pow2(0) * x == x * y) by (nonlinear_arith)
            requires
                pow2(0) == 1,
        ;
    }
}

impl DynUint {
    /// Whether the number is a power of two: one byte holds a single set
    /// bit and every other byte is zero.
    pub fn is_power_of_two(&self) -> (b: bool)
        ensures
            b == is_power_of_two(self.value()),
    {
        proof {
            lemma_significant_len(self@);
            lemma_significant_len_bounds(self@);
        }
        match self.get_last_nzero() {
            None => {
                assert forall|k: nat| self.value() != pow2(k) by {
                    lemma_pow2_pos(k);
                }
                false
            },
            Some((top, byte)) => {
                let top_byte: u8 = *byte;
                proof {
                    lemma_single_bit(top_byte);
                }
                if top_byte & (top_byte - 1) != 0 {
                    assert forall|k: nat| self.value() != pow2(k) by {
                        if self.value() == pow2(k) {
                            lemma_power_of_two_shape(self@, k);
                            lemma_pow2_byte(k % 8);
                            assert(top == k / 8);
                            assert(top_byte == pow2(k % 8));
                        }
                    }
                    return false;
                }
                let mut i: usize = 0;
                while i < top
                    invariant
                        i <= top < self@.len(),
                        self@[top as int] != 0,
                        forall|j: int| 0 <= j < i ==> self@[j] == 0,
                    decreases top - i,
                {
                    if self.inner[i] != 0 {
                        assert forall|k: nat| self.value() != pow2(k) by {
                            if self.value() == pow2(k) {
                                lemma_power_of_two_shape(self@, k);
                                assert(self@[i as int] != 0);
                                assert(self@[top as int] != 0);
                            }
                        }
                        return false;
                    }
                    i += 1;
                }
                proof {
                    let j = choose|j: nat| j < 8 && top_byte == pow2(j);
                    let k = 8 * (top as nat) + j;
                    assert(k / 8 == top && k % 8 == j);
                    assert(self@ =~= unit_bytes(self@.len(), k));
                    lemma_unit_value(self@.len(), k);
                }
                true
            },
        }
    }
}

impl core::ops::Rem for DynUint {
    type Output = Result<DynUint, DynUintError>;

    /// The remainder by a power of two, as the AND with the divisor less
    /// one, or the reason why there is none.
    fn rem(self, rhs: DynUint) -> (r: Result<DynUint, DynUintError>)
        ensures
            r is Ok ==> rem_bytes(self@, rhs@) == Ok::<Seq<u8>, DynUintError>(r->Ok_0@),
            r is Ok ==> r->Ok_0.value() == self.value() % rhs.value(),
            r is Err ==> rem_bytes(self@, rhs@) == Err::<Seq<u8>, DynUintError>(r->Err_0),
    {
        let zero = DynUint::zero();
        let one = DynUint::from(true);
        proof {
            lemma_same_number(rhs@, zero@);
            lemma_same_number(rhs@, one@);
        }
        if rhs == zero {
            return Err(DynUintError::DivisionByZero);
        }
        if rhs == one {
            proof {
                lemma_small_mod(0, 1);
                assert(self.value() % 1 == 0);
            }
            return Ok(zero);
        }
        if !rhs.is_power_of_two() {
            return Err(DynUintError::Unsupported);
        }
        let ghost k = choose|k: nat| rhs.value() == pow2(k);
        let ghost len = rhs@.len();
        proof {
            lemma_signature_single(rhs@, one@);
            lemma_power_of_two_shape(rhs@, k);
            lemma_low_mask_value(len, k);
            lemma_le_bytes_of_value(low_mask_bytes(len, k));
            lemma_and_low_mask(self@, len, k);
        }
        let mask = (rhs - one).unwrap();
        let out = self & mask;
        proof {
            lemma_le_bytes_of_value(out@);
        }
        Ok(out)
    }
}

impl RemSpecImpl for DynUint {
    open spec fn obeys_rem_spec() -> bool {
        false
    }

    open spec fn rem_req(self, rhs: DynUint) -> bool {
        true
    }

    open spec fn rem_spec(self, rhs: DynUint) -> Result<DynUint, DynUintError> {
        arbitrary()
    }
}

impl core::ops::Mul for DynUint {
    type Output = DynUint;

    /// The product, by shift-and-add: the longer operand is doubled and the
    /// shorter one halved, bit by bit, until nothing is left of it.
    fn mul(self, rhs: DynUint) -> (r: DynUint)
        ensures
            r@ == mul_bytes(self@, rhs@),
            r.value() == self.value() * rhs.value(),
    {
        let zero = DynUint::zero();
        let one = DynUint::from(true);
        proof {
            lemma_same_number(self@, zero@);
            lemma_same_number(rhs@, zero@);
            lemma_same_number(self@, one@);
            lemma_same_number(rhs@, one@);
            lemma_mul_bytes_value(self@, rhs@);
        }
        if self == zero || rhs == zero {
            zero
        } else if self == one {
            rhs
        } else if rhs == one {
            self
        } else {
            let ghost product = mul_bytes(self@, rhs@);
            let (long, mut short) = DynUint::get_ls_owned(self, rhs);
            let mut res = DynUint::from(0u8);
            let mut count = DynUint::zero();
            while short != zero
                invariant
                    zero@ == Seq::<u8>::empty(),
                    one.value() == 1,
                    shift_add(long@, short.value(), count.value(), res@) == product,
                decreases short.value(),
            {
                proof {
                    lemma_same_number(short@, zero@);
                    lemma_value_front(short@);
                    lemma2_to64();
                }
                let low: u8 = short.inner[0];
                assert(low & 1 == low % 2) by (bit_vector);
                if low & 1 == 1 {
                    let term = long.clone().mul_pow2(count.clone());
                    res = res + term;
                }
                short = short.div_pow2(one.clone());
                count = count + one.clone();
            }
            proof {
                lemma_same_number(short@, zero@);
            }
            res
        }
    }
}

impl MulSpecImpl for DynUint {
    open spec fn obeys_mul_spec() -> bool {
        false
    }

    open spec fn mul_req(self, rhs: DynUint) -> bool {
        true
    }

    open spec fn mul_spec(self, rhs: DynUint) -> DynUint {
        arbitrary()
    }
}

} // verus!
