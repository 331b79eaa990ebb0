//! What holds of the operations together.
//!
//! Each statement is about the buffers that the operations are specified to
//! return, and about equality as `==` decides it: two buffers are equal when
//! they have the same canonical form, which is when they denote the same
//! number.

use crate::additive::{add_bytes, lemma_add_bytes_value, sub_bytes};
use crate::bitwise::{
    div_pow2_bytes, lemma_div_pow2_bytes_value, lemma_mul_pow2_bytes_value, mul_pow2_bytes,
};
use crate::bytes::{
    lemma_le_bytes_value, lemma_pow256_monotonic, lemma_value_bound, lemma_value_concat,
    lemma_value_zeros, pow256, value, zero_from, zeros,
};
use crate::canonical::{
    lemma_same_number, lemma_significant_len, lemma_significant_len_bounds,
    lemma_significant_len_unique, lemma_top_byte_bounds, same_number, signature_le,
    signature_lt, significant_len, trimmed,
};
use crate::error::DynUintError;
use crate::multiplicative::{lemma_mul_bytes_value, mul_bytes, rem_bytes};
use crate::uint::DynUint;
use vstd::arithmetic::div_mod::lemma_div_by_multiple;
use vstd::arithmetic::power2::{lemma_pow2_pos, pow2};
use vstd::prelude::*;
use vstd::std_specs::cmp::PartialEqSpec;

verus! {

/// Adding zero, on either side, gives a value equal to the other operand.
pub proof fn law_add_zero(a: DynUint, z: DynUint)
    requires
        z.value() == 0,
    ensures
        same_number(add_bytes(a@, z@), a@),
        same_number(add_bytes(z@, a@), a@),
{
    lemma_add_bytes_value(a@, z@);
    lemma_add_bytes_value(z@, a@);
    lemma_same_number(add_bytes(a@, z@), a@);
    lemma_same_number(add_bytes(z@, a@), a@);
}

/// Multiplying by zero, on either side, gives zero in an empty buffer.
pub proof fn law_mul_zero(a: DynUint, z: DynUint)
    requires
        z.value() == 0,
    ensures
        mul_bytes(a@, z@) == Seq::<u8>::empty(),
        mul_bytes(z@, a@) == Seq::<u8>::empty(),
        same_number(mul_bytes(a@, z@), z@),
        same_number(mul_bytes(z@, a@), z@),
{
    lemma_same_number(Seq::<u8>::empty(), z@);
}

/// Multiplying by one, on either side, gives a value equal to the other
/// operand.
pub proof fn law_mul_one(a: DynUint, o: DynUint)
    requires
        o.value() == 1,
    ensures
        same_number(mul_bytes(a@, o@), a@),
        same_number(mul_bytes(o@, a@), a@),
{
    lemma_mul_bytes_value(a@, o@);
    lemma_mul_bytes_value(o@, a@);
    lemma_same_number(mul_bytes(a@, o@), a@);
    lemma_same_number(mul_bytes(o@, a@), a@);
    assert(a.value() * 1 == a.value() && 1 * a.value() == a.value()) by (nonlinear_arith);
}

/// The sum does not depend on the order of the operands: both orders give
/// the same buffer.
pub proof fn law_add_commutes(a: DynUint, b: DynUint)
    ensures
        add_bytes(a@, b@) == add_bytes(b@, a@),
{
}

/// The product denotes the same number in both orders of the operands.
pub proof fn law_mul_commutes(a: DynUint, b: DynUint)
    ensures
        same_number(mul_bytes(a@, b@), mul_bytes(b@, a@)),
{
    lemma_mul_bytes_value(a@, b@);
    lemma_mul_bytes_value(b@, a@);
    lemma_same_number(mul_bytes(a@, b@), mul_bytes(b@, a@));
    assert(a.value() * b.value() == b.value() * a.value()) by (nonlinear_arith);
}

/// Taking `b` from `a` and adding it again gives a value equal to `a`.
///
/// This is stated where `b <= a` holds and `b` is not the larger number.
/// The ordering looks at the highest nonzero byte only, so it lets some
/// larger `b` pass; for those there is no difference to add to: the
/// subtraction reports a borrow past its last byte.
pub proof fn law_sub_then_add(a: DynUint, b: DynUint)
    requires
        signature_le(b@, a@),
        b.value() <= a.value(),
    ensures
        sub_bytes(a@, b@) is Ok,
        same_number(add_bytes(sub_bytes(a@, b@)->Ok_0, b@), a@),
{
    let d = sub_bytes(a@, b@)->Ok_0;
    lemma_value_bound(a@);
    lemma_le_bytes_value((a.value() - b.value()) as nat, a@.len());
    lemma_add_bytes_value(d, b@);
    lemma_same_number(add_bytes(d, b@), a@);
}

/// Dividing by the power of two that a value was multiplied by gives a
/// value equal to the one before.
pub proof fn law_mul_pow2_then_div_pow2(a: DynUint, n: nat)
    ensures
        same_number(div_pow2_bytes(mul_pow2_bytes(a@, n), n), a@),
{
    let up = mul_pow2_bytes(a@, n);
    lemma_mul_pow2_bytes_value(a@, n);
    lemma_div_pow2_bytes_value(up, n);
    lemma_pow2_pos(n);
    lemma_div_by_multiple(a.value() as int, pow2(n) as int);
    lemma_same_number(div_pow2_bytes(up, n), a@);
}

/// There is no remainder by zero, whatever is divided.
pub proof fn law_rem_by_zero(a: DynUint, z: DynUint)
    requires
        z.value() == 0,
    ensures
        rem_bytes(a@, z@) == Err::<Seq<u8>, DynUintError>(DynUintError::DivisionByZero),
{
}

/// The remainder by one is zero, whatever is divided.
pub proof fn law_rem_by_one(a: DynUint, o: DynUint)
    requires
        o.value() == 1,
    ensures
        rem_bytes(a@, o@) == Ok::<Seq<u8>, DynUintError>(Seq::empty()),
        value(Seq::<u8>::empty()) == 0,
{
}

/// The ordering leaves no two values unrelated, and it is transitive. It
/// orders signatures, so two values with the same signature stand as equal
/// in it whether or not `==` holds of them.
pub proof fn law_order_is_total(a: DynUint, b: DynUint, c: DynUint)
    ensures
        signature_le(a@, b@) || signature_le(b@, a@),
        signature_le(a@, a@),
        signature_le(a@, b@) && signature_le(b@, c@) ==> signature_le(a@, c@),
{
}

/// Where the ordering puts `a` before `b`, `a` denotes the smaller number,
/// and so the two are not equal. The converse fails: the ordering calls two
/// numbers equal as soon as their highest nonzero bytes agree in place and
/// in content.
pub proof fn law_order_agrees_with_value(a: DynUint, b: DynUint)
    requires
        signature_lt(a@, b@),
    ensures
        a.value() < b.value(),
        !a.eq_spec(&b),
{
    lemma_same_number(a@, b@);
    let n = significant_len(a@);
    let m = significant_len(b@);
    lemma_significant_len(a@);
    lemma_significant_len(b@);
    lemma_significant_len_bounds(a@);
    lemma_significant_len_bounds(b@);
    if n > 0 {
        if n < m {
            lemma_pow256_monotonic(n, (m - 1) as nat);
        } else {
            let p = pow256((n - 1) as nat);
            lemma_top_byte_bounds(a@);
            lemma_top_byte_bounds(b@);
            assert((a@[n - 1] as nat + 1) * p <= (b@[n - 1] as nat) * p) by (nonlinear_arith)
                requires
                    a@[n - 1] < b@[n - 1],
            ;
        }
    }
}

/// Bringing a buffer into canonical form a second time changes nothing.
pub proof fn law_trim_idempotent(s: Seq<u8>)
    ensures
        trimmed(trimmed(s)) == trimmed(s),
        significant_len(trimmed(s)) == significant_len(s),
{
    let t = trimmed(s);
    lemma_significant_len(s);
    lemma_significant_len_unique(t, t.len() as int);
    assert(t.take(t.len() as int) =~= t);
}

/// A buffer without a nonzero byte, the empty one among them, has the
/// empty buffer as its canonical form. So all such buffers are equal.
pub proof fn law_zero_trims_to_empty(s: Seq<u8>, t: Seq<u8>)
    requires
        zero_from(s, 0),
        zero_from(t, 0),
    ensures
        trimmed(s) == Seq::<u8>::empty(),
        same_number(s, Seq::<u8>::empty()),
        same_number(s, t),
{
    lemma_significant_len_unique(s, 0);
    lemma_significant_len_unique(t, 0);
    lemma_significant_len_unique(Seq::<u8>::empty(), 0);
    assert(s.take(0) =~= Seq::<u8>::empty());
    assert(t.take(0) =~= Seq::<u8>::empty());
    assert(Seq::<u8>::empty().take(0) =~= Seq::<u8>::empty());
}

/// Every value is equal to itself.
pub proof fn law_eq_reflexive(a: DynUint)
    ensures
        a.eq_spec(&a),
{
}

/// Equality does not depend on the side a value stands on.
pub proof fn law_eq_symmetric(a: DynUint, b: DynUint)
    ensures
        a.eq_spec(&b) == b.eq_spec(&a),
{
}

/// Two values that are equal to a third are equal.
pub proof fn law_eq_transitive(a: DynUint, b: DynUint, c: DynUint)
    requires
        a.eq_spec(&b),
        b.eq_spec(&c),
    ensures
        a.eq_spec(&c),
{
}

/// Zero bytes added at the most significant end do not change what a value
/// is equal to.
pub proof fn law_eq_padding(a: DynUint, b: DynUint, n: nat)
    requires
        b@ == a@ + zeros(n),
    ensures
        a.eq_spec(&b),
{
    lemma_value_concat(a@, zeros(n));
    lemma_value_zeros(n);
    assert(pow256(a@.len()) * value(zeros(n)) == 0) by (nonlinear_arith)
        requires
            value(zeros(n)) == 0,
    ;
    lemma_same_number(a@, b@);
}

/// Two values are equal exactly when they denote the same number.
pub proof fn law_eq_is_same_value(a: DynUint, b: DynUint)
    ensures
        a.eq_spec(&b) <==> a.value() == b.value(),
{
    lemma_same_number(a@, b@);
}

} // verus!
