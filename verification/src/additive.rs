//! Addition and subtraction.

use crate::bytes::{
    le_bytes, le_bytes_grown, lemma_le_bytes_of_value, lemma_le_bytes_value,
    lemma_pow256_monotonic, lemma_pow256_step, lemma_pow256_zero, lemma_value_bound,
    lemma_value_push, lemma_value_take_step, lemma_window_value, longer_len, pow256, value,
    window,
};
use crate::canonical::{lemma_signature_le_fits, signature_lt};
use crate::error::DynUintError;
use crate::uint::DynUint;
use vstd::prelude::*;
use vstd::std_specs::ops::{AddSpecImpl, SubSpecImpl};

verus! {

/// The buffer of a sum: the sum of the two numbers in as many bytes as the
/// longer operand has, and in one byte more where it does not fit in those.
pub open spec fn add_bytes(a: Seq<u8>, b: Seq<u8>) -> Seq<u8> {
    le_bytes_grown(value(a) + value(b), longer_len(a, b))
}

/// What a subtraction gives. It is declined where the signature of `a`
/// comes before that of `b`. Where the ordering lets a larger `b` pass, the
/// borrow runs past the last byte and is reported. Otherwise the result is
/// the difference in as many bytes as `a` has.
pub open spec fn sub_bytes(a: Seq<u8>, b: Seq<u8>) -> Result<Seq<u8>, DynUintError> {
    if signature_lt(a, b) {
        Err(DynUintError::Unsupported)
    } else if value(a) < value(b) {
        Err(DynUintError::BorrowPastEnd)
    } else {
        Ok(le_bytes((value(a) - value(b)) as nat, a.len()))
    }
}

/// The buffer of a sum denotes the sum.
pub proof fn lemma_add_bytes_value(a: Seq<u8>, b: Seq<u8>)
    ensures
        value(add_bytes(a, b)) == value(a) + value(b),
{
    let len = longer_len(a, b);
    lemma_value_bound(a);
    lemma_value_bound(b);
    lemma_pow256_monotonic(a.len(), len);
    lemma_pow256_monotonic(b.len(), len);
    lemma_pow256_step(len);
    lemma_le_bytes_value(value(a) + value(b), len);
    lemma_le_bytes_value(value(a) + value(b), len + 1);
}

/// One byte of an addition: where the bytes below weight `p` add up with
/// carry `c`, and the bytes `a` and `b` at weight `p` give `out` with carry
/// `d`, the bytes up to and including weight `p` add up with carry `d`.
proof fn lemma_add_step(lo: nat, a: nat, b: nat, pa: nat, pb: nat, c: nat, d: nat, out: nat, p: nat)
    requires
        lo + c * p == pa + pb,
        out + 256 * d == a + b + c,
    ensures
        lo + out * p + d * (256 * p) == (pa + a * p) + (pb + b * p),
{
    assert(out * p + d * (256 * p) == (out + 256 * d) * p) by (nonlinear_arith);
    assert((a + b + c) * p == a * p + b * p + c * p) by (nonlinear_arith);
}

/// One byte of a subtraction, with `c` the borrow that comes in and `d` the
/// borrow that goes out.
proof fn lemma_sub_step(lo: nat, a: nat, b: nat, pa: nat, pb: nat, c: nat, d: nat, out: nat, p: nat)
    requires
        lo + pb == pa + c * p,
        out + b + c == a + 256 * d,
    ensures
        (lo + out * p) + (pb + b * p) == (pa + a * p) + d * (256 * p),
{
    assert((out + b + c) * p == out * p + b * p + c * p) by (nonlinear_arith);
    assert((a + 256 * d) * p == a * p + d * (256 * p)) by (nonlinear_arith);
}

impl core::ops::Add for DynUint {
    type Output = DynUint;

    /// The sum. The bytes of the longer operand take the bytes of the other
    /// with carry; a carry out of the last byte becomes one more byte.
    fn add(self, rhs: DynUint) -> (r: DynUint)
        ensures
            r@ == add_bytes(self@, rhs@),
            r.value() == self.value() + rhs.value(),
    {
        let (mut long, short) = DynUint::get_ls_owned(self, rhs);
        let len = long.inner.len();
        let ghost a = long@;
        let ghost b = window(short@, len as nat);
        let mut carry: bool = false;
        let mut i: usize = 0;
        proof {
            lemma_pow256_zero();
            lemma_window_value(short@, len as nat);
        }
        while i < len
            invariant
                i <= len,
                len == a.len(),
                long@.len() == len,
                b == window(short@, len as nat),
                forall|j: int| i <= j < len ==> long@[j] == a[j],
                value(long@.take(i as int)) + (if carry { 1nat } else { 0nat }) * pow256(i as nat)
                    == value(a.take(i as int)) + value(b.take(i as int)),
            decreases len - i,
        {
            let ghost before = long@;
            let ghost c = if carry { 1nat } else { 0nat };
            let sby: u8 = if i < short.inner.len() {
                short.inner[i]
            } else {
                0
            };
            let mut aby: u16 = long.inner[i] as u16 + sby as u16 + (if carry {
                1u16
            } else {
                0u16
            });
            if aby > 255 {
                carry = true;
                aby -= 256;
            } else {
                carry = false;
            }
            long.inner[i] = aby as u8;
            proof {
                let d = if carry { 1nat } else { 0nat };
                assert(long@.take(i as int) =~= before.take(i as int));
                lemma_value_take_step(long@, i as int);
                lemma_value_take_step(a, i as int);
                lemma_value_take_step(b, i as int);
                lemma_pow256_step(i as nat);
                lemma_add_step(
                    value(before.take(i as int)),
                    a[i as int] as nat,
                    b[i as int] as nat,
                    value(a.take(i as int)),
                    value(b.take(i as int)),
                    c,
                    d,
                    aby as nat,
                    pow256(i as nat),
                );
            }
            i += 1;
        }
        proof {
            assert(long@.take(len as int) =~= long@);
            assert(a.take(len as int) =~= a);
            assert(b.take(len as int) =~= b);
            lemma_value_bound(long@);
            lemma_value_push(long@, 1);
        }
        if carry {
            long.inner.push(1);
        }
        proof {
            lemma_le_bytes_of_value(long@);
        }
        long
    }
}

impl AddSpecImpl for DynUint {
    open spec fn obeys_add_spec() -> bool {
        false
    }

    open spec fn add_req(self, rhs: DynUint) -> bool {
        true
    }

    open spec fn add_spec(self, rhs: DynUint) -> DynUint {
        arbitrary()
    }
}

impl core::ops::Sub for DynUint {
    type Output = Result<DynUint, DynUintError>;

    /// The difference, in a buffer as long as that of `self`, or the reason
    /// why there is none.
    fn sub(self, rhs: DynUint) -> (r: Result<DynUint, DynUintError>)
        ensures
            r is Ok ==> sub_bytes(self@, rhs@) == Ok::<Seq<u8>, DynUintError>(r->Ok_0@),
            r is Ok ==> r->Ok_0.value() == self.value() - rhs.value(),
            r is Err ==> sub_bytes(self@, rhs@) == Err::<Seq<u8>, DynUintError>(r->Err_0),
    {
        if rhs > self {
            return Err(DynUintError::Unsupported);
        }
        let mut out = self;
        let len = out.inner.len();
        let ghost a = out@;
        let ghost b = window(rhs@, len as nat);
        let mut borrow: bool = false;
        let mut i: usize = 0;
        proof {
            lemma_pow256_zero();
            lemma_signature_le_fits(a, rhs@);
            lemma_window_value(rhs@, len as nat);
        }
        while i < len
            invariant
                i <= len,
                len == a.len(),
                out@.len() == len,
                b == window(rhs@, len as nat),
                forall|j: int| i <= j < len ==> out@[j] == a[j],
                value(out@.take(i as int)) + value(b.take(i as int)) == value(a.take(i as int)) + (
                if borrow {
                    1nat
                } else {
                    0nat
                }) * pow256(i as nat),
            decreases len - i,
        {
            let ghost before = out@;
            let ghost c = if borrow { 1nat } else { 0nat };
            let rby: u8 = if i < rhs.inner.len() {
                rhs.inner[i]
            } else {
                0
            };
            let mut aby: i16 = out.inner[i] as i16 - rby as i16 - (if borrow {
                1i16
            } else {
                0i16
            });
            if aby < 0 {
                borrow = true;
                aby += 256;
            } else {
                borrow = false;
            }
            out.inner[i] = aby as u8;
            proof {
                let d = if borrow { 1nat } else { 0nat };
                assert(out@.take(i as int) =~= before.take(i as int));
                lemma_value_take_step(out@, i as int);
                lemma_value_take_step(a, i as int);
                lemma_value_take_step(b, i as int);
                lemma_pow256_step(i as nat);
                lemma_sub_step(
                    value(before.take(i as int)),
                    a[i as int] as nat,
                    b[i as int] as nat,
                    value(a.take(i as int)),
                    value(b.take(i as int)),
                    c,
                    d,
                    aby as nat,
                    pow256(i as nat),
                );
            }
            i += 1;
        }
        proof {
            assert(out@.take(len as int) =~= out@);
            assert(a.take(len as int) =~= a);
            assert(b.take(len as int) =~= b);
            lemma_value_bound(out@);
            lemma_le_bytes_of_value(out@);
        }
        if borrow {
            Err(DynUintError::BorrowPastEnd)
        } else {
            Ok(out)
        }
    }
}

impl SubSpecImpl for DynUint {
    open spec fn obeys_sub_spec() -> bool {
        false
    }

    open spec fn sub_req(self, rhs: DynUint) -> bool {
        true
    }

    open spec fn sub_spec(self, rhs: DynUint) -> Result<DynUint, DynUintError> {
        arbitrary()
    }
}

impl DynUint {
    /// Addition that would report an overflow. A value of this type grows
    /// instead of overflowing, so the operation is not offered.
    pub fn overflowing_add(&self, rhs: &DynUint) -> (r: Result<(DynUint, bool), DynUintError>)
        ensures
            r is Err,
            r->Err_0 == DynUintError::Unsupported,
    {
        Err(DynUintError::Unsupported)
    }
}

} // verus!
