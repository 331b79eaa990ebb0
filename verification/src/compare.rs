//! Equality and ordering.
//!
//! Equality compares canonical forms, so it holds exactly when two values
//! denote the same number. The ordering is a different relation: it compares
//! signatures only, the position of the highest nonzero byte and then that
//! byte. Two values that agree there and differ further down are unequal,
//! and yet neither is less than the other.

use crate::canonical::{same_number, signature_le, signature_lt};
use crate::uint::DynUint;
use core::cmp::Ordering;
use vstd::prelude::*;
use vstd::std_specs::cmp::{PartialEqSpecImpl, PartialOrdSpec, PartialOrdSpecImpl};

verus! {

/// How the signature of `a` stands to that of `b`.
pub open spec fn signature_order(a: Seq<u8>, b: Seq<u8>) -> Ordering {
    if signature_lt(a, b) {
        Ordering::Less
    } else if signature_lt(b, a) {
        Ordering::Greater
    } else {
        Ordering::Equal
    }
}

/// What the comparison operators decide: `a <= b` holds where the signature
/// of `a` does not come after that of `b`, `a < b` where it comes before it,
/// and `a > b` where it comes after it.
pub proof fn law_order_by_signature(a: DynUint, b: DynUint)
    ensures
        (PartialOrdSpec::partial_cmp_spec(&a, &b) matches Some(
            Ordering::Less
            | Ordering::Equal,
        )) <==> signature_le(a@, b@),
        PartialOrdSpec::partial_cmp_spec(&a, &b) == Some(Ordering::Less) <==> signature_lt(
            a@,
            b@,
        ),
        PartialOrdSpec::partial_cmp_spec(&a, &b) == Some(Ordering::Greater) <==> signature_lt(
            b@,
            a@,
        ),
{
}

/// Whether two buffers hold the same bytes.
fn same_bytes(a: &Vec<u8>, b: &Vec<u8>) -> (r: bool)
    ensures
        r == (a@ == b@),
{
    if a.len() != b.len() {
        return false;
    }
    let mut i: usize = 0;
    while i < a.len()
        invariant
            i <= a@.len(),
            a@.len() == b@.len(),
            forall|j: int| 0 <= j < i ==> a@[j] == b@[j],
        decreases a@.len() - i,
    {
        if a[i] != b[i] {
            return false;
        }
        i += 1;
    }
    assert(a@ =~= b@);
    true
}

impl PartialEq for DynUint {
    fn eq(&self, other: &DynUint) -> (r: bool) {
        let mut a = self.clone();
        let mut b = other.clone();
        a.removed_trailing();
        b.removed_trailing();
        same_bytes(&a.inner, &b.inner)
    }
}

impl PartialEqSpecImpl for DynUint {
    open spec fn obeys_eq_spec() -> bool {
        true
    }

    open spec fn eq_spec(&self, other: &DynUint) -> bool {
        same_number(self@, other@)
    }
}

impl PartialOrd for DynUint {
    fn partial_cmp(&self, other: &DynUint) -> (r: Option<Ordering>) {
        let (i1, v1) = self.last_nzero();
        let (i2, v2) = other.last_nzero();
        if i1 > i2 || (i1 == i2 && *v1 > *v2) {
            Some(Ordering::Greater)
        } else if i1 < i2 || (i1 == i2 && *v1 < *v2) {
            Some(Ordering::Less)
        } else {
            Some(Ordering::Equal)
        }
    }
}

impl PartialOrdSpecImpl for DynUint {
    open spec fn obeys_partial_cmp_spec() -> bool {
        true
    }

    open spec fn partial_cmp_spec(&self, other: &DynUint) -> Option<Ordering> {
        Some(signature_order(self@, other@))
    }
}

} // verus!
