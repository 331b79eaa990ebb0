//! The canonical form of a buffer, and the signature by which buffers are
//! ordered.
//!
//! A buffer may carry zero bytes at its most significant end. Its canonical
//! form drops them, so that two buffers denote the same number exactly when
//! their canonical forms are the same sequence.

use crate::bytes::{
    lemma_pow256_monotonic, lemma_pow256_step, lemma_pow256_zero, lemma_value_bound,
    lemma_value_front, lemma_value_unique, lemma_value_zero_tail, pow256, value, zero_from,
};
use vstd::prelude::*;

verus! {

/// One more than the index of the highest nonzero byte of `s`, or zero where
/// `s` holds no nonzero byte.
pub open spec fn significant_len(s: Seq<u8>) -> nat
    decreases s.len(),
{
    if s.len() == 0 {
        0
    } else if s.last() != 0 {
        s.len()
    } else {
        significant_len(s.drop_last())
    }
}

/// The canonical form of `s`: `s` without its most significant zero bytes.
pub open spec fn trimmed(s: Seq<u8>) -> Seq<u8> {
    s.take(significant_len(s) as int)
}

/// Whether two buffers have the same canonical form.
pub open spec fn same_number(a: Seq<u8>, b: Seq<u8>) -> bool {
    trimmed(a) == trimmed(b)
}

/// The index of the highest nonzero byte of `s` and that byte, or `(0, 0)`
/// where `s` holds no nonzero byte.
pub open spec fn signature(s: Seq<u8>) -> (nat, u8) {
    let n = significant_len(s);
    if n == 0 {
        (0, 0)
    } else {
        ((n - 1) as nat, s[n - 1])
    }
}

/// Whether the signature of `a` comes before that of `b`: a lower index, or
/// the same index and a smaller byte.
pub open spec fn signature_lt(a: Seq<u8>, b: Seq<u8>) -> bool {
    let (i, v) = signature(a);
    let (j, w) = signature(b);
    i < j || (i == j && v < w)
}

/// Whether the signature of `a` does not come after that of `b`.
pub open spec fn signature_le(a: Seq<u8>, b: Seq<u8>) -> bool {
    !signature_lt(b, a)
}

/// What `significant_len` picks out: it lies within the buffer, the byte
/// just below it is nonzero, and every byte from it on is zero.
pub proof fn lemma_significant_len(s: Seq<u8>)
    ensures
        significant_len(s) <= s.len(),
        significant_len(s) > 0 ==> s[significant_len(s) - 1] != 0,
        zero_from(s, significant_len(s) as int),
    decreases s.len(),
{
    if s.len() > 0 && s.last() == 0 {
        let t = s.drop_last();
        lemma_significant_len(t);
        assert forall|i: int| significant_len(s) <= i < s.len() implies s[i] == 0 by {
            if i < t.len() {
                assert(t[i] == 0);
            }
        }
    }
}

/// The only length with the properties of `lemma_significant_len`.
pub proof fn lemma_significant_len_unique(s: Seq<u8>, k: int)
    requires
        0 <= k <= s.len(),
        k > 0 ==> s[k - 1] != 0,
        zero_from(s, k),
    ensures
        significant_len(s) == k,
    decreases s.len(),
{
    if s.len() > 0 && s.last() == 0 {
        let t = s.drop_last();
        assert(k < s.len());
        assert forall|i: int| k <= i < t.len() implies t[i] == 0 by {
            assert(s[i] == 0);
        }
        lemma_significant_len_unique(t, k);
    } else if s.len() > 0 {
        if k < s.len() {
            assert(s[s.len() - 1] == 0);
        }
    }
}

/// The canonical form denotes the same number.
pub proof fn lemma_trimmed_value(s: Seq<u8>)
    ensures
        value(trimmed(s)) == value(s),
{
    lemma_significant_len(s);
    lemma_value_zero_tail(s, significant_len(s) as int);
}

/// The number of a buffer lies between the weight of its highest nonzero
/// byte and the next weight.
pub proof fn lemma_significant_len_bounds(s: Seq<u8>)
    ensures
        significant_len(s) == 0 <==> value(s) == 0,
        significant_len(s) > 0 ==> pow256((significant_len(s) - 1) as nat) <= value(s),
        value(s) < pow256(significant_len(s)),
{
    let n = significant_len(s);
    let t = trimmed(s);
    lemma_significant_len(s);
    lemma_trimmed_value(s);
    lemma_value_bound(t);
    if n > 0 {
        let m = (n - 1) as nat;
        assert(t.drop_last() =~= s.take(m as int));
        assert(t.last() == s[n - 1]);
        assert((t.last() as nat) * pow256(m) >= pow256(m)) by (nonlinear_arith)
            requires
                t.last() >= 1,
        ;
        lemma_pow256_step(m);
    }
}

/// The highest nonzero byte bounds the number from both sides.
pub proof fn lemma_top_byte_bounds(s: Seq<u8>)
    requires
        significant_len(s) > 0,
    ensures
        (s[significant_len(s) - 1] as nat) * pow256((significant_len(s) - 1) as nat) <= value(s),
        value(s) < (s[significant_len(s) - 1] as nat + 1) * pow256(
            (significant_len(s) - 1) as nat,
        ),
{
    let n = significant_len(s);
    let m = (n - 1) as nat;
    let t = trimmed(s);
    lemma_significant_len(s);
    lemma_trimmed_value(s);
    assert(t.drop_last() =~= s.take(m as int));
    assert(t.last() == s[n - 1]);
    lemma_value_bound(t.drop_last());
    assert((t.last() as nat + 1) * pow256(m) == (t.last() as nat) * pow256(m) + pow256(m))
        by (nonlinear_arith);
}

/// Two buffers have the same canonical form exactly when they denote the
/// same number.
pub proof fn lemma_same_number(a: Seq<u8>, b: Seq<u8>)
    ensures
        same_number(a, b) <==> value(a) == value(b),
{
    lemma_trimmed_value(a);
    lemma_trimmed_value(b);
    if value(a) == value(b) {
        let n = significant_len(a);
        let m = significant_len(b);
        lemma_significant_len(a);
        lemma_significant_len(b);
        lemma_significant_len_bounds(a);
        lemma_significant_len_bounds(b);
        if n < m {
            lemma_pow256_monotonic(n, (m - 1) as nat);
        }
        if m < n {
            lemma_pow256_monotonic(m, (n - 1) as nat);
        }
        lemma_value_unique(trimmed(a), trimmed(b));
    }
}

/// Against a buffer of at most one byte the signature decides as the
/// numbers do.
pub proof fn lemma_signature_single(s: Seq<u8>, c: Seq<u8>)
    requires
        c.len() <= 1,
    ensures
        signature_lt(s, c) <==> value(s) < value(c),
        signature_lt(c, s) <==> value(c) < value(s),
{
    lemma_significant_len(s);
    lemma_significant_len(c);
    lemma_significant_len_bounds(s);
    lemma_significant_len_bounds(c);
    lemma_trimmed_value(s);
    lemma_trimmed_value(c);
    lemma_pow256_zero();
    lemma_pow256_step(0);
    let n = significant_len(s);
    if significant_len(c) == 1 {
        lemma_value_front(trimmed(c));
        assert(trimmed(c).drop_first() =~= Seq::<u8>::empty());
        assert(value(c) == c[0]);
    }
    if n == 1 {
        lemma_value_front(trimmed(s));
        assert(trimmed(s).drop_first() =~= Seq::<u8>::empty());
        assert(value(s) == s[0]);
    }
    if n >= 2 {
        lemma_pow256_monotonic(1, (n - 1) as nat);
    }
}

/// Where the signature of `b` does not come after that of `a`, `b` has no
/// nonzero byte at or past the length of `a`.
pub proof fn lemma_signature_le_fits(a: Seq<u8>, b: Seq<u8>)
    requires
        signature_le(b, a),
    ensures
        significant_len(b) <= significant_len(a) <= a.len(),
        zero_from(b, a.len() as int),
{
    lemma_significant_len(a);
    lemma_significant_len(b);
}

} // verus!
