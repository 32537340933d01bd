//! The mathematical model of big unsigned integers as big-endian byte
//! strings, and the verified helpers that work on that representation.

use vstd::arithmetic::div_mod::{lemma_fundamental_div_mod, lemma_fundamental_div_mod_converse};
use vstd::prelude::*;

verus! {

/// The unsigned integer that a big-endian byte string stands for.
pub open spec fn be_value(s: Seq<u8>) -> nat
    decreases s.len(),
{
    if s.len() == 0 {
        0
    } else {
        be_value(s.drop_last()) * 256 + s.last() as nat
    }
}

/// The minimal big-endian representation of a value: one zero byte for zero,
/// no leading zero byte otherwise. This is the form num-bigint's
/// `to_bytes_be` produces.
pub open spec fn min_be(n: nat) -> Seq<u8>
    decreases n,
{
    if n < 256 {
        seq![n as u8]
    } else {
        min_be(n / 256).push((n % 256) as u8)
    }
}

/// The decimal digit string of a value, most significant digit first, as
/// ASCII bytes; `"0"` for zero, no leading zeros otherwise.
pub open spec fn dec_digits(n: nat) -> Seq<u8>
    decreases n,
{
    if n < 10 {
        seq![(48 + n) as u8]
    } else {
        dec_digits(n / 10).push((48 + n % 10) as u8)
    }
}

/// A minimal representation stands for the value it was built from.
pub proof fn lemma_be_value_min_be(n: nat)
    ensures
        be_value(min_be(n)) == n,
        min_be(n).len() >= 1,
    decreases n,
{
    if n < 256 {
        let s = min_be(n);
        assert(s == seq![n as u8]);
        assert(s.drop_last() =~= Seq::<u8>::empty());
        assert(s.last() == n as u8);
        assert(be_value(s) == be_value(Seq::<u8>::empty()) * 256 + (n as u8) as nat);
    } else {
        lemma_be_value_min_be(n / 256);
        let s = min_be(n);
        assert(s == min_be(n / 256).push((n % 256) as u8));
        assert(s.drop_last() =~= min_be(n / 256));
        assert(s.last() == (n % 256) as u8);
        assert((n % 256) as u8 as nat == n % 256);
        lemma_fundamental_div_mod(n as int, 256);
        assert(n == 256 * (n / 256) + n % 256);
        assert(be_value(s) == (n / 256) * 256 + n % 256);
        assert((n / 256) * 256 == 256 * (n / 256)) by (nonlinear_arith);
    }
}

/// A byte string with a nonzero first byte stands for a nonzero value.
pub proof fn lemma_be_value_pos(s: Seq<u8>)
    requires
        s.len() >= 1,
        s[0] != 0,
    ensures
        be_value(s) >= 1,
    decreases s.len(),
{
    if s.len() == 1 {
    } else {
        assert(s.drop_last()[0] == s[0]);
        lemma_be_value_pos(s.drop_last());
    }
}

/// A byte string with a nonzero first byte is the minimal representation of
/// its own value.
pub proof fn lemma_min_be_canonical(s: Seq<u8>)
    requires
        s.len() >= 1,
        s[0] != 0,
    ensures
        min_be(be_value(s)) == s,
    decreases s.len(),
{
    if s.len() == 1 {
        assert(be_value(s) == be_value(s.drop_last()) * 256 + s.last());
        assert(s.drop_last() =~= Seq::<u8>::empty());
        assert(be_value(s) == s[0]);
        assert(min_be(be_value(s)) =~= s);
    } else {
        let t = s.drop_last();
        let v = be_value(s);
        assert(t[0] == s[0]);
        lemma_be_value_pos(t);
        lemma_min_be_canonical(t);
        assert(v == be_value(t) * 256 + s.last());
        assert(v >= 256) by {
            assert(be_value(t) * 256 >= 1 * 256) by (nonlinear_arith)
                requires
                    be_value(t) >= 1,
            ;
        }
        lemma_fundamental_div_mod_converse(v as int, 256, be_value(t) as int, s.last() as int);
        assert(v / 256 == be_value(t));
        assert(v % 256 == s.last());
        assert(min_be(v) =~= t.push(s.last()));
        assert(t.push(s.last()) =~= s);
    }
}

/// Dropping a leading zero byte does not change the value.
pub proof fn lemma_be_value_drop_zero(s: Seq<u8>)
    requires
        s.len() >= 1,
        s[0] == 0,
    ensures
        be_value(s) == be_value(s.drop_first()),
    decreases s.len(),
{
    if s.len() == 1 {
        assert(s.drop_last() =~= Seq::<u8>::empty());
        assert(s.drop_first() =~= Seq::<u8>::empty());
    } else {
        let t = s.drop_last();
        assert(t[0] == 0);
        lemma_be_value_drop_zero(t);
        assert(t.drop_first() =~= s.drop_first().drop_last());
        assert(s.drop_first().last() == s.last());
        assert(be_value(s.drop_first()) == be_value(s.drop_first().drop_last()) * 256 + s.last());
    }
}

/// A byte string of zeros stands for zero.
pub proof fn lemma_be_value_zeros(s: Seq<u8>)
    requires
        forall|j: int| 0 <= j < s.len() ==> s[j] == 0,
    ensures
        be_value(s) == 0,
    decreases s.len(),
{
    if s.len() > 0 {
        lemma_be_value_zeros(s.drop_last());
    }
}

/// Skipping a prefix of zero bytes does not change the value.
pub proof fn lemma_be_value_skip_zeros(s: Seq<u8>, i: int)
    requires
        0 <= i <= s.len(),
        forall|j: int| 0 <= j < i ==> s[j] == 0,
    ensures
        be_value(s) == be_value(s.subrange(i, s.len() as int)),
    decreases i,
{
    if i > 0 {
        lemma_be_value_drop_zero(s);
        assert(s.drop_first() =~= s.subrange(1, s.len() as int));
        let t = s.subrange(1, s.len() as int);
        lemma_be_value_skip_zeros(t, i - 1);
        assert(t.subrange(i - 1, t.len() as int) =~= s.subrange(i, s.len() as int));
    } else {
        assert(s.subrange(0, s.len() as int) =~= s);
    }
}

/// Reduce a byte string to the minimal big-endian representation of its
/// value, as num-bigint would produce it.
pub fn trim_be(v: &[u8]) -> (r: Vec<u8>)
    ensures
        r@ == min_be(be_value(v@)),
{
    let mut i: usize = 0;
    while i < v.len() && v[i] == 0
        invariant
            0 <= i <= v@.len(),
            forall|j: int| 0 <= j < i ==> v@[j] == 0,
        decreases v@.len() - i,
    {
        i = i + 1;
    }
    if i == v.len() {
        proof {
            lemma_be_value_zeros(v@);
        }
        let mut r: Vec<u8> = Vec::new();
        r.push(0u8);
        assert(r@ =~= min_be(0));
        r
    } else {
        let mut r: Vec<u8> = Vec::new();
        let mut k: usize = i;
        while k < v.len()
            invariant
                i <= k <= v@.len(),
                r@ =~= v@.subrange(i as int, k as int),
            decreases v@.len() - k,
        {
            r.push(v[k]);
            k = k + 1;
        }
        proof {
            assert(r@ =~= v@.subrange(i as int, v@.len() as int));
            lemma_be_value_skip_zeros(v@, i as int);
            assert(r@[0] == v@[i as int]);
            lemma_min_be_canonical(r@);
        }
        r
    }
}

/// Byte-string equality, which on minimal representations is value equality.
pub fn bytes_eq(a: &[u8], b: &[u8]) -> (r: bool)
    ensures
        r == (a@ == b@),
{
    if a.len() != b.len() {
        assert(a@ != b@) by {
            assert(a@.len() != b@.len());
        }
        return false;
    }
    let mut i: usize = 0;
    while i < a.len()
        invariant
            a@.len() == b@.len(),
            0 <= i <= a@.len(),
            forall|j: int| 0 <= j < i ==> a@[j] == b@[j],
        decreases a@.len() - i,
    {
        if a[i] != b[i] {
            assert(a@ != b@);
            return false;
        }
        i = i + 1;
    }
    proof {
        assert(a@ =~= b@);
    }
    true
}

/// The decimal digit string of a 64-bit value, as `u64::to_string` would
/// print it.
pub fn u64_to_dec(x: u64) -> (r: Vec<u8>)
    ensures
        r@ == dec_digits(x as nat),
    decreases x,
{
    if x < 10 {
        let mut r: Vec<u8> = Vec::new();
        r.push(48u8 + x as u8);
        assert(r@ =~= dec_digits(x as nat));
        r
    } else {
        let mut r = u64_to_dec(x / 10);
        r.push(48u8 + (x % 10) as u8);
        assert(r@ =~= dec_digits(x as nat));
        r
    }
}

} // verus!
