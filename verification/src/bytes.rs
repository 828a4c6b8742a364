//! Byte-encoded payloads.
//!
//! [`AsBytes`] wraps a fixed-width byte encoding of a value and combines by
//! byte-wise exclusive or, padding the shorter operand with zeros.
//! [`AsVariableBytes`] does the same for variable-length encodings, and
//! right-trims trailing zero bytes after every combination so that equal
//! payloads keep equal representations.

use core::marker::PhantomData;
use vstd::prelude::*;
use vstd::slice::{slice_index_get, slice_to_vec};
use crate::impls::{hash, spec_hash_bytes};
use crate::symbol::Symbol;

verus! {

/// A value with a byte encoding.  Decoding may fail; an implementation says
/// through `sdec_ok` and `sdec_fails` exactly when it does.
pub trait Bytes: Sized {
    /// The encoding of a value.  The default says nothing; an
    /// implementation meaning to be reasoned about overrides it.
    open spec fn senc(v: Self) -> Seq<u8> {
        Seq::empty()
    }

    /// Whether `v` is the decoding of `b`.  The default says nothing; an
    /// implementation meaning to be reasoned about overrides it.
    open spec fn sdec_ok(b: Seq<u8>, v: Self) -> bool {
        true
    }

    /// Whether `b` has no decoding.  The default says nothing; an
    /// implementation meaning to be reasoned about overrides it.
    open spec fn sdec_fails(b: Seq<u8>) -> bool {
        true
    }

    /// Encodes the value.
    fn to_bytes(&self) -> (r: Vec<u8>)
        ensures
            r@ == Self::senc(*self),
    ;

    /// Decodes a value, or reports that the bytes decode to nothing.
    fn from_bytes(bytes: &[u8]) -> (r: Option<Self>)
        ensures
            match r {
                Some(v) => Self::sdec_ok(bytes@, v),
                None => Self::sdec_fails(bytes@),
            },
    ;
}

/// The byte of `s` at position `i`, reading positions past the end as zero.
pub open spec fn byte_at(s: Seq<u8>, i: int) -> u8 {
    if 0 <= i < s.len() {
        s[i]
    } else {
        0
    }
}

/// Byte-wise exclusive or, the shorter operand padded with zeros.
pub open spec fn spec_xor_pad(a: Seq<u8>, b: Seq<u8>) -> Seq<u8> {
    Seq::new(if a.len() < b.len() { b.len() } else { a.len() }, |i: int| byte_at(a, i) ^ byte_at(b, i))
}

/// The sequence with its trailing zero bytes removed.
pub open spec fn spec_trim(s: Seq<u8>) -> Seq<u8>
    decreases s.len(),
{
    if s.len() == 0 || s.last() != 0 {
        s
    } else {
        spec_trim(s.drop_last())
    }
}

/// Whether a byte string carries no trailing zero bytes.
pub open spec fn is_trimmed(s: Seq<u8>) -> bool {
    s.len() == 0 || s.last() != 0
}

/// A byte is unchanged by exclusive or with zero.
pub proof fn lemma_u8_xor_zero(x: u8)
    ensures
        x ^ 0 == x,
        0 ^ x == x,
{
    assert(x ^ 0 == x && 0 ^ x == x) by (bit_vector);
}

/// Byte exclusive or commutes.
pub proof fn lemma_u8_xor_comm(x: u8, y: u8)
    ensures
        x ^ y == y ^ x,
{
    assert(x ^ y == y ^ x) by (bit_vector);
}

/// Byte exclusive or is self-cancelling.
pub proof fn lemma_u8_xor_cancel(x: u8, y: u8)
    ensures
        (x ^ y) ^ y == x,
        x ^ x == 0,
{
    assert((x ^ y) ^ y == x && x ^ x == 0) by (bit_vector);
}

/// Byte-wise exclusive or of two byte strings, padding the shorter one.
pub fn naive_xor(s1: &[u8], s2: &[u8]) -> (r: Vec<u8>)
    ensures
        r@ == spec_xor_pad(s1@, s2@),
{
    let (shorter, longer) = if s1.len() < s2.len() {
        (s1, s2)
    } else {
        (s2, s1)
    };
    let mut result: Vec<u8> = slice_to_vec(longer);
    let mut i: usize = 0;
    while i < shorter.len()
        invariant
            shorter@.len() <= longer@.len(),
            i <= shorter@.len(),
            result@.len() == longer@.len(),
            forall|j: int| 0 <= j < i ==> result@[j] == (byte_at(longer@, j) ^ byte_at(shorter@, j)),
            forall|j: int| i <= j < longer@.len() ==> result@[j] == longer@[j],
        decreases shorter@.len() - i,
    {
        let b: u8 = result[i] ^ *slice_index_get(shorter, i);
        result[i] = b;
        i = i + 1;
    }
    proof {
        assert forall|j: int| 0 <= j < longer@.len() implies result@[j] == (byte_at(
            s1@,
            j,
        ) ^ byte_at(s2@, j)) by {
            if j >= i {
                assert(byte_at(shorter@, j) == 0);
                lemma_u8_xor_zero(longer@[j]);
            }
            lemma_u8_xor_comm(byte_at(longer@, j), byte_at(shorter@, j));
        }
        assert(result@ =~= spec_xor_pad(s1@, s2@));
    }
    result
}

/// Removes trailing zero bytes in place.
fn trim_in_place(v: &mut Vec<u8>)
    ensures
        final(v)@ == spec_trim(old(v)@),
{
    let ghost s = v@;
    let mut i: usize = v.len();
    proof {
        assert(s.subrange(0, s.len() as int) =~= s);
    }
    while i > 0 && v[i - 1] == 0u8
        invariant
            i <= v@.len(),
            v@ == s,
            spec_trim(s) == spec_trim(s.subrange(0, i as int)),
            forall|j: int| i <= j < s.len() ==> s[j] == 0,
        decreases i,
    {
        proof {
            let pre = s.subrange(0, i as int);
            assert(pre.last() == 0);
            assert(pre.drop_last() =~= s.subrange(0, i - 1));
        }
        i = i - 1;
    }
    proof {
        let pre = s.subrange(0, i as int);
        if i == 0 {
            assert(pre =~= Seq::<u8>::empty());
        } else {
            assert(pre.last() == s[i - 1]);
        }
        assert(spec_trim(pre) == pre);
    }
    v.truncate(i);
    proof {
        assert(v@ =~= spec_trim(s));
    }
}

/// A payload carried as a fixed-width byte encoding.
pub struct AsBytes<T> {
    pub _marker: PhantomData<T>,
    pub bytes: Vec<u8>,
}

impl<T> View for AsBytes<T> {
    type V = Seq<u8>;

    open spec fn view(&self) -> Seq<u8> {
        self.bytes@
    }
}

impl<T: Bytes> AsBytes<T> {
    /// Wraps the encoding of a value.
    pub fn new(value: T) -> (r: Self)
        ensures
            r@ == T::senc(value),
    {
        AsBytes { _marker: PhantomData, bytes: value.to_bytes() }
    }

    /// The carried bytes.
    pub fn as_bytes(&self) -> (r: &[u8])
        ensures
            r@ == self@,
    {
        self.bytes.as_slice()
    }

    /// Decodes the carried bytes back into a value.
    pub fn into(self) -> (r: Option<T>)
        ensures
            match r {
                Some(v) => T::sdec_ok(self@, v),
                None => T::sdec_fails(self@),
            },
    {
        T::from_bytes(self.bytes.as_slice())
    }
}

impl<T> Symbol for AsBytes<T> {
    open spec fn vzero() -> Seq<u8> {
        Seq::empty()
    }

    open spec fn vxor(a: Seq<u8>, b: Seq<u8>) -> Seq<u8> {
        spec_xor_pad(a, b)
    }

    open spec fn vhash(v: Seq<u8>) -> u64 {
        spec_hash_bytes(v)
    }

    fn zero() -> (r: Self)
        ensures
            r@ == Self::vzero(),
    {
        let r = AsBytes { _marker: PhantomData, bytes: Vec::new() };
        proof {
            assert(r@ =~= Seq::<u8>::empty());
        }
        r
    }

    fn xor(&self, other: &Self) -> (r: Self)
        ensures
            r@ == Self::vxor(self@, other@),
    {
        AsBytes { _marker: PhantomData, bytes: naive_xor(self.bytes.as_slice(), other.bytes.as_slice()) }
    }

    fn get_hash(&self) -> (h: u64)
        ensures
            h == Self::vhash(self@),
    {
        hash(self.bytes.as_slice())
    }

    fn dup(&self) -> (r: Self)
        ensures
            r@ == self@,
    {
        AsBytes { _marker: PhantomData, bytes: slice_to_vec(self.bytes.as_slice()) }
    }

    fn eq_sym(&self, other: &Self) -> (r: bool)
        ensures
            r == (self@ == other@),
    {
        eq_bytes(self.bytes.as_slice(), other.bytes.as_slice())
    }
}

/// A payload carried as a variable-length byte encoding, kept right-trimmed
/// of trailing zero bytes after every combination.
pub struct AsVariableBytes<T> {
    pub _marker: PhantomData<T>,
    pub bytes: Vec<u8>,
}

impl<T> View for AsVariableBytes<T> {
    type V = Seq<u8>;

    open spec fn view(&self) -> Seq<u8> {
        self.bytes@
    }
}

impl<T: Bytes> AsVariableBytes<T> {
    /// Wraps the encoding of a value.
    pub fn new(value: T) -> (r: Self)
        ensures
            r@ == T::senc(value),
    {
        AsVariableBytes { _marker: PhantomData, bytes: value.to_bytes() }
    }

    /// The carried bytes.
    pub fn as_bytes(&self) -> (r: &[u8])
        ensures
            r@ == self@,
    {
        self.bytes.as_slice()
    }

    /// Decodes the carried bytes back into a value.
    pub fn into(self) -> (r: Option<T>)
        ensures
            match r {
                Some(v) => T::sdec_ok(self@, v),
                None => T::sdec_fails(self@),
            },
    {
        T::from_bytes(self.bytes.as_slice())
    }
}

impl<T> Symbol for AsVariableBytes<T> {
    open spec fn vzero() -> Seq<u8> {
        Seq::empty()
    }

    open spec fn vxor(a: Seq<u8>, b: Seq<u8>) -> Seq<u8> {
        spec_trim(spec_xor_pad(a, b))
    }

    open spec fn vhash(v: Seq<u8>) -> u64 {
        spec_hash_bytes(v)
    }

    fn zero() -> (r: Self)
        ensures
            r@ == Self::vzero(),
    {
        let r = AsVariableBytes { _marker: PhantomData, bytes: Vec::new() };
        proof {
            assert(r@ =~= Seq::<u8>::empty());
        }
        r
    }

    fn xor(&self, other: &Self) -> (r: Self)
        ensures
            r@ == Self::vxor(self@, other@),
    {
        let mut combined = naive_xor(self.bytes.as_slice(), other.bytes.as_slice());
        trim_in_place(&mut combined);
        AsVariableBytes { _marker: PhantomData, bytes: combined }
    }

    fn get_hash(&self) -> (h: u64)
        ensures
            h == Self::vhash(self@),
    {
        hash(self.bytes.as_slice())
    }

    fn dup(&self) -> (r: Self)
        ensures
            r@ == self@,
    {
        AsVariableBytes { _marker: PhantomData, bytes: slice_to_vec(self.bytes.as_slice()) }
    }

    fn eq_sym(&self, other: &Self) -> (r: bool)
        ensures
            r == (self@ == other@),
    {
        eq_bytes(self.bytes.as_slice(), other.bytes.as_slice())
    }
}

/// Bytes whose exclusive or is zero are equal.
pub proof fn lemma_u8_xor_eq_zero(x: u8, y: u8)
    ensures
        x ^ y == 0 ==> x == y,
{
    assert(x ^ y == 0 ==> x == y) by (bit_vector);
}

/// Law: the fixed-width byte algebra is self-inverse.  Combining a value
/// twice with the same operand restores it whenever the operand is no
/// longer than the value (fixed-width encodings share one length), and
/// combining a value with itself yields all-zero bytes of its own length.
pub proof fn lemma_fixed_bytes_self_inverse(a: Seq<u8>, b: Seq<u8>)
    requires
        b.len() <= a.len(),
    ensures
        spec_xor_pad(spec_xor_pad(a, b), b) == a,
        spec_xor_pad(a, a) == Seq::new(a.len(), |i: int| 0u8),
{
    let ab = spec_xor_pad(a, b);
    assert forall|i: int| 0 <= i < a.len() implies spec_xor_pad(ab, b)[i] == a[i] by {
        lemma_u8_xor_cancel(byte_at(a, i), byte_at(b, i));
    }
    assert(spec_xor_pad(ab, b) =~= a);
    assert forall|i: int| 0 <= i < a.len() implies spec_xor_pad(a, a)[i] == 0u8 by {
        lemma_u8_xor_cancel(byte_at(a, i), byte_at(a, i));
    }
    assert(spec_xor_pad(a, a) =~= Seq::new(a.len(), |i: int| 0u8));
}

/// Trimming returns a prefix; every dropped position held a zero byte.
pub proof fn lemma_trim_props(s: Seq<u8>)
    ensures
        spec_trim(s).len() <= s.len(),
        spec_trim(s) == s.subrange(0, spec_trim(s).len() as int),
        forall|i: int| spec_trim(s).len() <= i < s.len() ==> s[i] == 0,
        is_trimmed(spec_trim(s)),
    decreases s.len(),
{
    if s.len() == 0 || s.last() != 0 {
        assert(s.subrange(0, s.len() as int) =~= s);
    } else {
        lemma_trim_props(s.drop_last());
        let t = spec_trim(s.drop_last());
        assert(s.drop_last() =~= s.subrange(0, s.len() - 1));
        assert(s.drop_last().subrange(0, t.len() as int) =~= s.subrange(0, t.len() as int));
        assert forall|i: int| t.len() <= i < s.len() implies s[i] == 0 by {
            if i < s.len() - 1 {
                assert(s.drop_last()[i] == 0);
            } else {
                assert(s[i] == s.last());
            }
        }
    }
}

/// A sequence that is a trimmed prefix followed by zeros trims to exactly
/// that prefix.
pub proof fn lemma_trim_to_prefix(s: Seq<u8>, l: int)
    requires
        0 <= l <= s.len(),
        forall|i: int| l <= i < s.len() ==> s[i] == 0,
        l == 0 || s[l - 1] != 0,
    ensures
        spec_trim(s) == s.subrange(0, l),
    decreases s.len(),
{
    if s.len() == l {
        assert(s.subrange(0, l) =~= s);
        if l > 0 {
            assert(s.last() == s[l - 1]);
        }
    } else {
        assert(s.last() == 0);
        lemma_trim_to_prefix(s.drop_last(), l);
        assert(s.drop_last() =~= s.subrange(0, s.len() - 1));
        assert(s.drop_last().subrange(0, l) =~= s.subrange(0, l));
    }
}

/// Law: the variable-length byte algebra is self-inverse on trimmed
/// values: combining twice with the same operand restores the original, and
/// combining a value with itself yields the identity (the empty byte
/// string).  Values whose encoding ends in a zero byte are excluded: the
/// trimming step erases such a tail, so they are not fixed points.
pub proof fn lemma_var_bytes_self_inverse(a: Seq<u8>, b: Seq<u8>)
    requires
        is_trimmed(a),
        is_trimmed(b),
    ensures
        spec_trim(spec_xor_pad(spec_trim(spec_xor_pad(a, b)), b)) == a,
        spec_trim(spec_xor_pad(a, a)) == Seq::<u8>::empty(),
{
    // Combining a value with itself leaves only zero bytes, which trim away.
    assert forall|i: int| 0 <= i < a.len() implies spec_xor_pad(a, a)[i] == 0u8 by {
        lemma_u8_xor_cancel(byte_at(a, i), byte_at(a, i));
    }
    lemma_trim_to_prefix(spec_xor_pad(a, a), 0);
    assert(spec_xor_pad(a, a).subrange(0, 0) =~= Seq::<u8>::empty());

    let x = spec_xor_pad(a, b);
    lemma_trim_props(x);
    let t = spec_trim(x);
    let u = spec_xor_pad(t, b);
    assert(t.len() <= x.len() && b.len() <= x.len());

    // Every position of the second combination reads back the original byte.
    assert forall|i: int| 0 <= i < u.len() implies u[i] == byte_at(a, i) by {
        if i < t.len() {
            assert(t[i] == x[i]);
            lemma_u8_xor_cancel(byte_at(a, i), byte_at(b, i));
        } else {
            assert(byte_at(t, i) == 0);
            assert(i < x.len());
            assert(x[i] == 0);
            lemma_u8_xor_eq_zero(byte_at(a, i), byte_at(b, i));
            lemma_u8_xor_zero(byte_at(b, i));
        }
    }

    // The second combination is at least as long as the original: the
    // original's non-zero last byte cannot sit in the trimmed-away region.
    if a.len() > 0 {
        let i0 = a.len() - 1;
        if i0 >= u.len() {
            assert(i0 >= t.len() && i0 >= b.len());
            assert(i0 < x.len());
            assert(x[i0] == 0);
            assert(x[i0] == (byte_at(a, i0) ^ byte_at(b, i0)));
            assert(byte_at(b, i0) == 0);
            lemma_u8_xor_zero(byte_at(a, i0));
            assert(a[i0] == 0);
        }
        assert(a.len() <= u.len());
        assert(u[a.len() - 1] == a.last());
    }

    assert forall|i: int| a.len() <= i < u.len() implies u[i] == 0 by {
        assert(byte_at(a, i) == 0);
    }
    lemma_trim_to_prefix(u, a.len() as int);
    assert(u.subrange(0, a.len() as int) =~= a);
}

/// Whether two byte strings are equal.
fn eq_bytes(a: &[u8], b: &[u8]) -> (r: bool)
    ensures
        r == (a@ == b@),
{
    if a.len() != b.len() {
        proof {
            assert(a@ != b@);
        }
        return false;
    }
    let mut i: usize = 0;
    while i < a.len()
        invariant
            a@.len() == b@.len(),
            i <= a@.len(),
            forall|j: int| 0 <= j < i ==> a@[j] == b@[j],
        decreases a@.len() - i,
    {
        if *slice_index_get(a, i) != *slice_index_get(b, i) {
            proof {
                assert(a@ != b@);
            }
            return false;
        }
        i = i + 1;
    }
    proof {
        assert(a@ =~= b@);
    }
    true
}

} // verus!
