//! Symbol implementations for the primitive integer types.
//!
//! Integers combine by bitwise exclusive or and hash by feeding their
//! little-endian byte pattern to the standard sip-style hasher, which vstd
//! models as a fixed function of the written bytes.

use std::collections::hash_map::DefaultHasher;
use core::hash::Hasher;
use vstd::prelude::*;
use vstd::slice::slice_to_vec;
use crate::bytes::Bytes;
use crate::symbol::Symbol;

verus! {

use vstd::std_specs::hash::DefaultHasherAdditionalSpecFns;

/// The 64-bit hash of a byte string, as the standard hasher computes it
/// from one write of the whole string.
pub open spec fn spec_hash_bytes(b: Seq<u8>) -> u64 {
    DefaultHasher::spec_finish(seq![b])
}

/// Hashes a byte string with the standard hasher.
pub fn hash(bytes: &[u8]) -> (h: u64)
    ensures
        h == spec_hash_bytes(bytes@),
{
    let mut hasher = DefaultHasher::new();
    hasher.write(bytes);
    proof {
        assert(hasher@ =~= seq![bytes@]);
    }
    hasher.finish()
}

/// The `n` low-order bytes of `x`, least significant first.
pub open spec fn spec_le_bytes(x: u128, n: nat) -> Seq<u8>
    decreases n,
{
    if n == 0 {
        Seq::empty()
    } else {
        seq![(x % 256) as u8] + spec_le_bytes(x / 256, (n - 1) as nat)
    }
}

/// The hash of the `n`-byte little-endian pattern of `x`.
pub open spec fn spec_hash_le(x: u128, n: nat) -> u64 {
    spec_hash_bytes(spec_le_bytes(x, n))
}

fn le_bytes(x: u128, n: usize) -> (v: Vec<u8>)
    ensures
        v@ == spec_le_bytes(x, n as nat),
{
    let mut v: Vec<u8> = Vec::new();
    let mut cur: u128 = x;
    let mut i: usize = 0;
    while i < n
        invariant
            i <= n,
            v@.len() == i,
            spec_le_bytes(x, n as nat) == v@ + spec_le_bytes(cur, (n - i) as nat),
        decreases n - i,
    {
        let b: u8 = (cur % 256) as u8;
        proof {
            assert(spec_le_bytes(cur, (n - i) as nat) == seq![b] + spec_le_bytes(
                cur / 256,
                (n - i - 1) as nat,
            ));
            assert(v@.push(b) + spec_le_bytes(cur / 256, (n - i - 1) as nat) =~= v@ + spec_le_bytes(
                cur,
                (n - i) as nat,
            ));
        }
        v.push(b);
        cur = cur / 256;
        i = i + 1;
    }
    proof {
        assert(v@ + spec_le_bytes(cur, 0) =~= v@);
    }
    v
}

/// Hashes the `n`-byte little-endian pattern of `x`.
fn hash_le(x: u128, n: usize) -> (h: u64)
    ensures
        h == spec_hash_le(x, n as nat),
{
    let v = le_bytes(x, n);
    hash(v.as_slice())
}

impl Symbol for u8 {
    open spec fn vzero() -> u8 {
        0
    }

    open spec fn vxor(a: u8, b: u8) -> u8 {
        a ^ b
    }

    open spec fn vhash(v: u8) -> u64 {
        spec_hash_le(v as u128, 1)
    }

    fn zero() -> (r: u8)
        ensures
            r@ == Self::vzero(),
    {
        0
    }

    fn xor(&self, other: &u8) -> (r: u8)
        ensures
            r@ == Self::vxor(self@, other@),
    {
        *self ^ *other
    }

    fn get_hash(&self) -> (h: u64)
        ensures
            h == Self::vhash(self@),
    {
        hash_le(*self as u128, 1)
    }

    fn dup(&self) -> (r: u8)
        ensures
            r@ == self@,
    {
        *self
    }

    fn eq_sym(&self, other: &u8) -> (r: bool)
        ensures
            r == (self@ == other@),
    {
        *self == *other
    }
}


impl Symbol for u16 {
    open spec fn vzero() -> u16 {
        0
    }

    open spec fn vxor(a: u16, b: u16) -> u16 {
        a ^ b
    }

    open spec fn vhash(v: u16) -> u64 {
        spec_hash_le(v as u128, 2)
    }

    fn zero() -> (r: u16)
        ensures
            r@ == Self::vzero(),
    {
        0
    }

    fn xor(&self, other: &u16) -> (r: u16)
        ensures
            r@ == Self::vxor(self@, other@),
    {
        *self ^ *other
    }

    fn get_hash(&self) -> (h: u64)
        ensures
            h == Self::vhash(self@),
    {
        hash_le(*self as u128, 2)
    }

    fn dup(&self) -> (r: u16)
        ensures
            r@ == self@,
    {
        *self
    }

    fn eq_sym(&self, other: &u16) -> (r: bool)
        ensures
            r == (self@ == other@),
    {
        *self == *other
    }
}

impl Symbol for i16 {
    open spec fn vzero() -> i16 {
        0
    }

    open spec fn vxor(a: i16, b: i16) -> i16 {
        a ^ b
    }

    open spec fn vhash(v: i16) -> u64 {
        spec_hash_le(((v as u16) as u128), 2)
    }

    fn zero() -> (r: i16)
        ensures
            r@ == Self::vzero(),
    {
        0
    }

    fn xor(&self, other: &i16) -> (r: i16)
        ensures
            r@ == Self::vxor(self@, other@),
    {
        *self ^ *other
    }

    fn get_hash(&self) -> (h: u64)
        ensures
            h == Self::vhash(self@),
    {
        hash_le(((*self as u16) as u128), 2)
    }

    fn dup(&self) -> (r: i16)
        ensures
            r@ == self@,
    {
        *self
    }

    fn eq_sym(&self, other: &i16) -> (r: bool)
        ensures
            r == (self@ == other@),
    {
        *self == *other
    }
}

impl Symbol for u32 {
    open spec fn vzero() -> u32 {
        0
    }

    open spec fn vxor(a: u32, b: u32) -> u32 {
        a ^ b
    }

    open spec fn vhash(v: u32) -> u64 {
        spec_hash_le(v as u128, 4)
    }

    fn zero() -> (r: u32)
        ensures
            r@ == Self::vzero(),
    {
        0
    }

    fn xor(&self, other: &u32) -> (r: u32)
        ensures
            r@ == Self::vxor(self@, other@),
    {
        *self ^ *other
    }

    fn get_hash(&self) -> (h: u64)
        ensures
            h == Self::vhash(self@),
    {
        hash_le(*self as u128, 4)
    }

    fn dup(&self) -> (r: u32)
        ensures
            r@ == self@,
    {
        *self
    }

    fn eq_sym(&self, other: &u32) -> (r: bool)
        ensures
            r == (self@ == other@),
    {
        *self == *other
    }
}

impl Symbol for i32 {
    open spec fn vzero() -> i32 {
        0
    }

    open spec fn vxor(a: i32, b: i32) -> i32 {
        a ^ b
    }

    open spec fn vhash(v: i32) -> u64 {
        spec_hash_le(((v as u32) as u128), 4)
    }

    fn zero() -> (r: i32)
        ensures
            r@ == Self::vzero(),
    {
        0
    }

    fn xor(&self, other: &i32) -> (r: i32)
        ensures
            r@ == Self::vxor(self@, other@),
    {
        *self ^ *other
    }

    fn get_hash(&self) -> (h: u64)
        ensures
            h == Self::vhash(self@),
    {
        hash_le(((*self as u32) as u128), 4)
    }

    fn dup(&self) -> (r: i32)
        ensures
            r@ == self@,
    {
        *self
    }

    fn eq_sym(&self, other: &i32) -> (r: bool)
        ensures
            r == (self@ == other@),
    {
        *self == *other
    }
}

impl Symbol for u64 {
    open spec fn vzero() -> u64 {
        0
    }

    open spec fn vxor(a: u64, b: u64) -> u64 {
        a ^ b
    }

    open spec fn vhash(v: u64) -> u64 {
        spec_hash_le(v as u128, 8)
    }

    fn zero() -> (r: u64)
        ensures
            r@ == Self::vzero(),
    {
        0
    }

    fn xor(&self, other: &u64) -> (r: u64)
        ensures
            r@ == Self::vxor(self@, other@),
    {
        *self ^ *other
    }

    fn get_hash(&self) -> (h: u64)
        ensures
            h == Self::vhash(self@),
    {
        hash_le(*self as u128, 8)
    }

    fn dup(&self) -> (r: u64)
        ensures
            r@ == self@,
    {
        *self
    }

    fn eq_sym(&self, other: &u64) -> (r: bool)
        ensures
            r == (self@ == other@),
    {
        *self == *other
    }
}

impl Symbol for i64 {
    open spec fn vzero() -> i64 {
        0
    }

    open spec fn vxor(a: i64, b: i64) -> i64 {
        a ^ b
    }

    open spec fn vhash(v: i64) -> u64 {
        spec_hash_le(((v as u64) as u128), 8)
    }

    fn zero() -> (r: i64)
        ensures
            r@ == Self::vzero(),
    {
        0
    }

    fn xor(&self, other: &i64) -> (r: i64)
        ensures
            r@ == Self::vxor(self@, other@),
    {
        *self ^ *other
    }

    fn get_hash(&self) -> (h: u64)
        ensures
            h == Self::vhash(self@),
    {
        hash_le(((*self as u64) as u128), 8)
    }

    fn dup(&self) -> (r: i64)
        ensures
            r@ == self@,
    {
        *self
    }

    fn eq_sym(&self, other: &i64) -> (r: bool)
        ensures
            r == (self@ == other@),
    {
        *self == *other
    }
}

impl Symbol for u128 {
    open spec fn vzero() -> u128 {
        0
    }

    open spec fn vxor(a: u128, b: u128) -> u128 {
        a ^ b
    }

    open spec fn vhash(v: u128) -> u64 {
        spec_hash_le(v as u128, 16)
    }

    fn zero() -> (r: u128)
        ensures
            r@ == Self::vzero(),
    {
        0
    }

    fn xor(&self, other: &u128) -> (r: u128)
        ensures
            r@ == Self::vxor(self@, other@),
    {
        *self ^ *other
    }

    fn get_hash(&self) -> (h: u64)
        ensures
            h == Self::vhash(self@),
    {
        hash_le(*self as u128, 16)
    }

    fn dup(&self) -> (r: u128)
        ensures
            r@ == self@,
    {
        *self
    }

    fn eq_sym(&self, other: &u128) -> (r: bool)
        ensures
            r == (self@ == other@),
    {
        *self == *other
    }
}

impl Symbol for i128 {
    open spec fn vzero() -> i128 {
        0
    }

    open spec fn vxor(a: i128, b: i128) -> i128 {
        a ^ b
    }

    open spec fn vhash(v: i128) -> u64 {
        spec_hash_le(v as u128, 16)
    }

    fn zero() -> (r: i128)
        ensures
            r@ == Self::vzero(),
    {
        0
    }

    fn xor(&self, other: &i128) -> (r: i128)
        ensures
            r@ == Self::vxor(self@, other@),
    {
        *self ^ *other
    }

    fn get_hash(&self) -> (h: u64)
        ensures
            h == Self::vhash(self@),
    {
        hash_le(*self as u128, 16)
    }

    fn dup(&self) -> (r: i128)
        ensures
            r@ == self@,
    {
        *self
    }

    fn eq_sym(&self, other: &i128) -> (r: bool)
        ensures
            r == (self@ == other@),
    {
        *self == *other
    }
}


/// Law: `u8` symbols form a self-inverse algebra: combining twice with the
/// same value restores the original, and combining a value with itself
/// yields the identity element zero.
pub proof fn lemma_xor_self_inverse_u8(a: u8, b: u8)
    ensures
        (a ^ b) ^ b == a,
        a ^ a == 0,
{
    assert((a ^ b) ^ b == a && a ^ a == 0) by (bit_vector);
}

/// Law: `u16` symbols form a self-inverse algebra: combining twice with the
/// same value restores the original, and combining a value with itself
/// yields the identity element zero.
pub proof fn lemma_xor_self_inverse_u16(a: u16, b: u16)
    ensures
        (a ^ b) ^ b == a,
        a ^ a == 0,
{
    assert((a ^ b) ^ b == a && a ^ a == 0) by (bit_vector);
}

/// Law: `i16` symbols form a self-inverse algebra: combining twice with the
/// same value restores the original, and combining a value with itself
/// yields the identity element zero.
pub proof fn lemma_xor_self_inverse_i16(a: i16, b: i16)
    ensures
        (a ^ b) ^ b == a,
        a ^ a == 0,
{
    assert((a ^ b) ^ b == a && a ^ a == 0) by (bit_vector);
}

/// Law: `u32` symbols form a self-inverse algebra: combining twice with the
/// same value restores the original, and combining a value with itself
/// yields the identity element zero.
pub proof fn lemma_xor_self_inverse_u32(a: u32, b: u32)
    ensures
        (a ^ b) ^ b == a,
        a ^ a == 0,
{
    assert((a ^ b) ^ b == a && a ^ a == 0) by (bit_vector);
}

/// Law: `i32` symbols form a self-inverse algebra: combining twice with the
/// same value restores the original, and combining a value with itself
/// yields the identity element zero.
pub proof fn lemma_xor_self_inverse_i32(a: i32, b: i32)
    ensures
        (a ^ b) ^ b == a,
        a ^ a == 0,
{
    assert((a ^ b) ^ b == a && a ^ a == 0) by (bit_vector);
}

/// Law: `u64` symbols form a self-inverse algebra: combining twice with the
/// same value restores the original, and combining a value with itself
/// yields the identity element zero.
pub proof fn lemma_xor_self_inverse_u64(a: u64, b: u64)
    ensures
        (a ^ b) ^ b == a,
        a ^ a == 0,
{
    assert((a ^ b) ^ b == a && a ^ a == 0) by (bit_vector);
}

/// Law: `i64` symbols form a self-inverse algebra: combining twice with the
/// same value restores the original, and combining a value with itself
/// yields the identity element zero.
pub proof fn lemma_xor_self_inverse_i64(a: i64, b: i64)
    ensures
        (a ^ b) ^ b == a,
        a ^ a == 0,
{
    assert((a ^ b) ^ b == a && a ^ a == 0) by (bit_vector);
}

/// Law: `u128` symbols form a self-inverse algebra: combining twice with the
/// same value restores the original, and combining a value with itself
/// yields the identity element zero.
pub proof fn lemma_xor_self_inverse_u128(a: u128, b: u128)
    ensures
        (a ^ b) ^ b == a,
        a ^ a == 0,
{
    assert((a ^ b) ^ b == a && a ^ a == 0) by (bit_vector);
}

/// Law: `i128` symbols form a self-inverse algebra: combining twice with the
/// same value restores the original, and combining a value with itself
/// yields the identity element zero.
pub proof fn lemma_xor_self_inverse_i128(a: i128, b: i128)
    ensures
        (a ^ b) ^ b == a,
        a ^ a == 0,
{
    assert((a ^ b) ^ b == a && a ^ a == 0) by (bit_vector);
}

/// Relies on `String::from_utf8`: it returns the string holding exactly the
/// given bytes when they are valid UTF-8, and an error otherwise.
#[verifier::external_body]
fn string_from_utf8(bytes: Vec<u8>) -> (r: Option<String>)
    ensures
        r is Some <==> vstd::utf8::valid_utf8(bytes@),
        match r {
            Some(s) => vstd::utf8::encode_utf8(s@) == bytes@,
            None => true,
        },
{
    String::from_utf8(bytes).ok()
}

impl Bytes for String {
    open spec fn senc(v: String) -> Seq<u8> {
        vstd::utf8::encode_utf8(v@)
    }

    open spec fn sdec_ok(b: Seq<u8>, v: String) -> bool {
        vstd::utf8::valid_utf8(b) && vstd::utf8::encode_utf8(v@) == b
    }

    open spec fn sdec_fails(b: Seq<u8>) -> bool {
        !vstd::utf8::valid_utf8(b)
    }

    fn to_bytes(&self) -> (r: Vec<u8>)
        ensures
            r@ == Self::senc(*self),
    {
        slice_to_vec(self.as_str().as_bytes())
    }

    fn from_bytes(bytes: &[u8]) -> (r: Option<String>)
        ensures
            match r {
                Some(v) => Self::sdec_ok(bytes@, v),
                None => Self::sdec_fails(bytes@),
            },
    {
        string_from_utf8(slice_to_vec(bytes))
    }
}

impl Bytes for Vec<u8> {
    open spec fn senc(v: Vec<u8>) -> Seq<u8> {
        v@
    }

    open spec fn sdec_ok(b: Seq<u8>, v: Vec<u8>) -> bool {
        v@ == b
    }

    open spec fn sdec_fails(b: Seq<u8>) -> bool {
        false
    }

    fn to_bytes(&self) -> (r: Vec<u8>)
        ensures
            r@ == Self::senc(*self),
    {
        slice_to_vec(self.as_slice())
    }

    fn from_bytes(bytes: &[u8]) -> (r: Option<Vec<u8>>)
        ensures
            match r {
                Some(v) => Self::sdec_ok(bytes@, v),
                None => Self::sdec_fails(bytes@),
            },
    {
        Some(slice_to_vec(bytes))
    }
}

} // verus!
