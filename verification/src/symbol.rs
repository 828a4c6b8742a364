//! The symbol algebra.
//!
//! A [`Symbol`] is a payload with an identity element, a self-inverse
//! combination `xor`, and a stable 64-bit content hash.  A [`CodedSymbol`]
//! is the running algebraic sum of a set of symbols: payloads combined with
//! `xor`, hashes combined with bitwise exclusive or, and a signed counter of
//! net contributions.  All contracts are stated over the payload's
//! mathematical view.

use vstd::prelude::*;

verus! {

/// A reconcilable payload.  Contracts speak of the payload's view
/// (`View::V`), so each implementation states its algebra over the
/// mathematical content of its values.
pub trait Symbol: View + Sized {
    /// The view of the identity element.
    spec fn vzero() -> Self::V;

    /// The combination, at the level of views.
    spec fn vxor(a: Self::V, b: Self::V) -> Self::V;

    /// The 64-bit content hash, at the level of views.
    spec fn vhash(v: Self::V) -> u64;

    /// The identity element.
    fn zero() -> (r: Self)
        ensures
            r@ == Self::vzero(),
    ;

    /// Combines two payloads.
    fn xor(&self, other: &Self) -> (r: Self)
        ensures
            r@ == Self::vxor(self@, other@),
    ;

    /// Hashes the payload's content; equal views hash equally.
    fn get_hash(&self) -> (h: u64)
        ensures
            h == Self::vhash(self@),
    ;

    /// An exact copy.
    fn dup(&self) -> (r: Self)
        ensures
            r@ == self@,
    ;

    /// Value equality, at the level of views.
    fn eq_sym(&self, other: &Self) -> (r: bool)
        ensures
            r == (self@ == other@),
    ;
}

/// A payload together with its cached content hash.
pub struct HashedSymbol<T: Symbol> {
    pub symbol: T,
    pub hash: u64,
}

impl<T: Symbol> HashedSymbol<T> {
    /// An exact copy.
    pub fn dup(&self) -> (r: Self)
        ensures
            r.symbol@ == self.symbol@,
            r.hash == self.hash,
    {
        HashedSymbol { symbol: self.symbol.dup(), hash: self.hash }
    }
}

/// The direction in which a symbol is folded into a coded cell.
#[derive(Clone, Copy, Debug)]
pub enum Op {
    Add,
    Remove,
}

/// The algebraic sum of a set of source symbols: the combined payload, the
/// exclusive or of their hashes, and the signed net count of contributions.
pub struct CodedSymbol<T: Symbol> {
    pub symbol: T,
    pub hash: u64,
    pub count: i64,
}

/// The mathematical content of a coded cell: payload view, hash, count.
pub open spec fn cell_view<T: Symbol>(c: CodedSymbol<T>) -> (T::V, u64, i64) {
    (c.symbol@, c.hash, c.count)
}

/// The counter after one application: one step up or down, wrapping at the
/// ends of the 64-bit range so that the operation is total.
pub open spec fn spec_count_after(c: i64, op: Op) -> i64 {
    match op {
        Op::Add => if c == i64::MAX {
            i64::MIN
        } else {
            (c + 1) as i64
        },
        Op::Remove => if c == i64::MIN {
            i64::MAX
        } else {
            (c - 1) as i64
        },
    }
}

/// One application to a cell, given the applied symbol's payload view and
/// hash.
pub open spec fn spec_apply_v<T: Symbol>(v: (T::V, u64, i64), pv: T::V, h: u64, op: Op) -> (
    T::V,
    u64,
    i64,
) {
    (T::vxor(v.0, pv), v.1 ^ h, spec_count_after(v.2, op))
}

/// One application of a hashed symbol to a cell, at the level of views.
pub open spec fn spec_apply<T: Symbol>(v: (T::V, u64, i64), s: HashedSymbol<T>, op: Op) -> (
    T::V,
    u64,
    i64,
) {
    spec_apply_v::<T>(v, s.symbol@, s.hash, op)
}

/// Folding a sequence of hashed symbols into a cell, first to last.
pub open spec fn spec_fold<T: Symbol>(
    v: (T::V, u64, i64),
    ss: Seq<HashedSymbol<T>>,
    op: Op,
) -> (T::V, u64, i64)
    decreases ss.len(),
{
    if ss.len() == 0 {
        v
    } else {
        spec_fold(spec_apply(v, ss[0], op), ss.subrange(1, ss.len() as int), op)
    }
}

/// Law: folding the same hashed symbol in with `Add` and out again with
/// `Remove` restores the cell's hash and count exactly; the payload is
/// combined twice with the same operand, which each payload algebra's own
/// self-inverse law collapses back to the original.
pub proof fn lemma_apply_add_remove_cancels<T: Symbol>(c: (T::V, u64, i64), s: HashedSymbol<T>)
    ensures
        spec_apply(spec_apply(c, s, Op::Add), s, Op::Remove).1 == c.1,
        spec_apply(spec_apply(c, s, Op::Add), s, Op::Remove).2 == c.2,
        spec_apply(spec_apply(c, s, Op::Add), s, Op::Remove).0 == T::vxor(
            T::vxor(c.0, s.symbol@),
            s.symbol@,
        ),
{
    let h = c.1;
    let sh = s.hash;
    assert((h ^ sh) ^ sh == h) by (bit_vector);
}

/// Folding one more symbol at the end applies it to the folded prefix.
pub proof fn lemma_fold_push<T: Symbol>(
    v: (T::V, u64, i64),
    ss: Seq<HashedSymbol<T>>,
    e: HashedSymbol<T>,
    op: Op,
)
    ensures
        spec_fold(v, ss.push(e), op) == spec_apply(spec_fold(v, ss, op), e, op),
    decreases ss.len(),
{
    if ss.len() == 0 {
        assert(ss.push(e).subrange(1, ss.push(e).len() as int) =~= Seq::<HashedSymbol<T>>::empty());
        assert(spec_fold(v, ss.push(e), op) == spec_fold::<T>(
            spec_apply(v, e, op),
            Seq::empty(),
            op,
        ));
    } else {
        assert(ss.push(e)[0] == ss[0]);
        assert(ss.push(e).subrange(1, ss.push(e).len() as int) =~= ss.subrange(
            1,
            ss.len() as int,
        ).push(e));
        lemma_fold_push(spec_apply(v, ss[0], op), ss.subrange(1, ss.len() as int), e, op);
    }
}

impl<T: Symbol> CodedSymbol<T> {
    /// A cell built from its three fields.
    pub fn new(symbol: T, hash: u64, count: i64) -> (r: Self)
        ensures
            r.symbol@ == symbol@,
            r.hash == hash,
            r.count == count,
    {
        CodedSymbol { symbol, hash, count }
    }

    pub fn symbol(&self) -> (r: &T)
        ensures
            r@ == self.symbol@,
    {
        &self.symbol
    }

    pub fn hash(&self) -> (r: u64)
        ensures
            r == self.hash,
    {
        self.hash
    }

    pub fn count(&self) -> (r: i64)
        ensures
            r == self.count,
    {
        self.count
    }

    /// An exact copy.
    pub fn dup(&self) -> (r: Self)
        ensures
            cell_view(r) == cell_view(*self),
    {
        CodedSymbol { symbol: self.symbol.dup(), hash: self.hash, count: self.count }
    }

    /// Folds one hashed symbol into the cell: payloads combine by `xor`,
    /// hashes by exclusive or, and the count moves one step in the direction
    /// of `op`.  Folding the same symbol in with `Add` and again with
    /// `Remove` restores the cell.
    pub fn apply(&mut self, symbol: &HashedSymbol<T>, op: Op)
        ensures
            cell_view(*final(self)) == spec_apply(cell_view(*old(self)), *symbol, op),
            final(self).symbol@ == T::vxor(old(self).symbol@, symbol.symbol@),
            final(self).hash == old(self).hash ^ symbol.hash,
            final(self).count == spec_count_after(old(self).count, op),
    {
        let combined = self.symbol.xor(&symbol.symbol);
        self.symbol = combined;
        self.hash = self.hash ^ symbol.hash;
        let c = self.count;
        self.count = match op {
            Op::Add => if c == i64::MAX {
                i64::MIN
            } else {
                c + 1
            },
            Op::Remove => if c == i64::MIN {
                i64::MAX
            } else {
                c - 1
            },
        };
    }
}

} // verus!
