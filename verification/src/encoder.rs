//! The encoder.
//!
//! An [`Encoder`] wraps one [`CodingWindow`] and produces the coded-symbol
//! stream: each pull folds every tracked symbol due at the current position
//! into a zero cell, advances the position, and hands the cell out.  The
//! stream is unbounded; the consumer decides when to stop pulling.

use vstd::prelude::*;
use crate::index::{spec_step, IndexGenerator};
use crate::symbol::{cell_view, CodedSymbol, Op, Symbol};
use crate::window::{is_due, window_applied, window_fresh, window_wf, CodingWindow};

verus! {

/// A producer of the coded-symbol stream over one coding window.
pub struct Encoder<T: Symbol>(pub CodingWindow<T>);

impl<T: Symbol> Encoder<T> {
    /// An encoder with no tracked symbols.
    pub fn new() -> (r: Self)
        ensures
            window_wf(r.0),
            window_fresh(r.0),
            r.0.symbols@.len() == 0,
            r.0.next_index == 0,
    {
        Encoder(CodingWindow::new())
    }

    /// Tracks one more symbol.  Symbols are meant to be added before the
    /// first pull: a symbol added later starts its schedule at position
    /// zero, in the already-emitted past, and never joins the stream.
    pub fn add_symbol(&mut self, symbol: T)
        requires
            window_wf(old(self).0),
        ensures
            window_wf(final(self).0),
            final(self).0.next_index == old(self).0.next_index,
            final(self).0.symbols@.len() == old(self).0.symbols@.len() + 1,
            final(self).0.symbols@ == old(self).0.symbols@.push(final(self).0.symbols@.last()),
            final(self).0.symbols@.last().symbol@ == symbol@,
            final(self).0.symbols@.last().hash == T::vhash(symbol@),
            final(self).0.generators@ == old(self).0.generators@.push(
                IndexGenerator { prng: T::vhash(symbol@), last_index: 0 },
            ),
            window_fresh(old(self).0) && old(self).0.next_index == 0 ==> window_fresh(
                final(self).0,
            ),
    {
        self.0.add_symbol(symbol);
    }

    /// Emits the next coded symbol: the fold of every due tracked symbol
    /// into the zero cell at the current stream position.
    pub fn next_coded(&mut self) -> (r: CodedSymbol<T>)
        requires
            window_wf(old(self).0),
            old(self).0.next_index < u64::MAX,
        ensures
            window_wf(final(self).0),
            final(self).0.symbols@ == old(self).0.symbols@,
            final(self).0.next_index == old(self).0.next_index + 1,
            window_applied(old(self).0, (T::vzero(), 0u64, 0i64), cell_view(r), Op::Add),
            window_fresh(old(self).0) ==> window_fresh(final(self).0),
            window_fresh(old(self).0) ==> forall|s: int|
                0 <= s < old(self).0.generators@.len() ==> final(self).0.generators@[s] == (
                if is_due(old(self).0, s) {
                    spec_step(old(self).0.generators@[s])
                } else {
                    old(self).0.generators@[s]
                }),
    {
        let zero_cell = CodedSymbol::new(T::zero(), 0, 0);
        self.0.apply_window(zero_cell, Op::Add)
    }

    /// Forgets every tracked symbol and restarts the stream position, as a
    /// fresh encoder: the same additions and pulls then reproduce the same
    /// stream.  Positions already handed to a peer are not rewound.
    pub fn reset(&mut self)
        ensures
            window_wf(final(self).0),
            window_fresh(final(self).0),
            final(self).0.symbols@.len() == 0,
            final(self).0.next_index == 0,
    {
        self.0.reset();
    }
}

impl<T: Symbol> Default for Encoder<T> {
    /// An encoder with no tracked symbols.
    fn default() -> (r: Self)
        ensures
            window_wf(r.0),
            window_fresh(r.0),
            r.0.symbols@.len() == 0,
            r.0.next_index == 0,
    {
        Encoder(CodingWindow::new())
    }
}

/// Law: a reset encoder and a new encoder agree in every observable
/// component of their state, so the same additions and pulls drive both
/// through the same states.
pub proof fn lemma_reset_matches_new<T: Symbol>(a: CodingWindow<T>, b: CodingWindow<T>)
    requires
        a.symbols@.len() == 0,
        a.generators@.len() == 0,
        a.queue.0@.len() == 0,
        a.next_index == 0,
        b.symbols@.len() == 0,
        b.generators@.len() == 0,
        b.queue.0@.len() == 0,
        b.next_index == 0,
    ensures
        a.symbols@ == b.symbols@,
        a.generators@ == b.generators@,
        a.queue.0@ == b.queue.0@,
        a.next_index == b.next_index,
{
    assert(a.symbols@ =~= b.symbols@);
    assert(a.generators@ =~= b.generators@);
    assert(a.queue.0@ =~= b.queue.0@);
}

} // verus!
