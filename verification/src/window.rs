//! The coding window.
//!
//! A [`CodingWindow`] tracks a set of source symbols together with one
//! [`IndexGenerator`] per symbol, and lazily answers, for one coded-stream
//! position after another, which tracked symbols contribute there.  A binary
//! min-heap of scheduling entries, keyed by each symbol's next due position,
//! makes the per-position drain cheap without ever materialising a symbol's
//! unbounded schedule.

use vstd::prelude::*;
use crate::index::IndexGenerator;
use crate::index::spec_step;
use crate::symbol::{cell_view, lemma_fold_push, spec_apply, spec_fold, CodedSymbol, HashedSymbol, Op, Symbol};

verus! {

/// One scheduling entry: a tracked symbol's slot, and the coded-stream
/// position it is next due at.
#[derive(Clone, Copy)]
pub struct SymbolMap {
    pub source: usize,
    pub coded: u64,
}

/// A binary min-heap of scheduling entries, ordered by due position.
pub struct SymbolMapping(pub Vec<SymbolMap>);

/// The heap ordering: no entry is due before its parent.
pub open spec fn heap_wf(q: Seq<SymbolMap>) -> bool {
    forall|j: int| 1 <= j < q.len() ==> q[(j - 1) / 2].coded <= (#[trigger] q[j]).coded
}

/// The heap ordering everywhere except on the edges into the last entry.
pub open spec fn heap_wf_except_last(q: Seq<SymbolMap>) -> bool {
    forall|j: int| 1 <= j < q.len() - 1 ==> q[(j - 1) / 2].coded <= (#[trigger] q[j]).coded
}

/// The heap ordering everywhere except on the edges out of the root.
pub open spec fn heap_wf_except_root(q: Seq<SymbolMap>) -> bool {
    forall|j: int| 3 <= j < q.len() ==> q[(j - 1) / 2].coded <= (#[trigger] q[j]).coded
}

/// The root of a well-ordered heap is due no later than any entry.
pub proof fn lemma_heap_root_min(q: Seq<SymbolMap>, j: int)
    requires
        heap_wf(q),
        0 <= j < q.len(),
    ensures
        q[0].coded <= q[j].coded,
    decreases j,
{
    if j > 0 {
        lemma_heap_root_min(q, (j - 1) / 2);
    }
}

/// Swapping two positions of a sequence keeps its multiset of entries.
proof fn lemma_swap_multiset(s: Seq<SymbolMap>, i: int, j: int)
    requires
        0 <= i < s.len(),
        0 <= j < s.len(),
    ensures
        s.update(i, s[j]).update(j, s[i]).to_multiset() == s.to_multiset(),
{
    broadcast use vstd::seq_lib::group_to_multiset_ensures;
    broadcast use vstd::seq_lib::to_multiset_update;

    if i == j {
        assert(s.update(i, s[j]).update(j, s[i]) =~= s);
    } else {
        let s1 = s.update(i, s[j]);
        assert(s1[j] == s[j]);
        assert(s1.update(j, s[i]).to_multiset() =~= s.to_multiset());
    }
}

/// A reordering of entries keeps pointwise facts: every entry of the one
/// sequence occurs in the other, and freedom from duplicates carries over.
proof fn lemma_entries_preserved(q0: Seq<SymbolMap>, q1: Seq<SymbolMap>)
    requires
        q0.to_multiset() == q1.to_multiset(),
    ensures
        forall|k: int| 0 <= k < q1.len() ==> q0.contains(#[trigger] q1[k]),
        forall|k: int| 0 <= k < q0.len() ==> q1.contains(#[trigger] q0[k]),
        q0.no_duplicates() ==> q1.no_duplicates(),
{
    broadcast use vstd::seq_lib::group_to_multiset_ensures;

    assert forall|k: int| 0 <= k < q1.len() implies q0.contains(#[trigger] q1[k]) by {
        assert(q1.contains(q1[k]));
        assert(q1.to_multiset().count(q1[k]) > 0);
        assert(q0.to_multiset().count(q1[k]) > 0);
    }
    assert forall|k: int| 0 <= k < q0.len() implies q1.contains(#[trigger] q0[k]) by {
        assert(q0.contains(q0[k]));
        assert(q0.to_multiset().count(q0[k]) > 0);
        assert(q1.to_multiset().count(q0[k]) > 0);
    }
    if q0.no_duplicates() {
        q0.lemma_multiset_has_no_duplicates();
        q1.lemma_multiset_has_no_duplicates_conv();
    }
}

impl SymbolMapping {
    /// Restores heap order after the root's due position grew, sifting the
    /// root entry down to its place.
    #[verifier::rlimit(60)]
    pub fn fix_head(&mut self)
        requires
            heap_wf_except_root(old(self).0@),
        ensures
            final(self).0@.len() == old(self).0@.len(),
            final(self).0@.to_multiset() == old(self).0@.to_multiset(),
            heap_wf(final(self).0@),
    {
        let mut current: usize = 0;
        loop
            invariant_except_break
                self.0@.len() == old(self).0@.len(),
                self.0@.to_multiset() == old(self).0@.to_multiset(),
                current < self.0@.len() || current == 0,
                forall|j: int|
                    1 <= j < self.0@.len() && (j - 1) / 2 != current
                        ==> self.0@[(j - 1) / 2].coded <= (#[trigger] self.0@[j]).coded,
                current > 0 ==> forall|k: int|
                    1 <= k < self.0@.len() && (k - 1) / 2 == current
                        ==> self.0@[(current - 1) / 2].coded <= (#[trigger] self.0@[k]).coded,
            ensures
                self.0@.len() == old(self).0@.len(),
                self.0@.to_multiset() == old(self).0@.to_multiset(),
                heap_wf(self.0@),
            decreases self.0@.len() - current,
        {
            let len = self.0.len();
            let child_wide: u128 = 2 * (current as u128) + 1;
            if child_wide >= len as u128 {
                proof {
                    assert forall|j: int|
                        1 <= j < self.0@.len() implies self.0@[(j - 1) / 2].coded <= (
                    #[trigger] self.0@[j]).coded by {
                        assert((j - 1) / 2 != current);
                    }
                }
                break;
            }
            let mut child: usize = child_wide as usize;
            if child + 1 < len && self.0[child + 1].coded < self.0[child].coded {
                child = child + 1;
            }
            if self.0[current].coded <= self.0[child].coded {
                proof {
                    assert forall|j: int|
                        1 <= j < self.0@.len() implies self.0@[(j - 1) / 2].coded <= (
                    #[trigger] self.0@[j]).coded by {}
                }
                break;
            }
            let a = self.0[current];
            let b = self.0[child];
            proof {
                lemma_swap_multiset(self.0@, current as int, child as int);
            }
            self.0[current] = b;
            self.0[child] = a;
            current = child;
        }
    }

    /// Restores heap order after a push, sifting the new tail entry up to
    /// its place.
    pub fn fix_tail(&mut self)
        requires
            old(self).0@.len() > 0,
            heap_wf_except_last(old(self).0@),
        ensures
            final(self).0@.len() == old(self).0@.len(),
            final(self).0@.to_multiset() == old(self).0@.to_multiset(),
            heap_wf(final(self).0@),
    {
        let mut current: usize = self.0.len() - 1;
        while current != 0 && self.0[(current - 1) / 2].coded > self.0[current].coded
            invariant
                self.0@.len() == old(self).0@.len(),
                self.0@.to_multiset() == old(self).0@.to_multiset(),
                current < self.0@.len(),
                forall|j: int|
                    1 <= j < self.0@.len() && j != current
                        ==> self.0@[(j - 1) / 2].coded <= (#[trigger] self.0@[j]).coded,
                current > 0 ==> forall|k: int|
                    1 <= k < self.0@.len() && (k - 1) / 2 == current
                        ==> self.0@[(current - 1) / 2].coded <= (#[trigger] self.0@[k]).coded,
            decreases current,
        {
            let parent: usize = (current - 1) / 2;
            let a = self.0[parent];
            let b = self.0[current];
            proof {
                lemma_swap_multiset(self.0@, parent as int, current as int);
            }
            self.0[parent] = b;
            self.0[current] = a;
            current = parent;
        }
        proof {
            assert forall|j: int|
                1 <= j < self.0@.len() implies self.0@[(j - 1) / 2].coded <= (
            #[trigger] self.0@[j]).coded by {}
        }
    }
}

/// How many generators stand exactly at position `n`.
pub open spec fn count_at(gens: Seq<IndexGenerator>, n: u64) -> nat
    decreases gens.len(),
{
    if gens.len() == 0 {
        0
    } else {
        count_at(gens.drop_last(), n) + if gens.last().last_index == n {
            1nat
        } else {
            0nat
        }
    }
}

proof fn lemma_count_at_update(gens: Seq<IndexGenerator>, i: int, g: IndexGenerator, n: u64)
    requires
        0 <= i < gens.len(),
    ensures
        count_at(gens.update(i, g), n) + (if gens[i].last_index == n {
            1nat
        } else {
            0nat
        }) == count_at(gens, n) + (if g.last_index == n {
            1nat
        } else {
            0nat
        }),
    decreases gens.len(),
{
    let u = gens.update(i, g);
    if i == gens.len() - 1 {
        assert(u.drop_last() =~= gens.drop_last());
        assert(u.last() == g);
    } else {
        assert(u.drop_last() =~= gens.drop_last().update(i, g));
        assert(u.last() == gens.last());
        lemma_count_at_update(gens.drop_last(), i, g, n);
        assert(gens.drop_last()[i] == gens[i]);
    }
}

proof fn lemma_count_at_positive(gens: Seq<IndexGenerator>, s: int, n: u64)
    requires
        0 <= s < gens.len(),
        gens[s].last_index == n,
    ensures
        count_at(gens, n) >= 1,
    decreases gens.len(),
{
    if s < gens.len() - 1 {
        assert(gens.drop_last()[s] == gens[s]);
        lemma_count_at_positive(gens.drop_last(), s, n);
    }
}

/// The live schedule: tracked symbols, one position generator per symbol, a
/// min-heap of next-due positions, and the cursor of positions produced so
/// far.
pub struct CodingWindow<T: Symbol> {
    pub symbols: Vec<HashedSymbol<T>>,
    pub generators: Vec<IndexGenerator>,
    pub queue: SymbolMapping,
    pub next_index: u64,
}

/// Whether some entry of the queue schedules slot `s`.
pub open spec fn queue_has_source(q: Seq<SymbolMap>, s: int) -> bool {
    exists|k: int| 0 <= k < q.len() && (#[trigger] q[k]).source == s
}

/// An entry names a tracked slot and carries that slot's current due
/// position.
pub open spec fn valid_entry<T: Symbol>(w: CodingWindow<T>, e: SymbolMap) -> bool {
    e.source < w.symbols@.len() && e.coded == w.generators@[e.source as int].last_index
}

/// Well-formedness: one generator and one scheduling entry per tracked
/// symbol, every entry current and every slot scheduled exactly once, and
/// the queue in heap order.
pub open spec fn window_wf<T: Symbol>(w: CodingWindow<T>) -> bool {
    &&& w.generators@.len() == w.symbols@.len()
    &&& w.queue.0@.len() == w.symbols@.len()
    &&& heap_wf(w.queue.0@)
    &&& (forall|k: int| 0 <= k < w.queue.0@.len() ==> valid_entry(w, #[trigger] w.queue.0@[k]))
    &&& w.queue.0@.no_duplicates()
    &&& (forall|s: int|
        0 <= s < w.symbols@.len() ==> #[trigger] queue_has_source(w.queue.0@, s))
}

/// No tracked symbol is scheduled before the cursor: the window has not
/// been fed symbols whose schedules start in the already-produced past.
pub open spec fn window_fresh<T: Symbol>(w: CodingWindow<T>) -> bool {
    forall|k: int| 0 <= k < w.queue.0@.len() ==> (#[trigger] w.queue.0@[k]).coded >= w.next_index
}

/// Whether slot `s` is due exactly at the cursor.
pub open spec fn is_due<T: Symbol>(w: CodingWindow<T>, s: int) -> bool {
    0 <= s < w.symbols@.len() && w.generators@[s].last_index == w.next_index
}

/// A list of distinct tracked slots, all due at the cursor.
pub open spec fn due_list<T: Symbol>(w: CodingWindow<T>, ds: Seq<int>) -> bool {
    &&& ds.no_duplicates()
    &&& (forall|i: int| 0 <= i < ds.len() ==> is_due(w, #[trigger] ds[i]))
}

/// The hashed symbols at the listed slots.
pub open spec fn symbols_at<T: Symbol>(w: CodingWindow<T>, ds: Seq<int>) -> Seq<HashedSymbol<T>> {
    ds.map(|i: int, s: int| w.symbols@[s])
}

/// What one window pass does to a cell: some list of distinct slots, all of
/// them due at the cursor, is folded in — and on a fresh window that list
/// covers every due slot.
pub open spec fn window_applied<T: Symbol>(
    w0: CodingWindow<T>,
    init: (T::V, u64, i64),
    out: (T::V, u64, i64),
    op: Op,
) -> bool {
    exists|ds: Seq<int>|
        {
            &&& #[trigger] due_list(w0, ds)
            &&& out == spec_fold(init, symbols_at(w0, ds), op)
            &&& (window_fresh(w0) ==> forall|s: int| is_due(w0, s) ==> ds.contains(s))
        }
}

impl<T: Symbol> CodingWindow<T> {
    /// An empty window.
    pub fn new() -> (r: Self)
        ensures
            window_wf(r),
            window_fresh(r),
            r.symbols@.len() == 0,
            r.generators@.len() == 0,
            r.queue.0@.len() == 0,
            r.next_index == 0,
    {
        CodingWindow {
            symbols: Vec::new(),
            generators: Vec::new(),
            queue: SymbolMapping(Vec::new()),
            next_index: 0,
        }
    }

    /// Tracks one more hashed symbol with its position generator: the
    /// generator's current position is the first coded position the symbol
    /// will affect.
    pub fn add_hashed_symbol_with_mapping(
        &mut self,
        symbol: HashedSymbol<T>,
        index_gen: IndexGenerator,
    )
        requires
            window_wf(*old(self)),
        ensures
            window_wf(*final(self)),
            final(self).symbols@ == old(self).symbols@.push(symbol),
            final(self).generators@ == old(self).generators@.push(index_gen),
            final(self).next_index == old(self).next_index,
            window_fresh(*old(self)) && index_gen.last_index >= old(self).next_index
                ==> window_fresh(*final(self)),
    {
        let coded: u64 = index_gen.last_index;
        let source: usize = self.symbols.len();
        self.symbols.push(symbol);
        self.generators.push(index_gen);
        self.queue.0.push(SymbolMap { source, coded });
        let ghost q1 = self.queue.0@;
        proof {
            assert(q1 == old(self).queue.0@.push(SymbolMap { source, coded }));
            assert forall|j: int| 1 <= j < q1.len() - 1 implies q1[(j - 1) / 2].coded <= (
            #[trigger] q1[j]).coded by {
                assert(q1[j] == old(self).queue.0@[j]);
                assert(q1[(j - 1) / 2] == old(self).queue.0@[(j - 1) / 2]);
            }
            // The new entry schedules a new slot, so it differs from every
            // older entry.
            assert forall|k: int| 0 <= k < q1.len() - 1 implies (#[trigger] q1[k]).source
                != source by {
                assert(q1[k] == old(self).queue.0@[k]);
                assert(valid_entry(*old(self), old(self).queue.0@[k]));
            }
            assert(q1.drop_last() =~= old(self).queue.0@);
            assert(q1.no_duplicates());
        }
        self.queue.fix_tail();
        proof {
            lemma_entries_preserved(q1, self.queue.0@);
            assert forall|k: int|
                0 <= k < self.queue.0@.len() implies valid_entry(
                *self,
                #[trigger] self.queue.0@[k],
            ) by {
                let e = self.queue.0@[k];
                assert(q1.contains(e));
                let j = choose|j: int| 0 <= j < q1.len() && q1[j] == e;
                if j < q1.len() - 1 {
                    assert(valid_entry(*old(self), old(self).queue.0@[j]));
                    assert(self.generators@[e.source as int] == old(self).generators@[e.source as int]);
                }
            }
            assert forall|s: int| 0 <= s < self.symbols@.len() implies #[trigger] queue_has_source(
                self.queue.0@,
                s,
            ) by {
                if s < old(self).symbols@.len() {
                    assert(queue_has_source(old(self).queue.0@, s));
                    let k = choose|k: int|
                        0 <= k < old(self).queue.0@.len() && (#[trigger] old(self).queue.0@[k]).source == s;
                    assert(q1[k] == old(self).queue.0@[k]);
                    assert(self.queue.0@.contains(q1[k]));
                    let k2 = choose|k2: int|
                        0 <= k2 < self.queue.0@.len() && self.queue.0@[k2] == q1[k];
                    assert(self.queue.0@[k2].source == s);
                } else {
                    assert(q1[q1.len() - 1].source == s);
                    assert(self.queue.0@.contains(q1[q1.len() - 1]));
                    let k2 = choose|k2: int|
                        0 <= k2 < self.queue.0@.len() && self.queue.0@[k2] == q1[q1.len() - 1];
                    assert(self.queue.0@[k2].source == s);
                }
            }
            if window_fresh(*old(self)) && index_gen.last_index >= old(self).next_index {
                assert forall|k: int|
                    0 <= k < self.queue.0@.len() implies (#[trigger] self.queue.0@[k]).coded
                    >= self.next_index by {
                    let e = self.queue.0@[k];
                    assert(q1.contains(e));
                    let j = choose|j: int| 0 <= j < q1.len() && q1[j] == e;
                    if j < q1.len() - 1 {
                        assert(e == old(self).queue.0@[j]);
                    }
                }
            }
        }
    }

    /// Tracks one more symbol: hashes it and starts its schedule at the
    /// first position its generator produces from that hash.
    pub fn add_symbol(&mut self, symbol: T)
        requires
            window_wf(*old(self)),
        ensures
            window_wf(*final(self)),
            final(self).next_index == old(self).next_index,
            final(self).generators@ == old(self).generators@.push(
                IndexGenerator { prng: T::vhash(symbol@), last_index: 0 },
            ),
            final(self).symbols@.len() == old(self).symbols@.len() + 1,
            final(self).symbols@ == old(self).symbols@.push(final(self).symbols@.last()),
            final(self).symbols@.last().symbol@ == symbol@,
            final(self).symbols@.last().hash == T::vhash(symbol@),
            window_fresh(*old(self)) && old(self).next_index == 0 ==> window_fresh(*final(self)),
    {
        let hash = symbol.get_hash();
        let hashed_symbol = HashedSymbol { hash, symbol };
        let index_gen = IndexGenerator::new(hash, 0);
        self.add_hashed_symbol_with_mapping(hashed_symbol, index_gen);
    }

    /// Produces the next coded position: folds into `symbol` every tracked
    /// symbol due at the cursor, advances those symbols' schedules, then
    /// advances the cursor by one.
    #[verifier::rlimit(100)]
    pub fn apply_window(&mut self, symbol: CodedSymbol<T>, op: Op) -> (r: CodedSymbol<T>)
        requires
            window_wf(*old(self)),
            old(self).next_index < u64::MAX,
        ensures
            window_wf(*final(self)),
            final(self).symbols@ == old(self).symbols@,
            final(self).next_index == old(self).next_index + 1,
            window_applied(*old(self), cell_view(symbol), cell_view(r), op),
            window_fresh(*old(self)) ==> window_fresh(*final(self)),
            window_fresh(*old(self)) ==> forall|s: int|
                0 <= s < old(self).generators@.len() ==> final(self).generators@[s] == (
                if is_due(*old(self), s) {
                    spec_step(old(self).generators@[s])
                } else {
                    old(self).generators@[s]
                }),
    {
        let ghost w0 = *old(self);
        let mut cs = symbol;
        let ghost mut applied: Seq<int> = Seq::empty();
        proof {
            assert(symbols_at(w0, applied) =~= Seq::<HashedSymbol<T>>::empty());
        }
        if self.queue.0.len() == 0 {
            self.next_index = self.next_index + 1;
            proof {
                assert(due_list(w0, applied) && cell_view(cs) == spec_fold(
                    cell_view(symbol),
                    symbols_at(w0, applied),
                    op,
                ) && (window_fresh(w0) ==> forall|s: int|
                    is_due(w0, s) ==> applied.contains(s)));
                assert(window_applied(w0, cell_view(symbol), cell_view(cs), op));
            }
            return cs;
        }
        while self.queue.0[0].coded == self.next_index
            invariant
                window_wf(w0),
                w0.next_index < u64::MAX,
                self.symbols@ == w0.symbols@,
                self.generators@.len() == w0.generators@.len(),
                self.queue.0@.len() == w0.queue.0@.len(),
                self.queue.0@.len() > 0,
                self.next_index == w0.next_index,
                self.queue.0@.len() == self.symbols@.len(),
                self.generators@.len() == self.symbols@.len(),
                heap_wf(self.queue.0@),
                forall|k: int|
                    0 <= k < self.queue.0@.len() ==> valid_entry(
                        *self,
                        #[trigger] self.queue.0@[k],
                    ),
                self.queue.0@.no_duplicates(),
                forall|s: int|
                    0 <= s < self.symbols@.len() ==> #[trigger] queue_has_source(
                        self.queue.0@,
                        s,
                    ),
                due_list(w0, applied),
                cell_view(cs) == spec_fold(cell_view(symbol), symbols_at(w0, applied), op),
                forall|s: int|
                    0 <= s < self.generators@.len() && applied.contains(s)
                        ==> (#[trigger] self.generators@[s]) == spec_step(w0.generators@[s])
                        && self.generators@[s].last_index > w0.next_index,
                forall|s: int|
                    0 <= s < self.generators@.len() && !applied.contains(s)
                        ==> (#[trigger] self.generators@[s]) == w0.generators@[s],
                window_fresh(w0) ==> window_fresh(*self),
            decreases count_at(self.generators@, w0.next_index),
        {
            let src: usize = self.queue.0[0].source;
            let ghost root0 = self.queue.0@[0];
            proof {
                assert(valid_entry(*self, root0));
                if applied.contains(src as int) {
                    assert(self.generators@[src as int].last_index > w0.next_index);
                    assert(false);
                }
                assert(self.generators@[src as int] == w0.generators@[src as int]);
                assert(is_due(w0, src as int));
                lemma_count_at_positive(self.generators@, src as int, w0.next_index);
            }
            cs.apply(&self.symbols[src], op);
            proof {
                assert(symbols_at(w0, applied.push(src as int)) =~= symbols_at(
                    w0,
                    applied,
                ).push(w0.symbols@[src as int]));
                lemma_fold_push(
                    cell_view(symbol),
                    symbols_at(w0, applied),
                    w0.symbols@[src as int],
                    op,
                );
            }
            let mut gen = self.generators[src];
            let new_pos: u64 = gen.next();
            let ghost gens_before = self.generators@;
            self.generators[src] = gen;
            proof {
                lemma_count_at_update(gens_before, src as int, gen, w0.next_index);
                // Entries other than the root schedule other slots: a
                // second entry for this slot would equal the root.
                assert forall|k: int|
                    1 <= k < self.queue.0@.len() implies (#[trigger] self.queue.0@[k]).source
                    != src by {
                    if self.queue.0@[k].source == src {
                        assert(self.queue.0@[k].coded == gens_before[src as int].last_index);
                        assert(self.queue.0@[k] == root0);
                    }
                }
                let ghost applied0 = applied;
                applied = applied.push(src as int);
                assert(applied.last() == src as int);
                assert(applied.contains(src as int));
                assert forall|s: int| applied.contains(s) && s != src as int implies applied0.contains(
                    s,
                ) by {
                    let i = choose|i: int| 0 <= i < applied.len() && applied[i] == s;
                    assert(applied0[i] == s);
                }
                assert forall|s: int| applied0.contains(s) implies applied.contains(s) by {
                    let i = choose|i: int| 0 <= i < applied0.len() && applied0[i] == s;
                    assert(applied[i] == s);
                }
                assert(applied.no_duplicates());
            }
            let ghost q_before = self.queue.0@;
            self.queue.0[0] = SymbolMap { source: src, coded: new_pos };
            let ghost q_mid = self.queue.0@;
            proof {
                assert forall|j: int| 3 <= j < q_mid.len() implies q_mid[(j - 1) / 2].coded <= (
                #[trigger] q_mid[j]).coded by {
                    assert(q_mid[j] == q_before[j]);
                    assert(q_mid[(j - 1) / 2] == q_before[(j - 1) / 2]);
                }
                assert forall|k1: int, k2: int|
                    0 <= k1 < q_mid.len() && 0 <= k2 < q_mid.len() && k1 != k2 implies q_mid[k1]
                    != q_mid[k2] by {
                    if k1 != 0 && k2 != 0 {
                        assert(q_mid[k1] == q_before[k1] && q_mid[k2] == q_before[k2]);
                    } else if k1 == 0 {
                        assert(q_mid[k2].source != src);
                    } else {
                        assert(q_mid[k1].source != src);
                    }
                }
            }
            self.queue.fix_head();
            proof {
                lemma_entries_preserved(q_mid, self.queue.0@);
                assert forall|k: int|
                    0 <= k < self.queue.0@.len() implies valid_entry(
                    *self,
                    #[trigger] self.queue.0@[k],
                ) by {
                    let e = self.queue.0@[k];
                    assert(q_mid.contains(e));
                    let j = choose|j: int| 0 <= j < q_mid.len() && q_mid[j] == e;
                    if j == 0 {
                        assert(e.coded == gen.last_index);
                    } else {
                        assert(e == q_before[j]);
                        assert(e.source != src);
                    }
                }
                assert forall|s: int|
                    0 <= s < self.symbols@.len() implies #[trigger] queue_has_source(
                    self.queue.0@,
                    s,
                ) by {
                    assert(queue_has_source(q_before, s));
                    let k = choose|k: int|
                        0 <= k < q_before.len() && (#[trigger] q_before[k]).source == s;
                    let e = if k == 0 {
                        q_mid[0]
                    } else {
                        q_before[k]
                    };
                    if k != 0 {
                        assert(q_mid[k] == q_before[k]);
                    }
                    assert(q_mid.contains(e));
                    assert(self.queue.0@.contains(e));
                    let k2 = choose|k2: int|
                        0 <= k2 < self.queue.0@.len() && self.queue.0@[k2] == e;
                    assert(self.queue.0@[k2].source == s);
                }
                if window_fresh(w0) {
                    assert forall|k: int|
                        0 <= k < self.queue.0@.len() implies (#[trigger] self.queue.0@[k]).coded
                        >= self.next_index by {
                        let e = self.queue.0@[k];
                        assert(q_mid.contains(e));
                        let j = choose|j: int| 0 <= j < q_mid.len() && q_mid[j] == e;
                        if j != 0 {
                            assert(e == q_before[j]);
                        }
                    }
                }
            }
        }
        proof {
            if window_fresh(w0) {
                assert forall|s: int| is_due(w0, s) implies applied.contains(s) by {
                    if !applied.contains(s) {
                        assert(self.generators@[s] == w0.generators@[s]);
                        assert(queue_has_source(self.queue.0@, s));
                        let k = choose|k: int|
                            0 <= k < self.queue.0@.len() && (#[trigger] self.queue.0@[k]).source
                                == s;
                        assert(valid_entry(*self, self.queue.0@[k]));
                        assert(self.queue.0@[k].coded == self.next_index);
                        lemma_heap_root_min(self.queue.0@, k);
                        assert(self.queue.0@[0].coded == self.next_index);
                        assert(false);
                    }
                }
            }
        }
        self.next_index = self.next_index + 1;
        proof {
            assert forall|k: int|
                0 <= k < self.queue.0@.len() implies valid_entry(
                *self,
                #[trigger] self.queue.0@[k],
            ) by {}
            if window_fresh(w0) {
                assert forall|k: int|
                    0 <= k < self.queue.0@.len() implies (#[trigger] self.queue.0@[k]).coded
                    >= self.next_index by {
                    let e = self.queue.0@[k];
                    assert(valid_entry(*self, e));
                    let s = e.source as int;
                    if !applied.contains(s) {
                        assert(self.generators@[s] == w0.generators@[s]);
                        if e.coded == w0.next_index {
                            assert(is_due(w0, s));
                        }
                    }
                }
                assert forall|s: int|
                    0 <= s < self.generators@.len() implies (#[trigger] self.generators@[s]) == (
                if is_due(w0, s) {
                    spec_step(w0.generators@[s])
                } else {
                    w0.generators@[s]
                }) by {
                    if applied.contains(s) {
                        assert(is_due(w0, s));
                    } else {
                        if is_due(w0, s) {
                            assert(applied.contains(s));
                        }
                    }
                }
            }
            assert(due_list(w0, applied) && cell_view(cs) == spec_fold(
                cell_view(symbol),
                symbols_at(w0, applied),
                op,
            ) && (window_fresh(w0) ==> forall|s: int| is_due(w0, s) ==> applied.contains(s)));
            assert(window_applied(w0, cell_view(symbol), cell_view(cs), op));
        }
        cs
    }

    /// Forgets every tracked symbol and restarts the cursor.
    pub fn reset(&mut self)
        ensures
            window_wf(*final(self)),
            window_fresh(*final(self)),
            final(self).symbols@.len() == 0,
            final(self).generators@.len() == 0,
            final(self).queue.0@.len() == 0,
            final(self).next_index == 0,
    {
        self.symbols.clear();
        self.generators.clear();
        self.queue.0.clear();
        self.next_index = 0;
    }
}

} // verus!
