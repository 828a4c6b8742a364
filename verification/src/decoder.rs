//! The peeling decoder.
//!
//! A [`Decoder`] receives the peer's coded symbols in stream order, cancels
//! out of each cell what it already knows (its own symbols, and symbols
//! already resolved in earlier rounds), and repeatedly peels: a cell whose
//! net count is one (or minus one) with a matching hash yields one symbol
//! held only by the peer (or only locally); a cell with count zero and hash
//! zero is vacuous.  Each peeled symbol is propagated back over the whole
//! received history along its own deterministic schedule, which can make
//! further cells peelable.  A cell whose count is anything else is evidence
//! of a corrupted stream and is reported as fatal.

use vstd::prelude::*;
use vstd::slice::slice_to_vec;
use crate::index::{spec_step, IndexGenerator, lemma_step_increases};
use crate::symbol::{cell_view, spec_apply, spec_apply_v, CodedSymbol, HashedSymbol, Op, Symbol};
use crate::window::{window_applied, window_fresh, window_wf, CodingWindow};

verus! {

/// The positions below `len` that a walk of the generator `g` visits:
/// its current position, then each position it steps to.
pub open spec fn spec_walk(g: IndexGenerator, len: u64) -> Seq<int>
    decreases (if g.last_index < len { (len - g.last_index) as int } else { 0 })
        via spec_walk_dec
{
    if g.last_index >= len {
        Seq::empty()
    } else {
        seq![g.last_index as int] + spec_walk(spec_step(g), len)
    }
}

#[via_fn]
proof fn spec_walk_dec(g: IndexGenerator, len: u64) {
    if g.last_index < len {
        lemma_step_increases(g);
    }
}

/// The generator state once the walk has moved past `len`.
pub open spec fn spec_walk_end(g: IndexGenerator, len: u64) -> IndexGenerator
    decreases (if g.last_index < len { (len - g.last_index) as int } else { 0 })
        via spec_walk_end_dec
{
    if g.last_index >= len {
        g
    } else {
        spec_walk_end(spec_step(g), len)
    }
}

#[via_fn]
proof fn spec_walk_end_dec(g: IndexGenerator, len: u64) {
    if g.last_index < len {
        lemma_step_increases(g);
    }
}

/// A cell from which a single symbol can be peeled: net count one in
/// either direction, and the cell's hash matching its payload.
pub open spec fn spec_extractable<T: Symbol>(c: (T::V, u64, i64)) -> bool {
    (c.2 == 1 || c.2 == -1) && c.1 == T::vhash(c.0)
}

/// The positions a walk of `g` over the cells enqueues: those whose cell,
/// after absorbing the symbol with payload view `pv` and hash `h`, is
/// newly peelable.  Listed in walk order.
pub open spec fn spec_walk_pushes<T: Symbol>(
    g: IndexGenerator,
    len: u64,
    cells: Seq<CodedSymbol<T>>,
    pv: T::V,
    h: u64,
    op: Op,
) -> Seq<usize>
    decreases (if g.last_index < len { (len - g.last_index) as int } else { 0 })
        via spec_walk_pushes_dec::<T>
{
    if g.last_index >= len {
        Seq::empty()
    } else {
        (if spec_extractable::<T>(
            spec_apply_v::<T>(cell_view(cells[g.last_index as int]), pv, h, op),
        ) {
            seq![g.last_index as usize]
        } else {
            Seq::empty()
        }) + spec_walk_pushes(spec_step(g), len, cells, pv, h, op)
    }
}

#[via_fn]
proof fn spec_walk_pushes_dec<T: Symbol>(
    g: IndexGenerator,
    len: u64,
    cells: Seq<CodedSymbol<T>>,
    pv: T::V,
    h: u64,
    op: Op,
) {
    if g.last_index < len {
        lemma_step_increases(g);
    }
}

/// A cell that is resolvable on receipt: peelable, or vacuous (count zero
/// and hash zero, meaning every contribution cancelled).
pub open spec fn spec_decodable_cell<T: Symbol>(c: (T::V, u64, i64)) -> bool {
    spec_extractable::<T>(c) || (c.2 == 0 && c.1 == 0)
}

/// Law: a vacuous cell — net count zero and hash zero — is resolvable on
/// receipt, yet it is never a source of an extracted symbol: peeling a
/// symbol out of a cell demands a net count of one in either direction.
pub proof fn lemma_vacuous_cell_resolves_nothing<T: Symbol>(pv: T::V)
    ensures
        spec_decodable_cell::<T>((pv, 0u64, 0i64)),
        !spec_extractable::<T>((pv, 0u64, 0i64)),
{
}

/// Law: a peeling step records, for a drained cell, the pair of the
/// identity-combined payload and the cell's own hash.  When the drained
/// cell is still peelable — its hash matching its payload's — and the
/// payload algebra's identity law holds for that value, the recorded pair
/// is coherent: its hash is the hash of its payload.  The pass drains on
/// the net count alone, so a cell whose hash was disturbed between
/// queueing and draining yields a pair for which this premise fails.
pub proof fn lemma_peeled_pair_coherent<T: Symbol>(c: (T::V, u64, i64))
    requires
        spec_extractable::<T>(c),
        T::vxor(T::vzero(), c.0) == c.0,
    ensures
        c.1 == T::vhash(T::vxor(T::vzero(), c.0)),
{
}

/// The consumer of a coded-symbol stream.
pub struct Decoder<T: Symbol> {
    pub symbols: Vec<CodedSymbol<T>>,
    pub local: CodingWindow<T>,
    pub window: CodingWindow<T>,
    pub remote: CodingWindow<T>,
    pub decodable: Vec<usize>,
    pub decoded: usize,
}

/// Well-formedness: the three windows are sound, the two backlog windows
/// never schedule into the already-received past, every window's cursor
/// stands at the number of received cells, and every queued cell index is
/// in range.
pub open spec fn decoder_wf<T: Symbol>(d: Decoder<T>) -> bool {
    &&& window_wf(d.local)
    &&& window_wf(d.window)
    &&& window_wf(d.remote)
    &&& window_fresh(d.local)
    &&& window_fresh(d.remote)
    &&& d.local.next_index == d.symbols@.len()
    &&& d.window.next_index == d.symbols@.len()
    &&& d.remote.next_index == d.symbols@.len()
    &&& (forall|i: int|
        0 <= i < d.decodable@.len() ==> (#[trigger] d.decodable@[i]) < d.symbols@.len())
}

/// The three-window correction a received cell goes through: the decoder's
/// own pending symbols and the resolved-remote backlog are removed, and the
/// resolved-local backlog is added back.
pub open spec fn decoder_folds<T: Symbol>(
    d: Decoder<T>,
    input: (T::V, u64, i64),
    out: (T::V, u64, i64),
) -> bool {
    exists|c1: (T::V, u64, i64), c2: (T::V, u64, i64)|
        {
            &&& #[trigger] window_applied(d.remote, c1, c2, Op::Remove)
            &&& window_applied(d.window, input, c1, Op::Remove)
            &&& window_applied(d.local, c2, out, Op::Add)
        }
}

/// The decoder components the peeling pass acts on: received cells,
/// pending queue, local backlog, remote backlog.
pub type PeelState<T> = (Seq<CodedSymbol<T>>, Seq<usize>, Seq<HashedSymbol<T>>, Seq<
    HashedSymbol<T>,
>);

/// Those components of a decoder.
pub open spec fn peel_view<T: Symbol>(d: Decoder<T>) -> PeelState<T> {
    (d.symbols@, d.decodable@, d.local.symbols@, d.remote.symbols@)
}

/// The effect of draining one pending cell, relating the state before to
/// the state after.  A cell with net count one yields the pair (the
/// identity combined with the cell's payload, the cell's hash); the pair
/// joins the remote backlog while every history cell on the pair's own
/// schedule absorbs its removal, queueing each cell that thereby becomes
/// peelable.  Net count minus one is the mirror image into the local
/// backlog, propagated with `Add`.  A vacuous count of zero changes
/// nothing.  Any other count admits no step.
pub open spec fn peel_step<T: Symbol>(idx: usize, s: PeelState<T>, t: PeelState<T>) -> bool {
    let cell = s.0[idx as int];
    let pv = T::vxor(T::vzero(), cell.symbol@);
    let h = cell.hash;
    let g = IndexGenerator { prng: h, last_index: 0 };
    let len = s.0.len() as u64;
    &&& idx < s.0.len()
    &&& if cell.count == 0 {
        t == s
    } else if cell.count == 1 || cell.count == -1 {
        let op = if cell.count == 1 {
            Op::Remove
        } else {
            Op::Add
        };
        &&& t.0.len() == s.0.len()
        &&& (forall|i: int|
            0 <= i < s.0.len() && spec_walk(g, len).contains(i) ==> cell_view(
                #[trigger] t.0[i],
            ) == spec_apply_v::<T>(cell_view(s.0[i]), pv, h, op))
        &&& (forall|i: int|
            0 <= i < s.0.len() && !spec_walk(g, len).contains(i) ==> (#[trigger] t.0[i])
                == s.0[i])
        &&& t.1 == s.1 + spec_walk_pushes(g, len, s.0, pv, h, op)
        &&& if cell.count == 1 {
            &&& t.2 == s.2
            &&& (exists|e: HashedSymbol<T>|
                e.symbol@ == pv && e.hash == h && t.3 == s.3.push(e))
        } else {
            &&& t.3 == s.3
            &&& (exists|e: HashedSymbol<T>|
                e.symbol@ == pv && e.hash == h && t.2 == s.2.push(e))
        }
    } else {
        false
    }
}

/// The peeling pass over a batch of drained cell indices, front to back,
/// from state `s` to state `f`.  Each valid cell is drained by one
/// [`peel_step`]; the first cell whose count is invalid stops the pass at
/// once with that count as the error and the state as it stood.  `steps`
/// counts the cells fully drained.
pub open spec fn peel_from<T: Symbol>(
    batch: Seq<usize>,
    s: PeelState<T>,
    f: PeelState<T>,
    r: Result<(), i64>,
    steps: int,
) -> bool
    decreases batch.len(),
{
    if batch.len() == 0 {
        &&& r is Ok
        &&& f == s
        &&& steps == 0
    } else {
        let idx = batch[0];
        if idx < s.0.len() && (s.0[idx as int].count == 0 || s.0[idx as int].count == 1
            || s.0[idx as int].count == -1) {
            exists|t: PeelState<T>|
                #![auto]
                {
                    &&& peel_step(idx, s, t)
                    &&& peel_from(batch.subrange(1, batch.len() as int), t, f, r, steps - 1)
                }
        } else if idx < s.0.len() {
            &&& r == Result::<(), i64>::Err(s.0[idx as int].count)
            &&& f == s
            &&& steps == 0
        } else {
            false
        }
    }
}

/// A pass that drained `batch` cleanly extends by one more valid cell.
proof fn lemma_peel_extend_ok<T: Symbol>(
    batch: Seq<usize>,
    s: PeelState<T>,
    m: PeelState<T>,
    t: PeelState<T>,
    idx: usize,
    n: int,
)
    requires
        peel_from(batch, s, m, Result::<(), i64>::Ok(()), n),
        idx < m.0.len(),
        m.0[idx as int].count == 0 || m.0[idx as int].count == 1 || m.0[idx as int].count == -1,
        peel_step(idx, m, t),
    ensures
        peel_from(batch.push(idx), s, t, Result::<(), i64>::Ok(()), n + 1),
    decreases batch.len(),
{
    if batch.len() == 0 {
        assert(batch.push(idx)[0] == idx);
        assert(batch.push(idx).subrange(1, 1) =~= Seq::<usize>::empty());
        assert(peel_from(Seq::<usize>::empty(), t, t, Result::<(), i64>::Ok(()), 0));
        assert(peel_step(idx, s, t) && peel_from(
            batch.push(idx).subrange(1, batch.push(idx).len() as int),
            t,
            t,
            Result::<(), i64>::Ok(()),
            n,
        ));
    } else {
        let idx0 = batch[0];
        let rest = batch.subrange(1, batch.len() as int);
        let t1 = choose|t1: PeelState<T>|
            #![auto]
            peel_step(idx0, s, t1) && peel_from(rest, t1, m, Result::<(), i64>::Ok(()), n - 1);
        lemma_peel_extend_ok(rest, t1, m, t, idx, n - 1);
        assert(batch.push(idx)[0] == idx0);
        assert(batch.push(idx).subrange(1, batch.push(idx).len() as int) =~= rest.push(idx));
        assert(peel_step(idx0, s, t1) && peel_from(
            batch.push(idx).subrange(1, batch.push(idx).len() as int),
            t1,
            t,
            Result::<(), i64>::Ok(()),
            n,
        ));
    }
}

/// A pass that drained `batch` cleanly, faced with an invalid cell at the
/// head of the remaining queue, errors out with that cell's count and the
/// state as it stands, whatever else remains.
proof fn lemma_peel_extend_err<T: Symbol>(
    batch: Seq<usize>,
    suffix: Seq<usize>,
    full: Seq<usize>,
    s: PeelState<T>,
    m: PeelState<T>,
    c: i64,
    n: int,
)
    requires
        peel_from(batch, s, m, Result::<(), i64>::Ok(()), n),
        full == batch + suffix,
        suffix.len() > 0,
        suffix[0] < m.0.len(),
        m.0[suffix[0] as int].count == c,
        c != 0 && c != 1 && c != -1,
    ensures
        peel_from(full, s, m, Result::<(), i64>::Err(c), n),
    decreases batch.len(),
{
    if batch.len() == 0 {
        assert(full =~= suffix);
        assert(s == m);
    } else {
        let idx0 = batch[0];
        let rest = batch.subrange(1, batch.len() as int);
        let t1 = choose|t1: PeelState<T>|
            #![auto]
            peel_step(idx0, s, t1) && peel_from(rest, t1, m, Result::<(), i64>::Ok(()), n - 1);
        lemma_peel_extend_err(rest, suffix, rest + suffix, t1, m, c, n - 1);
        assert(full[0] == idx0);
        assert(full.subrange(1, full.len() as int) =~= rest + suffix);
        assert(peel_step(idx0, s, t1) && peel_from(
            full.subrange(1, full.len() as int),
            t1,
            m,
            Result::<(), i64>::Err(c),
            n - 1,
        ));
    }
}

/// Whether some entry of `out` has the payload view `pv`.
pub open spec fn has_payload<T: Symbol>(out: Seq<T>, pv: T::V) -> bool {
    exists|i: int| 0 <= i < out.len() && (#[trigger] out[i])@ == pv
}

/// Whether some backlog entry of `src` carries the payload view `pv`.
pub open spec fn src_has_payload<T: Symbol>(src: Seq<HashedSymbol<T>>, pv: T::V) -> bool {
    exists|j: int| 0 <= j < src.len() && (#[trigger] src[j]).symbol@ == pv
}

/// Whether `out` lists exactly the distinct payloads of `src`.
pub open spec fn same_payloads<T: Symbol>(out: Seq<T>, src: Seq<HashedSymbol<T>>) -> bool {
    &&& (forall|i: int| 0 <= i < out.len() ==> src_has_payload(src, (#[trigger] out[i])@))
    &&& (forall|j: int| 0 <= j < src.len() ==> has_payload(out, (#[trigger] src[j]).symbol@))
    &&& (forall|i1: int, i2: int|
        0 <= i1 < out.len() && 0 <= i2 < out.len() && i1 != i2 ==> out[i1]@ != out[i2]@)
}

/// Folds a resolved symbol into the cell at `idx`, queueing the cell if it
/// thereby becomes peelable.
fn touch_cell<T: Symbol>(
    symbols: &mut Vec<CodedSymbol<T>>,
    decodable: &mut Vec<usize>,
    idx: usize,
    symbol: &HashedSymbol<T>,
    op: Op,
)
    requires
        idx < old(symbols)@.len(),
    ensures
        final(symbols)@.len() == old(symbols)@.len(),
        cell_view(final(symbols)@[idx as int]) == spec_apply(
            cell_view(old(symbols)@[idx as int]),
            *symbol,
            op,
        ),
        forall|i: int|
            0 <= i < old(symbols)@.len() && i != idx ==> final(symbols)@[i] == old(symbols)@[i],
        final(decodable)@ == (if spec_extractable::<T>(cell_view(final(symbols)@[idx as int])) {
            old(decodable)@.push(idx)
        } else {
            old(decodable)@
        }),
{
    let mut cell = symbols[idx].dup();
    cell.apply(symbol, op);
    let count = cell.count;
    let cell_hash = cell.hash;
    let payload_hash = cell.symbol.get_hash();
    symbols[idx] = cell;
    if (count == -1 || count == 1) && cell_hash == payload_hash {
        decodable.push(idx);
    }
}

/// Whether some entry of `out` carries the payload view of `x`.
fn contains_payload<T: Symbol>(out: &Vec<T>, x: &T) -> (b: bool)
    ensures
        b == has_payload(out@, x@),
{
    let mut i: usize = 0;
    while i < out.len()
        invariant
            i <= out@.len(),
            forall|j: int| 0 <= j < i ==> (#[trigger] out@[j])@ != x@,
        decreases out@.len() - i,
    {
        if out[i].eq_sym(x) {
            proof {
                assert(has_payload(out@, x@));
            }
            return true;
        }
        i = i + 1;
    }
    proof {
        assert(!has_payload(out@, x@));
    }
    false
}

/// The distinct payloads of a backlog, in some order.
#[verifier::rlimit(100)]
fn collect_unique<T: Symbol>(v: Vec<HashedSymbol<T>>) -> (out: Vec<T>)
    ensures
        same_payloads(out@, v@),
{
    let ghost v0 = v@;
    let mut rest = v;
    let mut out: Vec<T> = Vec::new();
    proof {
        assert(v0.subrange(0, v0.len() as int) =~= v0);
    }
    while rest.len() > 0
        invariant
            rest@ == v0.subrange(0, rest@.len() as int),
            rest@.len() <= v0.len(),
            forall|j: int|
                rest@.len() <= j < v0.len() ==> has_payload(out@, (#[trigger] v0[j]).symbol@),
            forall|i: int| 0 <= i < out@.len() ==> src_has_payload(v0, (#[trigger] out@[i])@),
            forall|i1: int, i2: int|
                0 <= i1 < out@.len() && 0 <= i2 < out@.len() && i1 != i2 ==> out@[i1]@
                    != out@[i2]@,
        decreases rest@.len(),
    {
        let ghost n = rest@.len() as int;
        let hs = match rest.pop() {
            Some(hs) => hs,
            None => {
                proof {
                    assert(false);
                }
                unreached()
            },
        };
        proof {
            assert(hs == v0.subrange(0, n)[n - 1]);
            assert(hs == v0[n - 1]);
            assert(rest@ =~= v0.subrange(0, n - 1));
        }
        let ghost out0 = out@;
        let found = contains_payload(&out, &hs.symbol);
        if !found {
            out.push(hs.symbol);
        }
        proof {
            assert forall|j: int|
                rest@.len() <= j < v0.len() implies has_payload(
                out@,
                (#[trigger] v0[j]).symbol@,
            ) by {
                if j == n - 1 {
                    if found {
                        let i = choose|i: int| 0 <= i < out0.len() && (#[trigger] out0[i])@ == hs.symbol@;
                        assert(out@[i]@ == v0[j].symbol@);
                    } else {
                        assert(out@[out@.len() - 1]@ == v0[j].symbol@);
                    }
                } else {
                    assert(has_payload(out0, v0[j].symbol@));
                    let i = choose|i: int| 0 <= i < out0.len() && (#[trigger] out0[i])@ == v0[j].symbol@;
                    assert(out@[i]@ == v0[j].symbol@);
                }
            }
            assert forall|i: int| 0 <= i < out@.len() implies src_has_payload(
                v0,
                (#[trigger] out@[i])@,
            ) by {
                if i < out0.len() {
                    assert(src_has_payload(v0, out0[i]@));
                    assert(out@[i]@ == out0[i]@);
                } else {
                    assert(out@[i]@ == v0[n - 1].symbol@);
                    assert(src_has_payload(v0, v0[n - 1].symbol@));
                }
            }
        }
    }
    proof {
        assert(same_payloads(out@, v0));
        assert(v0 == v@);
    }
    out
}

impl<T: Symbol> Decoder<T> {
    /// A decoder that has received nothing and knows no symbols.
    pub fn new() -> (r: Self)
        ensures
            decoder_wf(r),
            r.symbols@.len() == 0,
            r.local.symbols@.len() == 0,
            r.window.symbols@.len() == 0,
            r.remote.symbols@.len() == 0,
            r.decodable@.len() == 0,
            r.decoded == 0,
            window_fresh(r.window),
    {
        Decoder {
            symbols: Vec::new(),
            local: CodingWindow::new(),
            window: CodingWindow::new(),
            remote: CodingWindow::new(),
            decodable: Vec::new(),
            decoded: 0,
        }
    }

    /// Whether every received cell has been resolved.
    pub fn is_done(&self) -> (r: bool)
        ensures
            r == (self.decoded == self.symbols@.len()),
    {
        self.decoded == self.symbols.len()
    }

    /// The symbols resolved as known only locally.
    pub fn local(&self) -> (r: &[HashedSymbol<T>])
        ensures
            r@ == self.local.symbols@,
    {
        self.local.symbols.as_slice()
    }

    /// The symbols resolved as known only by the peer.
    pub fn remote(&self) -> (r: &[HashedSymbol<T>])
        ensures
            r@ == self.remote.symbols@,
    {
        self.remote.symbols.as_slice()
    }

    /// Registers a symbol this side knows.  It is subtracted from coded
    /// symbols received from now on; cells already received are not
    /// revisited, and a symbol registered after the first coded symbol
    /// arrived starts its schedule in the already-received past.
    pub fn add_symbol(&mut self, symbol: T)
        requires
            decoder_wf(*old(self)),
        ensures
            decoder_wf(*final(self)),
            final(self).window.symbols@.len() == old(self).window.symbols@.len() + 1,
            final(self).window.symbols@ == old(self).window.symbols@.push(
                final(self).window.symbols@.last(),
            ),
            final(self).window.symbols@.last().symbol@ == symbol@,
            final(self).window.symbols@.last().hash == T::vhash(symbol@),
            final(self).window.generators@ == old(self).window.generators@.push(
                IndexGenerator { prng: T::vhash(symbol@), last_index: 0 },
            ),
            final(self).window.next_index == old(self).window.next_index,
            final(self).symbols@ == old(self).symbols@,
            final(self).local == old(self).local,
            final(self).remote == old(self).remote,
            final(self).decodable@ == old(self).decodable@,
            final(self).decoded == old(self).decoded,
    {
        self.window.add_symbol(symbol);
    }

    /// Registers a symbol this side knows, with its hash already computed.
    pub fn add_hashed_symbol(&mut self, symbol: HashedSymbol<T>)
        requires
            decoder_wf(*old(self)),
        ensures
            decoder_wf(*final(self)),
            final(self).window.symbols@ == old(self).window.symbols@.push(symbol),
            final(self).window.generators@ == old(self).window.generators@.push(
                IndexGenerator { prng: symbol.hash, last_index: 0 },
            ),
            final(self).window.next_index == old(self).window.next_index,
            final(self).symbols@ == old(self).symbols@,
            final(self).local == old(self).local,
            final(self).remote == old(self).remote,
            final(self).decodable@ == old(self).decodable@,
            final(self).decoded == old(self).decoded,
    {
        let index_gen = IndexGenerator::new(symbol.hash, 0);
        self.window.add_hashed_symbol_with_mapping(symbol, index_gen);
    }

    /// Receives the next coded symbol of the stream: corrects it through
    /// the three windows, stores it, and queues it for peeling if it is
    /// already resolvable.
    pub fn add_coded_symbol(&mut self, coded_symbol: CodedSymbol<T>)
        requires
            decoder_wf(*old(self)),
            old(self).symbols@.len() < u64::MAX,
        ensures
            decoder_wf(*final(self)),
            final(self).symbols@.len() == old(self).symbols@.len() + 1,
            final(self).symbols@ == old(self).symbols@.push(final(self).symbols@.last()),
            decoder_folds(
                *old(self),
                cell_view(coded_symbol),
                cell_view(final(self).symbols@.last()),
            ),
            final(self).decodable@ == (if spec_decodable_cell::<T>(
                cell_view(final(self).symbols@.last()),
            ) {
                old(self).decodable@.push(old(self).symbols@.len() as usize)
            } else {
                old(self).decodable@
            }),
            final(self).decoded == old(self).decoded,
            final(self).window.symbols@ == old(self).window.symbols@,
            final(self).local.symbols@ == old(self).local.symbols@,
            final(self).remote.symbols@ == old(self).remote.symbols@,
            window_fresh(old(self).window) ==> window_fresh(final(self).window),
    {
        let cs1 = self.window.apply_window(coded_symbol, Op::Remove);
        let cs2 = self.remote.apply_window(cs1, Op::Remove);
        let cs = self.local.apply_window(cs2, Op::Add);
        proof {
            assert(window_applied(
                old(self).window,
                cell_view(coded_symbol),
                cell_view(cs1),
                Op::Remove,
            ));
            assert(window_applied(old(self).remote, cell_view(cs1), cell_view(cs2), Op::Remove));
            assert(window_applied(old(self).local, cell_view(cs2), cell_view(cs), Op::Add));
            assert(decoder_folds(*old(self), cell_view(coded_symbol), cell_view(cs)));
        }
        let count = cs.count;
        let cell_hash = cs.hash;
        let payload_hash = cs.symbol.get_hash();
        if (count == 1 || count == -1) && cell_hash == payload_hash || count == 0 && cell_hash
            == 0 {
            self.decodable.push(self.symbols.len());
        }
        self.symbols.push(cs);
    }

    /// Propagates a freshly resolved symbol over the received history: every
    /// cell on the symbol's schedule absorbs it, and each such cell that
    /// thereby becomes peelable is queued.  Returns the generator, now past
    /// the history, under which the symbol joins a backlog window.
    #[verifier::rlimit(100)]
    fn apply_new_symbol(&mut self, symbol: &HashedSymbol<T>, op: Op) -> (r: IndexGenerator)
        requires
            forall|i: int|
                0 <= i < old(self).decodable@.len() ==> (#[trigger] old(self).decodable@[i])
                    < old(self).symbols@.len(),
        ensures
            final(self).symbols@.len() == old(self).symbols@.len(),
            r == spec_walk_end(
                IndexGenerator { prng: symbol.hash, last_index: 0 },
                old(self).symbols@.len() as u64,
            ),
            r.last_index >= old(self).symbols@.len(),
            forall|i: int|
                0 <= i < old(self).symbols@.len() && spec_walk(
                    IndexGenerator { prng: symbol.hash, last_index: 0 },
                    old(self).symbols@.len() as u64,
                ).contains(i) ==> cell_view(#[trigger] final(self).symbols@[i]) == spec_apply(
                    cell_view(old(self).symbols@[i]),
                    *symbol,
                    op,
                ),
            forall|i: int|
                0 <= i < old(self).symbols@.len() && !spec_walk(
                    IndexGenerator { prng: symbol.hash, last_index: 0 },
                    old(self).symbols@.len() as u64,
                ).contains(i) ==> (#[trigger] final(self).symbols@[i]) == old(self).symbols@[i],
            final(self).decodable@ == old(self).decodable@ + spec_walk_pushes(
                IndexGenerator { prng: symbol.hash, last_index: 0 },
                old(self).symbols@.len() as u64,
                old(self).symbols@,
                symbol.symbol@,
                symbol.hash,
                op,
            ),
            old(self).decodable@.is_prefix_of(final(self).decodable@),
            forall|i: int|
                0 <= i < final(self).decodable@.len() ==> (#[trigger] final(self).decodable@[i])
                    < final(self).symbols@.len(),
            final(self).local == old(self).local,
            final(self).window == old(self).window,
            final(self).remote == old(self).remote,
            final(self).decoded == old(self).decoded,
    {
        let ghost len0 = self.symbols@.len();
        let n: usize = self.symbols.len();
        proof {
            assert(n == len0);
            assert(len0 <= u64::MAX);
        }
        let mut index_gen = IndexGenerator::new(symbol.hash, 0);
        let ghost start = index_gen;
        let ghost mut visited: Seq<int> = Seq::empty();
        let ghost mut pushed: Seq<usize> = Seq::empty();
        proof {
            assert(visited + spec_walk(start, len0 as u64) =~= spec_walk(start, len0 as u64));
            assert(pushed + spec_walk_pushes(
                start,
                len0 as u64,
                old(self).symbols@,
                symbol.symbol@,
                symbol.hash,
                op,
            ) =~= spec_walk_pushes(
                start,
                len0 as u64,
                old(self).symbols@,
                symbol.symbol@,
                symbol.hash,
                op,
            ));
            assert(self.decodable@ =~= old(self).decodable@ + pushed);
        }
        while index_gen.last_index < self.symbols.len() as u64
            invariant
                self.symbols@.len() == len0,
                len0 <= u64::MAX,
                spec_walk(start, len0 as u64) == visited + spec_walk(index_gen, len0 as u64),
                spec_walk_end(start, len0 as u64) == spec_walk_end(index_gen, len0 as u64),
                forall|i: int| #[trigger] visited.contains(i) ==> 0 <= i < index_gen.last_index,
                forall|i: int|
                    0 <= i < len0 && visited.contains(i) ==> cell_view(
                        #[trigger] self.symbols@[i],
                    ) == spec_apply(cell_view(old(self).symbols@[i]), *symbol, op),
                forall|i: int|
                    0 <= i < len0 && !visited.contains(i) ==> (#[trigger] self.symbols@[i])
                        == old(self).symbols@[i],
                old(self).decodable@.is_prefix_of(self.decodable@),
                self.decodable@ == old(self).decodable@ + pushed,
                spec_walk_pushes(
                    start,
                    len0 as u64,
                    old(self).symbols@,
                    symbol.symbol@,
                    symbol.hash,
                    op,
                ) == pushed + spec_walk_pushes(
                    index_gen,
                    len0 as u64,
                    old(self).symbols@,
                    symbol.symbol@,
                    symbol.hash,
                    op,
                ),
                forall|i: int|
                    0 <= i < self.decodable@.len() ==> (#[trigger] self.decodable@[i]) < len0,
                self.local == old(self).local,
                self.window == old(self).window,
                self.remote == old(self).remote,
                self.decoded == old(self).decoded,
                old(self).symbols@.len() == len0,
            decreases (if index_gen.last_index < len0 {
                len0 - index_gen.last_index
            } else {
                0int
            }),
        {
            let idx: usize = index_gen.last_index as usize;
            let ghost gen0 = index_gen;
            proof {
                assert(spec_walk(index_gen, len0 as u64) == seq![idx as int] + spec_walk(
                    spec_step(index_gen),
                    len0 as u64,
                ));
                assert(!visited.contains(idx as int));
            }
            let ghost syms0 = self.symbols@;
            let ghost dec0 = self.decodable@;
            touch_cell(&mut self.symbols, &mut self.decodable, idx, symbol, op);
            index_gen.next();
            proof {
                // The exec enqueue decision matches the head of the spec
                // walk's push list: this cell had not been touched before.
                assert(syms0[idx as int] == old(self).symbols@[idx as int]);
                let head = (if spec_extractable::<T>(
                    spec_apply_v::<T>(
                        cell_view(old(self).symbols@[idx as int]),
                        symbol.symbol@,
                        symbol.hash,
                        op,
                    ),
                ) {
                    seq![idx]
                } else {
                    Seq::<usize>::empty()
                });
                assert(spec_walk_pushes(
                    gen0,
                    len0 as u64,
                    old(self).symbols@,
                    symbol.symbol@,
                    symbol.hash,
                    op,
                ) == head + spec_walk_pushes(
                    index_gen,
                    len0 as u64,
                    old(self).symbols@,
                    symbol.symbol@,
                    symbol.hash,
                    op,
                ));
                assert(self.decodable@ =~= dec0 + head);
                let ghost pushed0 = pushed;
                pushed = pushed + head;
                assert(self.decodable@ =~= old(self).decodable@ + pushed);
                assert(pushed0 + (head + spec_walk_pushes(
                    index_gen,
                    len0 as u64,
                    old(self).symbols@,
                    symbol.symbol@,
                    symbol.hash,
                    op,
                )) =~= pushed + spec_walk_pushes(
                    index_gen,
                    len0 as u64,
                    old(self).symbols@,
                    symbol.symbol@,
                    symbol.hash,
                    op,
                ));
                let ghost visited0 = visited;
                visited = visited.push(idx as int);
                assert(visited0 + (seq![idx as int] + spec_walk(index_gen, len0 as u64))
                    =~= visited + spec_walk(index_gen, len0 as u64));
                assert(visited[visited.len() - 1] == idx as int);
                assert(visited.contains(idx as int));
                assert forall|i: int| #[trigger] visited.contains(i) implies 0 <= i
                    < index_gen.last_index by {
                    if i != idx as int {
                        let k = choose|k: int| 0 <= k < visited.len() && visited[k] == i;
                        assert(visited0[k] == i);
                        assert(visited0.contains(i));
                    }
                }
                assert forall|i: int| visited0.contains(i) implies visited.contains(i) by {
                    let k = choose|k: int| 0 <= k < visited0.len() && visited0[k] == i;
                    assert(visited[k] == i);
                }
                assert forall|i: int|
                    0 <= i < len0 && visited.contains(i) implies cell_view(
                    #[trigger] self.symbols@[i],
                ) == spec_apply(cell_view(old(self).symbols@[i]), *symbol, op) by {
                    if i == idx as int {
                        assert(syms0[i] == old(self).symbols@[i]);
                    } else {
                        let k = choose|k: int| 0 <= k < visited.len() && visited[k] == i;
                        assert(visited0[k] == i);
                        assert(visited0.contains(i));
                        assert(self.symbols@[i] == syms0[i]);
                    }
                }
                assert forall|i: int|
                    0 <= i < len0 && !visited.contains(i) implies (#[trigger] self.symbols@[i])
                    == old(self).symbols@[i] by {
                    assert(!visited0.contains(i));
                    assert(self.symbols@[i] == syms0[i]);
                }
            }
        }
        proof {
            assert(spec_walk(index_gen, len0 as u64) =~= Seq::<int>::empty());
            assert(visited + Seq::<int>::empty() =~= visited);
            assert(spec_walk_pushes(
                index_gen,
                len0 as u64,
                old(self).symbols@,
                symbol.symbol@,
                symbol.hash,
                op,
            ) =~= Seq::<usize>::empty());
            assert(pushed + Seq::<usize>::empty() =~= pushed);
        }
        index_gen
    }

    /// Processes the current batch of resolvable cells.  Each cell with net
    /// count one (peer-only) or minus one (local-only) has its symbol
    /// peeled, propagated over the history, and recorded in the matching
    /// backlog; a vacuous cell is merely counted.  A cell whose count is
    /// anything else stops the pass at once with that count: the stream is
    /// corrupt, and the error is unrecoverable for the session.
    #[verifier::rlimit(100)]
    pub fn try_decode(&mut self) -> (r: Result<(), i64>)
        requires
            decoder_wf(*old(self)),
            old(self).decoded + old(self).decodable@.len() <= usize::MAX,
        ensures
            decoder_wf(*final(self)),
            final(self).symbols@.len() == old(self).symbols@.len(),
            final(self).window == old(self).window,
            old(self).local.symbols@.is_prefix_of(final(self).local.symbols@),
            old(self).remote.symbols@.is_prefix_of(final(self).remote.symbols@),
            peel_from(
                old(self).decodable@,
                (
                    old(self).symbols@,
                    Seq::<usize>::empty(),
                    old(self).local.symbols@,
                    old(self).remote.symbols@,
                ),
                peel_view(*final(self)),
                r,
                final(self).decoded - old(self).decoded,
            ),
            match r {
                Ok(()) => final(self).decoded == old(self).decoded + old(self).decodable@.len(),
                Err(c) => c != 0 && c != 1 && c != -1 && exists|k: int|
                    0 <= k < old(self).decodable@.len() && final(self).symbols@[(
                    #[trigger] old(self).decodable@[k]) as int].count == c,
            },
    {
        let batch: Vec<usize> = slice_to_vec(self.decodable.as_slice());
        self.decodable = Vec::new();
        let ghost pinit = (
            old(self).symbols@,
            Seq::<usize>::empty(),
            old(self).local.symbols@,
            old(self).remote.symbols@,
        );
        let mut i: usize = 0;
        proof {
            assert(self.decodable@ =~= Seq::<usize>::empty());
            assert(peel_view(*self) == pinit);
            assert(batch@.subrange(0, 0) =~= Seq::<usize>::empty());
            assert(peel_from(
                batch@.subrange(0, 0),
                pinit,
                peel_view(*self),
                Result::<(), i64>::Ok(()),
                0,
            ));
        }
        while i < batch.len()
            invariant
                decoder_wf(*self),
                batch@ == old(self).decodable@,
                i <= batch@.len(),
                forall|j: int| 0 <= j < batch@.len() ==> (#[trigger] batch@[j]) < self.symbols@.len(),
                self.symbols@.len() == old(self).symbols@.len(),
                self.window == old(self).window,
                old(self).local.symbols@.is_prefix_of(self.local.symbols@),
                old(self).remote.symbols@.is_prefix_of(self.remote.symbols@),
                self.decoded == old(self).decoded + i,
                old(self).decoded + batch@.len() <= usize::MAX,
                pinit == (
                    old(self).symbols@,
                    Seq::<usize>::empty(),
                    old(self).local.symbols@,
                    old(self).remote.symbols@,
                ),
                peel_from(
                    batch@.subrange(0, i as int),
                    pinit,
                    peel_view(*self),
                    Result::<(), i64>::Ok(()),
                    i as int,
                ),
            decreases batch@.len() - i,
        {
            let idx: usize = batch[i];
            let ghost pre = peel_view(*self);
            let count = self.symbols[idx].count;
            if count == 1 || count == -1 {
                let zero = T::zero();
                let cell_hash: u64 = self.symbols[idx].hash;
                let extracted = zero.xor(&self.symbols[idx].symbol);
                let hs = HashedSymbol { symbol: extracted, hash: cell_hash };
                let ghost ghs = hs;
                let ghost pv = T::vxor(T::vzero(), pre.0[idx as int].symbol@);
                if count == 1 {
                    let index_gen = self.apply_new_symbol(&hs, Op::Remove);
                    self.remote.add_hashed_symbol_with_mapping(hs, index_gen);
                    proof {
                        assert(old(self).remote.symbols@.is_prefix_of(self.remote.symbols@));
                        let post = peel_view(*self);
                        assert(ghs.symbol@ == pv && ghs.hash == pre.0[idx as int].hash);
                        assert(post.3 == pre.3.push(ghs));
                        assert(peel_step(idx, pre, post));
                    }
                } else {
                    let index_gen = self.apply_new_symbol(&hs, Op::Add);
                    self.local.add_hashed_symbol_with_mapping(hs, index_gen);
                    proof {
                        assert(old(self).local.symbols@.is_prefix_of(self.local.symbols@));
                        let post = peel_view(*self);
                        assert(ghs.symbol@ == pv && ghs.hash == pre.0[idx as int].hash);
                        assert(post.2 == pre.2.push(ghs));
                        assert(peel_step(idx, pre, post));
                    }
                }
                self.decoded = self.decoded + 1;
            } else if count == 0 {
                self.decoded = self.decoded + 1;
                proof {
                    assert(peel_view(*self) == pre);
                    assert(peel_step(idx, pre, peel_view(*self)));
                }
            } else {
                proof {
                    assert(self.symbols@[idx as int].count == count);
                    assert(old(self).decodable@[i as int] == idx);
                    assert(peel_view(*self) == pre);
                    assert(batch@.subrange(0, i as int) + batch@.subrange(
                        i as int,
                        batch@.len() as int,
                    ) =~= batch@);
                    assert(batch@.subrange(i as int, batch@.len() as int)[0] == idx);
                    lemma_peel_extend_err(
                        batch@.subrange(0, i as int),
                        batch@.subrange(i as int, batch@.len() as int),
                        batch@,
                        pinit,
                        pre,
                        count,
                        i as int,
                    );
                }
                return Err(count);
            }
            proof {
                lemma_peel_extend_ok(
                    batch@.subrange(0, i as int),
                    pinit,
                    pre,
                    peel_view(*self),
                    idx,
                    i as int,
                );
                assert(batch@.subrange(0, i as int + 1) =~= batch@.subrange(0, i as int).push(
                    idx,
                ));
            }
            i = i + 1;
        }
        proof {
            assert(batch@.subrange(0, batch@.len() as int) =~= batch@);
        }
        Ok(())
    }

    /// Processes the current batch of resolvable cells; an invalid degree
    /// is unrecoverable for the session, and is reported rather than
    /// silently ignored.
    pub fn decode(&mut self) -> (r: Result<(), i64>)
        requires
            decoder_wf(*old(self)),
            old(self).decoded + old(self).decodable@.len() <= usize::MAX,
        ensures
            decoder_wf(*final(self)),
            final(self).symbols@.len() == old(self).symbols@.len(),
            final(self).window == old(self).window,
            old(self).local.symbols@.is_prefix_of(final(self).local.symbols@),
            old(self).remote.symbols@.is_prefix_of(final(self).remote.symbols@),
            peel_from(
                old(self).decodable@,
                (
                    old(self).symbols@,
                    Seq::<usize>::empty(),
                    old(self).local.symbols@,
                    old(self).remote.symbols@,
                ),
                peel_view(*final(self)),
                r,
                final(self).decoded - old(self).decoded,
            ),
            match r {
                Ok(()) => final(self).decoded == old(self).decoded + old(self).decodable@.len(),
                Err(c) => c != 0 && c != 1 && c != -1 && exists|k: int|
                    0 <= k < old(self).decodable@.len() && final(self).symbols@[(
                    #[trigger] old(self).decodable@[k]) as int].count == c,
            },
    {
        self.try_decode()
    }

    /// Hands out the reconciliation result: the distinct payloads the peer
    /// alone holds, and the distinct payloads this side alone holds.
    pub fn consume(self) -> (r: (Vec<T>, Vec<T>))
        ensures
            same_payloads(r.0@, self.remote.symbols@),
            same_payloads(r.1@, self.local.symbols@),
    {
        let Decoder { symbols: _, local, window: _, remote, decodable: _, decoded: _ } = self;
        let remote_needs = collect_unique(remote.symbols);
        let local_needs = collect_unique(local.symbols);
        (remote_needs, local_needs)
    }

    /// Forgets all received history, both backlogs, and the pending
    /// symbols: a full restart, independent of any encoder.
    pub fn reset(&mut self)
        ensures
            decoder_wf(*final(self)),
            final(self).symbols@.len() == 0,
            final(self).local.symbols@.len() == 0,
            final(self).window.symbols@.len() == 0,
            final(self).remote.symbols@.len() == 0,
            final(self).decodable@.len() == 0,
            final(self).decoded == 0,
            window_fresh(final(self).window),
    {
        self.symbols.clear();
        self.local.reset();
        self.remote.reset();
        self.window.reset();
        self.decodable.clear();
        self.decoded = 0;
    }
}

impl<T: Symbol> Default for Decoder<T> {
    /// A decoder that has received nothing and knows no symbols.
    fn default() -> (r: Self)
        ensures
            decoder_wf(r),
            r.symbols@.len() == 0,
            r.window.symbols@.len() == 0,
            r.local.symbols@.len() == 0,
            r.remote.symbols@.len() == 0,
            r.decodable@.len() == 0,
            r.decoded == 0,
            window_fresh(r.window),
    {
        Decoder::new()
    }
}

} // verus!
