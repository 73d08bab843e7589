//! Tracked-byte accounting of the codec's large allocations.
//!
//! Big buffers own a [`Charge`] or are parked in the buffer pool, which moves bytes between
//! "live" and "parked" rather than freeing them. Anything under some 64 KiB (indices, headers,
//! table rows) is not tracked; it is noise next to the picture-sized buffers this exists to bound.
//!
//! A [`Ledger`] keeps the counters of a process. [`MemoryWatch`] reports what one call added on
//! top of whatever was already held, and [`Ledger::cumulative`] the high-water mark.

use vstd::prelude::*;

verus! {

/// Measured heap use of a decode or encode, in bytes.
///
/// Counted are the codec's large allocations; small headers, indices and row tables are not
/// tracked, so these numbers sit a few percent under a heap profiler's peak.
#[derive(Clone, Copy, Debug, PartialEq, Eq, Structural)]
pub struct MemoryReport {
    /// Most tracked bytes attributable to the measurement. Per call ([`MemoryWatch`]): the
    /// peak of `total - baseline` seen during the call. Cumulative: the all-time high-water mark
    /// of tracked bytes.
    pub tracked_peak_bytes: u64,
    /// Tracked bytes still held (per call: what the call added and has not released).
    /// Includes buffers parked in the recycle pool; excludes what was handed to the caller.
    pub tracked_live_bytes: u64,
    /// The subset of `tracked_live_bytes` currently parked in the recycle pool: not owned by any
    /// live object but still heap held.
    pub pool_bytes: u64,
}

impl Default for MemoryReport {
    fn default() -> (r: Self)
        ensures
            r == (MemoryReport { tracked_peak_bytes: 0, tracked_live_bytes: 0, pool_bytes: 0 }),
    {
        MemoryReport { tracked_peak_bytes: 0, tracked_live_bytes: 0, pool_bytes: 0 }
    }
}

/// What a number exceeds another by.
pub open spec fn excess(a: int, b: int) -> int {
    if a > b {
        a - b
    } else {
        0
    }
}

/// Per-call memory measurement: a handle on a ledger that watches itself.
///
/// A watch starts at the ledger's total, its baseline. From then on every charge raises its peak to
/// `total - baseline`, whether or not the bytes are still held when the watch is read.
#[derive(Debug)]
pub struct MemoryWatch {
    slot: usize,
}

impl MemoryWatch {
    /// Where the ledger keeps the watch.
    pub closed spec fn slot(&self) -> int {
        self.slot as int
    }

    /// The ledger keeps this watch.
    pub open spec fn is_open(&self, l: LedgerView) -> bool {
        0 <= self.slot() < l.watches.len() && l.watches[self.slot()] is Some
    }

    /// What the ledger has seen for this watch.
    pub open spec fn seen(&self, l: LedgerView) -> WatchView {
        l.watches[self.slot()]->0
    }

    /// Start measuring at the ledger's total. Watches that were closed make room.
    pub fn new(ledger: &mut Ledger) -> (w: Self)
        requires
            old(ledger).wf(),
        ensures
            final(ledger).wf(),
            w.slot() == purged(old(ledger)@.watches).len(),
            final(ledger)@ == (LedgerView {
                watches: purged(old(ledger)@.watches).push(Some(old(ledger)@.fresh_watch())),
                ..old(ledger)@
            }),
            w.is_open(final(ledger)@),
            w.seen(final(ledger)@) == old(ledger)@.fresh_watch(),
    {
        ledger.purge();
        let slot: usize = ledger.watches.len();
        let fresh = Watch { baseline: ledger.total(), pool: ledger.parked, peak: 0 };
        let ghost before = ledger@;
        ledger.watches.push(Some(fresh));
        proof {
            assert(ledger@.watches =~= before.watches.push(Some(before.fresh_watch())));
        }
        MemoryWatch { slot }
    }

    /// Re-baseline at the current total and clear the peak.
    pub fn reset(&self, ledger: &mut Ledger)
        requires
            old(ledger).wf(),
            self.is_open(old(ledger)@),
        ensures
            final(ledger).wf(),
            final(ledger)@ == (LedgerView {
                watches: old(ledger)@.watches.update(
                    self.slot(),
                    Some(old(ledger)@.fresh_watch()),
                ),
                ..old(ledger)@
            }),
    {
        let fresh = Watch { baseline: ledger.total(), pool: ledger.parked, peak: 0 };
        let ghost before = ledger@;
        ledger.watches.set(self.slot, Some(fresh));
        proof {
            assert(ledger@.watches =~= before.watches.update(
                self.slot(),
                Some(before.fresh_watch()),
            ));
        }
    }

    /// The measurement so far (or since `reset`): the largest growth, what is held above the
    /// baseline, and how much of that the pool holds above what it held then.
    pub fn report(&self, ledger: &Ledger) -> (r: MemoryReport)
        requires
            ledger.wf(),
            self.is_open(ledger@),
        ensures
            r.tracked_peak_bytes == self.seen(ledger@).peak,
            r.tracked_live_bytes == excess(ledger@.total(), self.seen(ledger@).base),
            r.pool_bytes == lesser(
                excess(ledger@.parked, self.seen(ledger@).pool),
                r.tracked_live_bytes as int,
            ),
            r.pool_bytes <= r.tracked_live_bytes <= r.tracked_peak_bytes,
    {
        proof {
            assert(kept_up(ledger@.watches[self.slot()], ledger@.total()));
        }
        match ledger.watches[self.slot] {
            Some(w) => {
                let held: usize = ledger.total().saturating_sub(w.baseline);
                let pooled: usize = ledger.parked.saturating_sub(w.pool);
                MemoryReport {
                    tracked_peak_bytes: w.peak as u64,
                    tracked_live_bytes: held as u64,
                    pool_bytes: if pooled < held { pooled } else { held } as u64,
                }
            },
            None => MemoryReport::default(),
        }
    }

    /// Stop measuring.
    pub fn close(self, ledger: &mut Ledger)
        requires
            old(ledger).wf(),
            self.is_open(old(ledger)@),
        ensures
            final(ledger).wf(),
            final(ledger)@ == (LedgerView {
                watches: old(ledger)@.watches.update(self.slot(), None),
                ..old(ledger)@
            }),
    {
        let ghost before = ledger@;
        ledger.watches.set(self.slot, None);
        proof {
            assert(ledger@.watches =~= before.watches.update(self.slot(), None));
        }
    }
}

/// The smaller of two numbers.
pub open spec fn lesser(a: int, b: int) -> int {
    if a < b {
        a
    } else {
        b
    }
}

/// The larger of two numbers.
pub open spec fn larger(a: int, b: int) -> int {
    if a < b {
        b
    } else {
        a
    }
}

/// What the ledger keeps for a watch.
#[derive(Clone, Copy, Debug)]
struct Watch {
    /// The total when the watch started: growth is measured above it.
    baseline: usize,
    /// The part of it that was parked in the buffer pool.
    pool: usize,
    /// Largest `total - baseline` so far.
    peak: usize,
}

/// What the ledger keeps for a watch, as a value.
pub struct WatchView {
    /// The total when the watch started.
    pub base: int,
    /// What the pool held when the watch started.
    pub pool: int,
    /// Largest growth above the base so far.
    pub peak: int,
}

impl Watch {
    spec fn value(self) -> WatchView {
        WatchView { base: self.baseline as int, pool: self.pool as int, peak: self.peak as int }
    }
}

/// The counters of a process.
#[derive(Debug)]
pub struct Ledger {
    live: usize,
    parked: usize,
    high: usize,
    watches: Vec<Option<Watch>>,
}

/// The counters as a value.
#[verifier::ext_equal]
pub struct LedgerView {
    /// Bytes owned by live tracked buffers.
    pub live: int,
    /// Bytes parked in the buffer pool (still heap the codec holds).
    pub parked: int,
    /// High-water mark of the total.
    pub high: int,
    /// The open watches, each where its handle says.
    pub watches: Seq<Option<WatchView>>,
}

/// A watch that has seen the total at `t`.
pub open spec fn raised(w: Option<WatchView>, t: int) -> Option<WatchView> {
    match w {
        Some(v) => Some(WatchView { peak: larger(v.peak, excess(t, v.base)), ..v }),
        None => None,
    }
}

/// A watch's peak is not below what is held.
pub open spec fn kept_up(w: Option<WatchView>, total: int) -> bool {
    w matches Some(v) ==> 0 <= v.base && 0 <= v.pool && excess(total, v.base) <= v.peak
}

/// The watches without the closed ones behind the last open one.
pub open spec fn purged(watches: Seq<Option<WatchView>>) -> Seq<Option<WatchView>>
    decreases watches.len(),
{
    if watches.len() > 0 && watches.last() is None {
        purged(watches.drop_last())
    } else {
        watches
    }
}

/// An open watch keeps its place when another one is registered.
pub proof fn law_open_watches_are_kept(watches: Seq<Option<WatchView>>, i: int)
    requires
        0 <= i < watches.len(),
        watches[i] is Some,
    ensures
        i < purged(watches).len() <= watches.len(),
        purged(watches)[i] == watches[i],
    decreases watches.len(),
{
    if watches.last() is None {
        law_open_watches_are_kept(watches.drop_last(), i);
    }
}

impl LedgerView {
    /// Every tracked byte the codec holds.
    pub open spec fn total(self) -> int {
        self.live + self.parked
    }

    /// The total was never above the high-water mark, nor above any watch's peak.
    pub open spec fn wf(self) -> bool {
        &&& 0 <= self.live
        &&& 0 <= self.parked
        &&& self.total() <= self.high <= usize::MAX
        &&& forall|i: int|
            0 <= i < self.watches.len() ==> kept_up(#[trigger] self.watches[i], self.total())
    }

    /// The watches when they have seen the total at `t`.
    pub open spec fn raised(self, t: int) -> Seq<Option<WatchView>> {
        Seq::new(self.watches.len(), |i: int| raised(self.watches[i], t))
    }

    /// With `n` bytes more: the high-water mark and every watch see them.
    pub open spec fn charged(self, n: int) -> LedgerView {
        LedgerView {
            live: self.live + n,
            high: larger(self.high, self.total() + n),
            watches: self.raised(self.total() + n),
            ..self
        }
    }

    /// With `n` bytes less.
    pub open spec fn released(self, n: int) -> LedgerView {
        LedgerView { live: self.live - n, ..self }
    }

    /// After `n` bytes came and went: nothing is held that was not, but the high-water mark and
    /// every watch have seen them.
    pub open spec fn visited(self, n: int) -> LedgerView {
        LedgerView {
            high: larger(self.high, self.total() + n),
            watches: self.raised(self.total() + n),
            ..self
        }
    }

    /// A watch that starts now.
    pub open spec fn fresh_watch(self) -> WatchView {
        WatchView { base: self.total(), pool: self.parked, peak: 0 }
    }
}

/// Of bytes that came and went one after the other, the most is what is seen.
pub proof fn law_visits_add_up(v: LedgerView, a: int, b: int)
    ensures
        v.visited(a).visited(b) == v.visited(larger(a, b)),
{
    assert(v.visited(a).visited(b) =~= v.visited(larger(a, b)));
}

/// A visit of nothing is not seen.
pub proof fn law_no_visit(v: LedgerView)
    requires
        v.wf(),
    ensures
        v.visited(0) == v,
{
    assert forall|i: int| 0 <= i < v.watches.len() implies v.visited(0).watches[i]
        == v.watches[i] by {
        assert(kept_up(v.watches[i], v.total()));
    }
    assert(v.visited(0) =~= v);
}

/// Bytes are seen by every open watch, also when they are gone again.
pub proof fn law_watches_see_visits(v: LedgerView, i: int, n: int)
    requires
        v.wf(),
        0 <= i < v.watches.len(),
        v.watches[i] is Some,
        0 <= n,
    ensures
        v.visited(n).watches[i] is Some,
        v.visited(n).watches[i]->0.base == v.watches[i]->0.base,
        v.visited(n).watches[i]->0.peak == larger(
            v.watches[i]->0.peak,
            excess(v.total() + n, v.watches[i]->0.base),
        ),
        v.charged(n).released(n) == v.visited(n),
{
    assert(v.charged(n).released(n) =~= v.visited(n));
}

impl View for Ledger {
    type V = LedgerView;

    closed spec fn view(&self) -> LedgerView {
        LedgerView {
            live: self.live as int,
            parked: self.parked as int,
            high: self.high as int,
            watches: Seq::new(
                self.watches@.len(),
                |i: int|
                    match self.watches@[i] {
                        Some(w) => Some(w.value()),
                        None => None,
                    },
            ),
        }
    }
}

impl Ledger {
    /// The total was never above the high-water mark, nor above any watch's peak.
    pub open spec fn wf(&self) -> bool {
        self@.wf()
    }

    /// Forget the closed watches behind the last open one.
    fn purge(&mut self)
        requires
            old(self).wf(),
        ensures
            final(self).wf(),
            final(self)@ == (LedgerView {
                watches: purged(old(self)@.watches),
                ..old(self)@
            }),
    {
        let ghost before = self@;
        while self.watches.len() > 0 && self.watches[self.watches.len() - 1].is_none()
            invariant
                self.wf(),
                self@ == (LedgerView { watches: self@.watches, ..before }),
                purged(self@.watches) == purged(before.watches),
            decreases self.watches@.len(),
        {
            let ghost now = self@;
            self.watches.pop();
            proof {
                assert(now.watches.last() is None);
                assert(self@.watches =~= now.watches.drop_last());
            }
        }
        proof {
            assert(self@.watches.len() > 0 ==> self@.watches.last() is Some);
            assert(purged(self@.watches) == self@.watches);
        }
    }

    /// Every watch sees the total at `t`.
    fn notify(&mut self, t: usize)
        ensures
            final(self)@ == (LedgerView { watches: old(self)@.raised(t as int), ..old(self)@ }),
    {
        let ghost before = self@;
        let mut i: usize = 0;
        while i < self.watches.len()
            invariant
                i <= self.watches@.len(),
                self@.watches.len() == before.watches.len(),
                self@ == (LedgerView { watches: self@.watches, ..before }),
                forall|j: int|
                    0 <= j < i ==> #[trigger] self@.watches[j] == raised(
                        before.watches[j],
                        t as int,
                    ),
                forall|j: int|
                    i <= j < self@.watches.len() ==> #[trigger] self@.watches[j]
                        == before.watches[j],
            decreases self.watches@.len() - i,
        {
            let ghost now = self@;
            if let Some(w) = self.watches[i] {
                let grown: usize = t.saturating_sub(w.baseline);
                let peak: usize = if w.peak < grown { grown } else { w.peak };
                self.watches.set(i, Some(Watch { peak, ..w }));
                proof {
                    assert(now.watches[i as int] == Some(w.value()));
                    assert(self@.watches =~= now.watches.update(
                        i as int,
                        raised(before.watches[i as int], t as int),
                    ));
                }
            } else {
                proof {
                    assert(now.watches[i as int] is None);
                }
            }
            i = i + 1;
        }
        proof {
            assert(self@.watches =~= before.raised(t as int));
        }
    }

    /// A ledger that counts nothing yet.
    pub fn new() -> (l: Self)
        ensures
            l.wf(),
            l@ == (LedgerView { live: 0, parked: 0, high: 0, watches: Seq::empty() }),
    {
        let l = Ledger { live: 0, parked: 0, high: 0, watches: Vec::new() };
        proof {
            assert(l@.watches =~= Seq::empty());
        }
        l
    }

    /// Every tracked byte the codec currently holds.
    pub fn total(&self) -> (n: usize)
        requires
            self.wf(),
        ensures
            n == self@.total(),
    {
        self.live + self.parked
    }

    /// `n` bytes newly held: raises the high-water mark and every open watch.
    pub fn bump(&mut self, n: usize)
        requires
            old(self).wf(),
            old(self)@.total() + n <= usize::MAX,
        ensures
            final(self).wf(),
            final(self)@ == old(self)@.charged(n as int),
    {
        let ghost before = self@;
        let t: usize = self.live + self.parked + n;
        self.live = self.live + n;
        if t > self.high {
            self.high = t;
        }
        self.notify(t);
        proof {
            assert(self@ =~= before.charged(n as int));
            assert forall|i: int| 0 <= i < self@.watches.len() implies kept_up(
                #[trigger] self@.watches[i],
                self@.total(),
            ) by {
                assert(kept_up(before.watches[i], before.total()));
            }
        }
    }

    /// `n` bytes released.
    pub fn unbump(&mut self, n: usize)
        requires
            old(self).wf(),
            n <= old(self)@.live,
        ensures
            final(self).wf(),
            final(self)@ == old(self)@.released(n as int),
    {
        let ghost before = self@;
        self.live = self.live - n;
        proof {
            assert(self@ =~= before.released(n as int));
            assert forall|i: int| 0 <= i < self@.watches.len() implies kept_up(
                #[trigger] self@.watches[i],
                self@.total(),
            ) by {
                assert(kept_up(before.watches[i], before.total()));
            }
        }
    }

    /// A parked buffer left the pool: the pool's side of the ledger shrinks. A buffer's new owner
    /// charges it itself.
    pub fn unparked(&mut self, n: usize)
        requires
            old(self).wf(),
            n <= old(self)@.parked,
        ensures
            final(self).wf(),
            final(self)@ == (LedgerView { parked: old(self)@.parked - n, ..old(self)@ }),
    {
        self.parked = self.parked - n;
    }

    /// A live buffer was parked in the pool without changing the total.
    pub fn parked_move(&mut self, n: usize)
        requires
            old(self).wf(),
            n <= old(self)@.live,
        ensures
            final(self).wf(),
            final(self)@ == (LedgerView {
                live: old(self)@.live - n,
                parked: old(self)@.parked + n,
                ..old(self)@
            }),
            final(self)@.total() == old(self)@.total(),
    {
        self.live = self.live - n;
        self.parked = self.parked + n;
    }

    /// All-time tracked high-water mark, bytes held now, bytes parked now.
    pub fn cumulative(&self) -> (r: MemoryReport)
        requires
            self.wf(),
        ensures
            r.tracked_peak_bytes == self@.high,
            r.tracked_live_bytes == self@.total(),
            r.pool_bytes == self@.parked,
            r.pool_bytes <= r.tracked_live_bytes <= r.tracked_peak_bytes,
    {
        MemoryReport {
            tracked_peak_bytes: self.high as u64,
            tracked_live_bytes: self.total() as u64,
            pool_bytes: self.parked as u64,
        }
    }
}

/// Token for `n` tracked bytes: stored next to the buffer it measures.
#[derive(Debug)]
pub struct Charge {
    bytes: usize,
}

impl Charge {
    /// Bytes that the token stands for.
    pub closed spec fn charged(&self) -> int {
        self.bytes as int
    }

    /// A token for nothing.
    pub fn empty() -> (c: Self)
        ensures
            c.charged() == 0,
    {
        Charge { bytes: 0 }
    }

    /// Charge `bytes` as newly held.
    pub fn new(ledger: &mut Ledger, bytes: usize) -> (c: Self)
        requires
            old(ledger).wf(),
            old(ledger)@.total() + bytes <= usize::MAX,
        ensures
            final(ledger).wf(),
            c.charged() == bytes,
            final(ledger)@ == old(ledger)@.charged(bytes as int),
    {
        ledger.bump(bytes);
        Charge { bytes }
    }

    /// Grow or shrink this charge to `bytes` (for buffers whose capacity changes in place).
    pub fn resize(&mut self, ledger: &mut Ledger, bytes: usize)
        requires
            old(ledger).wf(),
            old(self).charged() <= old(ledger)@.live,
            old(ledger)@.total() - old(self).charged() + bytes <= usize::MAX,
        ensures
            final(ledger).wf(),
            final(self).charged() == bytes,
            final(ledger)@ == if bytes > old(self).charged() {
                old(ledger)@.charged(bytes - old(self).charged())
            } else {
                old(ledger)@.released(old(self).charged() - bytes)
            },
    {
        if bytes > self.bytes {
            ledger.bump(bytes - self.bytes);
        } else {
            ledger.unbump(self.bytes - bytes);
        }
        self.bytes = bytes;
    }

    /// Hand the charge to the buffer pool: returns the bytes without discharging them
    /// ([`Ledger::parked_move`] takes them from live to parked).
    pub fn release(self) -> (n: usize)
        ensures
            n == self.charged(),
    {
        self.bytes
    }

    /// The buffer was freed.
    pub fn discharge(self, ledger: &mut Ledger)
        requires
            old(ledger).wf(),
            self.charged() <= old(ledger)@.live,
        ensures
            final(ledger).wf(),
            final(ledger)@ == old(ledger)@.released(self.charged()),
    {
        ledger.unbump(self.bytes);
    }
}

} // verus!
