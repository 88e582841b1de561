//! Non-blocking frame-duration telemetry.
//!
//! Measurement happens in two stages that never stall the render loop: a ring
//! of in-flight measurement slots ([`SlotRing`]) guards reuse of the backing
//! readback buffers, and a bounded-history aggregator ([`TimingStats`]) turns
//! completed samples into running averages and nearest-rank percentiles.
//! Durations are carried as integer microseconds.

use vstd::prelude::*;

verus! {

/// Number of in-flight measurement slots.
pub const SLOT_COUNT: usize = 4;

/// How many frames pass between two recomputations of the summary.
pub const SAMPLE_INTERVAL: u32 = 60;

/// How many samples the bounded history ring keeps.
pub const MAX_HISTORY: usize = 600;

/// The three stage durations of one measured frame, in microseconds.
#[derive(Clone, Copy, Debug, PartialEq, Eq, Structural)]
pub struct FrameDurations {
    pub render_us: u64,
    pub denoise_us: u64,
    pub total_us: u64,
}

impl FrameDurations {
    pub fn new(render_us: u64, denoise_us: u64, total_us: u64) -> (s: Self)
        ensures
            s == (FrameDurations { render_us, denoise_us, total_us }),
    {
        Self { render_us, denoise_us, total_us }
    }
}

/// Convert the four raw timestamp marks of one frame into stage durations.
///
/// The marks are, in stream order: frame begin, path-trace end, denoise begin,
/// frame end. Raw ticks are scaled to microseconds by the backend's
/// calibration factor `num / den` (microseconds per tick).
pub fn durations_from_marks(
    m0: u64,
    m1: u64,
    m2: u64,
    m3: u64,
    num: u64,
    den: u64,
) -> (s: FrameDurations)
    requires
        m0 <= m1 <= m2 <= m3,
        den >= 1,
        m3 - m0 <= u32::MAX,
        num <= u32::MAX,
    ensures
        s.render_us == (m1 - m0) * num / (den as int),
        s.denoise_us == (m3 - m2) * num / (den as int),
        s.total_us == (m3 - m0) * num / (den as int),
{
    proof {
        assert((m1 - m0) * num <= 0xffff_ffff * 0xffff_ffff) by (nonlinear_arith)
            requires
                0 <= m1 - m0 <= 0xffff_ffff,
                0 <= num <= 0xffff_ffff,
        ;
        assert((m3 - m2) * num <= 0xffff_ffff * 0xffff_ffff) by (nonlinear_arith)
            requires
                0 <= m3 - m2 <= 0xffff_ffff,
                0 <= num <= 0xffff_ffff,
        ;
        assert((m3 - m0) * num <= 0xffff_ffff * 0xffff_ffff) by (nonlinear_arith)
            requires
                0 <= m3 - m0 <= 0xffff_ffff,
                0 <= num <= 0xffff_ffff,
        ;
    }
    FrameDurations {
        render_us: (m1 - m0) * num / den,
        denoise_us: (m3 - m2) * num / den,
        total_us: (m3 - m0) * num / den,
    }
}

/// The reuse guard for the ring of in-flight measurement slots.
///
/// A slot whose readback has been issued is `pending` until the collector has
/// observed its result (or its failure) and freed it; a pending slot is never
/// handed out again as a write target, so a slot's backing buffer is never
/// recorded into while a prior readback of it is still in flight.
pub struct SlotRing {
    pending: Vec<bool>,
    next_write: usize,
}

impl SlotRing {
    /// Whether the slot is awaiting collection.
    pub closed spec fn spec_pending(&self) -> Seq<bool> {
        self.pending@
    }

    /// The slot that the next measurement would be recorded into.
    pub closed spec fn spec_next_write(&self) -> int {
        self.next_write as int
    }

    pub closed spec fn wf(&self) -> bool {
        &&& self.pending@.len() == SLOT_COUNT
        &&& self.next_write < SLOT_COUNT
    }

    /// A fresh ring: no slot pending, recording starts at slot 0.
    pub fn new() -> (r: Self)
        ensures
            r.wf(),
            r.spec_next_write() == 0,
            forall|i: int| 0 <= i < SLOT_COUNT ==> !r.spec_pending()[i],
    {
        let mut pending: Vec<bool> = Vec::new();
        let mut i: usize = 0;
        while i < SLOT_COUNT
            invariant
                i <= SLOT_COUNT,
                pending@.len() == i,
                forall|j: int| 0 <= j < i ==> !pending@[j],
            decreases SLOT_COUNT - i,
        {
            pending.push(false);
            i += 1;
        }
        Self { pending, next_write: 0 }
    }

    /// Claim the next write slot for this frame's measurement, if it is free.
    ///
    /// A slot still marked pending is never selected: if the next slot in ring
    /// order has not been collected yet, no measurement is taken this frame
    /// (the measurement is dropped rather than queued).
    pub fn begin_frame(&mut self) -> (r: Option<usize>)
        requires
            old(self).wf(),
        ensures
            final(self).wf(),
            match r {
                Some(s) => {
                    &&& s == old(self).spec_next_write()
                    &&& !old(self).spec_pending()[s as int]
                    &&& final(self).spec_pending() == old(self).spec_pending().update(
                        s as int,
                        true,
                    )
                    &&& final(self).spec_next_write() == (s + 1) as int % (SLOT_COUNT as int)
                },
                None => {
                    &&& old(self).spec_pending()[old(self).spec_next_write()]
                    &&& *final(self) == *old(self)
                },
            },
    {
        let s = self.next_write;
        if self.pending[s] {
            None
        } else {
            self.pending.set(s, true);
            self.next_write = (s + 1) % SLOT_COUNT;
            Some(s)
        }
    }

    /// Whether `slot` is awaiting collection; the collector polls this in its
    /// round-robin scan.
    pub fn is_pending(&self, slot: usize) -> (r: bool)
        requires
            self.wf(),
            slot < SLOT_COUNT,
        ensures
            r == self.spec_pending()[slot as int],
    {
        self.pending[slot]
    }

    /// Release `slot` after its result was collected, or after its readback
    /// failed (a lost sample frees the slot all the same).
    pub fn free(&mut self, slot: usize)
        requires
            old(self).wf(),
            slot < SLOT_COUNT,
        ensures
            final(self).wf(),
            final(self).spec_pending() == old(self).spec_pending().update(slot as int, false),
            final(self).spec_next_write() == old(self).spec_next_write(),
    {
        self.pending.set(slot, false);
    }
}

/// `x` inserted into `s` before the first element it does not exceed; applied
/// to a sorted sequence this keeps it sorted.
pub open spec fn spec_insert_sorted(x: u64, s: Seq<u64>) -> Seq<u64>
    decreases s.len(),
{
    if s.len() == 0 {
        seq![x]
    } else if x <= s[0] {
        seq![x] + s
    } else {
        seq![s[0]] + spec_insert_sorted(x, s.drop_first())
    }
}

/// The first `k` elements of `s`, inserted one after the other.
pub open spec fn spec_sort_prefix(s: Seq<u64>, k: int) -> Seq<u64>
    decreases k,
{
    if k <= 0 {
        Seq::empty()
    } else {
        spec_insert_sorted(s[k - 1], spec_sort_prefix(s, k - 1))
    }
}

/// `s` sorted ascending by repeated insertion.
pub open spec fn spec_sort(s: Seq<u64>) -> Seq<u64> {
    spec_sort_prefix(s, s.len() as int)
}

pub open spec fn sorted_ascending(s: Seq<u64>) -> bool {
    forall|i: int, j: int| 0 <= i <= j < s.len() ==> s[i] <= s[j]
}

pub open spec fn spec_sum(s: Seq<u64>) -> int
    decreases s.len(),
{
    if s.len() == 0 {
        0
    } else {
        spec_sum(s.drop_last()) + s.last()
    }
}

/// The `total_us` column of a history.
pub open spec fn spec_totals(h: Seq<FrameDurations>) -> Seq<u64>
    decreases h.len(),
{
    if h.len() == 0 {
        Seq::empty()
    } else {
        spec_totals(h.drop_last()).push(h.last().total_us)
    }
}

pub open spec fn spec_renders(h: Seq<FrameDurations>) -> Seq<u64>
    decreases h.len(),
{
    if h.len() == 0 {
        Seq::empty()
    } else {
        spec_renders(h.drop_last()).push(h.last().render_us)
    }
}

pub open spec fn spec_denoises(h: Seq<FrameDurations>) -> Seq<u64>
    decreases h.len(),
{
    if h.len() == 0 {
        Seq::empty()
    } else {
        spec_denoises(h.drop_last()).push(h.last().denoise_us)
    }
}

/// The nearest-rank index of the `pct`th percentile among `n` sorted samples:
/// `ceil((n - 1) * pct / 100)`, clamped to the last valid index.
pub open spec fn spec_pct_rank(n: int, pct: int) -> int
    recommends
        n >= 1,
        0 <= pct <= 100,
{
    let i = ((n - 1) * pct + 99) / 100;
    if i > n - 1 {
        n - 1
    } else {
        i
    }
}

proof fn lemma_insert_sorted_len(x: u64, s: Seq<u64>)
    ensures
        spec_insert_sorted(x, s).len() == s.len() + 1,
    decreases s.len(),
{
    if s.len() > 0 && !(x <= s[0]) {
        lemma_insert_sorted_len(x, s.drop_first());
    }
}

proof fn lemma_sort_prefix_len(s: Seq<u64>, k: int)
    requires
        k <= s.len(),
    ensures
        spec_sort_prefix(s, k).len() == if k <= 0 {
            0
        } else {
            k
        },
    decreases k,
{
    if k > 0 {
        lemma_sort_prefix_len(s, k - 1);
        lemma_insert_sorted_len(s[k - 1], spec_sort_prefix(s, k - 1));
    }
}

/// The sort keeps the length.
pub proof fn lemma_sort_len(s: Seq<u64>)
    ensures
        spec_sort(s).len() == s.len(),
{
    lemma_sort_prefix_len(s, s.len() as int);
}

proof fn lemma_insert_sorted_multiset(x: u64, s: Seq<u64>)
    ensures
        spec_insert_sorted(x, s).to_multiset() == s.to_multiset().insert(x),
    decreases s.len(),
{
    broadcast use vstd::seq_lib::group_to_multiset_ensures;

    if s.len() == 0 {
        assert(seq![x] =~= Seq::<u64>::empty().push(x));
        assert(Seq::<u64>::empty().push(x).to_multiset() =~= Seq::<u64>::empty().to_multiset().insert(x));
        assert(s.to_multiset() =~= Seq::<u64>::empty().to_multiset());
    } else if x <= s[0] {
        lemma_seq_prepend_multiset(x, s);
    } else {
        lemma_insert_sorted_multiset(x, s.drop_first());
        lemma_seq_prepend_multiset(s[0], spec_insert_sorted(x, s.drop_first()));
        lemma_seq_prepend_multiset(s[0], s.drop_first());
        assert(seq![s[0]] + s.drop_first() =~= s);
        assert(spec_insert_sorted(x, s).to_multiset() =~= s.to_multiset().insert(x)) by {
            assert(spec_insert_sorted(x, s).to_multiset() == s.drop_first().to_multiset().insert(
                x,
            ).insert(s[0]));
            assert(s.to_multiset() == s.drop_first().to_multiset().insert(s[0]));
            assert(s.drop_first().to_multiset().insert(x).insert(s[0])
                =~= s.drop_first().to_multiset().insert(s[0]).insert(x));
        }
    }
}

/// Prepending one element inserts it into the multiset.
proof fn lemma_seq_prepend_multiset(x: u64, s: Seq<u64>)
    ensures
        (seq![x] + s).to_multiset() == s.to_multiset().insert(x),
    decreases s.len(),
{
    broadcast use vstd::seq_lib::group_to_multiset_ensures;

    if s.len() == 0 {
        assert(seq![x] + s =~= Seq::<u64>::empty().push(x));
    } else {
        lemma_seq_prepend_multiset(x, s.drop_last());
        assert(seq![x] + s =~= (seq![x] + s.drop_last()).push(s.last()));
        assert((seq![x] + s.drop_last()).push(s.last()).to_multiset() == (seq![x]
            + s.drop_last()).to_multiset().insert(s.last()));
        assert(s =~= s.drop_last().push(s.last()));
        assert(s.to_multiset() == s.drop_last().to_multiset().insert(s.last()));
        assert(s.drop_last().to_multiset().insert(x).insert(s.last())
            =~= s.drop_last().to_multiset().insert(s.last()).insert(x));
    }
}

proof fn lemma_insert_sorted_sorted(x: u64, s: Seq<u64>)
    requires
        sorted_ascending(s),
    ensures
        sorted_ascending(spec_insert_sorted(x, s)),
    decreases s.len(),
{
    if s.len() == 0 {
    } else if x <= s[0] {
        let r = seq![x] + s;
        assert forall|i: int, j: int| 0 <= i <= j < r.len() implies r[i] <= r[j] by {
            if i == 0 && j > 0 {
                assert(r[j] == s[j - 1]);
                assert(s[0] <= s[j - 1]);
            }
        }
    } else {
        let t = s.drop_first();
        assert(sorted_ascending(t)) by {
            assert(forall|i: int, j: int|
                0 <= i <= j < t.len() ==> t[i] == s[i + 1] && t[j] == s[j + 1]);
        }
        lemma_insert_sorted_sorted(x, t);
        lemma_insert_sorted_len(x, t);
        let it = spec_insert_sorted(x, t);
        let r = seq![s[0]] + it;
        // every element of the inserted tail is at least s[0]
        assert forall|j: int| 0 <= j < it.len() implies s[0] <= it[j] by {
            lemma_insert_sorted_member_bound(x, t, j);
            if it[j] == x {
            } else {
                assert(t.contains(it[j]));
                let w = choose|w: int| 0 <= w < t.len() && t[w] == it[j];
                assert(s[0] <= s[w + 1]);
            }
        }
        assert forall|i: int, j: int| 0 <= i <= j < r.len() implies r[i] <= r[j] by {
            if i == 0 {
                if j > 0 {
                    assert(r[j] == it[j - 1]);
                }
            } else {
                assert(r[i] == it[i - 1] && r[j] == it[j - 1]);
            }
        }
    }
}

/// Every element of an insertion result is the new element or one of the old.
proof fn lemma_insert_sorted_member_bound(x: u64, s: Seq<u64>, j: int)
    requires
        0 <= j < spec_insert_sorted(x, s).len(),
    ensures
        spec_insert_sorted(x, s)[j] == x || s.contains(spec_insert_sorted(x, s)[j]),
    decreases s.len(),
{
    if s.len() == 0 {
    } else if x <= s[0] {
        let r = seq![x] + s;
        if j > 0 {
            assert(r[j] == s[j - 1]);
        }
    } else {
        let t = s.drop_first();
        let r = seq![s[0]] + spec_insert_sorted(x, t);
        if j == 0 {
            assert(r[0] == s[0]);
        } else {
            lemma_insert_sorted_member_bound(x, t, j - 1);
            assert(r[j] == spec_insert_sorted(x, t)[j - 1]);
            if spec_insert_sorted(x, t)[j - 1] != x {
                assert(t.contains(r[j]));
                let w = choose|w: int| 0 <= w < t.len() && t[w] == r[j];
                assert(s[w + 1] == r[j]);
            }
        }
    }
}

/// The sort yields an ascending permutation of its input.
pub proof fn lemma_sort_sorted_permutation(s: Seq<u64>)
    ensures
        sorted_ascending(spec_sort(s)),
        spec_sort(s).to_multiset() == s.to_multiset(),
{
    lemma_sort_prefix_sorted_permutation(s, s.len() as int);
    broadcast use vstd::seq_lib::group_to_multiset_ensures;

    assert(s.take(s.len() as int) =~= s);
}

proof fn lemma_sort_prefix_sorted_permutation(s: Seq<u64>, k: int)
    requires
        0 <= k <= s.len(),
    ensures
        sorted_ascending(spec_sort_prefix(s, k)),
        spec_sort_prefix(s, k).to_multiset() == s.take(k).to_multiset(),
    decreases k,
{
    broadcast use vstd::seq_lib::group_to_multiset_ensures;

    if k <= 0 {
        assert(s.take(0) =~= Seq::<u64>::empty());
    } else {
        lemma_sort_prefix_sorted_permutation(s, k - 1);
        lemma_insert_sorted_sorted(s[k - 1], spec_sort_prefix(s, k - 1));
        lemma_insert_sorted_multiset(s[k - 1], spec_sort_prefix(s, k - 1));
        assert(s.take(k) =~= s.take(k - 1).push(s[k - 1]));
        assert(s.take(k - 1).push(s[k - 1]).to_multiset() == s.take(k - 1).to_multiset().insert(
            s[k - 1],
        ));
    }
}

/// The summary statistics over a non-empty history: the newest sample, the
/// averages of each stage (integer division), and the nearest-rank 95th and
/// 99th percentiles of the sorted frame totals.
pub open spec fn spec_summary(h: Seq<FrameDurations>) -> TimingSummary
    recommends
        h.len() >= 1,
{
    let n = h.len() as int;
    let sorted = spec_sort(spec_totals(h));
    TimingSummary {
        last: h.last(),
        sample_count: n as usize,
        avg_render_us: (spec_sum(spec_renders(h)) / n) as u64,
        avg_denoise_us: (spec_sum(spec_denoises(h)) / n) as u64,
        avg_total_us: (spec_sum(spec_totals(h)) / n) as u64,
        p95_total_us: sorted[spec_pct_rank(n, 95)],
        p99_total_us: sorted[spec_pct_rank(n, 99)],
    }
}

/// The published summary of the timing history.
#[derive(Clone, Copy, Debug, PartialEq, Eq, Structural)]
pub struct TimingSummary {
    pub last: FrameDurations,
    pub sample_count: usize,
    pub avg_render_us: u64,
    pub avg_denoise_us: u64,
    pub avg_total_us: u64,
    pub p95_total_us: u64,
    pub p99_total_us: u64,
}

/// The bounded ring of completed samples plus the throttle that limits how
/// often the summary is recomputed.
pub struct TimingStats {
    history: Vec<FrameDurations>,
    max_history: usize,
    sample_interval: u32,
    frames_since_update: u32,
    last_summary: Option<TimingSummary>,
}

impl TimingStats {
    pub closed spec fn spec_history(&self) -> Seq<FrameDurations> {
        self.history@
    }

    pub closed spec fn spec_max_history(&self) -> int {
        self.max_history as int
    }

    pub closed spec fn spec_sample_interval(&self) -> int {
        self.sample_interval as int
    }

    pub closed spec fn spec_frames_since_update(&self) -> int {
        self.frames_since_update as int
    }

    pub closed spec fn spec_last_summary(&self) -> Option<TimingSummary> {
        self.last_summary
    }

    pub closed spec fn wf(&self) -> bool {
        &&& 1 <= self.max_history <= 1_000_000_000
        &&& 1 <= self.sample_interval
        &&& self.frames_since_update < self.sample_interval
        &&& self.history@.len() <= self.max_history
    }

    /// A fresh aggregator; an interval of zero is raised to one.
    pub fn new(sample_interval: u32, max_history: usize) -> (s: Self)
        requires
            1 <= max_history <= 1_000_000_000,
        ensures
            s.wf(),
            s.spec_history() == Seq::<FrameDurations>::empty(),
            s.spec_max_history() == max_history,
            s.spec_sample_interval() == if sample_interval == 0 {
                1int
            } else {
                sample_interval as int
            },
            s.spec_frames_since_update() == 0,
            s.spec_last_summary() is None,
    {
        let interval = if sample_interval == 0 {
            1
        } else {
            sample_interval
        };
        Self {
            history: Vec::new(),
            max_history,
            sample_interval: interval,
            frames_since_update: 0,
            last_summary: None,
        }
    }

    /// Record one completed sample.
    ///
    /// The sample enters the bounded ring, evicting the oldest once the ring
    /// is full. The summary is recomputed and returned only on the very first
    /// sample and then once every `sample_interval` frames; all other calls
    /// return nothing.
    pub fn record(&mut self, durations: FrameDurations) -> (r: Option<TimingSummary>)
        requires
            old(self).wf(),
        ensures
            final(self).wf(),
            final(self).spec_history() == (if old(self).spec_history().len() == old(
                self,
            ).spec_max_history() {
                old(self).spec_history().drop_first().push(durations)
            } else {
                old(self).spec_history().push(durations)
            }),
            final(self).spec_max_history() == old(self).spec_max_history(),
            final(self).spec_sample_interval() == old(self).spec_sample_interval(),
            r is Some <==> (old(self).spec_frames_since_update() + 1 >= old(
                self,
            ).spec_sample_interval() || old(self).spec_last_summary() is None),
            match r {
                Some(s) => {
                    &&& s == spec_summary(final(self).spec_history())
                    &&& final(self).spec_last_summary() == Some(s)
                    &&& final(self).spec_frames_since_update() == 0
                },
                None => {
                    &&& final(self).spec_frames_since_update() == old(
                        self,
                    ).spec_frames_since_update() + 1
                    &&& final(self).spec_last_summary() == old(self).spec_last_summary()
                },
            },
    {
        if self.history.len() == self.max_history {
            self.history.remove(0);
            proof {
                assert(self.history@ =~= old(self).spec_history().drop_first());
            }
        }
        self.history.push(durations);
        self.frames_since_update = self.frames_since_update + 1;
        let needs_update = self.frames_since_update >= self.sample_interval
            || self.last_summary.is_none();
        if !needs_update {
            return None;
        }
        self.frames_since_update = 0;
        let summary = self.summarize();
        self.last_summary = Some(summary);
        Some(summary)
    }

    /// Recompute the summary over the current ring contents.
    fn summarize(&self) -> (s: TimingSummary)
        requires
            self.wf(),
            self.spec_history().len() >= 1,
        ensures
            s == spec_summary(self.spec_history()),
    {
        let ghost h = self.history@;
        let n = self.history.len();
        let mut sum_render: u128 = 0;
        let mut sum_denoise: u128 = 0;
        let mut sum_total: u128 = 0;
        let mut totals: Vec<u64> = Vec::new();
        let mut i: usize = 0;
        while i < n
            invariant
                n == h.len(),
                h == self.spec_history(),
                self.wf(),
                i <= n,
                sum_render == spec_sum(spec_renders(h.take(i as int))),
                sum_denoise == spec_sum(spec_denoises(h.take(i as int))),
                sum_total == spec_sum(spec_totals(h.take(i as int))),
                sum_render <= i * 0xffff_ffff_ffff_ffff,
                sum_denoise <= i * 0xffff_ffff_ffff_ffff,
                sum_total <= i * 0xffff_ffff_ffff_ffff,
                totals@ == spec_totals(h.take(i as int)),
                totals@.len() == i,
            decreases n - i,
        {
            let smp = self.history[i];
            proof {
                assert(h.take(i + 1).drop_last() =~= h.take(i as int));
                assert(h.take(i + 1).last() == h[i as int]);
                assert(spec_renders(h.take(i + 1)) == spec_renders(h.take(i as int)).push(
                    h[i as int].render_us,
                ));
                assert(spec_denoises(h.take(i + 1)) == spec_denoises(h.take(i as int)).push(
                    h[i as int].denoise_us,
                ));
                assert(spec_totals(h.take(i + 1)) == spec_totals(h.take(i as int)).push(
                    h[i as int].total_us,
                ));
                assert((i + 1) * 0xffff_ffff_ffff_ffff == i * 0xffff_ffff_ffff_ffff
                    + 0xffff_ffff_ffff_ffff) by (nonlinear_arith);
                let rr = spec_renders(h.take(i as int));
                let dd = spec_denoises(h.take(i as int));
                let tt = spec_totals(h.take(i as int));
                assert(rr.push(h[i as int].render_us).drop_last() =~= rr);
                assert(dd.push(h[i as int].denoise_us).drop_last() =~= dd);
                assert(tt.push(h[i as int].total_us).drop_last() =~= tt);
                assert(spec_sum(spec_renders(h.take(i + 1))) == spec_sum(rr)
                    + h[i as int].render_us);
                assert(spec_sum(spec_denoises(h.take(i + 1))) == spec_sum(dd)
                    + h[i as int].denoise_us);
                assert(spec_sum(spec_totals(h.take(i + 1))) == spec_sum(tt)
                    + h[i as int].total_us);
            }
            sum_render = sum_render + smp.render_us as u128;
            sum_denoise = sum_denoise + smp.denoise_us as u128;
            sum_total = sum_total + smp.total_us as u128;
            totals.push(smp.total_us);
            i += 1;
        }
        proof {
            assert(h.take(n as int) =~= h);
        }
        let mut sorted: Vec<u64> = Vec::new();
        let mut k: usize = 0;
        while k < n
            invariant
                n == h.len(),
                h == self.spec_history(),
                totals@ == spec_totals(h),
                n == totals@.len(),
                k <= n,
                sorted@ == spec_sort_prefix(totals@, k as int),
            decreases n - k,
        {
            insert_sorted(&mut sorted, totals[k]);
            k += 1;
        }
        proof {
            lemma_sort_prefix_len(totals@, n as int);
        }
        let p95 = percentile_index(n, 95);
        let p99 = percentile_index(n, 99);
        proof {
            lemma_avg_fits(spec_sum(spec_renders(h)), n as int);
            lemma_avg_fits(spec_sum(spec_denoises(h)), n as int);
            lemma_avg_fits(spec_sum(spec_totals(h)), n as int);
        }
        let avg_render_us = (sum_render / n as u128) as u64;
        let avg_denoise_us = (sum_denoise / n as u128) as u64;
        let avg_total_us = (sum_total / n as u128) as u64;
        TimingSummary {
            last: self.history[n - 1],
            sample_count: n,
            avg_render_us,
            avg_denoise_us,
            avg_total_us,
            p95_total_us: sorted[p95],
            p99_total_us: sorted[p99],
        }
    }
}

/// A sum of `n` durations divided by `n` fits back into a duration.
proof fn lemma_avg_fits(sum: int, n: int)
    requires
        n >= 1,
        0 <= sum <= n * 0xffff_ffff_ffff_ffff,
    ensures
        0 <= sum / n <= 0xffff_ffff_ffff_ffff,
{
    vstd::arithmetic::div_mod::lemma_div_pos_is_pos(sum, n);
    vstd::arithmetic::div_mod::lemma_div_is_ordered(sum, n * 0xffff_ffff_ffff_ffff, n);
    assert((n * 0xffff_ffff_ffff_ffff) / n == 0xffff_ffff_ffff_ffff) by {
        vstd::arithmetic::div_mod::lemma_fundamental_div_mod_converse(
            n * 0xffff_ffff_ffff_ffff,
            n,
            0xffff_ffff_ffff_ffff,
            0,
        );
        assert(n * 0xffff_ffff_ffff_ffff == 0xffff_ffff_ffff_ffff * n + 0) by (nonlinear_arith);
    }
}

/// The nearest-rank percentile position among `n` sorted samples.
fn percentile_index(n: usize, pct: u64) -> (i: usize)
    requires
        1 <= n <= 1_000_000_000,
        pct <= 100,
    ensures
        i as int == spec_pct_rank(n as int, pct as int),
        i < n,
{
    proof {
        assert(((n - 1) as u64) * pct <= 1_000_000_000 * 100) by (nonlinear_arith)
            requires
                (n - 1) as u64 <= 1_000_000_000,
                pct <= 100,
        ;
    }
    let raw = (((n - 1) as u64) * pct + 99) / 100;
    let max_index = (n - 1) as u64;
    let idx = if raw > max_index {
        max_index
    } else {
        raw
    };
    idx as usize
}

/// Insert `x` into `v` before the first element it does not exceed.
fn insert_sorted(v: &mut Vec<u64>, x: u64)
    ensures
        final(v)@ == spec_insert_sorted(x, old(v)@),
{
    let mut i: usize = 0;
    while i < v.len() && v[i] < x
        invariant
            i <= v.len(),
            *v == *old(v),
            forall|j: int| 0 <= j < i ==> v@[j] < x,
        decreases v.len() - i,
    {
        i += 1;
    }
    proof {
        lemma_insert_sorted_at(x, v@, i as int);
    }
    v.insert(i, x);
}

/// Inserting at the first position whose element is not below `x` matches the
/// recursive insertion.
proof fn lemma_insert_sorted_at(x: u64, s: Seq<u64>, i: int)
    requires
        0 <= i <= s.len(),
        forall|j: int| 0 <= j < i ==> s[j] < x,
        i < s.len() ==> x <= s[i],
    ensures
        spec_insert_sorted(x, s) == s.insert(i, x),
    decreases s.len(),
{
    if s.len() == 0 {
        assert(s.insert(0, x) =~= seq![x]);
    } else if i == 0 {
        assert(s.insert(0, x) =~= seq![x] + s);
    } else {
        let t = s.drop_first();
        assert(forall|j: int| 0 <= j < i - 1 ==> t[j] == s[j + 1] && s[j + 1] < x);
        lemma_insert_sorted_at(x, t, i - 1);
        assert(s.insert(i, x) =~= seq![s[0]] + t.insert(i - 1, x));
    }
}

} // verus!
