//! Counters of the operations that the components perform: how often each
//! kind ran, how long, and on how many bytes. Times are measured by the
//! caller and handed in; the counters wrap around where they overflow.
//! The counters of the kinds are kept in a concurrent map of an outside
//! crate, keyed by the place of the kind.

use vstd::prelude::*;
use dashmap::DashMap;

verus! {

/// `dashmap::DashMap`, a concurrent hash map. Nothing is known of what is
/// inside.
#[verifier::external_type_specification]
#[verifier::external_body]
#[verifier::reject_recursive_types(K)]
#[verifier::reject_recursive_types(V)]
#[verifier::reject_recursive_types(S)]
pub struct ExDashMap<K, V, S>(dashmap::DashMap<K, V, S>);

/// The kinds of operation that are counted.
#[derive(Clone, Copy, Debug, PartialEq, Eq, Hash, Structural)]
pub enum OperationType {
    ReadFile,
    WriteFile,
    Stat,
    ReadDir,
    Watch,
    Delete,
    Rename,
    Copy,
}

/// How many kinds of operation there are.
pub const OPERATION_KINDS: usize = 8;

/// How many memory samples are kept.
pub const MEMORY_SAMPLES: usize = 60;

/// The place of a kind among the kinds.
pub open spec fn kind_index(t: OperationType) -> int {
    match t {
        OperationType::ReadFile => 0,
        OperationType::WriteFile => 1,
        OperationType::Stat => 2,
        OperationType::ReadDir => 3,
        OperationType::Watch => 4,
        OperationType::Delete => 5,
        OperationType::Rename => 6,
        OperationType::Copy => 7,
    }
}

/// The place of a kind among the kinds.
pub fn index_of(t: OperationType) -> (r: usize)
    ensures
        r == kind_index(t),
        r < OPERATION_KINDS,
{
    match t {
        OperationType::ReadFile => 0,
        OperationType::WriteFile => 1,
        OperationType::Stat => 2,
        OperationType::ReadDir => 3,
        OperationType::Watch => 4,
        OperationType::Delete => 5,
        OperationType::Rename => 6,
        OperationType::Copy => 7,
    }
}

/// The sum of two counters, wrapped around at the end of their range.
pub open spec fn wrapped_sum(a: u64, b: u64) -> u64 {
    if a + b > u64::MAX {
        (a + b - u64::MAX - 1) as u64
    } else {
        (a + b) as u64
    }
}

/// The sum of two counters, wrapped around at the end of their range.
pub fn add_wrapped(a: u64, b: u64) -> (r: u64)
    ensures
        r == wrapped_sum(a, b),
{
    if a > u64::MAX - b {
        a - (u64::MAX - b) - 1
    } else {
        a + b
    }
}

/// The counters of one kind of operation.
#[derive(Clone, Copy, Debug, PartialEq, Eq, Structural)]
pub struct OperationStats {
    pub count: u64,
    pub total_duration_us: u64,
    pub min_duration_us: u64,
    pub max_duration_us: u64,
    pub bytes_processed: u64,
}

/// What the counters of one kind of operation come to.
#[derive(Clone, Copy, Debug, PartialEq, Eq, Structural)]
pub struct OperationStatsResult {
    pub count: u64,
    pub total_time_us: u64,
    /// The total time by the count, rounded down; 0 where the count is 0.
    pub average_time_us: u64,
    /// The shortest time; 0 where the count is 0.
    pub min_time_us: u64,
    pub max_time_us: u64,
    pub bytes_processed: u64,
}

/// The counters before any operation: the shortest time stands at the
/// largest value, so that the first operation sets it.
pub open spec fn fresh_stats() -> OperationStats {
    OperationStats {
        count: 0,
        total_duration_us: 0,
        min_duration_us: u64::MAX,
        max_duration_us: 0,
        bytes_processed: 0,
    }
}

impl Default for OperationStats {
    fn default() -> (r: Self)
        ensures
            r == fresh_stats(),
    {
        OperationStats {
            count: 0,
            total_duration_us: 0,
            min_duration_us: u64::MAX,
            max_duration_us: 0,
            bytes_processed: 0,
        }
    }
}

impl OperationStats {
    /// The counters after one more operation that took `duration_us` and
    /// worked on `bytes` bytes.
    pub open spec fn recorded(self, duration_us: u64, bytes: u64) -> OperationStats {
        OperationStats {
            count: wrapped_sum(self.count, 1),
            total_duration_us: wrapped_sum(self.total_duration_us, duration_us),
            min_duration_us: if duration_us < self.min_duration_us {
                duration_us
            } else {
                self.min_duration_us
            },
            max_duration_us: if duration_us > self.max_duration_us {
                duration_us
            } else {
                self.max_duration_us
            },
            bytes_processed: wrapped_sum(self.bytes_processed, bytes),
        }
    }

    /// What the counters come to.
    pub open spec fn summary(self) -> OperationStatsResult {
        OperationStatsResult {
            count: self.count,
            total_time_us: self.total_duration_us,
            average_time_us: if self.count > 0 {
                self.total_duration_us / self.count
            } else {
                0
            },
            min_time_us: if self.count > 0 {
                self.min_duration_us
            } else {
                0
            },
            max_time_us: self.max_duration_us,
            bytes_processed: self.bytes_processed,
        }
    }

    /// Counts one more operation.
    pub fn record(&mut self, duration_us: u64, bytes: u64)
        ensures
            *final(self) == old(self).recorded(duration_us, bytes),
    {
        self.count = add_wrapped(self.count, 1);
        self.total_duration_us = add_wrapped(self.total_duration_us, duration_us);
        self.bytes_processed = add_wrapped(self.bytes_processed, bytes);
        if duration_us < self.min_duration_us {
            self.min_duration_us = duration_us;
        }
        if duration_us > self.max_duration_us {
            self.max_duration_us = duration_us;
        }
    }

    /// What the counters come to.
    pub fn result(&self) -> (r: OperationStatsResult)
        ensures
            r == self.summary(),
    {
        OperationStatsResult {
            count: self.count,
            total_time_us: self.total_duration_us,
            average_time_us: if self.count > 0 {
                self.total_duration_us / self.count
            } else {
                0
            },
            min_time_us: if self.count > 0 {
                self.min_duration_us
            } else {
                0
            },
            max_time_us: self.max_duration_us,
            bytes_processed: self.bytes_processed,
        }
    }
}

/// Between the shortest and the longest time lies the average: where no
/// counter has wrapped around, an average is never less than the shortest
/// nor more than the longest time.
pub proof fn lemma_average_between(s: OperationStats)
    requires
        s.count > 0,
        s.count * s.min_duration_us <= s.total_duration_us <= s.count * s.max_duration_us,
    ensures
        s.min_duration_us <= s.summary().average_time_us <= s.max_duration_us,
{
    let c = s.count as int;
    let t = s.total_duration_us as int;
    let q = t / c;
    assert(s.min_duration_us <= q) by (nonlinear_arith)
        requires
            c > 0,
            c * s.min_duration_us <= t,
            q == t / c,
    ;
    assert(q <= s.max_duration_us) by (nonlinear_arith)
        requires
            c > 0,
            t <= c * s.max_duration_us,
            q == t / c,
    ;
}

/// The counters after the operations of `done` were counted one after the
/// other, each given by its time and its bytes.
pub open spec fn tally(done: Seq<(u64, u64)>) -> OperationStats
    decreases done.len(),
{
    if done.len() == 0 {
        fresh_stats()
    } else {
        tally(done.drop_last()).recorded(done.last().0, done.last().1)
    }
}

/// The time that the operations of `done` took together, however large.
pub open spec fn time_spent(done: Seq<(u64, u64)>) -> nat
    decreases done.len(),
{
    if done.len() == 0 {
        0
    } else {
        time_spent(done.drop_last()) + done.last().0 as nat
    }
}

/// Whether neither the count nor the total time of `done` has wrapped
/// around.
pub open spec fn unwrapped(done: Seq<(u64, u64)>) -> bool {
    done.len() <= u64::MAX && time_spent(done) <= u64::MAX
}

/// What is held for a kind of which the operations of `done` were counted:
/// nothing where there was none.
pub open spec fn held(done: Seq<(u64, u64)>) -> Option<OperationStats> {
    if done.len() == 0 {
        None
    } else {
        Some(tally(done))
    }
}

/// What the counters say of the operations they counted. The shortest time
/// is not above the longest, and every operation took a time between the
/// two. Where count and total have not wrapped around, they are the true
/// count and the true total, and the average lies between the shortest and
/// the longest time.
pub proof fn lemma_tally(done: Seq<(u64, u64)>)
    ensures
        forall|i: int|
            0 <= i < done.len() ==> tally(done).min_duration_us <= (#[trigger] done[i]).0 <= tally(
                done,
            ).max_duration_us,
        done.len() > 0 ==> tally(done).min_duration_us <= tally(done).max_duration_us,
        done.len() * tally(done).min_duration_us <= time_spent(done) <= done.len() * tally(
            done,
        ).max_duration_us || done.len() == 0,
        done.len() <= u64::MAX ==> tally(done).count == done.len(),
        time_spent(done) <= u64::MAX ==> tally(done).total_duration_us == time_spent(done),
        unwrapped(done) && done.len() > 0 ==> tally(done).summary().count >= 1 && tally(
            done,
        ).summary().min_time_us <= tally(done).summary().average_time_us <= tally(
            done,
        ).summary().max_time_us,
    decreases done.len(),
{
    if done.len() > 0 {
        let init = done.drop_last();
        let d = done.last().0;
        let before = tally(init);
        let after = tally(done);
        lemma_tally(init);
        assert forall|i: int| 0 <= i < done.len() implies after.min_duration_us <= (#[trigger] done[i]).0
            <= after.max_duration_us by {
            if i < init.len() {
                assert(init[i] == done[i]);
            }
        }
        let c = init.len() as int;
        let t = time_spent(init) as int;
        let lo = after.min_duration_us as int;
        let hi = after.max_duration_us as int;
        if c > 0 {
            let lo0 = before.min_duration_us as int;
            let hi0 = before.max_duration_us as int;
            assert((c + 1) * lo <= t + d) by (nonlinear_arith)
                requires
                    c > 0,
                    c * lo0 <= t,
                    lo <= lo0,
                    lo <= d,
                    0 <= lo,
            ;
            assert(t + d <= (c + 1) * hi) by (nonlinear_arith)
                requires
                    c > 0,
                    t <= c * hi0,
                    hi0 <= hi,
                    d <= hi,
                    0 <= hi0,
            ;
        } else {
            assert(t == 0);
            assert(lo == d && hi == d);
        }
        if unwrapped(done) {
            lemma_average_between(after);
        }
    }
}

/// An operation that has started and is not yet counted.
#[derive(Clone, Copy, Debug, PartialEq, Eq, Structural)]
pub struct OperationHandle {
    pub operation_type: OperationType,
    pub bytes: u64,
}

impl OperationHandle {
    /// Sets the number of bytes that the operation works on.
    pub fn set_bytes(&mut self, bytes: u32)
        ensures
            final(self).bytes == bytes,
            final(self).operation_type == old(self).operation_type,
    {
        self.bytes = bytes as u64;
    }

    /// Ends the operation, which took `duration_us`, and counts it.
    pub fn complete(self, monitor: &mut PerformanceMonitor, duration_us: u64)
        requires
            old(monitor).wf(),
        ensures
            final(monitor).wf(),
            final(monitor)@ == old(monitor)@.completed(self.operation_type, duration_us, self.bytes),
            final(monitor)@.stats[kind_index(self.operation_type)] matches Some(s) && s.min_duration_us
                <= duration_us <= s.max_duration_us,
    {
        monitor.count_operation(self.operation_type, duration_us, self.bytes);
    }
}

/// What a [`PerformanceMonitor`] holds.
pub ghost struct MonitorModel {
    /// The counters of each kind, by its place; none for a kind that
    /// never ran.
    pub stats: Seq<Option<OperationStats>>,
    pub cache_hits: u64,
    pub cache_misses: u64,
    pub cache_size_bytes: usize,
    pub active_operations: u32,
    /// The latest memory samples, oldest first.
    pub memory_samples: Seq<usize>,
    /// For each kind, by its place: the operations counted since the
    /// monitor was made or cleared, each with its time and its bytes.
    pub done: Seq<Seq<(u64, u64)>>,
}

/// What a table of counters holds: the counters under each key that has
/// any.
pub uninterp spec fn table_contents(t: DashMap<usize, OperationStats>) -> Map<usize, OperationStats>;

/// `DashMap::new`: a table that holds nothing.
#[verifier::external_body]
fn table_new() -> (r: DashMap<usize, OperationStats>)
    ensures
        table_contents(r).dom() == Set::<usize>::empty(),
{
    DashMap::new()
}

/// `DashMap::get`: a copy of the counters held under `key`, if there are
/// any. No reference into the table is kept.
#[verifier::external_body]
fn table_get(t: &DashMap<usize, OperationStats>, key: usize) -> (r: Option<OperationStats>)
    ensures
        r == if table_contents(*t).dom().contains(key) {
            Some(table_contents(*t)[key])
        } else {
            None::<OperationStats>
        },
{
    match t.get(&key) {
        Some(held) => Some(*held.value()),
        None => None,
    }
}

/// `DashMap::insert`: afterwards the table holds `value` under `key`, in
/// place of what it held there, and the rest as before. The table is the
/// caller's alone, so nothing else changes it meanwhile.
#[verifier::external_body]
fn table_insert(t: &mut DashMap<usize, OperationStats>, key: usize, value: OperationStats)
    ensures
        table_contents(*final(t)) == table_contents(*old(t)).insert(key, value),
{
    t.insert(key, value);
}

/// `DashMap::clear`: afterwards the table holds nothing.
#[verifier::external_body]
fn table_clear(t: &mut DashMap<usize, OperationStats>)
    ensures
        table_contents(*final(t)).dom() == Set::<usize>::empty(),
{
    t.clear();
}

/// The counters of each kind, by its place, as a table holds them.
pub open spec fn stats_by_place(held: Map<usize, OperationStats>) -> Seq<Option<OperationStats>> {
    Seq::new(
        OPERATION_KINDS as nat,
        |i: int|
            if held.dom().contains(i as usize) {
                Some(held[i as usize])
            } else {
                None
            },
    )
}

/// The memory samples after one more: the new one at the end, and the
/// oldest gone if there would be too many.
pub open spec fn with_sample(samples: Seq<usize>, sample: usize) -> Seq<usize> {
    if samples.len() + 1 > MEMORY_SAMPLES {
        samples.push(sample).skip(1)
    } else {
        samples.push(sample)
    }
}

impl MonitorModel {
    /// The counters of a kind as they stand, or fresh ones.
    pub open spec fn stats_of(self, t: OperationType) -> OperationStats {
        match self.stats[kind_index(t)] {
            Some(s) => s,
            None => fresh_stats(),
        }
    }

    /// The state after an operation of kind `t` was counted.
    pub open spec fn completed(self, t: OperationType, duration_us: u64, bytes: u64) -> MonitorModel {
        MonitorModel {
            stats: self.stats.update(kind_index(t), Some(self.stats_of(t).recorded(duration_us, bytes))),
            done: self.done.update(kind_index(t), self.done[kind_index(t)].push((duration_us, bytes))),
            ..self
        }
    }

    /// The state after the statistics were cleared: the cache size stays.
    pub open spec fn cleared(self) -> MonitorModel {
        MonitorModel {
            stats: Seq::new(OPERATION_KINDS as nat, |i: int| None),
            cache_hits: 0,
            cache_misses: 0,
            cache_size_bytes: self.cache_size_bytes,
            active_operations: 0,
            memory_samples: Seq::empty(),
            done: Seq::new(OPERATION_KINDS as nat, |i: int| Seq::empty()),
        }
    }
}

/// The share of the processor that `active` operations are taken to use,
/// in percent: two for each, and no more than a hundred.
pub open spec fn cpu_percent(active: u32) -> u32 {
    if active >= 50 {
        100
    } else {
        (active * 2) as u32
    }
}

/// The monitor of all operations.
pub struct PerformanceMonitor {
    operation_stats: DashMap<usize, OperationStats>,
    cache_hits: u64,
    cache_misses: u64,
    cache_size_bytes: usize,
    active_operations: u32,
    memory_samples: Vec<usize>,
    done: Ghost<Seq<Seq<(u64, u64)>>>,
}

impl View for PerformanceMonitor {
    type V = MonitorModel;

    closed spec fn view(&self) -> MonitorModel {
        MonitorModel {
            stats: stats_by_place(table_contents(self.operation_stats)),
            cache_hits: self.cache_hits,
            cache_misses: self.cache_misses,
            cache_size_bytes: self.cache_size_bytes,
            active_operations: self.active_operations,
            memory_samples: self.memory_samples@,
            done: self.done@,
        }
    }
}

/// What holds of every monitor: there is a place for each kind, no more
/// samples than are kept, and the counters of each kind are those of the
/// operations counted for it: none where there was no operation.
pub open spec fn monitor_ok(m: MonitorModel) -> bool {
    &&& m.stats.len() == OPERATION_KINDS
    &&& m.done.len() == OPERATION_KINDS
    &&& m.memory_samples.len() <= MEMORY_SAMPLES
    &&& forall|k: int| 0 <= k < OPERATION_KINDS ==> #[trigger] m.stats[k] == held(m.done[k])
}

impl PerformanceMonitor {
    /// The monitor's invariant.
    pub closed spec fn wf(&self) -> bool {
        monitor_ok(self@)
    }

    /// In every state the monitor is sound.
    pub proof fn lemma_monitor_ok(&self)
        requires
            self.wf(),
        ensures
            monitor_ok(self@),
    {
    }

    /// A monitor that has counted nothing.
    pub fn new() -> (r: PerformanceMonitor)
        ensures
            r.wf(),
            r@ == (MonitorModel {
                stats: Seq::new(OPERATION_KINDS as nat, |i: int| None),
                cache_hits: 0,
                cache_misses: 0,
                cache_size_bytes: 0,
                active_operations: 0,
                memory_samples: Seq::empty(),
                done: Seq::new(OPERATION_KINDS as nat, |i: int| Seq::empty()),
            }),
    {
        let r = PerformanceMonitor {
            operation_stats: table_new(),
            cache_hits: 0,
            cache_misses: 0,
            cache_size_bytes: 0,
            active_operations: 0,
            memory_samples: Vec::new(),
            done: Ghost(Seq::new(OPERATION_KINDS as nat, |i: int| Seq::empty())),
        };
        proof {
            assert(r@.stats =~= Seq::new(OPERATION_KINDS as nat, |i: int| None));
        }
        r
    }

    /// Starts an operation: one more is active.
    pub fn start_operation(&mut self, operation_type: OperationType) -> (r: OperationHandle)
        requires
            old(self).wf(),
        ensures
            final(self).wf(),
            r == (OperationHandle { operation_type, bytes: 0 }),
            final(self)@ == (MonitorModel {
                active_operations: if old(self)@.active_operations == u32::MAX {
                    0
                } else {
                    (old(self)@.active_operations + 1) as u32
                },
                ..old(self)@
            }),
    {
        self.active_operations = if self.active_operations == u32::MAX {
            0
        } else {
            self.active_operations + 1
        };
        OperationHandle { operation_type, bytes: 0 }
    }

    /// Counts an operation of kind `t` that took `duration_us` and worked
    /// on `bytes` bytes.
    pub fn count_operation(&mut self, t: OperationType, duration_us: u64, bytes: u64)
        requires
            old(self).wf(),
        ensures
            final(self).wf(),
            final(self)@ == old(self)@.completed(t, duration_us, bytes),
            final(self)@.stats[kind_index(t)] matches Some(s) && s.min_duration_us <= duration_us
                <= s.max_duration_us,
    {
        let i = index_of(t);
        let ghost before = self.done@[i as int];
        let ghost after = before.push((duration_us, bytes));
        let mut stats = match table_get(&self.operation_stats, i) {
            Some(s) => s,
            None => OperationStats::default(),
        };
        stats.record(duration_us, bytes);
        table_insert(&mut self.operation_stats, i, stats);
        proof {
            assert(old(self)@.stats[i as int] == held(before));
            assert(old(self)@.stats_of(t) == tally(before));
            assert(after.drop_last() =~= before);
            assert(after.last() == (duration_us, bytes));
            assert(tally(after) == tally(before).recorded(duration_us, bytes));
            assert(stats == tally(after));
            self.done@ = self.done@.update(i as int, after);
            assert(self@.stats =~= old(self)@.completed(t, duration_us, bytes).stats);
            assert forall|k: int| 0 <= k < OPERATION_KINDS implies #[trigger] self@.stats[k] == held(
                self@.done[k],
            ) by {
                if k != i {
                    assert(self@.stats[k] == old(self)@.stats[k]);
                }
            }
            lemma_tally(after);
            assert(after[after.len() - 1].0 == duration_us);
        }
    }

    /// Counts a hit of the cache.
    pub fn record_cache_hit(&mut self)
        requires
            old(self).wf(),
        ensures
            final(self).wf(),
            final(self)@ == (MonitorModel {
                cache_hits: wrapped_sum(old(self)@.cache_hits, 1),
                ..old(self)@
            }),
    {
        self.cache_hits = add_wrapped(self.cache_hits, 1);
    }

    /// Counts a miss of the cache.
    pub fn record_cache_miss(&mut self)
        requires
            old(self).wf(),
        ensures
            final(self).wf(),
            final(self)@ == (MonitorModel {
                cache_misses: wrapped_sum(old(self)@.cache_misses, 1),
                ..old(self)@
            }),
    {
        self.cache_misses = add_wrapped(self.cache_misses, 1);
    }

    /// Sets the size of the cache.
    pub fn update_cache_size(&mut self, size_bytes: u32)
        requires
            old(self).wf(),
        ensures
            final(self).wf(),
            final(self)@ == (MonitorModel { cache_size_bytes: size_bytes as usize, ..old(self)@ }),
    {
        self.cache_size_bytes = size_bytes as usize;
    }

    /// Keeps one more memory sample, and drops the oldest if there would
    /// be too many.
    pub fn record_memory_sample(&mut self, sample: usize)
        requires
            old(self).wf(),
        ensures
            final(self).wf(),
            final(self)@ == (MonitorModel {
                memory_samples: with_sample(old(self)@.memory_samples, sample),
                ..old(self)@
            }),
    {
        self.memory_samples.push(sample);
        if self.memory_samples.len() > MEMORY_SAMPLES {
            let _ = self.memory_samples.remove(0);
            proof {
                assert(self.memory_samples@ =~= old(self).memory_samples@.push(sample).skip(1));
            }
        }
    }

    /// What the counters of kind `t` come to; nothing if and only if no
    /// operation of the kind was counted since the monitor was made or
    /// cleared. The shortest time is never above the longest. Where count
    /// and total have not wrapped around, the count is at least 1 and the
    /// average lies between the shortest and the longest time.
    pub fn get_operation_stats(&self, t: OperationType) -> (r: Option<OperationStatsResult>)
        requires
            self.wf(),
        ensures
            r == match self@.stats[kind_index(t)] {
                Some(s) => Some(s.summary()),
                None => None,
            },
            r is None <==> self@.done[kind_index(t)].len() == 0,
            r matches Some(s) ==> s == tally(self@.done[kind_index(t)]).summary() && s.min_time_us
                <= s.max_time_us,
            r matches Some(s) ==> (unwrapped(self@.done[kind_index(t)]) ==> s.count >= 1 && s.count
                == self@.done[kind_index(t)].len() && s.total_time_us == time_spent(
                self@.done[kind_index(t)],
            ) && s.min_time_us <= s.average_time_us <= s.max_time_us),
    {
        proof {
            assert(self@.stats[kind_index(t)] == held(self@.done[kind_index(t)]));
            lemma_tally(self@.done[kind_index(t)]);
        }
        let i = index_of(t);
        proof {
            assert(self@.stats[i as int] == if table_contents(self.operation_stats).dom().contains(i) {
                Some(table_contents(self.operation_stats)[i])
            } else {
                None::<OperationStats>
            });
        }
        match table_get(&self.operation_stats, i) {
            Some(s) => Some(s.result()),
            None => None,
        }
    }

    /// Clears the statistics. The size of the cache stays.
    pub fn clear_stats(&mut self)
        requires
            old(self).wf(),
        ensures
            final(self).wf(),
            final(self)@ == old(self)@.cleared(),
    {
        table_clear(&mut self.operation_stats);
        self.cache_hits = 0;
        self.cache_misses = 0;
        self.active_operations = 0;
        self.memory_samples.clear();
        proof {
            self.done@ = Seq::new(OPERATION_KINDS as nat, |i: int| Seq::empty());
            assert(self@.stats =~= old(self)@.cleared().stats);
        }
    }

    /// The hits of the cache counted so far.
    pub fn cache_hits(&self) -> (r: u64)
        ensures
            r == self@.cache_hits,
    {
        self.cache_hits
    }

    /// The misses of the cache counted so far.
    pub fn cache_misses(&self) -> (r: u64)
        ensures
            r == self@.cache_misses,
    {
        self.cache_misses
    }

    /// The size of the cache as last set.
    pub fn cache_size_bytes(&self) -> (r: usize)
        ensures
            r == self@.cache_size_bytes,
    {
        self.cache_size_bytes
    }

    /// The number of operations started since the monitor was made or
    /// cleared.
    pub fn active_operations(&self) -> (r: u32)
        ensures
            r == self@.active_operations,
    {
        self.active_operations
    }

    /// The share of the processor that the active operations are taken to
    /// use, in percent.
    pub fn estimate_cpu_usage(&self) -> (r: u32)
        ensures
            r == cpu_percent(self@.active_operations),
            r <= 100,
    {
        if self.active_operations >= 50 {
            100
        } else {
            self.active_operations * 2
        }
    }
}

} // verus!
