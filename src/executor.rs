//! Runs a resolved query over both tiers, block by block, with a memory
//! budget and a cancellation check between blocks.
use vstd::prelude::*;
use vstd::layout::size_of;
use crate::data::{DataPoint, PointView, points_view};
use crate::memtable::MemTable;
use crate::block::DataBlock;
use crate::sstable::SSTable;
use crate::ast::{Query, TimeRange};
use crate::router::{
    sorted_points, merged, all_blocks, blocks_hits, block_hits, fresh, timestamps, collect_blocks,
    block_candidates, memtable_points, memtable_hits, timestamps_of, absorb, sort_by_timestamp,
};

verus! {

#[derive(Debug)]
pub enum ExecutionError {
    ExecutionFailed(String),
    Cancelled,
    MemoryLimitExceeded,
}

/// Limits of a query run.
#[derive(Debug, Clone, Copy)]
pub struct ExecutionConfig {
    pub max_concurrent_tasks: usize,
    /// In bytes.
    pub memory_limit: usize,
    /// In milliseconds.
    pub timeout_ms: u64,
}

impl ExecutionConfig {
    /// Four tasks, 1 GiB, 30 seconds.
    pub fn default_config() -> (r: Self)
        ensures
            r.max_concurrent_tasks == 4,
            r.memory_limit == 1073741824,
            r.timeout_ms == 30000,
    {
        ExecutionConfig { max_concurrent_tasks: 4, memory_limit: 1073741824, timeout_ms: 30000 }
    }
}

impl Default for ExecutionConfig {
    fn default() -> (r: Self)
        ensures
            r.max_concurrent_tasks == 4,
            r.memory_limit == 1073741824,
            r.timeout_ms == 30000,
    {
        ExecutionConfig::default_config()
    }
}

/// The segment points a query run emits from the first `k` blocks: those
/// at timestamps that neither the in-memory table nor an earlier block gave.
pub open spec fn emitted(m: MemTable, tables: Seq<SSTable>, name: Seq<char>, start: i64, end: i64, k: nat) -> Seq<PointView> {
    fresh(
        timestamps(memtable_hits(m, Some(name), start, end)),
        blocks_hits(all_blocks(tables, tables.len()), Some(name), start, end, k),
    )
}

/// The memory charged for `count` emitted points, held to the range of
/// usize.
pub open spec fn charge_of(count: int, point_size: int) -> int {
    if count * point_size > usize::MAX { usize::MAX as int } else { count * point_size }
}

/// The range of an absolute time range.
pub open spec fn absolute_bounds(t: Option<TimeRange>) -> Option<(i64, i64)> {
    match t {
        Some(TimeRange::Absolute { start, end }) => Some((start, end)),
        _ => None,
    }
}

/// Runs queries over an in-memory table and a list of segments.
pub struct QueryExecutor {
    memtable: MemTable,
    sstables: Vec<SSTable>,
    config: ExecutionConfig,
    memory_usage: usize,
    cancelled: bool,
}

impl QueryExecutor {
    pub closed spec fn spec_memtable(&self) -> MemTable {
        self.memtable
    }

    pub closed spec fn spec_sstables(&self) -> Seq<SSTable> {
        self.sstables@
    }

    pub closed spec fn spec_config(&self) -> ExecutionConfig {
        self.config
    }

    pub closed spec fn spec_memory_usage(&self) -> usize {
        self.memory_usage
    }

    pub closed spec fn spec_cancelled(&self) -> bool {
        self.cancelled
    }

    pub open spec fn wf(&self) -> bool {
        &&& self.spec_memtable().wf()
        &&& forall|i: int| 0 <= i < self.spec_sstables().len() ==> #[trigger] self.spec_sstables()[i].wf()
    }

    pub fn new(memtable: MemTable, sstables: Vec<SSTable>, config: ExecutionConfig) -> (r: Self)
        ensures
            r.spec_memtable() == memtable,
            r.spec_sstables() == sstables@,
            r.spec_config() == config,
            r.spec_memory_usage() == 0,
            !r.spec_cancelled(),
    {
        QueryExecutor { memtable, sstables, config, memory_usage: 0, cancelled: false }
    }

    /// The points of the query's series and absolute range, ordered by
    /// timestamp, in-memory points winning on equal timestamps. Before each
    /// segment block the run stops if `is_cancelled` says so; after each
    /// block it stops if the points emitted from segments so far, at the
    /// size of a point each, are over the memory limit.
    #[verifier::rlimit(50)]
    pub fn execute_query<F: Fn() -> bool>(&mut self, query: &Query, is_cancelled: &F) -> (r: Result<Vec<DataPoint>, ExecutionError>)
        requires
            old(self).wf(),
            call_requires(*is_cancelled, ()),
        ensures
            final(self).wf(),
            final(self).spec_memtable() == old(self).spec_memtable(),
            final(self).spec_sstables() == old(self).spec_sstables(),
            final(self).spec_config() == old(self).spec_config(),
            (r matches Err(ExecutionError::ExecutionFailed(_))) <==> absolute_bounds(query.time_range) is None,
            r matches Ok(v) ==> ({
                let (start, end) = absolute_bounds(query.time_range)->0;
                let nb = all_blocks(old(self).spec_sstables(), old(self).spec_sstables().len()).len();
                &&& sorted_points(points_view(v@))
                &&& points_view(v@).to_multiset() == merged(
                    old(self).spec_memtable(),
                    old(self).spec_sstables(),
                    Some(query.from@),
                    start,
                    end,
                ).to_multiset()
                &&& forall|k: int| 0 <= k <= nb ==> #[trigger] charge_of(
                    emitted(old(self).spec_memtable(), old(self).spec_sstables(), query.from@, start, end, k as nat).len() as int,
                    size_of::<DataPoint>() as int,
                ) <= old(self).spec_config().memory_limit
                &&& final(self).spec_memory_usage() == charge_of(
                    emitted(old(self).spec_memtable(), old(self).spec_sstables(), query.from@, start, end, nb).len() as int,
                    size_of::<DataPoint>() as int,
                )
            }),
            r matches Err(ExecutionError::MemoryLimitExceeded) ==> match absolute_bounds(query.time_range) {
                Some((start, end)) => {
                    let nb = all_blocks(old(self).spec_sstables(), old(self).spec_sstables().len()).len();
                    exists|k: int| 0 <= k <= nb && #[trigger] charge_of(
                        emitted(old(self).spec_memtable(), old(self).spec_sstables(), query.from@, start, end, k as nat).len() as int,
                        size_of::<DataPoint>() as int,
                    ) > old(self).spec_config().memory_limit
                },
                None => false,
            },
            r matches Err(ExecutionError::Cancelled) ==> exists|c: bool| call_ensures(*is_cancelled, (), c) && c,
            (absolute_bounds(query.time_range) is Some
                && all_blocks(old(self).spec_sstables(), old(self).spec_sstables().len()).len() > 0
                && forall|c: bool| call_ensures(*is_cancelled, (), c) ==> c) ==> r matches Err(ExecutionError::Cancelled),
            (match absolute_bounds(query.time_range) {
                Some((start, end)) => {
                    let nb = all_blocks(old(self).spec_sstables(), old(self).spec_sstables().len()).len();
                    &&& forall|c: bool| call_ensures(*is_cancelled, (), c) ==> !c
                    &&& forall|k: int| 0 <= k <= nb ==> #[trigger] charge_of(
                        emitted(old(self).spec_memtable(), old(self).spec_sstables(), query.from@, start, end, k as nat).len() as int,
                        size_of::<DataPoint>() as int,
                    ) <= old(self).spec_config().memory_limit
                },
                None => false,
            }) ==> r is Ok,
    {
        let (start, end) = match query.time_range {
            None => return Err(ExecutionError::ExecutionFailed("Time range is required".to_string())),
            Some(TimeRange::Absolute { start, end }) => (start, end),
            Some(_) => return Err(
                ExecutionError::ExecutionFailed(
                    "Only absolute time ranges are supported in executor".to_string(),
                ),
            ),
        };
        self.cancelled = false;
        self.memory_usage = 0;
        assert(self.sstables@ == old(self).spec_sstables());
        assert(forall|i: int| 0 <= i < self.sstables@.len() ==> #[trigger] self.sstables@[i].wf());
        let series = Some(query.from.clone());
        let ghost sv = Some(query.from@);
        let mut results = memtable_points(&self.memtable, &series, start, end);
        let ghost mem = points_view(results@);
        let mem_len = results.len();
        let mut seen = timestamps_of(&results);
        let blocks = collect_blocks(&self.sstables);
        let ghost bs = blocks@.map_values(|b: DataBlock| b@);
        let ghost seen0 = timestamps(mem);
        let point_size = core::mem::size_of::<DataPoint>();
        assert(mem + fresh(seen0, Seq::<PointView>::empty()) =~= mem);
        assert(charge_of(0, point_size as int) == 0);
        let mut b: usize = 0;
        while b < blocks.len()
            invariant
                self.wf(),
                self.spec_memtable() == old(self).spec_memtable(),
                self.spec_sstables() == old(self).spec_sstables(),
                self.spec_config() == old(self).spec_config(),
                call_requires(*is_cancelled, ()),
                b <= blocks@.len(),
                bs == blocks@.map_values(|b: DataBlock| b@),
                bs == all_blocks(old(self).spec_sstables(), old(self).spec_sstables().len()),
                sv == Some(query.from@),
                series == Some(query.from),
                absolute_bounds(query.time_range) == Some((start, end)),
                point_size == size_of::<DataPoint>(),
                mem == memtable_hits(old(self).spec_memtable(), sv, start, end),
                seen0 == timestamps(mem),
                mem_len == mem.len(),
                (forall|c: bool| call_ensures(*is_cancelled, (), c) ==> c) ==> b == 0,
                points_view(results@) == mem + fresh(seen0, blocks_hits(bs, sv, start, end, b as nat)),
                forall|t: i64| #[trigger] seen@.contains(t) <==> (seen0.contains(t) || timestamps(fresh(seen0, blocks_hits(bs, sv, start, end, b as nat))).contains(t)),
                self.memory_usage == charge_of(fresh(seen0, blocks_hits(bs, sv, start, end, b as nat)).len() as int, point_size as int),
                forall|k: int| 0 <= k <= b ==> #[trigger] charge_of(fresh(seen0, blocks_hits(bs, sv, start, end, k as nat)).len() as int, point_size as int) <= self.config.memory_limit,
            decreases blocks@.len() - b,
        {
            let stop = is_cancelled();
            if stop {
                assert(call_ensures(*is_cancelled, (), stop) && stop);
                return Err(ExecutionError::Cancelled);
            }
            assert(!(forall|c: bool| call_ensures(*is_cancelled, (), c) ==> c));
            assert(bs[b as int] == blocks@[b as int]@);
            let cands = block_candidates(&blocks[b], &series, start, end);
            absorb(&mut results, &mut seen, &cands, Ghost(mem), Ghost(seen0), Ghost(blocks_hits(bs, sv, start, end, b as nat)));
            assert(blocks_hits(bs, sv, start, end, (b + 1) as nat) == blocks_hits(bs, sv, start, end, b as nat) + block_hits(bs[b as int], sv, start, end));
            let ghost f = fresh(seen0, blocks_hits(bs, sv, start, end, (b + 1) as nat));
            assert(points_view(results@).len() == results@.len());
            assert(results@.len() == mem.len() + f.len());
            let count = results.len() - mem_len;
            assert(count == f.len());
            let big = count > 0 && point_size > usize::MAX / count;
            proof {
                if big {
                    assert(count * point_size > usize::MAX) by (nonlinear_arith)
                        requires count > 0, point_size > usize::MAX / count;
                } else {
                    assert(count * point_size <= usize::MAX) by (nonlinear_arith)
                        requires count == 0 || point_size <= usize::MAX / count;
                }
            }
            self.memory_usage = if big { usize::MAX } else { count * point_size };
            if self.memory_usage > self.config.memory_limit {
                proof {
                    let k = (b + 1) as int;
                    assert(0 <= k <= bs.len());
                    assert(charge_of(emitted(old(self).spec_memtable(), old(self).spec_sstables(), query.from@, start, end, k as nat).len() as int, size_of::<DataPoint>() as int) > old(self).spec_config().memory_limit);
                    assert(match absolute_bounds(query.time_range) { Some((s2, e2)) => s2 == start && e2 == end, None => false });
                    assert(match absolute_bounds(query.time_range) {
                        Some((s2, e2)) => {
                            let nb2 = all_blocks(old(self).spec_sstables(), old(self).spec_sstables().len()).len();
                            exists|k: int| 0 <= k <= nb2 && #[trigger] charge_of(
                                emitted(old(self).spec_memtable(), old(self).spec_sstables(), query.from@, s2, e2, k as nat).len() as int,
                                size_of::<DataPoint>() as int,
                            ) > old(self).spec_config().memory_limit
                        },
                        None => false,
                    });
                }
                return Err(ExecutionError::MemoryLimitExceeded);
            }
            b += 1;
        }
        proof {
            assert forall|k: int| 0 <= k <= bs.len() implies #[trigger] charge_of(
                emitted(old(self).spec_memtable(), old(self).spec_sstables(), query.from@, start, end, k as nat).len() as int,
                size_of::<DataPoint>() as int,
            ) <= old(self).spec_config().memory_limit by {
                assert(charge_of(fresh(seen0, blocks_hits(bs, sv, start, end, k as nat)).len() as int, point_size as int) <= self.config.memory_limit);
            }
        }
        Ok(sort_by_timestamp(results))
    }

    /// Marks the run as cancelled.
    pub fn cancel(&mut self)
        ensures
            final(self).spec_cancelled(),
            final(self).spec_memtable() == old(self).spec_memtable(),
            final(self).spec_sstables() == old(self).spec_sstables(),
            final(self).spec_config() == old(self).spec_config(),
            final(self).spec_memory_usage() == old(self).spec_memory_usage(),
    {
        self.cancelled = true;
    }

    /// Whether the run was marked as cancelled.
    pub fn is_cancelled(&self) -> (r: bool)
        ensures
            r == self.spec_cancelled(),
    {
        self.cancelled
    }

    /// The memory charged by the last run.
    pub fn memory_usage(&self) -> (r: usize)
        ensures
            r == self.spec_memory_usage(),
    {
        self.memory_usage
    }
}

} // verus!
