//! The read path over both tiers: points of the in-memory table first, then
//! the points of the segments whose timestamps the table does not hold.
use vstd::prelude::*;
use vstd::seq_lib::*;
use vstd::multiset::Multiset;
use crate::data::{DataPoint, PointView, points_view};
use crate::memtable::{MemTable, in_range};
use crate::block::{DataBlock, BlockView};
use crate::sstable::{SSTable, scanned, delta_sum};

verus! {

/// An inclusive range of timestamps.
#[derive(Debug, Clone, Copy)]
pub struct TimeRange {
    pub start: i64,
    pub end: i64,
}

impl TimeRange {
    pub fn new(start: i64, end: i64) -> (r: Self)
        ensures
            r.start == start,
            r.end == end,
    {
        TimeRange { start, end }
    }

    pub fn overlaps(&self, other: &TimeRange) -> (r: bool)
        ensures
            r == (self.start <= other.end && other.start <= self.end),
    {
        self.start <= other.end && other.start <= self.end
    }

    pub fn contains(&self, timestamp: i64) -> (r: bool)
        ensures
            r == (self.start <= timestamp && timestamp <= self.end),
    {
        timestamp >= self.start && timestamp <= self.end
    }
}

/// A range query, for one series or for all of them.
#[derive(Debug)]
pub struct Query {
    pub time_range: TimeRange,
    pub series_name: Option<String>,
}

impl Query {
    pub fn new(start: i64, end: i64) -> (r: Self)
        ensures
            r.time_range.start == start,
            r.time_range.end == end,
            r.series_name is None,
    {
        Query { time_range: TimeRange::new(start, end), series_name: None }
    }

    pub fn with_series(start: i64, end: i64, series_name: String) -> (r: Self)
        ensures
            r.time_range.start == start,
            r.time_range.end == end,
            r.series_name == Some(series_name),
    {
        Query { time_range: TimeRange::new(start, end), series_name: Some(series_name) }
    }
}

pub open spec fn sorted_points(s: Seq<PointView>) -> bool {
    forall|i: int, j: int| 0 <= i < j < s.len() ==> #[trigger] s[i].timestamp <= #[trigger] s[j].timestamp
}

/// The number of entries a block holds in all of deltas, values and names.
pub open spec fn block_len(b: BlockView) -> int {
    let a = if b.deltas.len() < b.values.len() { b.deltas.len() } else { b.values.len() };
    if a < b.names.len() { a as int } else { b.names.len() as int }
}

/// The timestamp of entry `i`: the start plus the deltas up to and with `i`.
pub open spec fn entry_timestamp(b: BlockView, i: int) -> int {
    b.start + delta_sum(b.deltas.subrange(0, i + 1))
}

/// Whether entry `i` of a block answers a query.
pub open spec fn entry_hits(b: BlockView, i: int, series: Option<Seq<char>>, start: i64, end: i64) -> bool {
    &&& start <= entry_timestamp(b, i) <= end
    &&& (series matches Some(n) ==> b.names[i] == n)
}

/// The entries of a block among the first `k` that answer a query, as points
/// without tags.
pub open spec fn hits_upto(b: BlockView, series: Option<Seq<char>>, start: i64, end: i64, k: nat) -> Seq<PointView>
    decreases k,
{
    if k == 0 {
        Seq::empty()
    } else {
        let prev = hits_upto(b, series, start, end, (k - 1) as nat);
        if entry_hits(b, k - 1, series, start, end) {
            prev.push(
                PointView { timestamp: entry_timestamp(b, k - 1) as i64, value: b.values[k - 1], tags: Seq::empty() },
            )
        } else {
            prev
        }
    }
}

/// The entries of a block that answer a query. A block that starts after the
/// range is skipped whole.
pub open spec fn block_hits(b: BlockView, series: Option<Seq<char>>, start: i64, end: i64) -> Seq<PointView> {
    if b.start > end || block_len(b) > u32::MAX {
        Seq::empty()
    } else {
        hits_upto(b, series, start, end, block_len(b) as nat)
    }
}

/// The hits of the first `k` blocks, block after block.
pub open spec fn blocks_hits(bs: Seq<BlockView>, series: Option<Seq<char>>, start: i64, end: i64, k: nat) -> Seq<PointView>
    decreases k,
{
    if k == 0 {
        Seq::empty()
    } else {
        blocks_hits(bs, series, start, end, (k - 1) as nat) + block_hits(bs[k - 1], series, start, end)
    }
}

/// The decodable blocks of the first `k` segments, segment after segment.
pub open spec fn all_blocks(ts: Seq<SSTable>, k: nat) -> Seq<BlockView>
    decreases k,
{
    if k == 0 {
        Seq::empty()
    } else {
        all_blocks(ts, (k - 1) as nat) + scanned(ts[k - 1], ts[k - 1].metadata.blocks@.len())
    }
}

pub open spec fn timestamps(s: Seq<PointView>) -> Set<i64> {
    Set::new(|t: i64| exists|i: int| 0 <= i < s.len() && s[i].timestamp == t)
}

/// Keeps each point of `c` whose timestamp is neither in `seen` nor taken
/// from an earlier point of `c`.
pub open spec fn fresh(seen: Set<i64>, c: Seq<PointView>) -> Seq<PointView>
    decreases c.len(),
{
    if c.len() == 0 {
        Seq::empty()
    } else {
        let d = fresh(seen, c.drop_last());
        if seen.contains(c.last().timestamp) || timestamps(d).contains(c.last().timestamp) {
            d
        } else {
            d.push(c.last())
        }
    }
}

/// The in-memory points that answer a query, series by series.
pub open spec fn memtable_hits(m: MemTable, series: Option<Seq<char>>, start: i64, end: i64) -> Seq<PointView> {
    match series {
        Some(n) => in_range(m.series(n), start, end),
        None => m.gathered(start, end, m.names().len()).map_values(|e: (Seq<char>, PointView)| e.1),
    }
}

/// What a query returns before sorting: the in-memory points, then the
/// segment points at timestamps not seen before.
pub open spec fn merged(m: MemTable, tables: Seq<SSTable>, series: Option<Seq<char>>, start: i64, end: i64) -> Seq<PointView> {
    let mem = memtable_hits(m, series, start, end);
    let bs = all_blocks(tables, tables.len());
    mem + fresh(timestamps(mem), blocks_hits(bs, series, start, end, bs.len()))
}

pub open spec fn option_view(s: Option<String>) -> Option<Seq<char>> {
    match s {
        Some(x) => Some(x@),
        None => None,
    }
}

/// Puts `p` after every point whose timestamp is not above its own.
pub fn insert_sorted(out: &mut Vec<DataPoint>, p: DataPoint)
    requires
        sorted_points(points_view(old(out)@)),
    ensures
        sorted_points(points_view(final(out)@)),
        points_view(final(out)@).to_multiset() == points_view(old(out)@).to_multiset().insert(p@),
{
    let ts = p.timestamp;
    let mut k: usize = out.len();
    while k > 0 && out[k - 1].timestamp > ts
        invariant
            k <= out@.len(),
            forall|m: int| k <= m < out@.len() ==> #[trigger] out@[m].timestamp > ts,
        decreases k,
    {
        k -= 1;
    }
    let ghost prev = points_view(out@);
    let ghost pv = p@;
    out.insert(k, p);
    proof {
        let nv = points_view(out@);
        assert(nv =~= prev.insert(k as int, pv));
        to_multiset_insert(prev, k as int, pv);
        assert forall|a: int, b: int| 0 <= a < b < nv.len() implies #[trigger] nv[a].timestamp <= #[trigger] nv[b].timestamp by {
            if k > 0 && a < k {
                assert(prev[k - 1].timestamp <= ts);
                assert(prev[a].timestamp <= prev[k - 1].timestamp || a == k - 1);
            }
        }
    }
}

/// The decodable blocks of every segment, in order.
pub fn collect_blocks(tables: &Vec<SSTable>) -> (r: Vec<DataBlock>)
    requires
        forall|i: int| 0 <= i < tables@.len() ==> #[trigger] tables@[i].wf(),
    ensures
        r@.map_values(|b: DataBlock| b@) == all_blocks(tables@, tables@.len()),
{
    let mut out: Vec<DataBlock> = Vec::new();
    let mut i: usize = 0;
    while i < tables.len()
        invariant
            i <= tables@.len(),
            forall|j: int| 0 <= j < tables@.len() ==> #[trigger] tables@[j].wf(),
            out@.map_values(|b: DataBlock| b@) == all_blocks(tables@, i as nat),
        decreases tables@.len() - i,
    {
        let mut bs = tables[i].scan_blocks();
        let ghost base = out@.map_values(|b: DataBlock| b@);
        let ghost add = bs@.map_values(|b: DataBlock| b@);
        out.append(&mut bs);
        assert(out@.map_values(|b: DataBlock| b@) =~= base + add);
        i += 1;
    }
    out
}

/// The entries of one block that answer a query, as points without tags.
pub fn block_candidates(b: &DataBlock, series: &Option<String>, start: i64, end: i64) -> (r: Vec<DataPoint>)
    ensures
        points_view(r@) == block_hits(b@, option_view(*series), start, end),
{
    let mut out: Vec<DataPoint> = Vec::new();
    let nd = b.timestamp_deltas.len();
    let nv = b.values.len();
    let nn = b.series_names.len();
    let n = if nd < nv { nd } else { nv };
    let n = if n < nn { n } else { nn };
    if b.start_timestamp > end || n > 0xffff_ffffusize {
        assert(points_view(out@) =~= Seq::<PointView>::empty());
        return out;
    }
    let ghost bv = b@;
    let ghost sv = option_view(*series);
    let mut acc: i128 = b.start_timestamp as i128;
    let mut i: usize = 0;
    while i < n
        invariant
            n == block_len(bv),
            n <= u32::MAX,
            i <= n,
            bv == b@,
            sv == option_view(*series),
            acc == bv.start + delta_sum(bv.deltas.subrange(0, i as int)),
            -0x8000_0000_0000_0000 * (i + 1) <= acc <= 0x8000_0000_0000_0000 * (i + 1),
            points_view(out@) == hits_upto(bv, sv, start, end, i as nat),
        decreases n - i,
    {
        assert(bv.deltas.subrange(0, i + 1).drop_last() =~= bv.deltas.subrange(0, i as int));
        acc = acc + b.timestamp_deltas[i] as i128;
        assert(acc == entry_timestamp(bv, i as int));
        let matches_series = match series {
            Some(name) => b.series_names[i] == *name,
            None => true,
        };
        assert(bv.names[i as int] == b.series_names@[i as int]@);
        if acc >= start as i128 && acc <= end as i128 && matches_series {
            let p = DataPoint { timestamp: acc as i64, value: b.values[i], tags: Vec::new() };
            let ghost prev = out@;
            out.push(p);
            assert(p@.tags =~= Seq::<(Seq<char>, Seq<char>)>::empty());
            assert(points_view(out@) =~= points_view(prev).push(p@));
        }
        i += 1;
    }
    out
}

proof fn lemma_push_contains(s: Seq<i64>, x: i64)
    ensures
        forall|t: i64| #[trigger] s.push(x).contains(t) <==> (s.contains(t) || t == x),
{
    assert forall|t: i64| #[trigger] s.push(x).contains(t) <==> (s.contains(t) || t == x) by {
        if s.push(x).contains(t) {
            let k = choose|k: int| 0 <= k < s.push(x).len() && #[trigger] s.push(x)[k] == t;
            if k < s.len() {
                assert(s[k] == t);
            }
        }
        if s.contains(t) {
            let k = choose|k: int| 0 <= k < s.len() && #[trigger] s[k] == t;
            assert(s.push(x)[k] == t);
        }
        if t == x {
            assert(s.push(x)[s.len() as int] == t);
        }
    }
}

/// Whether `seen` holds `t`.
fn seen_contains(seen: &Vec<i64>, t: i64) -> (r: bool)
    ensures
        r == seen@.contains(t),
{
    let mut i: usize = 0;
    while i < seen.len()
        invariant
            i <= seen@.len(),
            forall|j: int| 0 <= j < i ==> seen@[j] != t,
        decreases seen@.len() - i,
    {
        if seen[i] == t {
            return true;
        }
        i += 1;
    }
    false
}

/// The in-memory points that answer a query, series by series.
pub fn memtable_points(memtable: &MemTable, series_name: &Option<String>, start: i64, end: i64) -> (r: Vec<DataPoint>)
    requires
        memtable.wf(),
    ensures
        points_view(r@) == memtable_hits(*memtable, option_view(*series_name), start, end),
{
    let results: Vec<DataPoint> = match series_name {
        Some(name) => memtable.get_series_range(name.as_str(), start, end),
        None => {
            let data = memtable.get_data();
            let mut out: Vec<DataPoint> = Vec::new();
            let mut i: usize = 0;
            while i < data.len()
                invariant
                    i <= data@.len(),
                    data@.len() == memtable.names().len(),
                    forall|k: int| 0 <= k < data@.len() ==> #[trigger] data@[k].0@ == memtable.names()[k]
                        && points_view(data@[k].1@) == memtable.points_at(k),
                    points_view(out@) == memtable.gathered(start, end, i as nat).map_values(
                        |e: (Seq<char>, PointView)| e.1,
                    ),
                decreases data@.len() - i,
            {
                let pts = &data[i].1;
                let ghost s = points_view(pts@);
                let ghost base = points_view(out@);
                assert(data@[i as int].0@ == memtable.names()[i as int]);
                assert(points_view(data@[i as int].1@) == memtable.points_at(i as int));
                let mut j: usize = 0;
                while j < pts.len()
                    invariant
                        i < data@.len(),
                        pts == &data@[i as int].1,
                        s == points_view(pts@),
                        s == memtable.points_at(i as int),
                        j <= pts@.len(),
                        points_view(out@) == base + in_range(s.subrange(0, j as int), start, end),
                    decreases pts@.len() - j,
                {
                    proof {
                        reveal(Seq::filter);
                        assert(s.subrange(0, j + 1).drop_last() =~= s.subrange(0, j as int));
                        assert(s.subrange(0, j + 1).last() == pts@[j as int]@);
                    }
                    if pts[j].timestamp >= start && pts[j].timestamp <= end {
                        let ghost prev = points_view(out@);
                        out.push(pts[j].duplicate());
                        assert(points_view(out@) =~= prev.push(pts@[j as int]@));
                        assert(points_view(out@) =~= base + in_range(s.subrange(0, j + 1), start, end));
                    } else {
                        assert(in_range(s.subrange(0, j + 1), start, end) == in_range(s.subrange(0, j as int), start, end));
                    }
                    j += 1;
                }
                proof {
                    assert(s.subrange(0, j as int) =~= s);
                    let g0 = memtable.gathered(start, end, i as nat);
                    let t = crate::memtable::tagged(memtable.names()[i as int], in_range(s, start, end));
                    assert(memtable.gathered(start, end, (i + 1) as nat) == g0 + t);
                    assert((g0 + t).map_values(|e: (Seq<char>, PointView)| e.1) =~= g0.map_values(
                        |e: (Seq<char>, PointView)| e.1,
                    ) + in_range(s, start, end));
                }
                i += 1;
            }
            out
        },
    };
    results
}

/// The timestamps of `results`.
pub(crate) fn timestamps_of(results: &Vec<DataPoint>) -> (seen: Vec<i64>)
    ensures
        forall|t: i64| #[trigger] seen@.contains(t) <==> timestamps(points_view(results@)).contains(t),
{
    let ghost mem = points_view(results@);
    let mut seen: Vec<i64> = Vec::new();
    let mut i: usize = 0;
    while i < results.len()
        invariant
            i <= results@.len(),
            mem == points_view(results@),
            forall|t: i64| #[trigger] seen@.contains(t) <==> timestamps(mem.subrange(0, i as int)).contains(t),
        decreases results@.len() - i,
    {
        let ghost old_seen = seen@;
        seen.push(results[i].timestamp);
        proof {
            lemma_push_contains(old_seen, results@[i as int].timestamp);
            assert(mem[i as int].timestamp == results@[i as int].timestamp);
            assert forall|t: i64| timestamps(mem.subrange(0, i + 1)).contains(t) <==> (timestamps(mem.subrange(0, i as int)).contains(t) || t == mem[i as int].timestamp) by {
                if timestamps(mem.subrange(0, i + 1)).contains(t) {
                    let k = choose|k: int| 0 <= k < i + 1 && #[trigger] mem.subrange(0, i + 1)[k].timestamp == t;
                    if k < i {
                        assert(mem.subrange(0, i as int)[k].timestamp == t);
                    }
                }
                if timestamps(mem.subrange(0, i as int)).contains(t) {
                    let k = choose|k: int| 0 <= k < i && #[trigger] mem.subrange(0, i as int)[k].timestamp == t;
                    assert(mem.subrange(0, i + 1)[k].timestamp == t);
                }
                if t == mem[i as int].timestamp {
                    assert(mem.subrange(0, i + 1)[i as int].timestamp == t);
                }
            }
            assert forall|t: i64| #[trigger] seen@.contains(t) <==> timestamps(mem.subrange(0, i + 1)).contains(t) by {
                assert(seen@.contains(t) <==> (old_seen.contains(t) || t == mem[i as int].timestamp));
                assert(old_seen.contains(t) <==> timestamps(mem.subrange(0, i as int)).contains(t));
            }
        }
        i += 1;
    }
    assert(mem.subrange(0, i as int) =~= mem);
    seen
}

/// Appends each candidate whose timestamp is not seen yet, and records it.
pub(crate) fn absorb(
    results: &mut Vec<DataPoint>,
    seen: &mut Vec<i64>,
    cands: &Vec<DataPoint>,
    Ghost(mem): Ghost<Seq<PointView>>,
    Ghost(seen0): Ghost<Set<i64>>,
    Ghost(c0): Ghost<Seq<PointView>>,
)
    requires
        points_view(old(results)@) == mem + fresh(seen0, c0),
        forall|t: i64| #[trigger] old(seen)@.contains(t) <==> (seen0.contains(t) || timestamps(fresh(seen0, c0)).contains(t)),
    ensures
        points_view(final(results)@) == mem + fresh(seen0, c0 + points_view(cands@)),
        forall|t: i64| #[trigger] final(seen)@.contains(t) <==> (seen0.contains(t) || timestamps(fresh(seen0, c0 + points_view(cands@))).contains(t)),
{
    let ghost cv = points_view(cands@);
    assert(c0 + cv.subrange(0, 0) =~= c0);
    let mut j: usize = 0;
    while j < cands.len()
        invariant
            j <= cands@.len(),
            cv == points_view(cands@),
            points_view(results@) == mem + fresh(seen0, c0 + cv.subrange(0, j as int)),
            forall|t: i64| #[trigger] seen@.contains(t) <==> (seen0.contains(t) || timestamps(fresh(seen0, c0 + cv.subrange(0, j as int))).contains(t)),
        decreases cands@.len() - j,
    {
        let ts = cands[j].timestamp;
        let ghost cj = c0 + cv.subrange(0, j + 1);
        assert(cj.drop_last() =~= c0 + cv.subrange(0, j as int));
        assert(cj.last() == cands@[j as int]@);
        let ghost d = fresh(seen0, c0 + cv.subrange(0, j as int));
        if !seen_contains(&seen, ts) {
            assert(!seen0.contains(ts) && !timestamps(d).contains(ts));
            let ghost old_seen = seen@;
            seen.push(ts);
            proof {
                lemma_push_contains(old_seen, ts);
            }
            let ghost prev = points_view(results@);
            results.push(cands[j].duplicate());
            proof {
                assert(points_view(results@) =~= prev.push(cands@[j as int]@));
                assert(fresh(seen0, cj) == d.push(cj.last()));
                assert(mem + d.push(cj.last()) =~= (mem + d).push(cj.last()));
                lemma_timestamps_push(d, cj.last());
            }
        } else {
            proof {
                assert(seen0.contains(ts) || timestamps(d).contains(ts));
                assert(fresh(seen0, cj) == d);
            }
        }
        j += 1;
    }
    assert(cv.subrange(0, j as int) =~= cv);
}

proof fn lemma_timestamps_push(d: Seq<PointView>, x: PointView)
    ensures
        forall|t: i64| #[trigger] timestamps(d.push(x)).contains(t) <==> (timestamps(d).contains(t) || t == x.timestamp),
{
    assert forall|t: i64| #[trigger] timestamps(d.push(x)).contains(t) <==> (timestamps(d).contains(t) || t == x.timestamp) by {
        let dd = d.push(x);
        if timestamps(dd).contains(t) {
            let k = choose|k: int| 0 <= k < dd.len() && #[trigger] dd[k].timestamp == t;
            if k < d.len() {
                assert(d[k].timestamp == t);
            }
        }
        if timestamps(d).contains(t) {
            let k = choose|k: int| 0 <= k < d.len() && #[trigger] d[k].timestamp == t;
            assert(dd[k].timestamp == t);
        }
        if t == x.timestamp {
            assert(dd[d.len() as int].timestamp == t);
        }
    }
}

/// The points that answer a query, before sorting: in-memory ones first,
/// then segment ones at timestamps not seen yet.
pub fn merge_tiers(memtable: &MemTable, tables: &Vec<SSTable>, query: &Query) -> (r: Vec<DataPoint>)
    requires
        memtable.wf(),
        forall|i: int| 0 <= i < tables@.len() ==> #[trigger] tables@[i].wf(),
    ensures
        points_view(r@) == merged(
            *memtable,
            tables@,
            option_view(query.series_name),
            query.time_range.start,
            query.time_range.end,
        ),
{
    let start = query.time_range.start;
    let end = query.time_range.end;
    let ghost sv = option_view(query.series_name);
    let mut results = memtable_points(memtable, &query.series_name, start, end);
    let ghost mem = points_view(results@);
    let mut seen = timestamps_of(&results);
    let blocks = collect_blocks(tables);
    let ghost bs = blocks@.map_values(|b: DataBlock| b@);
    let ghost seen0 = timestamps(mem);
    assert(mem + fresh(seen0, Seq::<PointView>::empty()) =~= mem);
    let mut b: usize = 0;
    while b < blocks.len()
        invariant
            b <= blocks@.len(),
            bs == blocks@.map_values(|b: DataBlock| b@),
            sv == option_view(query.series_name),
            start == query.time_range.start,
            end == query.time_range.end,
            points_view(results@) == mem + fresh(seen0, blocks_hits(bs, sv, start, end, b as nat)),
            forall|t: i64| #[trigger] seen@.contains(t) <==> (seen0.contains(t) || timestamps(fresh(seen0, blocks_hits(bs, sv, start, end, b as nat))).contains(t)),
        decreases blocks@.len() - b,
    {
        let cands = block_candidates(&blocks[b], &query.series_name, start, end);
        assert(bs[b as int] == blocks@[b as int]@);
        absorb(&mut results, &mut seen, &cands, Ghost(mem), Ghost(seen0), Ghost(blocks_hits(bs, sv, start, end, b as nat)));
        b += 1;
    }
    results
}

/// Answers range queries over an in-memory table and a list of segments.
pub struct QueryRouter {
    pub memtable: MemTable,
    pub sstables: Vec<SSTable>,
}

impl QueryRouter {
    pub fn new(memtable: MemTable, sstables: Vec<SSTable>) -> (r: Self)
        ensures
            r.memtable == memtable,
            r.sstables == sstables,
    {
        QueryRouter { memtable, sstables }
    }

    pub open spec fn wf(&self) -> bool {
        &&& self.memtable.wf()
        &&& forall|i: int| 0 <= i < self.sstables@.len() ==> #[trigger] self.sstables@[i].wf()
    }

    /// The points of the query's range, ordered by timestamp: every point of
    /// the in-memory table, and each segment point whose timestamp is not
    /// taken yet. The in-memory table wins on equal timestamps.
    pub fn route_query(&self, query: &Query) -> (r: Vec<DataPoint>)
        requires
            self.wf(),
        ensures
            sorted_points(points_view(r@)),
            points_view(r@).to_multiset() == merged(
                self.memtable,
                self.sstables@,
                option_view(query.series_name),
                query.time_range.start,
                query.time_range.end,
            ).to_multiset(),
    {
        let all = merge_tiers(&self.memtable, &self.sstables, query);
        sort_by_timestamp(all)
    }
}

/// The same points, ordered by timestamp.
pub fn sort_by_timestamp(v: Vec<DataPoint>) -> (r: Vec<DataPoint>)
    ensures
        sorted_points(points_view(r@)),
        points_view(r@).to_multiset() == points_view(v@).to_multiset(),
{
    let mut v = v;
    let ghost all = points_view(v@);
    let mut out: Vec<DataPoint> = Vec::new();
    broadcast use group_to_multiset_ensures;
    // take from the back so that each removal is cheap
    while v.len() > 0
        invariant
            v@.len() <= all.len(),
            points_view(v@) == all.subrange(0, v@.len() as int),
            sorted_points(points_view(out@)),
            points_view(out@).to_multiset() == all.subrange(v@.len() as int, all.len() as int).to_multiset(),
        decreases v@.len(),
    {
        let ghost before = v@;
        let p = v.pop().unwrap();
        let ghost n = v@.len();
        assert(points_view(before)[n as int] == p@);
        assert(p@ == all[n as int]);
        insert_sorted(&mut out, p);
        proof {
            assert(points_view(v@) =~= all.subrange(0, n as int));
            let tail0 = all.subrange(n as int + 1, all.len() as int);
            let tail1 = all.subrange(n as int, all.len() as int);
            assert(tail1.remove(0) =~= tail0);
            to_multiset_remove(tail1, 0);
            tail1.to_multiset_ensures();
            tail0.to_multiset_ensures();
            assert(tail1.contains(all[n as int]) && tail1[0] == all[n as int]);
            assert(tail1.to_multiset().count(all[n as int]) > 0);
            assert(tail1.to_multiset() =~= tail0.to_multiset().insert(all[n as int]));
        }
    }
    assert(all.subrange(0, all.len() as int) =~= all);
    out
}

} // verus!
