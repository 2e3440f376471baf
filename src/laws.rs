//! Properties of the engine that hold of every input: the order and
//! provenance of query results, flushing then reading back, and the
//! rejection of corrupted bytes.
use vstd::prelude::*;
use vstd::seq_lib::*;
use crate::data::PointView;
use crate::memtable::{MemTable, in_range, strictly_increasing};
use crate::block::BlockView;
use crate::router::{
    merged, memtable_hits, all_blocks, blocks_hits, block_hits, hits_upto, fresh, timestamps,
    sorted_points, entry_hits, entry_timestamp, block_len,
};
use crate::block::{block_bytes, block_is_valid, tags_fit, json_round, lemma_block_round_trip};
use crate::tags_json::{tags_json, tags_from_json};
use crate::sstable::{
    SSTable, SSTableError, IoFailure, SSTABLE_MAGIC, SSTABLE_VERSION, header_bytes, header_check, delta_sum, scanned,
};
use crate::block::{u32_at, parse_block, parse_name, parse_tag, eof};
use crate::wal::{crc32c, find_newline, parse_entries, FrameFault};
use crate::flush::{flushed_bytes, flushed_entry, series_block, series_deltas, gaps_fit};

verus! {

/// No two points share a timestamp.
pub open spec fn distinct_times(s: Seq<PointView>) -> bool {
    forall|i: int, j: int| 0 <= i < j < s.len() ==> #[trigger] s[i].timestamp != #[trigger] s[j].timestamp
}

proof fn lemma_in_range(s: Seq<PointView>, start: i64, end: i64)
    ensures
        forall|i: int| 0 <= i < in_range(s, start, end).len() ==> s.contains(#[trigger] in_range(s, start, end)[i])
            && start <= in_range(s, start, end)[i].timestamp <= end,
        strictly_increasing(s) ==> strictly_increasing(in_range(s, start, end)),
    decreases s.len(),
{
    reveal(Seq::filter);
    if s.len() > 0 {
        let t = s.drop_last();
        lemma_in_range(t, start, end);
        let ft = in_range(t, start, end);
        let fs = in_range(s, start, end);
        assert forall|i: int| 0 <= i < fs.len() implies s.contains(#[trigger] fs[i]) && start <= fs[i].timestamp <= end by {
            if i < ft.len() {
                assert(fs[i] == ft[i]);
                let k = choose|k: int| 0 <= k < t.len() && t[k] == ft[i];
                assert(s[k] == t[k]);
            } else {
                assert(fs[i] == s.last());
                assert(s[s.len() - 1] == s.last());
            }
        }
        if strictly_increasing(s) {
            assert(strictly_increasing(t)) by {
                assert forall|i: int, j: int| 0 <= i < j < t.len() implies #[trigger] t[i].timestamp < #[trigger] t[j].timestamp by {
                    assert(t[i] == s[i] && t[j] == s[j]);
                }
            }
            assert forall|i: int, j: int| 0 <= i < j < fs.len() implies #[trigger] fs[i].timestamp < #[trigger] fs[j].timestamp by {
                if j >= ft.len() {
                    assert(fs[i] == ft[i]);
                    let k = choose|k: int| 0 <= k < t.len() && t[k] == ft[i];
                    assert(s[k] == t[k]);
                    assert(s[k].timestamp < s[s.len() - 1].timestamp);
                } else {
                    assert(fs[i] == ft[i] && fs[j] == ft[j]);
                }
            }
        }
    }
}

proof fn lemma_fresh(seen: Set<i64>, c: Seq<PointView>)
    ensures
        forall|i: int| 0 <= i < fresh(seen, c).len() ==> c.contains(#[trigger] fresh(seen, c)[i])
            && !seen.contains(fresh(seen, c)[i].timestamp),
        distinct_times(fresh(seen, c)),
    decreases c.len(),
{
    if c.len() > 0 {
        let t = c.drop_last();
        lemma_fresh(seen, t);
        let d = fresh(seen, t);
        let f = fresh(seen, c);
        assert forall|i: int| 0 <= i < f.len() implies c.contains(#[trigger] f[i]) && !seen.contains(f[i].timestamp) by {
            if i < d.len() {
                assert(f[i] == d[i]);
                let k = choose|k: int| 0 <= k < t.len() && t[k] == d[i];
                assert(c[k] == t[k]);
            } else {
                assert(f[i] == c.last());
                assert(c[c.len() - 1] == c.last());
            }
        }
        assert forall|i: int, j: int| 0 <= i < j < f.len() implies #[trigger] f[i].timestamp != #[trigger] f[j].timestamp by {
            if j >= d.len() {
                assert(f[i] == d[i]);
                assert(f[j] == c.last());
                assert(!timestamps(d).contains(c.last().timestamp));
                if f[i].timestamp == f[j].timestamp {
                    assert(timestamps(d).contains(c.last().timestamp));
                }
            } else {
                assert(f[i] == d[i] && f[j] == d[j]);
            }
        }
    }
}

proof fn lemma_hits_upto(b: BlockView, series: Option<Seq<char>>, start: i64, end: i64, k: nat)
    ensures
        forall|i: int| 0 <= i < hits_upto(b, series, start, end, k).len() ==> start <= (
        #[trigger] hits_upto(b, series, start, end, k)[i]).timestamp <= end,
    decreases k,
{
    if k > 0 {
        lemma_hits_upto(b, series, start, end, (k - 1) as nat);
        let prev = hits_upto(b, series, start, end, (k - 1) as nat);
        let h = hits_upto(b, series, start, end, k);
        assert forall|i: int| 0 <= i < h.len() implies start <= (#[trigger] h[i]).timestamp <= end by {
            if i < prev.len() {
                assert(h[i] == prev[i]);
            } else {
                assert(entry_hits(b, k - 1, series, start, end));
            }
        }
    }
}

proof fn lemma_blocks_hits(bs: Seq<BlockView>, series: Option<Seq<char>>, start: i64, end: i64, k: nat)
    requires
        k <= bs.len(),
    ensures
        forall|i: int| 0 <= i < blocks_hits(bs, series, start, end, k).len() ==> start <= (
        #[trigger] blocks_hits(bs, series, start, end, k)[i]).timestamp <= end && exists|j: int|
            0 <= j < k && block_hits(bs[j], series, start, end).contains(blocks_hits(bs, series, start, end, k)[i]),
    decreases k,
{
    if k > 0 {
        lemma_blocks_hits(bs, series, start, end, (k - 1) as nat);
        let prev = blocks_hits(bs, series, start, end, (k - 1) as nat);
        let cur = block_hits(bs[k - 1], series, start, end);
        let h = blocks_hits(bs, series, start, end, k);
        assert(h == prev + cur);
        let b = bs[k - 1];
        if !(b.start > end || crate::router::block_len(b) > u32::MAX) {
            lemma_hits_upto(b, series, start, end, crate::router::block_len(b) as nat);
        }
        assert forall|i: int| 0 <= i < h.len() implies start <= (#[trigger] h[i]).timestamp <= end && exists|j: int|
            0 <= j < k && block_hits(bs[j], series, start, end).contains(h[i]) by {
            if i < prev.len() {
                assert(h[i] == prev[i]);
                let j = choose|j: int| 0 <= j < k - 1 && block_hits(bs[j], series, start, end).contains(prev[i]);
                assert(0 <= j < k && block_hits(bs[j], series, start, end).contains(h[i]));
            } else {
                assert(h[i] == cur[i - prev.len()]);
                assert(cur.contains(h[i]));
                assert(0 <= k - 1 < k && block_hits(bs[k - 1], series, start, end).contains(h[i]));
            }
        }
    }
}

proof fn lemma_in_range_contains(s: Seq<PointView>, start: i64, end: i64, k: int)
    requires
        0 <= k < s.len(),
        start <= s[k].timestamp <= end,
    ensures
        in_range(s, start, end).contains(s[k]),
    decreases s.len(),
{
    reveal(Seq::filter);
    let t = s.drop_last();
    if k < s.len() - 1 {
        lemma_in_range_contains(t, start, end, k);
        let f = in_range(t, start, end);
        let j = choose|j: int| 0 <= j < f.len() && f[j] == t[k];
        assert(in_range(s, start, end)[j] == f[j]);
    } else {
        let g = in_range(s, start, end);
        assert(g[g.len() - 1] == s.last());
    }
}

/// Every point a query returns lies in the query's range, and is either a
/// point of the series in the in-memory table, or an entry of the series in
/// a segment block at a timestamp that no point of the series in the
/// in-memory table has.
pub proof fn lemma_results_in_range(m: MemTable, tables: Seq<crate::sstable::SSTable>, name: Seq<char>, start: i64, end: i64, r: Seq<PointView>)
    requires
        r.to_multiset() == merged(m, tables, Some(name), start, end).to_multiset(),
    ensures
        forall|i: int| 0 <= i < r.len() ==> start <= (#[trigger] r[i]).timestamp <= end && (m.series(name).contains(r[i])
            || (exists|j: int| 0 <= j < all_blocks(tables, tables.len()).len() && block_hits(
                all_blocks(tables, tables.len())[j],
                Some(name),
                start,
                end,
            ).contains(r[i])) && forall|k: int| 0 <= k < m.series(name).len() ==> m.series(name)[k].timestamp != r[i].timestamp),
{
    broadcast use group_to_multiset_ensures;
    let mem = memtable_hits(m, Some(name), start, end);
    let bs = all_blocks(tables, tables.len());
    let c = blocks_hits(bs, Some(name), start, end, bs.len());
    let mg = merged(m, tables, Some(name), start, end);
    assert(mg == mem + fresh(timestamps(mem), c));
    lemma_in_range(m.series(name), start, end);
    lemma_fresh(timestamps(mem), c);
    lemma_blocks_hits(bs, Some(name), start, end, bs.len());
    assert forall|i: int| 0 <= i < r.len() implies start <= (#[trigger] r[i]).timestamp <= end && (m.series(name).contains(r[i])
        || (exists|j: int| 0 <= j < bs.len() && block_hits(bs[j], Some(name), start, end).contains(r[i]))
            && forall|k: int| 0 <= k < m.series(name).len() ==> m.series(name)[k].timestamp != r[i].timestamp) by {
        let x = r[i];
        assert(r.contains(x));
        assert(r.to_multiset().count(x) > 0);
        assert(mg.contains(x));
        let p = choose|p: int| 0 <= p < mg.len() && mg[p] == x;
        if p < mem.len() {
            assert(mem[p] == x);
        } else {
            let f = fresh(timestamps(mem), c);
            assert(f[p - mem.len()] == x);
            assert(c.contains(x));
            assert(!timestamps(mem).contains(x.timestamp));
            assert forall|k: int| 0 <= k < m.series(name).len() implies m.series(name)[k].timestamp != x.timestamp by {
                if m.series(name)[k].timestamp == x.timestamp {
                    lemma_in_range_contains(m.series(name), start, end, k);
                    let q = choose|q: int| 0 <= q < mem.len() && mem[q] == m.series(name)[k];
                    assert(timestamps(mem).contains(mem[q].timestamp));
                }
            }
        }
    }
}

/// The points a query for one series returns have strictly increasing
/// timestamps.
pub proof fn lemma_results_strictly_increasing(m: MemTable, tables: Seq<crate::sstable::SSTable>, name: Seq<char>, start: i64, end: i64, r: Seq<PointView>)
    requires
        m.wf(),
        sorted_points(r),
        r.to_multiset() == merged(m, tables, Some(name), start, end).to_multiset(),
    ensures
        forall|i: int, j: int| 0 <= i < j < r.len() ==> #[trigger] r[i].timestamp < #[trigger] r[j].timestamp,
{
    broadcast use group_to_multiset_ensures;
    let mem = memtable_hits(m, Some(name), start, end);
    let bs = all_blocks(tables, tables.len());
    let c = blocks_hits(bs, Some(name), start, end, bs.len());
    let f = fresh(timestamps(mem), c);
    let mg = merged(m, tables, Some(name), start, end);
    assert(mg == mem + f);
    assert(strictly_increasing(m.series(name))) by {
        if m.names().contains(name) {
            let k = m.names().index_of(name);
            assert(strictly_increasing(m.points_at(k)));
        }
    }
    lemma_in_range(m.series(name), start, end);
    lemma_fresh(timestamps(mem), c);
    assert(distinct_times(mg)) by {
        assert forall|i: int, j: int| 0 <= i < j < mg.len() implies #[trigger] mg[i].timestamp != #[trigger] mg[j].timestamp by {
            if j < mem.len() {
                assert(mem[i].timestamp < mem[j].timestamp);
            } else if i >= mem.len() {
                assert(f[i - mem.len()].timestamp != f[j - mem.len()].timestamp);
            } else {
                assert(!timestamps(mem).contains(f[j - mem.len()].timestamp));
                if mg[i].timestamp == mg[j].timestamp {
                    assert(timestamps(mem).contains(mem[i].timestamp));
                }
            }
        }
    }
    assert(mg.no_duplicates()) by {
        assert forall|i: int, j: int| 0 <= i < mg.len() && 0 <= j < mg.len() && i != j implies mg[i] != mg[j] by {
            if i < j {
                assert(mg[i].timestamp != mg[j].timestamp);
            } else {
                assert(mg[j].timestamp != mg[i].timestamp);
            }
        }
    }
    mg.lemma_multiset_has_no_duplicates();
    r.lemma_multiset_has_no_duplicates_conv();
    assert forall|i: int, j: int| 0 <= i < j < r.len() implies #[trigger] r[i].timestamp < #[trigger] r[j].timestamp by {
        assert(r[i] != r[j]);
        assert(r.contains(r[i]) && r.contains(r[j]));
        assert(r.to_multiset().count(r[i]) > 0 && r.to_multiset().count(r[j]) > 0);
        assert(mg.contains(r[i]) && mg.contains(r[j]));
        let p = choose|p: int| 0 <= p < mg.len() && mg[p] == r[i];
        let q = choose|q: int| 0 <= q < mg.len() && mg[q] == r[j];
        assert(p != q);
        if p < q {
            assert(mg[p].timestamp != mg[q].timestamp);
        } else {
            assert(mg[q].timestamp != mg[p].timestamp);
        }
        assert(r[i].timestamp <= r[j].timestamp);
    }
}


proof fn lemma_prefix_sum(s: Seq<PointView>, i: int)
    requires
        gaps_fit(s),
        0 <= i < s.len(),
    ensures
        delta_sum(series_deltas(s).subrange(0, i + 1)) == s[i].timestamp - s[0].timestamp,
    decreases i,
{
    let d = series_deltas(s);
    let sub = d.subrange(0, i + 1);
    assert(sub.drop_last() =~= d.subrange(0, i));
    assert(delta_sum(sub) == delta_sum(sub.drop_last()) + sub.last());
    if i == 0 {
        assert(d.subrange(0, 0) =~= Seq::<i64>::empty());
        assert(delta_sum(Seq::<i64>::empty()) == 0);
        assert(sub.last() == d[0]);
    } else {
        lemma_prefix_sum(s, i - 1);
        assert(i64::MIN <= s[i].timestamp - s[i - 1].timestamp <= i64::MAX);
        assert(sub.last() == s[i].timestamp - s[i - 1].timestamp);
    }
}

/// Decoding a series block by running sums over its deltas gives back the
/// timestamp of every point of the series, in order.
pub proof fn lemma_series_block_timestamps(name: Seq<char>, s: Seq<PointView>)
    requires
        gaps_fit(s),
    ensures
        forall|i: int| 0 <= i < s.len() ==> #[trigger] entry_timestamp(series_block(name, s), i) == s[i].timestamp,
{
    assert forall|i: int| 0 <= i < s.len() implies #[trigger] entry_timestamp(series_block(name, s), i) == s[i].timestamp by {
        lemma_prefix_sum(s, i);
    }
}

/// A block with each tag list as serde_json reads back its own JSON.
pub open spec fn tags_round(b: BlockView) -> BlockView {
    BlockView { start: b.start, deltas: b.deltas, values: b.values, names: b.names, tags: b.tags.map_values(|t: crate::data::TagsView| json_round(t)) }
}

/// The series block of entry `k` of a table is one the layout holds, and
/// serde_json reads back each of its tag lists.
pub open spec fn flushable(m: MemTable, k: int) -> bool {
    let b = series_block(m.names()[k], m.points_at(k));
    &&& block_is_valid(b)
    &&& tags_fit(b)
    &&& forall|i: int| 0 <= i < b.tags.len() ==> #[trigger] tags_from_json(tags_json(b.tags[i])) is Some
    &&& gaps_fit(m.points_at(k))
}

/// What a flush leaves in a segment: the header, one block per series, and
/// an index entry for each.
pub open spec fn flushed_from(t: SSTable, m: MemTable) -> bool {
    &&& t.wf()
    &&& t.data@ == header_bytes() + flushed_bytes(m, m.names().len())
    &&& t.metadata.blocks@.len() == m.names().len()
    &&& forall|k: int| 0 <= k < t.metadata.blocks@.len() ==> flushed_entry(m, #[trigger] t.metadata.blocks@[k], k)
}

proof fn lemma_flushed_prefix(m: MemTable, k: nat, n: nat)
    requires
        k <= n,
    ensures
        flushed_bytes(m, n).len() >= flushed_bytes(m, k).len(),
        flushed_bytes(m, n).subrange(0, flushed_bytes(m, k).len() as int) == flushed_bytes(m, k),
    decreases n,
{
    if k < n {
        lemma_flushed_prefix(m, k, (n - 1) as nat);
        let a = flushed_bytes(m, (n - 1) as nat);
        let b = flushed_bytes(m, n);
        assert(b.subrange(0, a.len() as int) =~= a);
        assert(b.subrange(0, flushed_bytes(m, k).len() as int) =~= a.subrange(0, flushed_bytes(m, k).len() as int));
    } else {
        assert(flushed_bytes(m, n).subrange(0, flushed_bytes(m, k).len() as int) =~= flushed_bytes(m, k));
    }
}

/// Scanning a flushed segment gives the block of each series, in the table's
/// order: same start, deltas, values and names, tags as serde_json reads them.
pub proof fn lemma_flushed_scan(m: MemTable, t: SSTable, k: nat)
    requires
        flushed_from(t, m),
        forall|j: int| 0 <= j < m.names().len() ==> #[trigger] flushable(m, j),
        k <= m.names().len(),
    ensures
        scanned(t, k) == Seq::new(k, |j: int| tags_round(series_block(m.names()[j], m.points_at(j)))),
    decreases k,
{
    if k == 0 {
        assert(scanned(t, 0) =~= Seq::new(0, |j: int| tags_round(series_block(m.names()[j], m.points_at(j)))));
    } else {
        let j = k - 1;
        lemma_flushed_scan(m, t, j as nat);
        let n = m.names().len();
        let b = series_block(m.names()[j], m.points_at(j));
        assert(flushable(m, j));
        assert(flushed_entry(m, t.metadata.blocks@[j], j));
        lemma_flushed_prefix(m, k, n);
        let pre = header_bytes() + flushed_bytes(m, j as nat);
        let whole = flushed_bytes(m, n);
        let fk = flushed_bytes(m, k);
        assert(fk == flushed_bytes(m, j as nat) + block_bytes(b));
        let post = whole.subrange(fk.len() as int, whole.len() as int);
        assert(whole =~= fk + post);
        assert(t.data@ =~= pre + block_bytes(b) + post);
        vstd::bytes::lemma_auto_spec_u32_to_from_le_bytes();
        assert(header_bytes().len() == 8);
        assert(t.metadata.blocks@[j].offset == pre.len());
        assert(t.metadata.blocks@[j].point_count == b.deltas.len() as u32);
        lemma_block_round_trip(pre, b, post);
        assert(t.block_at(j) matches Ok((v, _)) && v == tags_round(b));
        assert(scanned(t, k) =~= Seq::new(k, |i: int| tags_round(series_block(m.names()[i], m.points_at(i)))));
    }
}


/// The points of a series as a query over segments returns them: timestamp
/// and value, no tags.
pub open spec fn untagged(s: Seq<PointView>) -> Seq<PointView> {
    s.map_values(|p: PointView| PointView { timestamp: p.timestamp, value: p.value, tags: Seq::empty() })
}

proof fn lemma_hits_of_series_block(name: Seq<char>, q: Seq<char>, pts: Seq<PointView>, start: i64, end: i64, k: nat)
    requires
        gaps_fit(pts),
        k <= pts.len(),
        name == q ==> forall|i: int| 0 <= i < pts.len() ==> start <= #[trigger] pts[i].timestamp <= end,
    ensures
        hits_upto(tags_round(series_block(name, pts)), Some(q), start, end, k) == if name == q {
            untagged(pts.subrange(0, k as int))
        } else {
            Seq::empty()
        },
    decreases k,
{
    let b = tags_round(series_block(name, pts));
    if k == 0 {
        assert(untagged(pts.subrange(0, 0)) =~= Seq::<PointView>::empty());
    } else {
        lemma_hits_of_series_block(name, q, pts, start, end, (k - 1) as nat);
        lemma_series_block_timestamps(name, pts);
        let i = k - 1;
        assert(entry_timestamp(b, i) == entry_timestamp(series_block(name, pts), i));
        assert(b.names[i] == name);
        if name == q {
            assert(start <= pts[i].timestamp <= end);
            assert(entry_hits(b, i, Some(q), start, end));
            assert(untagged(pts.subrange(0, k as int)) =~= untagged(pts.subrange(0, i)).push(
                PointView { timestamp: pts[i].timestamp, value: pts[i].value, tags: Seq::empty() },
            ));
            assert(b.values[i] == pts[i].value);
        } else {
            assert(!entry_hits(b, i, Some(q), start, end));
        }
    }
}

proof fn lemma_fresh_of_distinct(c: Seq<PointView>)
    requires
        distinct_times(c),
    ensures
        fresh(Set::empty(), c) == c,
    decreases c.len(),
{
    if c.len() > 0 {
        let t = c.drop_last();
        assert(distinct_times(t)) by {
            assert forall|i: int, j: int| 0 <= i < j < t.len() implies #[trigger] t[i].timestamp != #[trigger] t[j].timestamp by {
                assert(t[i] == c[i] && t[j] == c[j]);
            }
        }
        lemma_fresh_of_distinct(t);
        if timestamps(t).contains(c.last().timestamp) {
            let k = choose|k: int| 0 <= k < t.len() && t[k].timestamp == c.last().timestamp;
            assert(c[k].timestamp != c[c.len() - 1].timestamp);
        }
        assert(t.push(c.last()) =~= c);
    }
}

/// Flushing a table and then querying one of its series, over a range that
/// holds every point of the series, returns exactly the points written, as
/// timestamp and value. The in-memory table left by the flush is empty.
pub proof fn lemma_flush_then_query(m: MemTable, t: SSTable, empty: MemTable, name: Seq<char>, start: i64, end: i64, r: Seq<PointView>)
    requires
        m.wf(),
        flushed_from(t, m),
        forall|j: int| 0 <= j < m.names().len() ==> #[trigger] flushable(m, j),
        empty.names().len() == 0,
        forall|i: int| 0 <= i < m.series(name).len() ==> start <= #[trigger] m.series(name)[i].timestamp <= end,
        r.to_multiset() == merged(empty, seq![t], Some(name), start, end).to_multiset(),
    ensures
        r.to_multiset() == untagged(m.series(name)).to_multiset(),
{
    let n = m.names().len();
    // nothing in memory answers
    assert(!empty.names().contains(name));
    reveal(Seq::filter);
    let mem = memtable_hits(empty, Some(name), start, end);
    assert(mem =~= Seq::<PointView>::empty());
    assert(timestamps(mem) =~= Set::<i64>::empty());
    // the segment holds one block per series
    let bs = all_blocks(seq![t], 1);
    lemma_flushed_scan(m, t, n);
    assert(all_blocks(seq![t], 0) =~= Seq::<BlockView>::empty());
    assert(bs =~= scanned(t, n));
    // only the block of `name` answers, with all its points
    let target: Seq<PointView> = untagged(m.series(name));
    assert forall|j: int| 0 <= j < n implies #[trigger] block_hits(bs[j], Some(name), start, end) == if m.names()[j] == name {
        target
    } else {
        Seq::<PointView>::empty()
    } by {
        let pts = m.points_at(j);
        assert(flushable(m, j));
        let sb = series_block(m.names()[j], pts);
        assert(bs[j] == tags_round(sb));
        if m.names()[j] == name {
            assert(m.names().contains(name));
            let x = m.names().index_of(name);
            assert(m.names()[x] == name);
            assert(x == j) by {
                if x != j {
                    assert(m.names()[x] == m.names()[j]);
                }
            }
            assert(m.series(name) == pts);
        }
        lemma_hits_of_series_block(m.names()[j], name, pts, start, end, pts.len());
        assert(pts.subrange(0, pts.len() as int) =~= pts);
        assert(block_len(bs[j]) == pts.len());
        if pts.len() > 0 && m.names()[j] == name {
            assert(bs[j].start == pts[0].timestamp);
            assert(start <= m.series(name)[0].timestamp <= end);
        }
        if pts.len() == 0 && m.names()[j] == name {
            assert(target =~= Seq::<PointView>::empty());
        }
    }
    assert forall|k: nat| k <= n implies #[trigger] blocks_hits(bs, Some(name), start, end, k) == if exists|j: int| 0 <= j < k && m.names()[j] == name {
        target
    } else {
        Seq::<PointView>::empty()
    } by {
        lemma_blocks_hits_series(m, bs, name, start, end, target, k);
    }
    let c = blocks_hits(bs, Some(name), start, end, n);
    assert(bs.len() == n);
    if m.names().contains(name) {
        let x = m.names().index_of(name);
        assert(0 <= x < n && m.names()[x] == name);
        assert(c == target);
    } else {
        assert(!(exists|j: int| 0 <= j < n && m.names()[j] == name));
        assert(c == Seq::<PointView>::empty());
        assert(target =~= Seq::<PointView>::empty());
    }
    // the series' timestamps are distinct, so nothing is dropped
    assert(strictly_increasing(m.series(name))) by {
        if m.names().contains(name) {
            let x = m.names().index_of(name);
            assert(strictly_increasing(m.points_at(x)));
        }
    }
    assert(distinct_times(c)) by {
        assert forall|i: int, j: int| 0 <= i < j < c.len() implies #[trigger] c[i].timestamp != #[trigger] c[j].timestamp by {
            assert(m.series(name)[i].timestamp < m.series(name)[j].timestamp);
        }
    }
    lemma_fresh_of_distinct(c);
    assert(merged(empty, seq![t], Some(name), start, end) =~= c);
}

proof fn lemma_blocks_hits_series(m: MemTable, bs: Seq<BlockView>, name: Seq<char>, start: i64, end: i64, target: Seq<PointView>, k: nat)
    requires
        m.wf(),
        k <= m.names().len(),
        bs.len() == m.names().len(),
        forall|j: int| 0 <= j < m.names().len() ==> #[trigger] block_hits(bs[j], Some(name), start, end) == if m.names()[j] == name {
            target
        } else {
            Seq::<PointView>::empty()
        },
    ensures
        blocks_hits(bs, Some(name), start, end, k) == if exists|j: int| 0 <= j < k && m.names()[j] == name {
            target
        } else {
            Seq::<PointView>::empty()
        },
    decreases k,
{
    if k > 0 {
        lemma_blocks_hits_series(m, bs, name, start, end, target, (k - 1) as nat);
        let j = k - 1;
        let prev = blocks_hits(bs, Some(name), start, end, (k - 1) as nat);
        assert(block_hits(bs[j], Some(name), start, end) == if m.names()[j] == name { target } else { Seq::<PointView>::empty() });
        if m.names()[j] == name {
            if exists|i: int| 0 <= i < j && m.names()[i] == name {
                let i = choose|i: int| 0 <= i < j && m.names()[i] == name;
                assert(m.names()[i] == m.names()[j]);
            }
            assert(prev == Seq::<PointView>::empty());
            assert(prev + target =~= target);
        } else {
            assert(prev + Seq::<PointView>::empty() =~= prev);
            if exists|i: int| 0 <= i < k && m.names()[i] == name {
                let i = choose|i: int| 0 <= i < k && m.names()[i] == name;
                assert(i < j);
            }
        }
    }
}


/// Corrupted bytes are refused with the matching error: a wrong magic number
/// or version when a segment is opened; a point count that differs from the
/// index, or a length prefix that runs past the end, when a block is read; a
/// checksum that does not match its line when the log is replayed.
pub proof fn lemma_corruption_rejected(bytes: Seq<u8>, pos: int, expected: u32)
    ensures
        bytes.len() >= 8 && u32_at(bytes, 0) != SSTABLE_MAGIC ==> header_check(bytes) == Err::<(), SSTableError>(SSTableError::InvalidMagic),
        bytes.len() >= 8 && u32_at(bytes, 0) == SSTABLE_MAGIC && u32_at(bytes, 4) != SSTABLE_VERSION ==> header_check(bytes)
            == Err::<(), SSTableError>(SSTableError::UnsupportedVersion(u32_at(bytes, 4))),
        pos + 12 <= bytes.len() && u32_at(bytes, pos + 8) != expected ==> parse_block(bytes, pos, expected)
            == Err::<(BlockView, int), SSTableError>(SSTableError::Io(IoFailure::InvalidData)),
        pos + 4 <= bytes.len() && pos + 4 + u32_at(bytes, pos) > bytes.len() ==> parse_name(bytes, pos) == eof::<(Seq<char>, int)>()
            && parse_tag(bytes, pos) == eof::<(crate::data::TagsView, int)>(),
        ({
            let nl = find_newline(bytes, pos);
            0 <= pos < bytes.len() && nl > pos && nl + 6 <= bytes.len() && u32_at(bytes, nl + 1) != crc32c(bytes.subrange(pos, nl))
        }) ==> parse_entries(bytes, pos) == Err::<(Seq<Seq<u8>>, bool), FrameFault>(FrameFault::Checksum),
{
}

} // verus!
