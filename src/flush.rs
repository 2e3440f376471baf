//! Turns the contents of the in-memory table into a new segment.
use vstd::prelude::*;
use crate::data::{DataPoint, PointView, points_view, clone_tags};
use crate::memtable::MemTable;
use crate::block::{DataBlock, BlockView, block_bytes, block_is_valid, tags_fit};
use crate::sstable::{SSTable, SSTableError, IoFailure, BlockMetadata, header_bytes};

verus! {

#[derive(Debug)]
pub enum FlushError {
    Io(String),
    SSTable(SSTableError),
    FlushInProgress,
    FlushFailed(String),
}

/// Whether each timestamp gap of a series fits an i64.
pub open spec fn gaps_fit(s: Seq<PointView>) -> bool {
    forall|i: int| 1 <= i < s.len() ==> i64::MIN <= #[trigger] s[i].timestamp - s[i - 1].timestamp <= i64::MAX
}

/// The deltas of a series: 0 for the first point, then the gap to the
/// point before.
pub open spec fn series_deltas(s: Seq<PointView>) -> Seq<i64> {
    Seq::new(s.len(), |i: int| if i == 0 { 0 } else { (s[i].timestamp - s[i - 1].timestamp) as i64 })
}

/// The block that holds one series: it starts at the first timestamp and
/// carries the series name once per point.
pub open spec fn series_block(name: Seq<char>, s: Seq<PointView>) -> BlockView {
    BlockView {
        start: if s.len() == 0 { i64::MAX } else { s[0].timestamp },
        deltas: series_deltas(s),
        values: s.map_values(|p: PointView| p.value),
        names: Seq::new(s.len(), |i: int| name),
        tags: s.map_values(|p: PointView| p.tags),
    }
}

/// Builds the block of one series.
pub fn build_block(name: &String, points: &Vec<DataPoint>) -> (r: Option<DataBlock>)
    ensures
        r is Some <==> gaps_fit(points_view(points@)),
        r matches Some(b) ==> b@ == series_block(name@, points_view(points@)),
{
    let ghost s = points_view(points@);
    let n = points.len();
    let start = if n == 0 { i64::MAX } else { points[0].timestamp };
    let mut deltas: Vec<i64> = Vec::new();
    let mut values: Vec<u64> = Vec::new();
    let mut names: Vec<String> = Vec::new();
    let mut tags: Vec<Vec<(String, String)>> = Vec::new();
    let mut i: usize = 0;
    while i < n
        invariant
            n == points@.len(),
            s == points_view(points@),
            i <= n,
            forall|k: int| 1 <= k < i ==> i64::MIN <= #[trigger] s[k].timestamp - s[k - 1].timestamp <= i64::MAX,
            deltas@ == series_deltas(s).subrange(0, i as int),
            values@ == s.map_values(|p: PointView| p.value).subrange(0, i as int),
            names@.len() == i,
            forall|k: int| 0 <= k < i ==> #[trigger] names@[k]@ == name@,
            tags@.len() == i,
            forall|k: int| 0 <= k < i ==> crate::data::tags_view(#[trigger] tags@[k]@) == s[k].tags,
        decreases n - i,
    {
        let d: i64 = if i == 0 {
            0
        } else {
            let cur = points[i].timestamp as i128;
            let prev = points[i - 1].timestamp as i128;
            let gap = cur - prev;
            if gap < i64::MIN as i128 || gap > i64::MAX as i128 {
                assert(!gaps_fit(s)) by {
                    assert(s[i as int].timestamp - s[i - 1].timestamp == gap);
                }
                return None;
            }
            gap as i64
        };
        deltas.push(d);
        values.push(points[i].value);
        names.push(name.clone());
        tags.push(clone_tags(&points[i].tags));
        i += 1;
        assert(deltas@ =~= series_deltas(s).subrange(0, i as int));
        assert(values@ =~= s.map_values(|p: PointView| p.value).subrange(0, i as int));
    }
    let b = DataBlock { start_timestamp: start, timestamp_deltas: deltas, values, series_names: names, tags };
    assert(b@.deltas =~= series_deltas(s));
    assert(b@.values =~= s.map_values(|p: PointView| p.value));
    assert(b@.names =~= Seq::new(s.len(), |k: int| name@));
    assert(b@.tags =~= s.map_values(|p: PointView| p.tags));
    Some(b)
}

/// The bytes of the blocks of the first `k` series of a table, one block per
/// series, in the table's order.
pub open spec fn flushed_bytes(m: MemTable, k: nat) -> Seq<u8>
    decreases k,
{
    if k == 0 {
        Seq::empty()
    } else {
        flushed_bytes(m, (k - 1) as nat) + block_bytes(series_block(m.names()[k - 1], m.points_at(k - 1)))
    }
}

/// Entry `k` of a flushed segment's index: where the block of series `k`
/// starts, and its point count and start.
pub open spec fn flushed_entry(m: MemTable, e: BlockMetadata, k: int) -> bool {
    &&& e.offset == 8 + flushed_bytes(m, k as nat).len()
    &&& e.point_count == m.points_at(k).len() as u32
    &&& e.start_timestamp == series_block(m.names()[k], m.points_at(k)).start
}

/// Whether the block of a series can be written: its gaps fit the deltas,
/// and its columns, name and tags fit the layout.
pub open spec fn fits_layout(name: Seq<char>, s: Seq<PointView>) -> bool {
    &&& gaps_fit(s)
    &&& block_is_valid(series_block(name, s))
    &&& tags_fit(series_block(name, s))
}

/// Makes segments out of the in-memory table, one at a time.
pub struct FlushManager {
    sstable_dir: String,
    flushing: bool,
}

impl FlushManager {
    pub closed spec fn spec_flushing(&self) -> bool {
        self.flushing
    }

    pub closed spec fn spec_dir(&self) -> Seq<char> {
        self.sstable_dir@
    }

    pub fn new(sstable_dir: String) -> (r: Self)
        ensures
            !r.spec_flushing(),
            r.spec_dir() == sstable_dir@,
    {
        FlushManager { sstable_dir, flushing: false }
    }

    pub fn sstable_dir(&self) -> (r: &String)
        ensures
            r@ == self.spec_dir(),
    {
        &self.sstable_dir
    }

    /// Writes one block per series of `memtable` into a new segment at
    /// `path`, then empties the table, keeping its capacity. A flush that is
    /// still outstanding refuses a second one. On failure the table is left
    /// as it was and the partial segment is dropped.
    #[verifier::rlimit(50)]
    pub fn start_flush(&mut self, memtable: &mut MemTable, path: String) -> (r: Result<SSTable, FlushError>)
        requires
            old(memtable).wf(),
        ensures
            final(self).spec_dir() == old(self).spec_dir(),
            old(self).spec_flushing() ==> (r matches Err(FlushError::FlushInProgress)) && final(self).spec_flushing(),
            !old(self).spec_flushing() ==> final(self).spec_flushing() && !(r matches Err(FlushError::FlushInProgress)),
            r is Err ==> *final(memtable) == *old(memtable),
            r matches Err(FlushError::FlushFailed(_)) ==> exists|k: int| 0 <= k < old(memtable).names().len()
                && !gaps_fit(#[trigger] old(memtable).points_at(k)),
            (!old(self).spec_flushing() && forall|k: int| 0 <= k < old(memtable).names().len() ==> fits_layout(
                #[trigger] old(memtable).names()[k],
                old(memtable).points_at(k),
            )) ==> r is Ok,
            !(r matches Err(FlushError::Io(_))),
            r matches Err(FlushError::SSTable(e)) ==> (e matches SSTableError::Io(IoFailure::InvalidInput)) && exists|k: int|
                0 <= k < old(memtable).names().len() && !fits_layout(#[trigger] old(memtable).names()[k], old(memtable).points_at(k)),
            r matches Ok(t) ==> {
                &&& t.wf()
                &&& t.path == path
                &&& t.data@ == header_bytes() + flushed_bytes(*old(memtable), old(memtable).names().len())
                &&& t.metadata.blocks@.len() == old(memtable).names().len()
                &&& forall|k: int| 0 <= k < t.metadata.blocks@.len() ==> flushed_entry(*old(memtable), #[trigger] t.metadata.blocks@[k], k)
                &&& final(memtable).wf()
                &&& final(memtable).spec_size() == 0
                &&& final(memtable).names().len() == 0
                &&& final(memtable).spec_capacity() == old(memtable).spec_capacity()
            },
    {
        if self.flushing {
            return Err(FlushError::FlushInProgress);
        }
        self.flushing = true;
        let mut table = SSTable::new(path);
        let data = memtable.get_data();
        assert forall|k: int| 0 <= k < data@.len() implies points_view((#[trigger] data@[k]).1@) == memtable.points_at(k) by {
            assert(data@[k].0@ == memtable.names()[k]);
        }
        let mut i: usize = 0;
        while i < data.len()
            invariant
                i <= data@.len(),
                data@.len() == memtable.names().len(),
                forall|k: int| 0 <= k < data@.len() ==> (#[trigger] data@[k]).0@ == memtable.names()[k],
                forall|k: int| 0 <= k < data@.len() ==> points_view((#[trigger] data@[k]).1@) == memtable.points_at(k),
                table.wf(),
                table.path == path,
                table.data@ == header_bytes() + flushed_bytes(*memtable, i as nat),
                table.metadata.blocks@.len() == i,
                forall|k: int| 0 <= k < i ==> flushed_entry(*memtable, #[trigger] table.metadata.blocks@[k], k),
                self.spec_dir() == old(self).spec_dir(),
                self.spec_flushing(),
                !old(self).spec_flushing(),
                *memtable == *old(memtable),
            decreases data@.len() - i,
        {
            assert(data@[i as int].0@ == memtable.names()[i as int]);
            let block = match build_block(&data[i].0, &data[i].1) {
                Some(b) => b,
                None => {
                    assert(!gaps_fit(old(memtable).points_at(i as int)));
                    assert(!fits_layout(old(memtable).names()[i as int], old(memtable).points_at(i as int)));
                    return Err(FlushError::FlushFailed("timestamp gap out of range".to_string()));
                },
            };
            assert(data@[i as int].0@ == memtable.names()[i as int]);
            assert(block@ == series_block(memtable.names()[i as int], memtable.points_at(i as int)));
            let ghost before = table;
            let _len = table.data.len();
            let ghost bv = block@;
            match table.write_block(block) {
                Ok(()) => {},
                Err(e) => {
                    proof {
                        assert(!(block_is_valid(bv) && tags_fit(bv)));
                        assert(!fits_layout(old(memtable).names()[i as int], old(memtable).points_at(i as int)));
                    }
                    return Err(FlushError::SSTable(e));
                },
            }
            proof {
                vstd::bytes::lemma_auto_spec_u32_to_from_le_bytes();
                assert(header_bytes().len() == 8);
                assert(before.data@.len() == 8 + flushed_bytes(*memtable, i as nat).len());
                assert(table.metadata.blocks@[i as int].offset == before.data@.len());
                assert forall|k: int| 0 <= k < i + 1 implies flushed_entry(*memtable, #[trigger] table.metadata.blocks@[k], k) by {
                    if k < i {
                        assert(table.metadata.blocks@[k] == before.metadata.blocks@[k]);
                    }
                }
            }
            i += 1;
            assert(table.data@ =~= header_bytes() + flushed_bytes(*memtable, i as nat));
        }
        let cap = memtable.capacity();
        *memtable = MemTable::new(cap);
        Ok(table)
    }

    pub fn is_flushing(&self) -> (r: bool)
        ensures
            r == self.spec_flushing(),
    {
        self.flushing
    }

    /// Marks the outstanding flush, if any, as done.
    pub fn wait_for_flush(&mut self) -> (r: Result<(), FlushError>)
        ensures
            r is Ok,
            !final(self).spec_flushing(),
            final(self).spec_dir() == old(self).spec_dir(),
    {
        self.flushing = false;
        Ok(())
    }
}

} // verus!
