//! An immutable segment: a file image made of a header and a sequence of
//! blocks, with the block index held beside it.
use vstd::prelude::*;
use vstd::bytes::*;
use vstd::utf8::encode_utf8;
use crate::block::{
    DataBlock, BlockView, block_bytes, block_is_valid, tags_fit, parse_block, encode_block,
    decode_block, u32_at, append_bytes, lemma_block_bytes_len, lemma_parse_block_consumes,
};

verus! {

/// "SSTB" read as a little-endian u32.
pub const SSTABLE_MAGIC: u32 = 0x53535442;

pub const SSTABLE_VERSION: u32 = 1;

/// Why a read or a write of the file image failed.
#[derive(Debug)]
pub enum IoFailure {
    /// The bytes ended inside a field.
    UnexpectedEof,
    /// A block's point count differs from the one the index recorded.
    InvalidData,
    /// A block that the layout cannot hold.
    InvalidInput,
    /// Reported by the file system.
    Other(String),
}

#[derive(Debug)]
pub enum SSTableError {
    Io(IoFailure),
    InvalidBlockIndex,
    Utf8,
    Json,
    InvalidMagic,
    UnsupportedVersion(u32),
}

#[derive(Debug)]
pub struct BlockMetadata {
    /// Offset of the block in the file image.
    pub offset: u64,
    pub point_count: u32,
    pub start_timestamp: i64,
}

#[derive(Debug)]
pub struct SSTableMetadata {
    pub point_count: u64,
    pub min_timestamp: i64,
    pub max_timestamp: i64,
    /// Every series name written, once each, in order of first appearance.
    pub series_names: Vec<String>,
    pub blocks: Vec<BlockMetadata>,
}

/// A segment file held as its bytes, with the index built while writing.
#[derive(Debug)]
pub struct SSTable {
    pub path: String,
    pub metadata: SSTableMetadata,
    pub data: Vec<u8>,
}

pub open spec fn header_bytes() -> Seq<u8> {
    spec_u32_to_le_bytes(SSTABLE_MAGIC) + spec_u32_to_le_bytes(SSTABLE_VERSION)
}

/// What the header check of a file image finds.
pub open spec fn header_check(bytes: Seq<u8>) -> Result<(), SSTableError> {
    if bytes.len() < 8 {
        Err(SSTableError::Io(IoFailure::UnexpectedEof))
    } else if u32_at(bytes, 0) != SSTABLE_MAGIC {
        Err(SSTableError::InvalidMagic)
    } else if u32_at(bytes, 4) != SSTABLE_VERSION {
        Err(SSTableError::UnsupportedVersion(u32_at(bytes, 4)))
    } else {
        Ok(())
    }
}

/// The blocks of a file image, read one after another from `pos` to the
/// end: each block's index entry (offset, point count, start) and the block.
pub open spec fn index_from(bytes: Seq<u8>, pos: int) -> Result<Seq<(BlockMetadata, BlockView)>, SSTableError>
    decreases bytes.len() - pos,
{
    if pos < 0 || pos >= bytes.len() {
        Ok(Seq::empty())
    } else if pos + 12 > bytes.len() {
        Err(SSTableError::Io(IoFailure::UnexpectedEof))
    } else {
        let n = u32_at(bytes, pos + 8);
        match parse_block(bytes, pos, n) {
            Err(e) => Err(e),
            Ok((b, q)) => if q <= pos {
                Err(SSTableError::Io(IoFailure::InvalidData))
            } else {
                match index_from(bytes, q) {
                    Err(e) => Err(e),
                    Ok(rest) => Ok(seq![(BlockMetadata { offset: pos as u64, point_count: n, start_timestamp: b.start }, b)] + rest),
                }
            },
        }
    }
}

/// The index entries of read blocks.
pub open spec fn metas_of(s: Seq<(BlockMetadata, BlockView)>) -> Seq<BlockMetadata> {
    s.map_values(|e: (BlockMetadata, BlockView)| e.0)
}

/// The read blocks themselves.
pub open spec fn views_of(s: Seq<(BlockMetadata, BlockView)>) -> Seq<BlockView> {
    s.map_values(|e: (BlockMetadata, BlockView)| e.1)
}

/// `earlier` followed by what `r` read.
pub open spec fn index_after(earlier: Seq<(BlockMetadata, BlockView)>, r: Result<Seq<(BlockMetadata, BlockView)>, SSTableError>) -> Result<Seq<(BlockMetadata, BlockView)>, SSTableError> {
    match r {
        Ok(rest) => Ok(earlier + rest),
        Err(e) => Err(e),
    }
}

/// The number of points an index records.
pub open spec fn index_points(blocks: Seq<BlockMetadata>) -> int
    decreases blocks.len(),
{
    if blocks.len() == 0 {
        0
    } else {
        index_points(blocks.drop_last()) + blocks.last().point_count
    }
}

/// The sum of a sequence of deltas.
pub open spec fn delta_sum(s: Seq<i64>) -> int
    decreases s.len(),
{
    if s.len() == 0 {
        0
    } else {
        delta_sum(s.drop_last()) + s.last()
    }
}

/// The timestamp of entry `i` of a block: the start plus the deltas up to
/// and with `i`.
pub open spec fn entry_ts(b: BlockView, i: int) -> int {
    b.start + delta_sum(b.deltas.subrange(0, i + 1))
}

/// A timestamp held to the i64 range.
pub open spec fn clamp_i64(t: int) -> i64 {
    if t > i64::MAX {
        i64::MAX
    } else if t < i64::MIN {
        i64::MIN
    } else {
        t as i64
    }
}

/// The smallest timestamp among the first `k` entries (`k >= 1`).
pub open spec fn min_entry(b: BlockView, k: nat) -> int
    decreases k,
{
    if k <= 1 {
        entry_ts(b, 0)
    } else {
        let m = min_entry(b, (k - 1) as nat);
        let t = entry_ts(b, k - 1);
        if t < m { t } else { m }
    }
}

/// The largest timestamp among the first `k` entries (`k >= 1`).
pub open spec fn max_entry(b: BlockView, k: nat) -> int
    decreases k,
{
    if k <= 1 {
        entry_ts(b, 0)
    } else {
        let m = max_entry(b, (k - 1) as nat);
        let t = entry_ts(b, k - 1);
        if t > m { t } else { m }
    }
}

/// `m` lowered to the smallest timestamp of the block's points, if any.
pub open spec fn with_block_min(m: i64, b: BlockView) -> i64 {
    if b.deltas.len() == 0 {
        m
    } else {
        let t = clamp_i64(min_entry(b, b.deltas.len()));
        if t < m { t } else { m }
    }
}

/// `m` raised to the largest timestamp of the block's points, if any.
pub open spec fn with_block_max(m: i64, b: BlockView) -> i64 {
    if b.deltas.len() == 0 {
        m
    } else {
        let t = clamp_i64(max_entry(b, b.deltas.len()));
        if t > m { t } else { m }
    }
}

/// The smallest point timestamp over blocks; `i64::MAX` for none.
pub open spec fn min_over(bs: Seq<BlockView>) -> i64
    decreases bs.len(),
{
    if bs.len() == 0 { i64::MAX } else { with_block_min(min_over(bs.drop_last()), bs.last()) }
}

/// The largest point timestamp over blocks; `i64::MIN` for none.
pub open spec fn max_over(bs: Seq<BlockView>) -> i64
    decreases bs.len(),
{
    if bs.len() == 0 { i64::MIN } else { with_block_max(max_over(bs.drop_last()), bs.last()) }
}

/// The series names over blocks, once each, in order of first appearance.
pub open spec fn names_over(bs: Seq<BlockView>) -> Seq<Seq<char>>
    decreases bs.len(),
{
    if bs.len() == 0 { Seq::empty() } else { add_names(names_over(bs.drop_last()), bs.last().names) }
}

/// Adds the names of `new` not yet in `known`, in order.
pub open spec fn add_names(known: Seq<Seq<char>>, new: Seq<Seq<char>>) -> Seq<Seq<char>>
    decreases new.len(),
{
    if new.len() == 0 {
        known
    } else {
        let k = add_names(known, new.drop_last());
        if k.contains(new.last()) {
            k
        } else {
            k.push(new.last())
        }
    }
}

pub open spec fn names_view(s: Seq<String>) -> Seq<Seq<char>> {
    s.map_values(|x: String| x@)
}

impl SSTable {
    pub open spec fn wf(&self) -> bool {
        &&& self.data@.len() >= 8
        &&& self.data@.subrange(0, 8) == header_bytes()
        &&& self.metadata.point_count <= self.data@.len()
        &&& forall|i: int|
            0 <= i < self.metadata.blocks@.len() ==> #[trigger] self.metadata.blocks@[i].offset
                <= self.data@.len()
    }

    /// The block that entry `i` of the index points at, decoded.
    pub open spec fn block_at(&self, i: int) -> Result<(BlockView, int), SSTableError> {
        parse_block(
            self.data@,
            self.metadata.blocks@[i].offset as int,
            self.metadata.blocks@[i].point_count,
        )
    }

    /// A new, empty segment: the header alone.
    pub fn new(path: String) -> (r: Self)
        ensures
            r.wf(),
            r.path == path,
            r.data@ == header_bytes(),
            r.metadata.point_count == 0,
            r.metadata.min_timestamp == i64::MAX,
            r.metadata.max_timestamp == i64::MIN,
            r.metadata.series_names@.len() == 0,
            r.metadata.blocks@.len() == 0,
    {
        let mut data: Vec<u8> = Vec::new();
        crate::block::append_bytes(&mut data, u32_to_le_bytes(SSTABLE_MAGIC).as_slice());
        crate::block::append_bytes(&mut data, u32_to_le_bytes(SSTABLE_VERSION).as_slice());
        assert(data@.subrange(0, 8) =~= header_bytes());
        SSTable {
            path,
            metadata: SSTableMetadata {
                point_count: 0,
                min_timestamp: i64::MAX,
                max_timestamp: i64::MIN,
                series_names: Vec::new(),
                blocks: Vec::new(),
            },
            data,
        }
    }

    /// Checks the header of a file image: its magic number, then its version.
    pub fn check_header(bytes: &Vec<u8>) -> (r: Result<(), SSTableError>)
        ensures
            r matches Ok(_) <==> header_check(bytes@) is Ok,
            r matches Err(e) ==> header_check(bytes@) == Err::<(), SSTableError>(e),
    {
        if bytes.len() < 8 {
            return Err(SSTableError::Io(IoFailure::UnexpectedEof));
        }
        let magic = u32_from_le_bytes(vstd::slice::slice_subrange(bytes.as_slice(), 0, 4));
        if magic != SSTABLE_MAGIC {
            return Err(SSTableError::InvalidMagic);
        }
        let version = u32_from_le_bytes(vstd::slice::slice_subrange(bytes.as_slice(), 4, 8));
        if version != SSTABLE_VERSION {
            return Err(SSTableError::UnsupportedVersion(version));
        }
        Ok(())
    }

    /// Takes an existing file image: checks its header, then rebuilds the
    /// block index by reading the blocks one after another.
    pub fn open(path: String, bytes: Vec<u8>) -> (r: Result<Self, SSTableError>)
        ensures
            header_check(bytes@) is Err ==> (r matches Err(e) && header_check(bytes@) == Err::<(), SSTableError>(e)),
            header_check(bytes@) is Ok ==> match index_from(bytes@, 8) {
                Ok(entries) => (r matches Ok(t) && t.wf() && t.data@ == bytes@ && t.path == path
                    && t.metadata.blocks@ == metas_of(entries)
                    && t.metadata.point_count == index_points(t.metadata.blocks@)
                    && t.metadata.min_timestamp == min_over(views_of(entries))
                    && t.metadata.max_timestamp == max_over(views_of(entries))
                    && names_view(t.metadata.series_names@) == names_over(views_of(entries))),
                Err(e) => (r matches Err(f) && f == e),
            },
    {
        match SSTable::check_header(&bytes) {
            Err(e) => return Err(e),
            Ok(()) => {},
        }
        proof {
            lemma_auto_spec_u32_to_from_le_bytes();
            assert(bytes@.subrange(0, 4) == spec_u32_to_le_bytes(u32_at(bytes@, 0)));
            assert(bytes@.subrange(4, 8) =~= bytes@.subrange(4, 8).subrange(0, 4));
            assert(bytes@.subrange(4, 8) == spec_u32_to_le_bytes(u32_at(bytes@, 4)));
            assert(bytes@.subrange(0, 8) =~= bytes@.subrange(0, 4) + bytes@.subrange(4, 8));
        }
        let mut table = SSTable {
            path,
            metadata: SSTableMetadata {
                point_count: 0,
                min_timestamp: i64::MAX,
                max_timestamp: i64::MIN,
                series_names: Vec::new(),
                blocks: Vec::new(),
            },
            data: bytes,
        };
        let mut pos: usize = 8;
        let len = table.data.len();
        let ghost mut done: Seq<(BlockMetadata, BlockView)> = Seq::empty();
        assert(table.metadata.blocks@ =~= metas_of(done));
        assert(names_view(table.metadata.series_names@) =~= Seq::<Seq<char>>::empty());
        assert(views_of(done) =~= Seq::<BlockView>::empty());
        loop
            invariant
                len == table.data@.len(),
                8 <= pos,
                table.data@.len() >= 8,
                table.data@.subrange(0, 8) == header_bytes(),
                table.path == path,
                table.data@ == bytes@,
                header_check(bytes@) is Ok,
                index_from(bytes@, 8) == index_after(done, index_from(bytes@, pos as int)),
                table.metadata.blocks@ == metas_of(done),
                table.metadata.min_timestamp == min_over(views_of(done)),
                table.metadata.max_timestamp == max_over(views_of(done)),
                names_view(table.metadata.series_names@) == names_over(views_of(done)),
                table.metadata.point_count == index_points(table.metadata.blocks@),
                table.metadata.point_count <= pos,
                pos <= len || table.metadata.blocks@.len() == 0,
                forall|i: int| 0 <= i < table.metadata.blocks@.len() ==> #[trigger] table.metadata.blocks@[i].offset < pos,
            decreases len - pos,
        {
            if pos >= len {
                assert(done + Seq::<(BlockMetadata, BlockView)>::empty() =~= done);
                assert(table.wf());
                return Ok(table);
            }
            if len - pos < 12 {
                assert(index_from(bytes@, pos as int) == Err::<Seq<(BlockMetadata, BlockView)>, SSTableError>(SSTableError::Io(IoFailure::UnexpectedEof)));
                return Err(SSTableError::Io(IoFailure::UnexpectedEof));
            }
            let n = u32_from_le_bytes(vstd::slice::slice_subrange(table.data.as_slice(), pos + 8, pos + 12));
            assert(n == u32_at(bytes@, pos + 8));
            let (block, q) = match decode_block(&table.data, pos, n) {
                Ok(x) => x,
                Err(e) => {
                    assert(index_from(bytes@, pos as int) == Err::<Seq<(BlockMetadata, BlockView)>, SSTableError>(e));
                    return Err(e);
                },
            };
            if q <= pos {
                assert(index_from(bytes@, pos as int) == Err::<Seq<(BlockMetadata, BlockView)>, SSTableError>(SSTableError::Io(IoFailure::InvalidData)));
                return Err(SSTableError::Io(IoFailure::InvalidData));
            }
            proof {
                lemma_parse_block_consumes(bytes@, pos as int, n);
            }
            let ghost bv = block@;
            assert(names_view(block.series_names@) =~= bv.names);
            let ghost old_names = names_view(table.metadata.series_names@);
            let (lo, hi) = widen_bounds(table.metadata.min_timestamp, table.metadata.max_timestamp, &block);
            table.metadata.min_timestamp = lo;
            table.metadata.max_timestamp = hi;
            table.metadata.series_names = merged_names(&table.metadata.series_names, &block.series_names);
            assert(names_view(table.metadata.series_names@) == add_names(old_names, bv.names));
            table.metadata.point_count = table.metadata.point_count + n as u64;
            let meta = BlockMetadata { offset: pos as u64, point_count: n, start_timestamp: block.start_timestamp };
            let ghost prev_blocks = table.metadata.blocks@;
            table.metadata.blocks.push(meta);
            assert(table.metadata.blocks@.drop_last() =~= prev_blocks);
            proof {
                let prev = done;
                done = done.push((meta, bv));
                assert(metas_of(done) =~= metas_of(prev).push(meta));
                assert(views_of(done) =~= views_of(prev).push(bv));
                let dv = views_of(done);
                let pv = views_of(prev);
                assert(dv.drop_last() =~= pv);
                assert(dv.last() == bv);
                assert(names_over(dv) == add_names(names_over(pv), bv.names));
                assert(min_over(dv) == with_block_min(min_over(pv), bv));
                assert(max_over(dv) == with_block_max(max_over(pv), bv));
                match index_from(bytes@, q as int) {
                    Ok(rest) => {
                        assert(prev + (seq![(meta, bv)] + rest) =~= done + rest);
                    },
                    Err(e) => {},
                }
            }
            pos = q;
        }
    }
}


/// Whether `names` holds a name equal to `x`.
pub fn contains_name(names: &Vec<String>, x: &String) -> (r: bool)
    ensures
        r == names_view(names@).contains(x@),
{
    let mut i: usize = 0;
    while i < names.len()
        invariant
            i <= names@.len(),
            forall|j: int| 0 <= j < i ==> names@[j]@ != x@,
        decreases names@.len() - i,
    {
        if names[i] == *x {
            assert(names_view(names@)[i as int] == x@);
            return true;
        }
        i += 1;
    }
    proof {
        if names_view(names@).contains(x@) {
            let j = choose|j: int| 0 <= j < names_view(names@).len() && names_view(names@)[j] == x@;
            assert(names@[j]@ == x@);
        }
    }
    false
}

/// `known` followed by the names of `new` that are not in it yet, each once.
pub fn merged_names(known: &Vec<String>, new: &Vec<String>) -> (r: Vec<String>)
    ensures
        names_view(r@) == add_names(names_view(known@), names_view(new@)),
{
    let mut out: Vec<String> = Vec::new();
    let mut i: usize = 0;
    while i < known.len()
        invariant
            i <= known@.len(),
            out@ == known@.subrange(0, i as int),
        decreases known@.len() - i,
    {
        out.push(known[i].clone());
        i += 1;
        assert(out@ =~= known@.subrange(0, i as int));
    }
    assert(known@.subrange(0, i as int) =~= known@);
    let mut i: usize = 0;
    while i < new.len()
        invariant
            i <= new@.len(),
            names_view(out@) == add_names(names_view(known@), names_view(new@).subrange(0, i as int)),
        decreases new@.len() - i,
    {
        proof {
            assert(names_view(new@).subrange(0, i + 1).drop_last() =~= names_view(new@).subrange(0, i as int));
            assert(names_view(new@).subrange(0, i + 1).last() == new@[i as int]@);
        }
        if !contains_name(&out, &new[i]) {
            let ghost prev = out@;
            out.push(new[i].clone());
            assert(names_view(out@) =~= names_view(prev).push(new@[i as int]@));
        }
        i += 1;
    }
    assert(names_view(new@).subrange(0, i as int) =~= names_view(new@));
    out
}

/// Whether a block has one entry per point in every column and fits the
/// u32 fields of the layout.
pub fn block_valid(block: &DataBlock) -> (r: bool)
    ensures
        r == block_is_valid(block@),
{
    let n = block.timestamp_deltas.len();
    if block.values.len() != n || block.series_names.len() != n || block.tags.len() != n {
        return false;
    }
    if n > 0xffff_ffffusize {
        return false;
    }
    let mut i: usize = 0;
    while i < n
        invariant
            i <= n,
            n == block.series_names@.len(),
            forall|j: int| 0 <= j < i ==> #[trigger] encode_utf8(block@.names[j]).len() <= u32::MAX,
        decreases n - i,
    {
        let l = block.series_names[i].as_str().as_bytes().len();
        assert(block@.names[i as int] == block.series_names@[i as int]@);
        if l > 0xffff_ffffusize {
            return false;
        }
        i += 1;
    }
    true
}

/// Widens `[lo, hi]` to the timestamps of the block's points, found by a
/// running sum over its deltas.
pub fn widen_bounds(lo: i64, hi: i64, block: &DataBlock) -> (r: (i64, i64))
    requires
        block.timestamp_deltas@.len() <= u32::MAX,
    ensures
        r.0 == with_block_min(lo, block@),
        r.1 == with_block_max(hi, block@),
{
    let n = block.timestamp_deltas.len();
    if n == 0 {
        return (lo, hi);
    }
    let ghost b = block@;
    let mut acc: i128 = block.start_timestamp as i128 + block.timestamp_deltas[0] as i128;
    assert(b.deltas.subrange(0, 1).drop_last() =~= Seq::<i64>::empty());
    assert(delta_sum(Seq::<i64>::empty()) == 0);
    assert(acc == entry_ts(b, 0));
    let mut min_ts: i128 = acc;
    let mut max_ts: i128 = acc;
    let mut i: usize = 1;
    while i < n
        invariant
            1 <= i <= n,
            n == block.timestamp_deltas@.len(),
            n <= u32::MAX,
            b == block@,
            acc == entry_ts(b, i - 1),
            -0x8000_0000_0000_0000 * (i + 1) <= acc <= 0x8000_0000_0000_0000 * (i + 1),
            min_ts == min_entry(b, i as nat),
            max_ts == max_entry(b, i as nat),
        decreases n - i,
    {
        assert(b.deltas.subrange(0, i + 1).drop_last() =~= b.deltas.subrange(0, i as int));
        acc = acc + block.timestamp_deltas[i] as i128;
        assert(acc == entry_ts(b, i as int));
        if acc < min_ts {
            min_ts = acc;
        }
        if acc > max_ts {
            max_ts = acc;
        }
        i += 1;
    }
    let t_min: i64 = if min_ts > i64::MAX as i128 { i64::MAX } else if min_ts < i64::MIN as i128 { i64::MIN } else { min_ts as i64 };
    let t_max: i64 = if max_ts > i64::MAX as i128 { i64::MAX } else if max_ts < i64::MIN as i128 { i64::MIN } else { max_ts as i64 };
    (if t_min < lo { t_min } else { lo }, if t_max > hi { t_max } else { hi })
}

/// The blocks of the index that decode, in file order.
pub open spec fn scanned(t: SSTable, k: nat) -> Seq<BlockView>
    decreases k,
{
    if k == 0 {
        Seq::empty()
    } else {
        let prev = scanned(t, (k - 1) as nat);
        match t.block_at(k - 1) {
            Ok((b, _)) => prev.push(b),
            Err(_) => prev,
        }
    }
}

impl SSTable {
    /// Appends a block and records it in the index. A block with columns of
    /// unequal length is refused, and the table is left as it was whenever
    /// an error is returned.
    pub fn write_block(&mut self, block: DataBlock) -> (r: Result<(), SSTableError>)
        requires
            old(self).wf(),
        ensures
            final(self).wf(),
            !block_is_valid(block@) ==> r matches Err(SSTableError::Io(IoFailure::InvalidInput)),
            r is Ok <==> block_is_valid(block@) && tags_fit(block@),
            r is Err ==> *final(self) == *old(self),
            r is Err ==> r matches Err(SSTableError::Io(IoFailure::InvalidInput)),
            r is Ok ==> {
                &&& final(self).path == old(self).path
                &&& final(self).data@ == old(self).data@ + block_bytes(block@)
                &&& final(self).metadata.blocks@ == old(self).metadata.blocks@.push(
                    BlockMetadata {
                        offset: old(self).data@.len() as u64,
                        point_count: block@.deltas.len() as u32,
                        start_timestamp: block.start_timestamp,
                    },
                )
                &&& final(self).metadata.point_count == old(self).metadata.point_count + block@.deltas.len()
                &&& final(self).metadata.min_timestamp == with_block_min(old(self).metadata.min_timestamp, block@)
                &&& final(self).metadata.max_timestamp == with_block_max(old(self).metadata.max_timestamp, block@)
                &&& names_view(final(self).metadata.series_names@) == add_names(
                    names_view(old(self).metadata.series_names@),
                    block@.names,
                )
            },
    {
        if !block_valid(&block) {
            return Err(SSTableError::Io(IoFailure::InvalidInput));
        }
        let mut enc: Vec<u8> = Vec::new();
        match encode_block(&block, &mut enc) {
            Err(e) => return Err(e),
            Ok(()) => {},
        }
        assert(enc@ =~= block_bytes(block@));
        proof {
            lemma_block_bytes_len(block@);
        }
        let n = block.timestamp_deltas.len();
        let offset = self.data.len() as u64;
        let ghost old_self = *self;
        append_bytes(&mut self.data, enc.as_slice());
        let _len = self.data.len();
        assert(self.data@.subrange(0, 8) =~= old_self.data@.subrange(0, 8));
        self.metadata.point_count = self.metadata.point_count + n as u64;
        let (lo, hi) = widen_bounds(self.metadata.min_timestamp, self.metadata.max_timestamp, &block);
        self.metadata.min_timestamp = lo;
        self.metadata.max_timestamp = hi;
        self.metadata.series_names = merged_names(&self.metadata.series_names, &block.series_names);
        self.metadata.blocks.push(
            BlockMetadata { offset, point_count: n as u32, start_timestamp: block.start_timestamp },
        );
        Ok(())
    }

    /// Decodes block `i` of the index.
    pub fn read_block(&self, i: usize) -> (r: Result<DataBlock, SSTableError>)
        requires
            self.wf(),
        ensures
            i >= self.metadata.blocks@.len() ==> r matches Err(SSTableError::InvalidBlockIndex),
            i < self.metadata.blocks@.len() ==> match self.block_at(i as int) {
                Ok((b, _)) => r matches Ok(x) && x@ == b,
                Err(e) => r matches Err(f) && f == e,
            },
    {
        if i >= self.metadata.blocks.len() {
            return Err(SSTableError::InvalidBlockIndex);
        }
        let m = &self.metadata.blocks[i];
        let _len = self.data.len();
        assert(m.offset <= self.data@.len());
        match decode_block(&self.data, m.offset as usize, m.point_count) {
            Ok((b, _)) => Ok(b),
            Err(e) => Err(e),
        }
    }

    /// Every block of the index that decodes, in file order.
    pub fn scan_blocks(&self) -> (r: Vec<DataBlock>)
        requires
            self.wf(),
        ensures
            r@.map_values(|b: DataBlock| b@) == scanned(*self, self.metadata.blocks@.len()),
    {
        let mut out: Vec<DataBlock> = Vec::new();
        let mut i: usize = 0;
        while i < self.metadata.blocks.len()
            invariant
                self.wf(),
                i <= self.metadata.blocks@.len(),
                out@.map_values(|b: DataBlock| b@) == scanned(*self, i as nat),
            decreases self.metadata.blocks@.len() - i,
        {
            match self.read_block(i) {
                Ok(b) => {
                    proof {
                        assert(out@.push(b).map_values(|b: DataBlock| b@) =~= out@.map_values(
                            |b: DataBlock| b@,
                        ).push(b@));
                    }
                    out.push(b);
                },
                Err(_) => {},
            }
            i += 1;
        }
        out
    }
}

} // verus!
