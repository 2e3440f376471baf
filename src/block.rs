//! The binary layout of one data block, its encoder and its decoder.
//!
//! Layout, little-endian throughout: the start timestamp (i64), the point
//! count n (u32), n timestamp deltas (i64), n value bit patterns (u64), n
//! series names each framed by a u32 byte length, and n tag lists each framed
//! by a u32 byte length and held as a JSON object.
use vstd::prelude::*;
use vstd::bytes::*;
use vstd::slice::*;
use vstd::utf8::*;
use crate::data::{TagsView, tags_view, clone_tags};
use crate::sstable::{SSTableError, IoFailure};
use crate::tags_json::{tags_json, tags_from_json, encode_tags, decode_tags};

verus! {

/// The unit of storage in a segment file.
#[derive(Debug)]
pub struct DataBlock {
    pub start_timestamp: i64,
    /// Entry i lies `deltas[0] + ... + deltas[i]` after the start.
    pub timestamp_deltas: Vec<i64>,
    /// Bit patterns of the values.
    pub values: Vec<u64>,
    pub series_names: Vec<String>,
    pub tags: Vec<Vec<(String, String)>>,
}

/// A block as plain values.
pub struct BlockView {
    pub start: i64,
    pub deltas: Seq<i64>,
    pub values: Seq<u64>,
    pub names: Seq<Seq<char>>,
    pub tags: Seq<TagsView>,
}

impl View for DataBlock {
    type V = BlockView;

    open spec fn view(&self) -> BlockView {
        BlockView {
            start: self.start_timestamp,
            deltas: self.timestamp_deltas@,
            values: self.values@,
            names: self.series_names@.map_values(|s: String| s@),
            tags: self.tags@.map_values(|t: Vec<(String, String)>| tags_view(t@)),
        }
    }
}

pub open spec fn le_u32(x: u32) -> Seq<u8> {
    spec_u32_to_le_bytes(x)
}

pub open spec fn le_i64(x: i64) -> Seq<u8> {
    spec_u64_to_le_bytes(x as u64)
}

pub open spec fn i64s_bytes(s: Seq<i64>) -> Seq<u8>
    decreases s.len(),
{
    if s.len() == 0 {
        Seq::empty()
    } else {
        i64s_bytes(s.drop_last()) + le_i64(s.last())
    }
}

pub open spec fn u64s_bytes(s: Seq<u64>) -> Seq<u8>
    decreases s.len(),
{
    if s.len() == 0 {
        Seq::empty()
    } else {
        u64s_bytes(s.drop_last()) + spec_u64_to_le_bytes(s.last())
    }
}

/// A byte string preceded by its length.
pub open spec fn framed(b: Seq<u8>) -> Seq<u8> {
    le_u32(b.len() as u32) + b
}

pub open spec fn name_frames(s: Seq<Seq<char>>) -> Seq<u8>
    decreases s.len(),
{
    if s.len() == 0 {
        Seq::empty()
    } else {
        name_frames(s.drop_last()) + framed(encode_utf8(s.last()))
    }
}

pub open spec fn tag_frames(s: Seq<TagsView>) -> Seq<u8>
    decreases s.len(),
{
    if s.len() == 0 {
        Seq::empty()
    } else {
        tag_frames(s.drop_last()) + framed(tags_json(s.last()))
    }
}

/// The bytes that stand for a block in a segment file.
pub open spec fn block_bytes(b: BlockView) -> Seq<u8> {
    le_i64(b.start) + le_u32(b.deltas.len() as u32) + i64s_bytes(b.deltas) + u64s_bytes(b.values)
        + name_frames(b.names) + tag_frames(b.tags)
}

/// Every column has one entry per point, and every count and length fits the
/// u32 fields of the layout.
pub open spec fn block_is_valid(b: BlockView) -> bool {
    &&& b.values.len() == b.deltas.len()
    &&& b.names.len() == b.deltas.len()
    &&& b.tags.len() == b.deltas.len()
    &&& b.deltas.len() <= u32::MAX
    &&& forall|i: int| 0 <= i < b.names.len() ==> #[trigger] encode_utf8(b.names[i]).len() <= u32::MAX
}

/// The JSON of every tag list fits a u32 length.
pub open spec fn tags_fit(b: BlockView) -> bool {
    forall|i: int| 0 <= i < b.tags.len() ==> #[trigger] tags_json(b.tags[i]).len() <= u32::MAX
}

pub open spec fn u32_at(bytes: Seq<u8>, pos: int) -> u32 {
    spec_u32_from_le_bytes(bytes.subrange(pos, pos + 4))
}

pub open spec fn u64_at(bytes: Seq<u8>, pos: int) -> u64 {
    spec_u64_from_le_bytes(bytes.subrange(pos, pos + 8))
}

pub open spec fn eof<T>() -> Result<T, SSTableError> {
    Err(SSTableError::Io(IoFailure::UnexpectedEof))
}

/// Reads one framed series name at `pos`.
pub open spec fn parse_name(bytes: Seq<u8>, pos: int) -> Result<(Seq<char>, int), SSTableError> {
    if pos + 4 > bytes.len() {
        eof()
    } else {
        let l = u32_at(bytes, pos) as int;
        if pos + 4 + l > bytes.len() {
            eof()
        } else {
            let c = bytes.subrange(pos + 4, pos + 4 + l);
            if valid_utf8(c) {
                Ok((decode_utf8(c), pos + 4 + l))
            } else {
                Err(SSTableError::Utf8)
            }
        }
    }
}

/// Reads one framed tag list at `pos`.
pub open spec fn parse_tag(bytes: Seq<u8>, pos: int) -> Result<(TagsView, int), SSTableError> {
    if pos + 4 > bytes.len() {
        eof()
    } else {
        let l = u32_at(bytes, pos) as int;
        if pos + 4 + l > bytes.len() {
            eof()
        } else {
            match tags_from_json(bytes.subrange(pos + 4, pos + 4 + l)) {
                Some(t) => Ok((t, pos + 4 + l)),
                None => Err(SSTableError::Json),
            }
        }
    }
}

/// Reads `k` framed names one after another, from `pos`.
pub open spec fn parse_names(bytes: Seq<u8>, pos: int, k: nat) -> Result<(Seq<Seq<char>>, int), SSTableError>
    decreases k,
{
    if k == 0 {
        Ok((Seq::empty(), pos))
    } else {
        match parse_names(bytes, pos, (k - 1) as nat) {
            Err(e) => Err(e),
            Ok((s, p)) => match parse_name(bytes, p) {
                Err(e) => Err(e),
                Ok((x, q)) => Ok((s.push(x), q)),
            },
        }
    }
}

/// Reads `k` framed tag lists one after another, from `pos`.
pub open spec fn parse_tags(bytes: Seq<u8>, pos: int, k: nat) -> Result<(Seq<TagsView>, int), SSTableError>
    decreases k,
{
    if k == 0 {
        Ok((Seq::empty(), pos))
    } else {
        match parse_tags(bytes, pos, (k - 1) as nat) {
            Err(e) => Err(e),
            Ok((s, p)) => match parse_tag(bytes, p) {
                Err(e) => Err(e),
                Ok((x, q)) => Ok((s.push(x), q)),
            },
        }
    }
}

/// Decodes the block at `pos`, whose point count the index recorded as
/// `expected`: the block and the position just past it.
pub open spec fn parse_block(bytes: Seq<u8>, pos: int, expected: u32) -> Result<(BlockView, int), SSTableError> {
    if pos + 12 > bytes.len() {
        eof()
    } else {
        let n = u32_at(bytes, pos + 8) as int;
        if n != expected {
            Err(SSTableError::Io(IoFailure::InvalidData))
        } else if pos + 12 + 16 * n > bytes.len() {
            eof()
        } else {
            let deltas = Seq::new(n as nat, |i: int| u64_at(bytes, pos + 12 + 8 * i) as i64);
            let values = Seq::new(n as nat, |i: int| u64_at(bytes, pos + 12 + 8 * n + 8 * i));
            match parse_names(bytes, pos + 12 + 16 * n, n as nat) {
                Err(e) => Err(e),
                Ok((names, p)) => match parse_tags(bytes, p, n as nat) {
                    Err(e) => Err(e),
                    Ok((tags, q)) => Ok((
                        BlockView {
                            start: u64_at(bytes, pos) as i64,
                            deltas,
                            values,
                            names,
                            tags,
                        },
                        q,
                    )),
                },
            }
        }
    }
}

/// Appends `src` to `out`.
pub fn append_bytes(out: &mut Vec<u8>, src: &[u8])
    ensures
        final(out)@ == old(out)@ + src@,
{
    let ghost start = out@;
    let mut i: usize = 0;
    while i < src.len()
        invariant
            i <= src@.len(),
            out@ == start + src@.subrange(0, i as int),
        decreases src@.len() - i,
    {
        out.push(src[i]);
        i += 1;
        assert(out@ =~= start + src@.subrange(0, i as int));
    }
    assert(src@.subrange(0, i as int) =~= src@);
}

fn append_u32(out: &mut Vec<u8>, x: u32)
    ensures
        final(out)@ == old(out)@ + le_u32(x),
{
    let b = u32_to_le_bytes(x);
    append_bytes(out, b.as_slice());
}

fn append_u64(out: &mut Vec<u8>, x: u64)
    ensures
        final(out)@ == old(out)@ + spec_u64_to_le_bytes(x),
{
    let b = u64_to_le_bytes(x);
    append_bytes(out, b.as_slice());
}

/// Appends the encoding of a block. It fails only where the JSON of a tag
/// list is too long for the layout.
pub fn encode_block(block: &DataBlock, out: &mut Vec<u8>) -> (r: Result<(), SSTableError>)
    requires
        block_is_valid(block@),
    ensures
        r is Ok <==> tags_fit(block@),
        r is Ok ==> final(out)@ == old(out)@ + block_bytes(block@),
        r is Err ==> r matches Err(SSTableError::Io(IoFailure::InvalidInput)),
{
    let ghost b = block@;
    let ghost start = out@;
    let n = block.timestamp_deltas.len();
    append_u64(out, block.start_timestamp as u64);
    append_u32(out, n as u32);
    let mut i: usize = 0;
    while i < n
        invariant
            n == block.timestamp_deltas@.len(),
            i <= n,
            b == block@,
            out@ == start + le_i64(b.start) + le_u32(n as u32) + i64s_bytes(
                b.deltas.subrange(0, i as int),
            ),
        decreases n - i,
    {
        append_u64(out, block.timestamp_deltas[i] as u64);
        proof {
            assert(b.deltas.subrange(0, i + 1).drop_last() =~= b.deltas.subrange(0, i as int));
        }
        i += 1;
    }
    assert(b.deltas.subrange(0, n as int) =~= b.deltas);
    let ghost mid = out@;
    let mut i: usize = 0;
    while i < n
        invariant
            n == block.values@.len(),
            i <= n,
            b == block@,
            out@ == mid + u64s_bytes(b.values.subrange(0, i as int)),
        decreases n - i,
    {
        append_u64(out, block.values[i]);
        proof {
            assert(b.values.subrange(0, i + 1).drop_last() =~= b.values.subrange(0, i as int));
        }
        i += 1;
    }
    assert(b.values.subrange(0, n as int) =~= b.values);
    let ghost mid2 = out@;
    let mut i: usize = 0;
    while i < n
        invariant
            n == block.series_names@.len(),
            i <= n,
            b == block@,
            block_is_valid(b),
            out@ == mid2 + name_frames(b.names.subrange(0, i as int)),
        decreases n - i,
    {
        let nb = block.series_names[i].as_str().as_bytes();
        assert(encode_utf8(b.names[i as int]).len() <= u32::MAX);
        append_u32(out, nb.len() as u32);
        append_bytes(out, nb);
        proof {
            assert(b.names.subrange(0, i + 1).drop_last() =~= b.names.subrange(0, i as int));
            assert(b.names.subrange(0, i + 1).last() == b.names[i as int]);
        }
        i += 1;
    }
    assert(b.names.subrange(0, n as int) =~= b.names);
    let ghost mid3 = out@;
    let mut i: usize = 0;
    while i < n
        invariant
            n == block.tags@.len(),
            i <= n,
            b == block@,
            out@ == mid3 + tag_frames(b.tags.subrange(0, i as int)),
            forall|j: int| 0 <= j < i ==> #[trigger] tags_json(b.tags[j]).len() <= u32::MAX,
        decreases n - i,
    {
        let json = match encode_tags(&block.tags[i]) {
            Ok(j) => j,
            Err(_) => return Err(SSTableError::Json),
        };
        assert(b.tags[i as int] == tags_view(block.tags@[i as int]@));
        if json.len() > 0xffff_ffffusize {
            assert(tags_json(b.tags[i as int]).len() > u32::MAX);
            return Err(SSTableError::Io(IoFailure::InvalidInput));
        }
        append_u32(out, json.len() as u32);
        append_bytes(out, json.as_slice());
        proof {
            assert(b.tags.subrange(0, i + 1).drop_last() =~= b.tags.subrange(0, i as int));
            assert(b.tags.subrange(0, i + 1).last() == b.tags[i as int]);
        }
        i += 1;
    }
    assert(b.tags.subrange(0, n as int) =~= b.tags);
    Ok(())
}

fn read_u32(bytes: &Vec<u8>, pos: usize) -> (r: u32)
    requires
        pos + 4 <= bytes@.len(),
    ensures
        r == u32_at(bytes@, pos as int),
{
    let _l = bytes.len();
    u32_from_le_bytes(slice_subrange(bytes.as_slice(), pos, pos + 4))
}

fn read_u64(bytes: &Vec<u8>, pos: usize) -> (r: u64)
    requires
        pos + 8 <= bytes@.len(),
    ensures
        r == u64_at(bytes@, pos as int),
{
    let _l = bytes.len();
    u64_from_le_bytes(slice_subrange(bytes.as_slice(), pos, pos + 8))
}

/// Relies on String::from_utf8: it succeeds exactly on valid UTF-8, with the
/// characters that the bytes encode.
#[verifier::external_body]
fn string_from_utf8(bytes: Vec<u8>) -> (r: Option<String>)
    ensures
        r is Some <==> valid_utf8(bytes@),
        r matches Some(s) ==> s@ == decode_utf8(bytes@),
{
    String::from_utf8(bytes).ok()
}

/// Reads one length-framed chunk at `pos`: the position of its bytes and the
/// position past it.
fn read_frame(bytes: &Vec<u8>, pos: usize) -> (r: Result<(usize, usize), SSTableError>)
    ensures
        r matches Ok((a, b)) ==> pos + 4 <= bytes@.len() && a == pos + 4 && b == pos + 4 + u32_at(
            bytes@,
            pos as int,
        ) && b <= bytes@.len(),
        r is Err ==> r == eof::<(usize, usize)>() && (pos + 4 > bytes@.len() || pos + 4 + u32_at(
            bytes@,
            pos as int,
        ) > bytes@.len()),
{
    if pos > bytes.len() || bytes.len() - pos < 4 {
        return Err(SSTableError::Io(IoFailure::UnexpectedEof));
    }
    let l = read_u32(bytes, pos) as usize;
    if bytes.len() - pos - 4 < l {
        return Err(SSTableError::Io(IoFailure::UnexpectedEof));
    }
    Ok((pos + 4, pos + 4 + l))
}

fn decode_name(bytes: &Vec<u8>, pos: usize) -> (r: Result<(String, usize), SSTableError>)
    ensures
        match parse_name(bytes@, pos as int) {
            Ok((s, q)) => r matches Ok((x, p)) && x@ == s && p == q,
            Err(e) => r == Err::<(String, usize), SSTableError>(e),
        },
{
    let (a, b) = match read_frame(bytes, pos) {
        Ok(f) => f,
        Err(e) => return Err(e),
    };
    let chunk = slice_to_vec(slice_subrange(bytes.as_slice(), a, b));
    match string_from_utf8(chunk) {
        Some(s) => Ok((s, b)),
        None => Err(SSTableError::Utf8),
    }
}

fn decode_tag(bytes: &Vec<u8>, pos: usize) -> (r: Result<(Vec<(String, String)>, usize), SSTableError>)
    ensures
        match parse_tag(bytes@, pos as int) {
            Ok((t, q)) => r matches Ok((x, p)) && tags_view(x@) == t && p == q,
            Err(e) => r == Err::<(Vec<(String, String)>, usize), SSTableError>(e),
        },
{
    let (a, b) = match read_frame(bytes, pos) {
        Ok(f) => f,
        Err(e) => return Err(e),
    };
    match decode_tags(slice_subrange(bytes.as_slice(), a, b)) {
        Ok(t) => Ok((t, b)),
        Err(_) => Err(SSTableError::Json),
    }
}

/// Decodes the block that starts at `pos`; `expected` is the point count that
/// the block index recorded for it.
pub fn decode_block(bytes: &Vec<u8>, pos: usize, expected: u32) -> (r: Result<(DataBlock, usize), SSTableError>)
    ensures
        match parse_block(bytes@, pos as int, expected) {
            Ok((b, q)) => r matches Ok((x, p)) && x@ == b && p == q,
            Err(e) => r matches Err(f) && f == e,
        },
{
    if pos > bytes.len() || bytes.len() - pos < 12 {
        return Err(SSTableError::Io(IoFailure::UnexpectedEof));
    }
    let start = #[verifier::truncate] (read_u64(bytes, pos) as i64);
    let n32 = read_u32(bytes, pos + 8);
    if n32 != expected {
        return Err(SSTableError::Io(IoFailure::InvalidData));
    }
    let n = n32 as usize;
    let avail = bytes.len() - pos - 12;
    if n > avail / 16 {
        return Err(SSTableError::Io(IoFailure::UnexpectedEof));
    }
    let base = pos + 12;
    let mut deltas: Vec<i64> = Vec::new();
    let mut i: usize = 0;
    while i < n
        invariant
            i <= n,
            n == n32 as int,
            base == pos + 12,
            base + 16 * n <= bytes@.len(),
            bytes@.len() <= usize::MAX,
            deltas@ =~= Seq::new(i as nat, |j: int| u64_at(bytes@, base + 8 * j) as i64),
        decreases n - i,
    {
        let d = #[verifier::truncate] (read_u64(bytes, base + 8 * i) as i64);
        deltas.push(d);
        i += 1;
    }
    let vbase = base + 8 * n;
    let mut values: Vec<u64> = Vec::new();
    let mut i: usize = 0;
    while i < n
        invariant
            i <= n,
            vbase == base + 8 * n,
            base + 16 * n <= bytes@.len(),
            bytes@.len() <= usize::MAX,
            values@ =~= Seq::new(i as nat, |j: int| u64_at(bytes@, vbase + 8 * j)),
        decreases n - i,
    {
        let v = read_u64(bytes, vbase + 8 * i);
        values.push(v);
        i += 1;
    }
    let mut p = vbase + 8 * n;
    let ghost npos = p as int;
    let mut names: Vec<String> = Vec::new();
    assert(names@.map_values(|s: String| s@) =~= Seq::<Seq<char>>::empty());
    let mut i: usize = 0;
    while i < n
        invariant
            i <= n,
            n == n32 as int,
            n32 == expected,
            u32_at(bytes@, pos + 8) == n32,
            pos + 12 <= bytes@.len(),
            pos + 12 + 16 * n <= bytes@.len(),
            npos == pos + 12 + 16 * n,
            parse_names(bytes@, npos, i as nat) == Ok::<(Seq<Seq<char>>, int), SSTableError>(
                (names@.map_values(|s: String| s@), p as int),
            ),
        decreases n - i,
    {
        match decode_name(bytes, p) {
            Ok((s, q)) => {
                proof {
                    assert(names@.push(s).map_values(|s: String| s@) =~= names@.map_values(
                        |s: String| s@,
                    ).push(s@));
                }
                names.push(s);
                p = q;
            },
            Err(e) => {
                assert(parse_names(bytes@, npos, (i + 1) as nat) == Err::<
                    (Seq<Seq<char>>, int),
                    SSTableError,
                >(e));
                assert(parse_names(bytes@, npos, n as nat) == Err::<
                    (Seq<Seq<char>>, int),
                    SSTableError,
                >(e)) by {
                    lemma_parse_names_err(bytes@, npos, (i + 1) as nat, n as nat);
                }
                return Err(e);
            },
        }
        i += 1;
    }
    let ghost tpos = p as int;
    let mut tags: Vec<Vec<(String, String)>> = Vec::new();
    assert(tags@.map_values(|t: Vec<(String, String)>| tags_view(t@)) =~= Seq::<TagsView>::empty());
    let mut i: usize = 0;
    while i < n
        invariant
            i <= n,
            n == n32 as int,
            n32 == expected,
            u32_at(bytes@, pos + 8) == n32,
            pos + 12 <= bytes@.len(),
            pos + 12 + 16 * n <= bytes@.len(),
            parse_names(bytes@, pos + 12 + 16 * n, n as nat) == Ok::<(Seq<Seq<char>>, int), SSTableError>(
                (names@.map_values(|s: String| s@), tpos),
            ),
            parse_tags(bytes@, tpos, i as nat) == Ok::<(Seq<TagsView>, int), SSTableError>(
                (tags@.map_values(|t: Vec<(String, String)>| tags_view(t@)), p as int),
            ),
        decreases n - i,
    {
        match decode_tag(bytes, p) {
            Ok((t, q)) => {
                proof {
                    assert(tags@.push(t).map_values(|t: Vec<(String, String)>| tags_view(t@))
                        =~= tags@.map_values(|t: Vec<(String, String)>| tags_view(t@)).push(
                        tags_view(t@),
                    ));
                }
                tags.push(t);
                p = q;
            },
            Err(e) => {
                assert(parse_tags(bytes@, tpos, (i + 1) as nat) == Err::<
                    (Seq<TagsView>, int),
                    SSTableError,
                >(e));
                assert(parse_tags(bytes@, tpos, n as nat) == Err::<
                    (Seq<TagsView>, int),
                    SSTableError,
                >(e)) by {
                    lemma_parse_tags_err(bytes@, tpos, (i + 1) as nat, n as nat);
                }
                return Err(e);
            },
        }
        i += 1;
    }
    let block = DataBlock {
        start_timestamp: start,
        timestamp_deltas: deltas,
        values,
        series_names: names,
        tags,
    };
    proof {
        let bv = parse_block(bytes@, pos as int, expected);
        assert(bv matches Ok((v, q)) && v.deltas =~= block@.deltas && v.values =~= block@.values
            && v.names == block@.names && v.tags == block@.tags && q == p);
    }
    Ok((block, p))
}

proof fn lemma_parse_names_err(bytes: Seq<u8>, pos: int, k: nat, m: nat)
    requires
        k <= m,
        parse_names(bytes, pos, k) is Err,
    ensures
        parse_names(bytes, pos, m) == parse_names(bytes, pos, k),
    decreases m - k,
{
    if k < m {
        lemma_parse_names_err(bytes, pos, k, (m - 1) as nat);
    }
}

proof fn lemma_parse_tags_err(bytes: Seq<u8>, pos: int, k: nat, m: nat)
    requires
        k <= m,
        parse_tags(bytes, pos, k) is Err,
    ensures
        parse_tags(bytes, pos, m) == parse_tags(bytes, pos, k),
    decreases m - k,
{
    if k < m {
        lemma_parse_tags_err(bytes, pos, k, (m - 1) as nat);
    }
}

/// Copies a block column by column.
pub fn clone_block(block: &DataBlock) -> (r: DataBlock)
    ensures
        r@ == block@,
{
    let mut names: Vec<String> = Vec::new();
    let mut tags: Vec<Vec<(String, String)>> = Vec::new();
    let mut i: usize = 0;
    while i < block.series_names.len()
        invariant
            i <= block.series_names@.len(),
            names@ == block.series_names@.subrange(0, i as int),
        decreases block.series_names@.len() - i,
    {
        names.push(block.series_names[i].clone());
        i += 1;
        assert(names@ =~= block.series_names@.subrange(0, i as int));
    }
    let mut i: usize = 0;
    while i < block.tags.len()
        invariant
            i <= block.tags@.len(),
            tags@.len() == i,
            forall|j: int| 0 <= j < i ==> #[trigger] tags@[j]@ == block.tags@[j]@,
        decreases block.tags@.len() - i,
    {
        tags.push(clone_tags(&block.tags[i]));
        i += 1;
    }
    let r = DataBlock {
        start_timestamp: block.start_timestamp,
        timestamp_deltas: block.timestamp_deltas.clone(),
        values: block.values.clone(),
        series_names: names,
        tags,
    };
    assert(block.series_names@.subrange(0, block.series_names@.len() as int) =~= block.series_names@);
    assert(r@.names =~= block@.names);
    assert(r@.tags =~= block@.tags);
    r
}


proof fn lemma_i64s_len(s: Seq<i64>)
    ensures
        i64s_bytes(s).len() == 8 * s.len(),
    decreases s.len(),
{
    lemma_auto_spec_u64_to_from_le_bytes();
    if s.len() > 0 {
        lemma_i64s_len(s.drop_last());
    }
}

proof fn lemma_u64s_len(s: Seq<u64>)
    ensures
        u64s_bytes(s).len() == 8 * s.len(),
    decreases s.len(),
{
    lemma_auto_spec_u64_to_from_le_bytes();
    if s.len() > 0 {
        lemma_u64s_len(s.drop_last());
    }
}

/// A valid block takes at least 12 bytes, and 16 more for each point.
pub proof fn lemma_block_bytes_len(b: BlockView)
    requires
        block_is_valid(b),
    ensures
        block_bytes(b).len() >= 12 + 16 * b.deltas.len(),
{
    lemma_auto_spec_u64_to_from_le_bytes();
    lemma_auto_spec_u32_to_from_le_bytes();
    lemma_i64s_len(b.deltas);
    lemma_u64s_len(b.values);
}


proof fn lemma_sub_of_sub(bytes: Seq<u8>, q: int, whole: Seq<u8>, x: int, y: int)
    requires
        0 <= q,
        q + whole.len() <= bytes.len(),
        bytes.subrange(q, q + whole.len()) == whole,
        0 <= x <= y <= whole.len(),
    ensures
        bytes.subrange(q + x, q + y) == whole.subrange(x, y),
{
    assert forall|k: int| 0 <= k < y - x implies bytes.subrange(q + x, q + y)[k] == whole.subrange(x, y)[k] by {
        assert(bytes.subrange(q, q + whole.len())[x + k] == bytes[q + x + k]);
    }
    assert(bytes.subrange(q + x, q + y) =~= whole.subrange(x, y));
}

proof fn lemma_i64_u64_round(x: i64)
    ensures
        (x as u64) as i64 == x,
{
    assert((x as u64) as i64 == x) by (bit_vector);
}

proof fn lemma_i64s_at(s: Seq<i64>, i: int)
    requires
        0 <= i < s.len(),
    ensures
        i64s_bytes(s).subrange(8 * i, 8 * i + 8) == le_i64(s[i]),
    decreases s.len(),
{
    lemma_auto_spec_u64_to_from_le_bytes();
    let t = s.drop_last();
    lemma_i64s_len(t);
    if i < s.len() - 1 {
        lemma_i64s_at(t, i);
        assert(i64s_bytes(s).subrange(8 * i, 8 * i + 8) =~= i64s_bytes(t).subrange(8 * i, 8 * i + 8));
    } else {
        assert(i64s_bytes(s).subrange(8 * i, 8 * i + 8) =~= le_i64(s.last()));
    }
}

proof fn lemma_u64s_at(s: Seq<u64>, i: int)
    requires
        0 <= i < s.len(),
    ensures
        u64s_bytes(s).subrange(8 * i, 8 * i + 8) == spec_u64_to_le_bytes(s[i]),
    decreases s.len(),
{
    lemma_auto_spec_u64_to_from_le_bytes();
    let t = s.drop_last();
    lemma_u64s_len(t);
    if i < s.len() - 1 {
        lemma_u64s_at(t, i);
        assert(u64s_bytes(s).subrange(8 * i, 8 * i + 8) =~= u64s_bytes(t).subrange(8 * i, 8 * i + 8));
    } else {
        assert(u64s_bytes(s).subrange(8 * i, 8 * i + 8) =~= spec_u64_to_le_bytes(s.last()));
    }
}

proof fn lemma_parse_names_of(bytes: Seq<u8>, q: int, names: Seq<Seq<char>>)
    requires
        0 <= q,
        q + name_frames(names).len() <= bytes.len(),
        bytes.subrange(q, q + name_frames(names).len()) == name_frames(names),
        forall|i: int| 0 <= i < names.len() ==> #[trigger] encode_utf8(names[i]).len() <= u32::MAX,
    ensures
        parse_names(bytes, q, names.len()) == Ok::<(Seq<Seq<char>>, int), SSTableError>(
            (names, q + name_frames(names).len()),
        ),
    decreases names.len(),
{
    if names.len() == 0 {
        assert(names =~= Seq::<Seq<char>>::empty());
    } else {
        let init = names.drop_last();
        let x = names.last();
        let a = name_frames(init);
        let enc = encode_utf8(x);
        assert(encode_utf8(names[names.len() - 1]).len() <= u32::MAX);
        lemma_auto_spec_u32_to_from_le_bytes();
        let f = framed(enc);
        assert(name_frames(names) == a + f);
        assert((a + f).subrange(0, a.len() as int) =~= a);
        assert((a + f).subrange(a.len() as int, a.len() as int + 4) =~= le_u32(enc.len() as u32));
        assert((a + f).subrange(a.len() as int + 4, a.len() as int + 4 + enc.len()) =~= enc);
        lemma_sub_of_sub(bytes, q, a + f, 0, a.len() as int);
        lemma_sub_of_sub(bytes, q, a + f, a.len() as int, a.len() as int + 4);
        lemma_sub_of_sub(bytes, q, a + f, a.len() as int + 4, a.len() as int + 4 + enc.len());
        assert forall|i: int| 0 <= i < init.len() implies #[trigger] encode_utf8(init[i]).len() <= u32::MAX by {
            assert(init[i] == names[i]);
        }
        lemma_parse_names_of(bytes, q, init);
        let r = q + a.len();
        assert(bytes.subrange(r, r + 4) =~= le_u32(enc.len() as u32));
        assert(u32_at(bytes, r) == enc.len() as u32);
        assert(bytes.subrange(r + 4, r + 4 + enc.len()) =~= enc);
        encode_utf8_valid_utf8(x);
        encode_utf8_decode_utf8(x);
        assert(init.push(x) =~= names);
    }
}

/// The tag list that serde_json reads back from the JSON it wrote for `t`.
pub open spec fn json_round(t: TagsView) -> TagsView {
    match tags_from_json(tags_json(t)) {
        Some(x) => x,
        None => Seq::empty(),
    }
}

proof fn lemma_parse_tags_of(bytes: Seq<u8>, q: int, tags: Seq<TagsView>)
    requires
        0 <= q,
        q + tag_frames(tags).len() <= bytes.len(),
        bytes.subrange(q, q + tag_frames(tags).len()) == tag_frames(tags),
        forall|i: int| 0 <= i < tags.len() ==> #[trigger] tags_json(tags[i]).len() <= u32::MAX,
        forall|i: int| 0 <= i < tags.len() ==> #[trigger] tags_from_json(tags_json(tags[i])) is Some,
    ensures
        parse_tags(bytes, q, tags.len()) == Ok::<(Seq<TagsView>, int), SSTableError>(
            (tags.map_values(|t: TagsView| json_round(t)), q + tag_frames(tags).len()),
        ),
    decreases tags.len(),
{
    if tags.len() == 0 {
        assert(tags.map_values(|t: TagsView| json_round(t)) =~= Seq::<TagsView>::empty());
    } else {
        let init = tags.drop_last();
        let x = tags.last();
        let a = tag_frames(init);
        let enc = tags_json(x);
        assert(tags_json(tags[tags.len() - 1]).len() <= u32::MAX);
        assert(tags_from_json(tags_json(tags[tags.len() - 1])) is Some);
        lemma_auto_spec_u32_to_from_le_bytes();
        let f = framed(enc);
        assert(tag_frames(tags) == a + f);
        assert((a + f).subrange(0, a.len() as int) =~= a);
        assert((a + f).subrange(a.len() as int, a.len() as int + 4) =~= le_u32(enc.len() as u32));
        assert((a + f).subrange(a.len() as int + 4, a.len() as int + 4 + enc.len()) =~= enc);
        lemma_sub_of_sub(bytes, q, a + f, 0, a.len() as int);
        lemma_sub_of_sub(bytes, q, a + f, a.len() as int, a.len() as int + 4);
        lemma_sub_of_sub(bytes, q, a + f, a.len() as int + 4, a.len() as int + 4 + enc.len());
        assert forall|i: int| 0 <= i < init.len() implies #[trigger] tags_json(init[i]).len() <= u32::MAX && tags_from_json(tags_json(init[i])) is Some by {
            assert(init[i] == tags[i]);
        }
        lemma_parse_tags_of(bytes, q, init);
        let r = q + a.len();
        assert(bytes.subrange(r, r + 4) =~= le_u32(enc.len() as u32));
        assert(u32_at(bytes, r) == enc.len() as u32);
        assert(bytes.subrange(r + 4, r + 4 + enc.len()) =~= enc);
        assert(init.map_values(|t: TagsView| json_round(t)).push(json_round(x)) =~= tags.map_values(|t: TagsView| json_round(t)));
    }
}

/// Reading back a block that was written gives the same start, deltas,
/// values and names; each tag list comes back as serde_json reads its own
/// JSON. Whatever precedes or follows the block in the file does not matter.
pub proof fn lemma_block_round_trip(pre: Seq<u8>, b: BlockView, post: Seq<u8>)
    requires
        block_is_valid(b),
        tags_fit(b),
        forall|i: int| 0 <= i < b.tags.len() ==> #[trigger] tags_from_json(tags_json(b.tags[i])) is Some,
    ensures
        parse_block(pre + block_bytes(b) + post, pre.len() as int, b.deltas.len() as u32) == Ok::<(BlockView, int), SSTableError>(
            (
                BlockView {
                    start: b.start,
                    deltas: b.deltas,
                    values: b.values,
                    names: b.names,
                    tags: b.tags.map_values(|t: TagsView| json_round(t)),
                },
                (pre.len() + block_bytes(b).len()) as int,
            ),
        ),
{
    lemma_auto_spec_u64_to_from_le_bytes();
    lemma_auto_spec_u32_to_from_le_bytes();
    let bytes = pre + block_bytes(b) + post;
    let p = pre.len() as int;
    let n = b.deltas.len() as int;
    lemma_i64s_len(b.deltas);
    lemma_u64s_len(b.values);
    let hd = le_i64(b.start);
    let hn = le_u32(n as u32);
    let d = i64s_bytes(b.deltas);
    let v = u64s_bytes(b.values);
    let nm = name_frames(b.names);
    let tg = tag_frames(b.tags);
    assert(block_bytes(b) == hd + hn + d + v + nm + tg);
    let body = block_bytes(b);
    assert(bytes.subrange(p, p + body.len()) =~= body);
    assert(bytes.subrange(p, p + 8) =~= hd);
    assert(u64_at(bytes, p) == b.start as u64);
    lemma_i64_u64_round(b.start);
    assert(bytes.subrange(p + 8, p + 12) =~= hn);
    assert(u32_at(bytes, p + 8) == n as u32);
    let dpos = p + 12;
    assert forall|i: int| 0 <= i < n implies #[trigger] u64_at(bytes, dpos + 8 * i) as i64 == b.deltas[i] by {
        lemma_i64s_at(b.deltas, i);
        assert(bytes.subrange(dpos + 8 * i, dpos + 8 * i + 8) =~= d.subrange(8 * i, 8 * i + 8));
        lemma_i64_u64_round(b.deltas[i]);
    }
    assert(Seq::new(n as nat, |i: int| u64_at(bytes, dpos + 8 * i) as i64) =~= b.deltas);
    let vpos = p + 12 + 8 * n;
    assert forall|i: int| 0 <= i < n implies #[trigger] u64_at(bytes, vpos + 8 * i) == b.values[i] by {
        lemma_u64s_at(b.values, i);
        assert(bytes.subrange(vpos + 8 * i, vpos + 8 * i + 8) =~= v.subrange(8 * i, 8 * i + 8));
    }
    assert(Seq::new(n as nat, |i: int| u64_at(bytes, p + 12 + 8 * n + 8 * i)) =~= b.values);
    let npos = p + 12 + 16 * n;
    assert(bytes.subrange(npos, npos + nm.len()) =~= nm);
    lemma_parse_names_of(bytes, npos, b.names);
    let tpos = npos + nm.len();
    assert(bytes.subrange(tpos, tpos + tg.len()) =~= tg);
    lemma_parse_tags_of(bytes, tpos, b.tags);
}


proof fn lemma_parse_names_end(bytes: Seq<u8>, pos: int, k: nat)
    ensures
        parse_names(bytes, pos, k) matches Ok((_, q)) ==> q >= pos,
    decreases k,
{
    if k > 0 {
        lemma_parse_names_end(bytes, pos, (k - 1) as nat);
    }
}

proof fn lemma_parse_tags_end(bytes: Seq<u8>, pos: int, k: nat)
    ensures
        parse_tags(bytes, pos, k) matches Ok((_, q)) ==> q >= pos,
    decreases k,
{
    if k > 0 {
        lemma_parse_tags_end(bytes, pos, (k - 1) as nat);
    }
}

/// A block that decodes takes its 12 header bytes and 16 bytes per point at
/// least, and decodes to as many deltas as its count.
pub proof fn lemma_parse_block_consumes(bytes: Seq<u8>, pos: int, expected: u32)
    ensures
        parse_block(bytes, pos, expected) matches Ok((b, q)) ==> q >= pos + 12 + 16 * (expected as int)
            && b.deltas.len() == expected,
{
    let n = expected as int;
    lemma_parse_names_end(bytes, pos + 12 + 16 * n, n as nat);
    if let Ok((_, p)) = parse_names(bytes, pos + 12 + 16 * n, n as nat) {
        lemma_parse_tags_end(bytes, p, n as nat);
    }
}

} // verus!
