//! Framing of the write-ahead log: each entry is a line of JSON, then its
//! CRC-32C as four little-endian bytes, then a newline. Also the decisions of
//! segment rotation and replay order.
use vstd::prelude::*;
use vstd::bytes::*;
use vstd::seq_lib::*;
use crate::block::{append_bytes, le_u32, u32_at};

verus! {

/// "WAL\0" read as a big-endian u32.
pub const WAL_MAGIC: u32 = 0x57414C00;

pub const WAL_VERSION: u32 = 1;

/// 64 MiB.
pub const DEFAULT_SEGMENT_SIZE: u64 = 67108864;

/// 24 hours, in seconds.
pub const DEFAULT_SEGMENT_DURATION: u64 = 86400;

pub const NEWLINE: u8 = 10;

#[derive(Debug)]
pub enum WalError {
    Io(String),
    Serialization(String),
    InvalidHeader(String),
    InvalidEntry(String),
    CorruptedEntry,
    NoValidSegments,
}

/// How a run of entries can be malformed.
pub enum FrameFault {
    /// The stored checksum differs from the line's.
    Checksum,
    /// No newline after the checksum.
    Newline,
}

/// The error reported for a malformed run of entries.
pub open spec fn fault_error(f: FrameFault, e: WalError) -> bool {
    match f {
        FrameFault::Checksum => e is CorruptedEntry,
        FrameFault::Newline => e is InvalidEntry,
    }
}

/// The CRC-32C (Castagnoli) checksum of some bytes.
pub uninterp spec fn crc32c(bytes: Seq<u8>) -> u32;

/// Relies on the crc crate's CRC_32_ISCSI algorithm (CRC-32C): the checksum
/// depends on the bytes alone.
#[verifier::external_body]
fn checksum(bytes: &[u8]) -> (r: u32)
    ensures
        r == crc32c(bytes@),
{
    crc::Crc::<u32>::new(&crc::CRC_32_ISCSI).checksum(bytes)
}

/// The CRC-32C of an entry's JSON bytes.
pub fn entry_checksum(json: &Vec<u8>) -> (r: u32)
    ensures
        r == crc32c(json@),
{
    checksum(json.as_slice())
}

pub open spec fn has_no_newline(b: Seq<u8>) -> bool {
    forall|i: int| 0 <= i < b.len() ==> b[i] != NEWLINE
}

/// The bytes of one entry.
pub open spec fn entry_frame(json: Seq<u8>) -> Seq<u8> {
    json + seq![NEWLINE] + le_u32(crc32c(json)) + seq![NEWLINE]
}

/// The bytes of a run of entries.
pub open spec fn frames(entries: Seq<Seq<u8>>) -> Seq<u8>
    decreases entries.len(),
{
    if entries.len() == 0 {
        Seq::empty()
    } else {
        entry_frame(entries[0]) + frames(entries.drop_first())
    }
}

/// Position of the first newline at or after `pos`, or -1.
pub open spec fn find_newline(bytes: Seq<u8>, pos: int) -> int
    decreases bytes.len() - pos,
{
    if pos < 0 || pos >= bytes.len() {
        -1
    } else if bytes[pos] == NEWLINE {
        pos
    } else {
        find_newline(bytes, pos + 1)
    }
}

/// Reads the entries from `pos` to the end: their JSON lines, and whether
/// the last one was cut short. Empty lines are skipped; a checksum that does
/// not match the line is an error.
pub open spec fn parse_entries(bytes: Seq<u8>, pos: int) -> Result<(Seq<Seq<u8>>, bool), FrameFault>
    decreases bytes.len() - pos,
{
    if pos < 0 || pos >= bytes.len() {
        Ok((Seq::empty(), false))
    } else {
        let nl = find_newline(bytes, pos);
        if nl < pos {
            Ok((Seq::empty(), true))
        } else if nl == pos {
            parse_entries(bytes, pos + 1)
        } else if nl + 6 > bytes.len() {
            Ok((Seq::empty(), true))
        } else if u32_at(bytes, nl + 1) != crc32c(bytes.subrange(pos, nl)) {
            Err(FrameFault::Checksum)
        } else if bytes[nl + 5] != NEWLINE {
            Err(FrameFault::Newline)
        } else {
            match parse_entries(bytes, nl + 6) {
                Ok((rest, torn)) => Ok((seq![bytes.subrange(pos, nl)].add(rest), torn)),
                Err(e) => Err(e),
            }
        }
    }
}

/// `earlier` followed by what `r` read.
pub open spec fn after(earlier: Seq<Seq<u8>>, r: Result<(Seq<Seq<u8>>, bool), FrameFault>) -> Result<(Seq<Seq<u8>>, bool), FrameFault> {
    match r {
        Ok((rest, torn)) => Ok((earlier + rest, torn)),
        Err(e) => Err(e),
    }
}

/// Appends one entry: its JSON bytes, a newline, its checksum, a newline.
pub fn frame_entry(json: &Vec<u8>, out: &mut Vec<u8>)
    ensures
        final(out)@ == old(out)@ + entry_frame(json@),
{
    let crc = entry_checksum(json);
    append_bytes(out, json.as_slice());
    out.push(NEWLINE);
    let c = u32_to_le_bytes(crc);
    append_bytes(out, c.as_slice());
    out.push(NEWLINE);
    assert(out@ =~= old(out)@ + entry_frame(json@));
}

fn find_newline_exec(bytes: &Vec<u8>, pos: usize) -> (r: Option<usize>)
    requires
        pos <= bytes@.len(),
    ensures
        r is None ==> find_newline(bytes@, pos as int) == -1,
        r matches Some(k) ==> find_newline(bytes@, pos as int) == k && pos <= k < bytes@.len(),
{
    let mut k: usize = pos;
    while k < bytes.len()
        invariant
            pos <= k <= bytes@.len(),
            find_newline(bytes@, pos as int) == find_newline(bytes@, k as int),
        decreases bytes@.len() - k,
    {
        if bytes[k] == NEWLINE {
            return Some(k);
        }
        k += 1;
    }
    None
}

/// Reads the entries of a segment body from `pos`: their JSON lines, and
/// whether the last one was cut short.
pub fn parse_segment_entries(bytes: &Vec<u8>, pos: usize) -> (r: Result<(Vec<Vec<u8>>, bool), WalError>)
    ensures
        match parse_entries(bytes@, pos as int) {
            Ok((s, torn)) => r matches Ok((v, t)) && t == torn && v@.map_values(|x: Vec<u8>| x@) == s,
            Err(f) => r matches Err(e) && fault_error(f, e),
        },
{
    let mut out: Vec<Vec<u8>> = Vec::new();
    let mut p: usize = pos;
    let ghost start = pos as int;
    let _len = bytes.len();
    loop
        invariant
            bytes@.len() <= usize::MAX,
            start == pos as int,
            parse_entries(bytes@, start) == after(out@.map_values(|x: Vec<u8>| x@), parse_entries(bytes@, p as int)),
        decreases bytes@.len() - p,
    {
        let ghost done = out@.map_values(|x: Vec<u8>| x@);
        if p >= bytes.len() {
            assert(parse_entries(bytes@, p as int) == Ok::<(Seq<Seq<u8>>, bool), FrameFault>((Seq::empty(), false)));
            assert(done + Seq::<Seq<u8>>::empty() =~= done);
            return Ok((out, false));
        }
        let nl = match find_newline_exec(bytes, p) {
            None => {
                assert(parse_entries(bytes@, p as int) == Ok::<(Seq<Seq<u8>>, bool), FrameFault>((Seq::empty(), true)));
                assert(done + Seq::<Seq<u8>>::empty() =~= done);
                return Ok((out, true));
            },
            Some(k) => k,
        };
        if nl == p {
            p = p + 1;
        } else if bytes.len() - nl < 6 {
            assert(parse_entries(bytes@, p as int) == Ok::<(Seq<Seq<u8>>, bool), FrameFault>((Seq::empty(), true)));
            assert(done + Seq::<Seq<u8>>::empty() =~= done);
            return Ok((out, true));
        } else {
            let line = vstd::slice::slice_to_vec(vstd::slice::slice_subrange(bytes.as_slice(), p, nl));
            let stored = u32_from_le_bytes(vstd::slice::slice_subrange(bytes.as_slice(), nl + 1, nl + 5));
            if stored != entry_checksum(&line) {
                return Err(WalError::CorruptedEntry);
            }
            if bytes[nl + 5] != NEWLINE {
                return Err(WalError::InvalidEntry("missing newline after checksum".to_string()));
            }
            let ghost lv = line@;
            out.push(line);
            proof {
                assert(out@.map_values(|x: Vec<u8>| x@) =~= done.push(lv));
                match parse_entries(bytes@, nl + 6) {
                    Ok((rest, torn)) => {
                        assert(done + (seq![lv] + rest) =~= done.push(lv) + rest);
                    },
                    Err(e) => {},
                }
            }
            p = nl + 6;
        }
    }
}

/// Whether a segment body holds only whole entries with matching checksums.
pub fn segment_is_valid(bytes: &Vec<u8>, pos: usize) -> (r: bool)
    ensures
        r == (parse_entries(bytes@, pos as int) matches Ok((_, torn)) && !torn),
{
    match parse_segment_entries(bytes, pos) {
        Ok((_, torn)) => !torn,
        Err(_) => false,
    }
}

/// Checks the fields of a segment header.
pub fn check_header(magic: u32, version: u32) -> (r: Result<(), WalError>)
    ensures
        r is Ok <==> magic == WAL_MAGIC && version == WAL_VERSION,
        r is Err ==> r matches Err(WalError::InvalidHeader(_)),
{
    if magic != WAL_MAGIC {
        return Err(WalError::InvalidHeader("Invalid magic number".to_string()));
    }
    if version != WAL_VERSION {
        return Err(WalError::InvalidHeader("Unsupported WAL version".to_string()));
    }
    Ok(())
}

/// The position just past the header line, if the bytes hold a newline.
pub fn header_end(bytes: &Vec<u8>) -> (r: Option<usize>)
    ensures
        r is None <==> find_newline(bytes@, 0) == -1,
        r matches Some(k) ==> k == find_newline(bytes@, 0) + 1,
{
    let _l = bytes.len();
    match find_newline_exec(bytes, 0) {
        None => None,
        Some(k) => Some(k + 1),
    }
}

/// A log segment as the writer tracks it.
#[derive(Debug)]
pub struct Segment {
    pub path: String,
    pub size: u64,
    pub created_at: u64,
}

impl Segment {
    pub fn new(path: String, size: u64, created_at: u64) -> (r: Self)
        ensures
            r.path == path,
            r.size == size,
            r.created_at == created_at,
    {
        Segment { path, size, created_at }
    }

    pub fn is_full(&self, max_size: u64) -> (r: bool)
        ensures
            r == (self.size >= max_size),
    {
        self.size >= max_size
    }

    /// Whether the segment is at least `max_age` seconds old at `now`; a
    /// clock behind the creation time gives age 0.
    pub fn is_expired(&self, now: u64, max_age: u64) -> (r: bool)
        ensures
            r == ((if now >= self.created_at { now - self.created_at } else { 0 }) >= max_age),
    {
        let age = if now >= self.created_at { now - self.created_at } else { 0 };
        age >= max_age
    }
}

/// Whether a write must open a new segment first: there is none yet, or the
/// current one is full or expired.
pub fn needs_rotation(current: &Option<Segment>, now: u64, max_size: u64, max_age: u64) -> (r: bool)
    ensures
        r == match current {
            None => true,
            Some(s) => s.size >= max_size || ((if now >= s.created_at { now - s.created_at } else { 0 }) >= max_age),
        },
{
    match current {
        None => true,
        Some(s) => s.is_full(max_size) || s.is_expired(now, max_age),
    }
}

pub open spec fn sorted_by_key(order: Seq<usize>, keys: Seq<u128>) -> bool {
    forall|a: int, b: int| 0 <= a < b < order.len() ==> keys[#[trigger] order[a] as int] <= keys[#[trigger] order[b] as int]
}

/// Indices with equal keys keep their given order.
pub open spec fn stable_by_key(order: Seq<usize>, keys: Seq<u128>) -> bool {
    forall|a: int, b: int| 0 <= a < b < order.len() && keys[#[trigger] order[a] as int] == keys[#[trigger] order[b] as int]
        ==> order[a] < order[b]
}

/// The order in which to replay segments: their indices, by creation key,
/// ties in the given order.
pub fn replay_order(created: &Vec<u128>) -> (r: Vec<usize>)
    ensures
        r@.to_multiset() == Seq::new(created@.len(), |i: int| i as usize).to_multiset(),
        sorted_by_key(r@, created@),
        stable_by_key(r@, created@),
        forall|k: int| 0 <= k < r@.len() ==> #[trigger] r@[k] < created@.len(),
{
    let mut out: Vec<usize> = Vec::new();
    let mut i: usize = 0;
    let ghost all = Seq::new(created@.len(), |i: int| i as usize);
    broadcast use group_to_multiset_ensures;
    while i < created.len()
        invariant
            i <= created@.len(),
            all == Seq::new(created@.len(), |i: int| i as usize),
            out@.to_multiset() == all.subrange(0, i as int).to_multiset(),
            sorted_by_key(out@, created@),
            stable_by_key(out@, created@),
            forall|k: int| 0 <= k < out@.len() ==> #[trigger] out@[k] < i,
        decreases created@.len() - i,
    {
        let key = created[i];
        let mut k: usize = out.len();
        while k > 0 && created[out[k - 1]] > key
            invariant
                k <= out@.len(),
                forall|m: int| 0 <= m < out@.len() ==> #[trigger] out@[m] < i,
                i < created@.len(),
                forall|m: int| k <= m < out@.len() ==> created@[#[trigger] out@[m] as int] > key,
            decreases k,
        {
            k -= 1;
        }
        let ghost prev = out@;
        out.insert(k, i);
        proof {
            assert(out@ =~= prev.insert(k as int, i));
            to_multiset_insert(prev, k as int, i);
            assert(all.subrange(0, i + 1) =~= all.subrange(0, i as int).push(i));
            to_multiset_build(all.subrange(0, i as int), i);
            assert forall|a: int, b: int| 0 <= a < b < out@.len() && created@[#[trigger] out@[a] as int] == created@[#[trigger] out@[b] as int]
                implies out@[a] < out@[b] by {
                if b == k {
                    assert(out@[a] == prev[a]);
                } else if a == k {
                    assert(out@[b] == prev[b - 1]);
                    assert(created@[prev[b - 1] as int] > key);
                } else {
                    let a2 = if a < k { a } else { a - 1 };
                    let b2 = if b < k { b } else { b - 1 };
                    assert(out@[a] == prev[a2] && out@[b] == prev[b2]);
                }
            }
            assert forall|a: int, b: int| 0 <= a < b < out@.len() implies created@[#[trigger] out@[a] as int] <= created@[#[trigger] out@[b] as int] by {
                if k > 0 && a < k {
                    assert(created@[prev[k - 1] as int] <= key);
                    assert(created@[prev[a] as int] <= created@[prev[k - 1] as int] || a == k - 1);
                }
            }
        }
        i += 1;
    }
    assert(all.subrange(0, i as int) =~= all);
    out
}


proof fn lemma_find_newline(bytes: Seq<u8>, p: int, q: int)
    requires
        0 <= p <= q < bytes.len(),
        bytes[q] == NEWLINE,
        forall|x: int| p <= x < q ==> bytes[x] != NEWLINE,
    ensures
        find_newline(bytes, p) == q,
    decreases q - p,
{
    if p < q {
        lemma_find_newline(bytes, p + 1, q);
    }
}

/// Replaying a run of written entries gives back exactly those entries, in
/// the order written, with nothing cut short; whatever precedes the run (the
/// segment header) does not matter. Each entry is a non-empty line.
pub proof fn lemma_replay_of_written(pre: Seq<u8>, entries: Seq<Seq<u8>>)
    requires
        forall|i: int| 0 <= i < entries.len() ==> #[trigger] entries[i].len() > 0 && has_no_newline(entries[i]),
    ensures
        parse_entries(pre + frames(entries), pre.len() as int) == Ok::<(Seq<Seq<u8>>, bool), FrameFault>((entries, false)),
    decreases entries.len(),
{
    let bytes = pre + frames(entries);
    let p = pre.len() as int;
    if entries.len() == 0 {
        assert(bytes =~= pre);
        assert(entries =~= Seq::<Seq<u8>>::empty());
    } else {
        let j = entries[0];
        let rest = entries.drop_first();
        assert(j.len() > 0 && has_no_newline(j));
        let f = entry_frame(j);
        lemma_auto_spec_u32_to_from_le_bytes();
        assert(f.len() == j.len() + 6);
        assert(bytes =~= (pre + f) + frames(rest));
        let nl = p + j.len();
        assert forall|x: int| p <= x < nl implies bytes[x] != NEWLINE by {
            assert(bytes[x] == j[x - p]);
        }
        assert(bytes[nl] == NEWLINE);
        lemma_find_newline(bytes, p, nl);
        assert(bytes.subrange(p, nl) =~= j);
        assert(bytes.subrange(nl + 1, nl + 5) =~= le_u32(crc32c(j)));
        assert(bytes[nl + 5] == NEWLINE);
        assert forall|i: int| 0 <= i < rest.len() implies #[trigger] rest[i].len() > 0 && has_no_newline(rest[i]) by {
            assert(rest[i] == entries[i + 1]);
        }
        lemma_replay_of_written(pre + f, rest);
        assert((pre + f).len() == nl + 6);
        assert(seq![j] + rest =~= entries);
        assert(parse_entries(bytes, nl + 6) == Ok::<(Seq<Seq<u8>>, bool), FrameFault>((rest, false)));
    }
}

} // verus!
