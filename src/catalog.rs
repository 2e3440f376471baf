//! The registry of segments, searched by time range and by series name.
use vstd::prelude::*;
use vstd::string::*;
use crate::sstable::{SSTable, SSTableError, merged_names, names_view, add_names, contains_name};

verus! {

/// The decimal text of an i64: an optional minus sign, then its digits.
pub uninterp spec fn decimal_of(x: i64) -> Seq<char>;

/// Relies on std's `Display` for i64 (through `to_string`): the decimal
/// text depends on the value alone.
#[verifier::external_body]
fn decimal_text(x: i64) -> (r: String)
    ensures
        r@ == decimal_of(x),
{
    x.to_string()
}

/// The id of a segment: its smallest timestamp in decimal, `_`, its path.
pub open spec fn table_id_text(min_timestamp: i64, path: Seq<char>) -> Seq<char> {
    decimal_of(min_timestamp) + "_"@ + path
}

#[derive(Debug)]
pub struct BlockInfo {
    pub offset: u64,
    pub point_count: u32,
    pub start_timestamp: i64,
    /// Names seen in the block; filled only when the block is read.
    pub series_names: Vec<String>,
}

/// What the catalog knows of a segment.
#[derive(Debug)]
pub struct SSTableInfo {
    pub path: String,
    pub min_timestamp: i64,
    pub max_timestamp: i64,
    /// Each series of the segment, once.
    pub series_names: Vec<String>,
    pub point_count: u64,
    pub blocks: Vec<BlockInfo>,
}

/// A segment's entry as plain values.
pub struct InfoView {
    pub path: Seq<char>,
    pub min_timestamp: i64,
    pub max_timestamp: i64,
    pub series_names: Seq<Seq<char>>,
    pub point_count: u64,
    pub blocks: Seq<(u64, u32, i64)>,
}

impl View for SSTableInfo {
    type V = InfoView;

    open spec fn view(&self) -> InfoView {
        InfoView {
            path: self.path@,
            min_timestamp: self.min_timestamp,
            max_timestamp: self.max_timestamp,
            series_names: names_view(self.series_names@),
            point_count: self.point_count,
            blocks: self.blocks@.map_values(|b: BlockInfo| (b.offset, b.point_count, b.start_timestamp)),
        }
    }
}

pub open spec fn infos_view(s: Seq<SSTableInfo>) -> Seq<InfoView> {
    s.map_values(|i: SSTableInfo| i@)
}

pub open spec fn overlaps_range(i: InfoView, start: i64, end: i64) -> bool {
    i.min_timestamp <= end && i.max_timestamp >= start
}

pub open spec fn has_series(i: InfoView, name: Seq<char>) -> bool {
    i.series_names.contains(name)
}

/// The sum of the point counts, held to the u64 range.
pub open spec fn total_of(s: Seq<InfoView>) -> int
    decreases s.len(),
{
    if s.len() == 0 {
        0
    } else {
        let t = total_of(s.drop_last()) + s.last().point_count;
        if t > u64::MAX { u64::MAX as int } else { t }
    }
}

/// Every series name of the entries, once each, in order of first appearance.
pub open spec fn all_series(s: Seq<InfoView>) -> Seq<Seq<char>>
    decreases s.len(),
{
    if s.len() == 0 {
        Seq::empty()
    } else {
        add_names(all_series(s.drop_last()), s.last().series_names)
    }
}

fn clone_names(v: &Vec<String>) -> (r: Vec<String>)
    ensures
        r@ == v@,
{
    let mut out: Vec<String> = Vec::new();
    let mut i: usize = 0;
    while i < v.len()
        invariant
            i <= v@.len(),
            out@ == v@.subrange(0, i as int),
        decreases v@.len() - i,
    {
        out.push(v[i].clone());
        i += 1;
        assert(out@ =~= v@.subrange(0, i as int));
    }
    assert(v@.subrange(0, i as int) =~= v@);
    out
}

impl BlockInfo {
    fn duplicate(&self) -> (r: Self)
        ensures
            r.offset == self.offset,
            r.point_count == self.point_count,
            r.start_timestamp == self.start_timestamp,
            r.series_names@ == self.series_names@,
    {
        BlockInfo {
            offset: self.offset,
            point_count: self.point_count,
            start_timestamp: self.start_timestamp,
            series_names: clone_names(&self.series_names),
        }
    }
}

impl SSTableInfo {
    /// A copy with the same view.
    pub fn duplicate(&self) -> (r: Self)
        ensures
            r@ == self@,
    {
        let mut blocks: Vec<BlockInfo> = Vec::new();
        let mut i: usize = 0;
        while i < self.blocks.len()
            invariant
                i <= self.blocks@.len(),
                blocks@.len() == i,
                forall|j: int| 0 <= j < i ==> (#[trigger] blocks@[j]).offset == self.blocks@[j].offset
                    && blocks@[j].point_count == self.blocks@[j].point_count
                    && blocks@[j].start_timestamp == self.blocks@[j].start_timestamp,
            decreases self.blocks@.len() - i,
        {
            blocks.push(self.blocks[i].duplicate());
            i += 1;
        }
        let r = SSTableInfo {
            path: self.path.clone(),
            min_timestamp: self.min_timestamp,
            max_timestamp: self.max_timestamp,
            series_names: clone_names(&self.series_names),
            point_count: self.point_count,
            blocks,
        };
        assert(r@.blocks =~= self@.blocks);
        r
    }

    /// The catalog's entry for a segment, taken from its index.
    pub fn from_table(table: &SSTable) -> (r: Self)
        ensures
            r.path@ == table.path@,
            r.min_timestamp == table.metadata.min_timestamp,
            r.max_timestamp == table.metadata.max_timestamp,
            names_view(r.series_names@) == names_view(table.metadata.series_names@),
            r.point_count == table.metadata.point_count,
            r.blocks@.len() == table.metadata.blocks@.len(),
            forall|i: int| 0 <= i < r.blocks@.len() ==> (#[trigger] r.blocks@[i]).offset == table.metadata.blocks@[i].offset
                && r.blocks@[i].point_count == table.metadata.blocks@[i].point_count
                && r.blocks@[i].start_timestamp == table.metadata.blocks@[i].start_timestamp
                && r.blocks@[i].series_names@.len() == 0,
    {
        let m = &table.metadata;
        let mut blocks: Vec<BlockInfo> = Vec::new();
        let mut i: usize = 0;
        while i < m.blocks.len()
            invariant
                i <= m.blocks@.len(),
                blocks@.len() == i,
                forall|j: int| 0 <= j < i ==> (#[trigger] blocks@[j]).offset == m.blocks@[j].offset
                    && blocks@[j].point_count == m.blocks@[j].point_count
                    && blocks@[j].start_timestamp == m.blocks@[j].start_timestamp
                    && blocks@[j].series_names@.len() == 0,
            decreases m.blocks@.len() - i,
        {
            blocks.push(
                BlockInfo {
                    offset: m.blocks[i].offset,
                    point_count: m.blocks[i].point_count,
                    start_timestamp: m.blocks[i].start_timestamp,
                    series_names: Vec::new(),
                },
            );
            i += 1;
        }
        SSTableInfo {
            path: table.path.clone(),
            min_timestamp: m.min_timestamp,
            max_timestamp: m.max_timestamp,
            series_names: clone_names(&m.series_names),
            point_count: m.point_count,
            blocks,
        }
    }
}

/// The segments known to the store, each under an id, in order of
/// registration.
pub struct SSTableCatalog {
    base_dir: String,
    ids: Vec<String>,
    tables: Vec<SSTableInfo>,
}

impl SSTableCatalog {
    pub closed spec fn spec_ids(&self) -> Seq<Seq<char>> {
        names_view(self.ids@)
    }

    pub closed spec fn spec_tables(&self) -> Seq<InfoView> {
        infos_view(self.tables@)
    }

    pub closed spec fn spec_base_dir(&self) -> Seq<char> {
        self.base_dir@
    }

    pub closed spec fn wf(&self) -> bool {
        &&& self.ids@.len() == self.tables@.len()
        &&& names_view(self.ids@).no_duplicates()
    }

    pub fn new(base_dir: String) -> (r: Self)
        ensures
            r.wf(),
            r.spec_base_dir() == base_dir@,
            r.spec_ids().len() == 0,
            r.spec_tables().len() == 0,
    {
        let r = SSTableCatalog { base_dir, ids: Vec::new(), tables: Vec::new() };
        assert(r.spec_ids() =~= Seq::<Seq<char>>::empty());
        assert(r.spec_tables() =~= Seq::<InfoView>::empty());
        r
    }

    /// The id under which a segment entry is registered.
    pub fn generate_table_id(&self, info: &SSTableInfo) -> (r: String)
        ensures
            r@ == table_id_text(info.min_timestamp, info.path@),
    {
        let id = decimal_text(info.min_timestamp).concat("_");
        let id = id.concat(info.path.as_str());
        proof {
            reveal_strlit("_");
        }
        id
    }

    fn position(&self, id: &str) -> (r: Option<usize>)
        requires
            self.wf(),
        ensures
            r is None ==> !self.spec_ids().contains(id@),
            r matches Some(i) ==> i < self.spec_ids().len() && self.spec_ids()[i as int] == id@,
    {
        let mut i: usize = 0;
        while i < self.ids.len()
            invariant
                i <= self.ids@.len(),
                forall|j: int| 0 <= j < i ==> self.spec_ids()[j] != id@,
            decreases self.ids@.len() - i,
        {
            if crate::text::str_eq(self.ids[i].as_str(), id) {
                return Some(i);
            }
            i += 1;
        }
        None
    }

    /// Registers a segment under its id; an entry with the same id is
    /// replaced in place.
    pub fn add_table(&mut self, table: &SSTable) -> (r: Result<(), SSTableError>)
        requires
            old(self).wf(),
        ensures
            r is Ok,
            final(self).wf(),
            final(self).spec_base_dir() == old(self).spec_base_dir(),
            ({
                let id = table_id_text(table.metadata.min_timestamp, table.path@);
                let info = final(self).spec_tables()[final(self).spec_ids().len() - 1];
                &&& final(self).spec_ids().contains(id)
                &&& if old(self).spec_ids().contains(id) {
                    &&& final(self).spec_ids() == old(self).spec_ids()
                    &&& final(self).spec_tables().len() == old(self).spec_tables().len()
                    &&& forall|i: int| 0 <= i < final(self).spec_ids().len() && final(self).spec_ids()[i] != id
                        ==> #[trigger] final(self).spec_tables()[i] == old(self).spec_tables()[i]
                } else {
                    &&& final(self).spec_ids() == old(self).spec_ids().push(id)
                    &&& final(self).spec_tables().drop_last() == old(self).spec_tables()
                }
            }),
            forall|i: int| 0 <= i < final(self).spec_ids().len() && final(self).spec_ids()[i] == table_id_text(
                table.metadata.min_timestamp,
                table.path@,
            ) ==> {
                let v = #[trigger] final(self).spec_tables()[i];
                &&& v.path == table.path@
                &&& v.min_timestamp == table.metadata.min_timestamp
                &&& v.max_timestamp == table.metadata.max_timestamp
                &&& v.series_names == names_view(table.metadata.series_names@)
                &&& v.point_count == table.metadata.point_count
                &&& v.blocks.len() == table.metadata.blocks@.len()
            },
    {
        let info = SSTableInfo::from_table(table);
        let id = self.generate_table_id(&info);
        let ghost idv = id@;
        match self.position(id.as_str()) {
            Some(i) => {
                let ghost old_tables = self.spec_tables();
                self.tables.set(i, info);
                proof {
                    assert(self.spec_tables() =~= old_tables.update(i as int, self.tables@[i as int]@));
                    assert(self.spec_ids()[i as int] == idv);
                    assert(self.spec_ids().contains(idv));
                    assert forall|k: int| 0 <= k < self.spec_ids().len() && self.spec_ids()[k] == idv implies k == i by {
                        assert(self.spec_ids()[k] == self.spec_ids()[i as int]);
                    }
                }
            },
            None => {
                let ghost old_ids = self.spec_ids();
                let ghost old_tables = self.spec_tables();
                self.ids.push(id);
                self.tables.push(info);
                proof {
                    assert(self.spec_ids() =~= old_ids.push(idv));
                    assert(self.spec_tables() =~= old_tables.push(self.tables@.last()@));
                    assert(self.spec_tables().drop_last() =~= old_tables);
                    assert(self.spec_ids()[old_ids.len() as int] == idv);
                    assert forall|a: int, b: int| 0 <= a < b < self.spec_ids().len() implies self.spec_ids()[a] != self.spec_ids()[b] by {
                        if b == old_ids.len() {
                            assert(old_ids.contains(old_ids[a]));
                        }
                    }
                    assert forall|k: int| 0 <= k < self.spec_ids().len() && self.spec_ids()[k] == idv implies k == old_ids.len() by {
                        if k < old_ids.len() {
                            assert(old_ids.contains(idv));
                        }
                    }
                }
            },
        }
        Ok(())
    }

    /// Drops the entry with this id, if there is one.
    pub fn remove_table(&mut self, table_id: &str) -> (r: Result<(), SSTableError>)
        requires
            old(self).wf(),
        ensures
            r is Ok,
            final(self).wf(),
            final(self).spec_base_dir() == old(self).spec_base_dir(),
            !old(self).spec_ids().contains(table_id@) ==> final(self).spec_ids() == old(self).spec_ids()
                && final(self).spec_tables() == old(self).spec_tables(),
            old(self).spec_ids().contains(table_id@) ==> {
                let i = old(self).spec_ids().index_of(table_id@);
                &&& final(self).spec_ids() == old(self).spec_ids().remove(i)
                &&& final(self).spec_tables() == old(self).spec_tables().remove(i)
            },
    {
        match self.position(table_id) {
            None => {},
            Some(i) => {
                let ghost old_ids = self.spec_ids();
                let ghost old_tables = self.spec_tables();
                proof {
                    assert(old_ids.contains(table_id@));
                    let k = old_ids.index_of(table_id@);
                    assert(old_ids[k] == old_ids[i as int]);
                }
                self.ids.remove(i);
                self.tables.remove(i);
                proof {
                    assert(self.spec_ids() =~= old_ids.remove(i as int));
                    assert(self.spec_tables() =~= old_tables.remove(i as int));
                    assert forall|a: int, b: int| 0 <= a < b < self.spec_ids().len() implies self.spec_ids()[a] != self.spec_ids()[b] by {
                        let a2 = if a < i { a } else { a + 1 };
                        let b2 = if b < i { b } else { b + 1 };
                        assert(self.spec_ids()[a] == old_ids[a2]);
                        assert(self.spec_ids()[b] == old_ids[b2]);
                    }
                }
            },
        }
        Ok(())
    }

    /// Every entry whose `[min, max]` overlaps `[start, end]`, in order of
    /// registration.
    pub fn get_tables_in_range(&self, start: i64, end: i64) -> (r: Vec<SSTableInfo>)
        requires
            self.wf(),
        ensures
            infos_view(r@) == self.spec_tables().filter(|i: InfoView| overlaps_range(i, start, end)),
    {
        let mut out: Vec<SSTableInfo> = Vec::new();
        let ghost all = self.spec_tables();
        let mut k: usize = 0;
        while k < self.tables.len()
            invariant
                k <= self.tables@.len(),
                all == infos_view(self.tables@),
                infos_view(out@) == all.subrange(0, k as int).filter(|i: InfoView| overlaps_range(i, start, end)),
            decreases self.tables@.len() - k,
        {
            proof {
                reveal(Seq::filter);
                assert(all.subrange(0, k + 1).drop_last() =~= all.subrange(0, k as int));
                assert(all.subrange(0, k + 1).last() == self.tables@[k as int]@);
            }
            if self.tables[k].min_timestamp <= end && self.tables[k].max_timestamp >= start {
                let ghost prev = infos_view(out@);
                out.push(self.tables[k].duplicate());
                assert(infos_view(out@) =~= prev.push(self.tables@[k as int]@));
            }
            k += 1;
        }
        assert(all.subrange(0, k as int) =~= all);
        out
    }

    /// Every entry whose series names include `series_name`, in order of
    /// registration.
    pub fn get_tables_for_series(&self, series_name: &str) -> (r: Vec<SSTableInfo>)
        requires
            self.wf(),
        ensures
            infos_view(r@) == self.spec_tables().filter(|i: InfoView| has_series(i, series_name@)),
    {
        let mut out: Vec<SSTableInfo> = Vec::new();
        let ghost all = self.spec_tables();
        let name = series_name.to_string();
        let mut k: usize = 0;
        while k < self.tables.len()
            invariant
                k <= self.tables@.len(),
                all == infos_view(self.tables@),
                name@ == series_name@,
                infos_view(out@) == all.subrange(0, k as int).filter(|i: InfoView| has_series(i, series_name@)),
            decreases self.tables@.len() - k,
        {
            proof {
                reveal(Seq::filter);
                assert(all.subrange(0, k + 1).drop_last() =~= all.subrange(0, k as int));
                assert(all.subrange(0, k + 1).last() == self.tables@[k as int]@);
            }
            if contains_name(&self.tables[k].series_names, &name) {
                let ghost prev = infos_view(out@);
                out.push(self.tables[k].duplicate());
                assert(infos_view(out@) =~= prev.push(self.tables@[k as int]@));
            }
            k += 1;
        }
        assert(all.subrange(0, k as int) =~= all);
        out
    }

    /// Every entry, in order of registration.
    pub fn get_all_tables(&self) -> (r: Vec<SSTableInfo>)
        requires
            self.wf(),
        ensures
            infos_view(r@) == self.spec_tables(),
    {
        let mut out: Vec<SSTableInfo> = Vec::new();
        let mut k: usize = 0;
        while k < self.tables.len()
            invariant
                k <= self.tables@.len(),
                infos_view(out@) == infos_view(self.tables@).subrange(0, k as int),
            decreases self.tables@.len() - k,
        {
            let ghost prev = infos_view(out@);
            out.push(self.tables[k].duplicate());
            assert(infos_view(out@) =~= prev.push(self.tables@[k as int]@));
            k += 1;
            assert(infos_view(out@) =~= infos_view(self.tables@).subrange(0, k as int));
        }
        assert(infos_view(self.tables@).subrange(0, k as int) =~= infos_view(self.tables@));
        out
    }

    /// The number of points over all entries, held to the u64 range.
    pub fn total_points(&self) -> (r: u64)
        ensures
            r == total_of(self.spec_tables()),
    {
        let mut sum: u64 = 0;
        let mut k: usize = 0;
        while k < self.tables.len()
            invariant
                k <= self.tables@.len(),
                sum == total_of(infos_view(self.tables@).subrange(0, k as int)),
            decreases self.tables@.len() - k,
        {
            assert(infos_view(self.tables@).subrange(0, k + 1).drop_last() =~= infos_view(self.tables@).subrange(0, k as int));
            let c = self.tables[k].point_count;
            sum = if sum > u64::MAX - c { u64::MAX } else { sum + c };
            k += 1;
        }
        assert(infos_view(self.tables@).subrange(0, k as int) =~= infos_view(self.tables@));
        sum
    }

    /// The number of distinct series over all entries.
    pub fn unique_series_count(&self) -> (r: usize)
        ensures
            r == all_series(self.spec_tables()).len(),
    {
        let mut names: Vec<String> = Vec::new();
        let mut k: usize = 0;
        while k < self.tables.len()
            invariant
                k <= self.tables@.len(),
                names_view(names@) == all_series(infos_view(self.tables@).subrange(0, k as int)),
            decreases self.tables@.len() - k,
        {
            assert(infos_view(self.tables@).subrange(0, k + 1).drop_last() =~= infos_view(self.tables@).subrange(0, k as int));
            names = merged_names(&names, &self.tables[k].series_names);
            k += 1;
        }
        assert(infos_view(self.tables@).subrange(0, k as int) =~= infos_view(self.tables@));
        names.len()
    }
}

} // verus!
