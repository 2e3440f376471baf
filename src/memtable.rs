//! The in-memory table: recent points per series, ordered by timestamp.
use vstd::prelude::*;
use vstd::seq_lib::*;
use vstd::pervasive::VecAdditionalExecFns;
use crate::data::{DataPoint, PointView, TimeSeries, points_view};

verus! {

#[derive(Debug)]
pub enum MemTableError {
    /// Kept for callers that match on it; the table never reports it.
    Full,
    InvalidTimestampOrder,
}

/// Points of `s` whose timestamp lies in `[start, end]`, in order.
pub open spec fn in_range(s: Seq<PointView>, start: i64, end: i64) -> Seq<PointView> {
    s.filter(|p: PointView| start <= p.timestamp && p.timestamp <= end)
}

pub open spec fn strictly_increasing(s: Seq<PointView>) -> bool {
    forall|i: int, j: int| 0 <= i < j < s.len() ==> #[trigger] s[i].timestamp < #[trigger] s[j].timestamp
}

pub open spec fn entry_view(e: (String, DataPoint)) -> (Seq<char>, PointView) {
    (e.0@, e.1@)
}

pub open spec fn sorted_by_time(s: Seq<(Seq<char>, PointView)>) -> bool {
    forall|i: int, j: int| 0 <= i < j < s.len() ==> #[trigger] s[i].1.timestamp <= #[trigger] s[j].1.timestamp
}

/// Each point of `s`, paired with the series name.
pub open spec fn tagged(name: Seq<char>, s: Seq<PointView>) -> Seq<(Seq<char>, PointView)> {
    s.map_values(|p: PointView| (name, p))
}

/// Points per series, one entry per series name.
pub struct MemTable {
    data: Vec<(String, Vec<DataPoint>)>,
    capacity: usize,
    size: usize,
}

impl MemTable {
    /// Series names, in the order in which each first received a point.
    pub closed spec fn names(&self) -> Seq<Seq<char>> {
        self.data@.map_values(|e: (String, Vec<DataPoint>)| e.0@)
    }

    /// The points of the series at position `i` of `names()`.
    pub closed spec fn points_at(&self, i: int) -> Seq<PointView> {
        points_view(self.data@[i].1@)
    }

    /// The points held for a series, oldest first; empty for an unknown name.
    pub open spec fn series(&self, name: Seq<char>) -> Seq<PointView> {
        if self.names().contains(name) {
            self.points_at(self.names().index_of(name))
        } else {
            Seq::empty()
        }
    }

    pub closed spec fn spec_capacity(&self) -> usize {
        self.capacity
    }

    pub closed spec fn spec_size(&self) -> usize {
        self.size
    }

    /// Every in-range point of every series, series by series.
    pub open spec fn gathered(&self, start: i64, end: i64, k: nat) -> Seq<(Seq<char>, PointView)>
        decreases k,
    {
        if k == 0 {
            Seq::empty()
        } else {
            self.gathered(start, end, (k - 1) as nat) + tagged(
                self.names()[k - 1],
                in_range(self.points_at(k - 1), start, end),
            )
        }
    }

    pub open spec fn wf(&self) -> bool {
        &&& self.names().no_duplicates()
        &&& forall|i: int| 0 <= i < self.names().len() ==> strictly_increasing(#[trigger] self.points_at(i))
    }

    pub fn new(capacity: usize) -> (r: Self)
        ensures
            r.wf(),
            r.names().len() == 0,
            forall|n: Seq<char>| r.series(n).len() == 0,
            r.spec_capacity() == capacity,
            r.spec_size() == 0,
    {
        let r = MemTable { data: Vec::new(), capacity, size: 0 };
        assert(r.names() =~= Seq::<Seq<char>>::empty());
        r
    }

    pub fn capacity(&self) -> (r: usize)
        ensures
            r == self.spec_capacity(),
    {
        self.capacity
    }

    /// Number of points accepted since the table was made or last cleared.
    pub fn size(&self) -> (r: usize)
        ensures
            r == self.spec_size(),
    {
        self.size
    }

    pub fn is_empty(&self) -> (r: bool)
        ensures
            r == (self.spec_size() == 0),
    {
        self.size == 0
    }

    /// Position of a series in `names()`.
    fn find(&self, name: &str) -> (r: Option<usize>)
        requires
            self.wf(),
        ensures
            r is None ==> !self.names().contains(name@),
            r matches Some(i) ==> i < self.names().len() && self.names()[i as int] == name@
                && self.names().index_of(name@) == i,
    {
        let mut i: usize = 0;
        while i < self.data.len()
            invariant
                self.wf(),
                i <= self.data@.len(),
                forall|j: int| 0 <= j < i ==> self.names()[j] != name@,
            decreases self.data@.len() - i,
        {
            if crate::text::str_eq(self.data[i].0.as_str(), name) {
                proof {
                    assert(self.names()[i as int] == name@);
                    lemma_index_of_unique(self.names(), i as int);
                }
                return Some(i);
            }
            i += 1;
        }
        None
    }

    /// Adds a point to the end of its series. Returns whether the table has
    /// reached its capacity with this point; a timestamp not above the last
    /// one of the series is refused.
    pub fn insert(&mut self, series: &TimeSeries, point: &DataPoint) -> (r: Result<bool, MemTableError>)
        requires
            old(self).wf(),
            old(self).spec_size() < usize::MAX,
        ensures
            final(self).wf(),
            final(self).spec_capacity() == old(self).spec_capacity(),
            ({
                let s = old(self).series(series.spec_name());
                &&& (r is Ok <==> (s.len() == 0 || s.last().timestamp < point.timestamp))
                &&& (r is Err ==> r matches Err(MemTableError::InvalidTimestampOrder))
                &&& (r matches Ok(f) ==> f == (old(self).spec_size() + 1 >= old(self).spec_capacity()))
            }),
            r is Ok ==> {
                &&& final(self).spec_size() == old(self).spec_size() + 1
                &&& final(self).series(series.spec_name()) == old(self).series(series.spec_name()).push(point@)
                &&& forall|n: Seq<char>| n != series.spec_name() ==> final(self).series(n) == old(self).series(n)
            },
            r is Err ==> final(self).spec_size() == old(self).spec_size()
                && forall|n: Seq<char>| final(self).series(n) == old(self).series(n),
    {
        let needs_flush = self.capacity == 0 || self.size >= self.capacity - 1;
        let ghost old_self = *self;
        match self.find(series.name()) {
            Some(i) => {
                let len = self.data[i].1.len();
                if len > 0 && point.timestamp <= self.data[i].1[len - 1].timestamp {
                    return Err(MemTableError::InvalidTimestampOrder);
                }
                let p = point.duplicate();
                let mut entry = (String::new(), Vec::new());
                self.data.set_and_swap(i, &mut entry);
                entry.1.push(p);
                self.data.set_and_swap(i, &mut entry);
                self.size = self.size + 1;
                proof {
                    assert(self.data@ == old_self.data@.update(i as int, self.data@[i as int]));
                    assert(self.names() =~= old_self.names());
                    assert(self.points_at(i as int) =~= old_self.points_at(i as int).push(point@));
                    assert(self.names()[i as int] == series.spec_name());
                    let o = old_self.points_at(i as int);
                    assert(len > 0 ==> o.last().timestamp == old_self.data@[i as int].1@[len - 1].timestamp);
                    assert(strictly_increasing(old_self.points_at(i as int)));
                    assert forall|a: int, b: int| 0 <= a < b < o.len() + 1 implies #[trigger] self.points_at(i as int)[a].timestamp < #[trigger] self.points_at(i as int)[b].timestamp by {
                        if b == o.len() && a < o.len() - 1 {
                            assert(o[a].timestamp < o[o.len() - 1].timestamp);
                        }
                    }
                    assert forall|j: int| 0 <= j < self.names().len() && j != i implies #[trigger] self.points_at(j) == old_self.points_at(j) by {}
                    assert forall|n: Seq<char>| n != series.spec_name() implies #[trigger] self.series(n) == old_self.series(n) by {
                        if self.names().contains(n) {
                            let k = self.names().index_of(n);
                            assert(self.names()[k] == n);
                            assert(k != i);
                            assert(self.points_at(k) == old_self.points_at(k));
                        }
                    }
                    lemma_index_of_unique(self.names(), i as int);
                }
            },
            None => {
                let mut pts: Vec<DataPoint> = Vec::new();
                pts.push(point.duplicate());
                let name = series.name().to_string();
                self.data.push((name, pts));
                self.size = self.size + 1;
                proof {
                    assert(self.names() =~= old_self.names().push(series.spec_name()));
                    assert(self.points_at(self.names().len() - 1) =~= seq![point@]);
                    assert(strictly_increasing(self.points_at(self.names().len() - 1)));
                    assert forall|j: int| 0 <= j < old_self.names().len() implies #[trigger] self.points_at(j) == old_self.points_at(j) by {}
                    assert(self.names().no_duplicates()) by {
                        assert forall|a: int, b: int| 0 <= a < b < self.names().len() implies self.names()[a] != self.names()[b] by {
                            if b == self.names().len() - 1 {
                                assert(old_self.names().contains(old_self.names()[a]));
                            }
                        }
                    }
                    lemma_index_of_unique(self.names(), self.names().len() - 1);
                    assert(old_self.series(series.spec_name()) =~= Seq::<PointView>::empty());
                    assert(self.series(series.spec_name()) =~= old_self.series(series.spec_name()).push(point@));
                    assert forall|n: Seq<char>| n != series.spec_name() implies #[trigger] self.series(n) == old_self.series(n) by {
                        if old_self.names().contains(n) {
                            let k = old_self.names().index_of(n);
                            assert(old_self.names()[k] == n);
                            assert(self.names()[k] == n);
                            lemma_index_of_unique(self.names(), k);
                        } else {
                            if self.names().contains(n) {
                                let k = choose|k: int| 0 <= k < self.names().len() && self.names()[k] == n;
                                if k < old_self.names().len() {
                                    assert(old_self.names().contains(n));
                                }
                            }
                        }
                    }
                }
            },
        }
        Ok(needs_flush)
    }

    /// The points of one series with `start <= timestamp <= end`, oldest first.
    pub fn get_series_range(&self, series_name: &str, start: i64, end: i64) -> (r: Vec<DataPoint>)
        requires
            self.wf(),
        ensures
            points_view(r@) == in_range(self.series(series_name@), start, end),
    {
        let mut out: Vec<DataPoint> = Vec::new();
        match self.find(series_name) {
            None => {
                assert(points_view(out@) =~= in_range(self.series(series_name@), start, end));
                out
            },
            Some(i) => {
                let pts = &self.data[i].1;
                let ghost s = points_view(pts@);
                assert(s == self.series(series_name@));
                let mut j: usize = 0;
                while j < pts.len()
                    invariant
                        j <= pts@.len(),
                        s == points_view(pts@),
                        points_view(out@) == in_range(s.subrange(0, j as int), start, end),
                    decreases pts@.len() - j,
                {
                    proof {
                        reveal(Seq::filter);
                        assert(s.subrange(0, j + 1).drop_last() =~= s.subrange(0, j as int));
                        assert(s.subrange(0, j + 1).last() == pts@[j as int]@);
                    }
                    if pts[j].timestamp >= start && pts[j].timestamp <= end {
                        let p = pts[j].duplicate();
                        let ghost prev = out@;
                        out.push(p);
                        assert(points_view(out@) =~= points_view(prev).push(pts@[j as int]@));
                    }
                    j += 1;
                }
                assert(s.subrange(0, j as int) =~= s);
                out
            },
        }
    }

    /// Every point of every series with `start <= timestamp <= end`, with its
    /// series name, ordered by timestamp.
    pub fn get_range(&self, start: i64, end: i64) -> (r: Vec<(String, DataPoint)>)
        requires
            self.wf(),
        ensures
            sorted_by_time(r@.map_values(|e: (String, DataPoint)| entry_view(e))),
            r@.map_values(|e: (String, DataPoint)| entry_view(e)).to_multiset()
                == self.gathered(start, end, self.names().len()).to_multiset(),
    {
        let mut out: Vec<(String, DataPoint)> = Vec::new();
        let ghost mut all: Seq<(Seq<char>, PointView)> = Seq::empty();
        let mut i: usize = 0;
        broadcast use group_to_multiset_ensures;
        while i < self.data.len()
            invariant
                i <= self.data@.len(),
                all == self.gathered(start, end, i as nat),
                sorted_by_time(out@.map_values(|e: (String, DataPoint)| entry_view(e))),
                out@.map_values(|e: (String, DataPoint)| entry_view(e)).to_multiset() == all.to_multiset(),
            decreases self.data@.len() - i,
        {
            let pts = &self.data[i].1;
            let ghost s = points_view(pts@);
            let ghost name = self.names()[i as int];
            assert(name == self.data@[i as int].0@);
            assert(s == self.points_at(i as int));
            let mut j: usize = 0;
            while j < pts.len()
                invariant
                    i < self.data@.len(),
                    pts == &self.data@[i as int].1,
                    j <= pts@.len(),
                    s == points_view(pts@),
                    name == self.data@[i as int].0@,
                    sorted_by_time(out@.map_values(|e: (String, DataPoint)| entry_view(e))),
                    out@.map_values(|e: (String, DataPoint)| entry_view(e)).to_multiset() == (all
                        + tagged(name, in_range(s.subrange(0, j as int), start, end))).to_multiset(),
                decreases pts@.len() - j,
            {
                proof {
                    reveal(Seq::filter);
                    assert(s.subrange(0, j + 1).drop_last() =~= s.subrange(0, j as int));
                    assert(s.subrange(0, j + 1).last() == pts@[j as int]@);
                }
                if pts[j].timestamp >= start && pts[j].timestamp <= end {
                    let ts = pts[j].timestamp;
                    let e = (self.data[i].0.clone(), pts[j].duplicate());
                    // the first position whose timestamp is above ts
                    let mut k: usize = out.len();
                    while k > 0 && out[k - 1].1.timestamp > ts
                        invariant
                            k <= out@.len(),
                            forall|m: int| k <= m < out@.len() ==> #[trigger] out@[m].1.timestamp > ts,
                        decreases k,
                    {
                        k -= 1;
                    }
                    let ghost prev = out@;
                    let ghost ev = entry_view(e);
                    out.insert(k, e);
                    proof {
                        let pv = prev.map_values(|e: (String, DataPoint)| entry_view(e));
                        let nv = out@.map_values(|e: (String, DataPoint)| entry_view(e));
                        assert(nv =~= pv.insert(k as int, ev));
                        to_multiset_insert(pv, k as int, ev);
                        assert(ev == (name, s[j as int]));
                        let r0 = in_range(s.subrange(0, j as int), start, end);
                        let r1 = in_range(s.subrange(0, j + 1), start, end);
                        assert(r1 == r0.push(s[j as int]));
                        let t0 = tagged(name, r0);
                        let t1 = tagged(name, r1);
                        assert(t1 =~= t0.push(ev));
                        assert(all + t1 =~= (all + t0).push(ev));
                        to_multiset_build(all + t0, ev);
                        assert(nv.to_multiset() == (all + t1).to_multiset());
                        assert forall|a: int, b: int| 0 <= a < b < nv.len() implies #[trigger] nv[a].1.timestamp <= #[trigger] nv[b].1.timestamp by {
                            if k > 0 && a < k && b > k {
                                assert(pv[k - 1].1.timestamp <= ts);
                            }
                            if k > 0 && a < k {
                                assert(pv[k - 1].1.timestamp <= ts);
                                assert(pv[a].1.timestamp <= pv[k - 1].1.timestamp || a == k - 1);
                            }
                        }
                    }
                } else {
                    proof {
                        let r0 = in_range(s.subrange(0, j as int), start, end);
                        let r1 = in_range(s.subrange(0, j + 1), start, end);
                        assert(r1 == r0);
                    }
                }
                j += 1;
            }
            proof {
                assert(s.subrange(0, j as int) =~= s);
                all = all + tagged(name, in_range(s, start, end));
            }
            i += 1;
        }
        out
    }

    /// Takes every point out, series by series, and resets the size to zero.
    pub fn clear(&mut self) -> (r: Vec<(String, DataPoint)>)
        requires
            old(self).wf(),
        ensures
            final(self).wf(),
            final(self).spec_size() == 0,
            final(self).spec_capacity() == old(self).spec_capacity(),
            final(self).names().len() == 0,
            forall|n: Seq<char>| final(self).series(n).len() == 0,
            r@.map_values(|e: (String, DataPoint)| entry_view(e)) == old(self).gathered(
                i64::MIN,
                i64::MAX,
                old(self).names().len(),
            ),
    {
        let r = self.get_all();
        self.data = Vec::new();
        self.size = 0;
        assert(self.names() =~= Seq::<Seq<char>>::empty());
        r
    }

    /// Every point with its series name, series by series.
    fn get_all(&self) -> (r: Vec<(String, DataPoint)>)
        ensures
            r@.map_values(|e: (String, DataPoint)| entry_view(e)) == self.gathered(
                i64::MIN,
                i64::MAX,
                self.names().len(),
            ),
    {
        let mut out: Vec<(String, DataPoint)> = Vec::new();
        let mut i: usize = 0;
        while i < self.data.len()
            invariant
                i <= self.data@.len(),
                out@.map_values(|e: (String, DataPoint)| entry_view(e)) == self.gathered(
                    i64::MIN,
                    i64::MAX,
                    i as nat,
                ),
            decreases self.data@.len() - i,
        {
            let pts = &self.data[i].1;
            let ghost s = points_view(pts@);
            let ghost name = self.names()[i as int];
            let ghost base = out@.map_values(|e: (String, DataPoint)| entry_view(e));
            assert(name == self.data@[i as int].0@);
            assert(s == self.points_at(i as int));
            assert(in_range(s, i64::MIN, i64::MAX) =~= s) by {
                lemma_in_range_full(s);
            }
            let mut j: usize = 0;
            while j < pts.len()
                invariant
                    i < self.data@.len(),
                    pts == &self.data@[i as int].1,
                    j <= pts@.len(),
                    s == points_view(pts@),
                    name == self.data@[i as int].0@,
                    out@.map_values(|e: (String, DataPoint)| entry_view(e)) == base + tagged(
                        name,
                        s.subrange(0, j as int),
                    ),
                decreases pts@.len() - j,
            {
                let e = (self.data[i].0.clone(), pts[j].duplicate());
                let ghost prev = out@;
                assert(entry_view(e) == (name, s[j as int]));
                out.push(e);
                assert(out@.map_values(|e: (String, DataPoint)| entry_view(e)) =~= prev.map_values(
                    |e: (String, DataPoint)| entry_view(e),
                ).push((name, s[j as int])));
                assert(tagged(name, s.subrange(0, j + 1)) =~= tagged(name, s.subrange(0, j as int)).push(
                    (name, s[j as int]),
                ));
                assert(out@.map_values(|e: (String, DataPoint)| entry_view(e)) =~= base + tagged(
                    name,
                    s.subrange(0, j + 1),
                ));
                j += 1;
            }
            assert(s.subrange(0, j as int) =~= s);
            i += 1;
        }
        out
    }

    /// A copy of the contents: each series name with its points.
    pub fn get_data(&self) -> (r: Vec<(String, Vec<DataPoint>)>)
        ensures
            r@.len() == self.names().len(),
            forall|i: int| 0 <= i < r@.len() ==> #[trigger] r@[i].0@ == self.names()[i]
                && points_view(r@[i].1@) == self.points_at(i),
    {
        let mut out: Vec<(String, Vec<DataPoint>)> = Vec::new();
        let mut i: usize = 0;
        while i < self.data.len()
            invariant
                i <= self.data@.len(),
                out@.len() == i,
                forall|k: int| 0 <= k < i ==> #[trigger] out@[k].0@ == self.names()[k]
                    && points_view(out@[k].1@) == self.points_at(k),
            decreases self.data@.len() - i,
        {
            let pts = &self.data[i].1;
            let mut copy: Vec<DataPoint> = Vec::new();
            let mut j: usize = 0;
            while j < pts.len()
                invariant
                    j <= pts@.len(),
                    points_view(copy@) == points_view(pts@.subrange(0, j as int)),
                decreases pts@.len() - j,
            {
                let ghost prev = copy@;
                copy.push(pts[j].duplicate());
                assert(copy@.last()@ == pts@[j as int]@);
                assert(points_view(copy@) =~= points_view(prev).push(pts@[j as int]@));
                j += 1;
                assert(points_view(copy@) =~= points_view(pts@.subrange(0, j as int)));
            }
            assert(pts@.subrange(0, j as int) =~= pts@);
            out.push((self.data[i].0.clone(), copy));
            i += 1;
        }
        out
    }
}

proof fn lemma_index_of_unique(s: Seq<Seq<char>>, i: int)
    requires
        s.no_duplicates(),
        0 <= i < s.len(),
    ensures
        s.index_of(s[i]) == i,
{
    assert(s.contains(s[i]));
    let k = s.index_of(s[i]);
    assert(s[k] == s[i]);
}

proof fn lemma_in_range_full(s: Seq<PointView>)
    ensures
        in_range(s, i64::MIN, i64::MAX) == s,
    decreases s.len(),
{
    reveal(Seq::filter);
    if s.len() > 0 {
        lemma_in_range_full(s.drop_last());
        assert(s.drop_last().push(s.last()) =~= s);
    }
}

} // verus!
