//! Picks the indexes that can answer a query.
use vstd::prelude::*;
use crate::ast::{TimeRange, FilterExpr};
use crate::index::{IndexInfo, covers, keys_cover, rows_in};
use crate::sstable::names_view;
use vstd::pervasive::VecAdditionalExecFns;

verus! {

#[derive(Debug)]
pub enum PlanningError {
    NoSuitableIndex(String),
    InvalidTimeRange(String),
    InvalidFilter(String),
}

#[derive(Debug)]
pub struct IndexSelection {
    pub index_name: String,
    pub time_range: TimeRange,
    pub filter: Option<FilterExpr>,
    pub estimated_rows: usize,
}

#[derive(Debug)]
pub struct QueryPlan {
    pub index_selections: Vec<IndexSelection>,
    pub group_by: Vec<String>,
    pub order_by: Vec<(String, bool)>,
    pub limit: Option<usize>,
    pub offset: Option<usize>,
}

/// Whether an index can answer a query: it spans the query's range and
/// knows every tag key of its filter.
pub open spec fn satisfies(info: IndexInfo, time_range: TimeRange, filter: Option<FilterExpr>) -> bool {
    &&& covers(info.time_range, time_range)
    &&& (filter matches Some(f) ==> keys_cover(names_view(info.tag_keys@), f))
}

/// The registered indexes, each under a name.
pub struct QueryPlanner {
    available_indexes: Vec<(String, IndexInfo)>,
}

impl QueryPlanner {
    pub closed spec fn spec_names(&self) -> Seq<Seq<char>> {
        self.available_indexes@.map_values(|e: (String, IndexInfo)| e.0@)
    }

    pub closed spec fn spec_index(&self, i: int) -> IndexInfo {
        self.available_indexes@[i].1
    }

    pub closed spec fn wf(&self) -> bool {
        self.spec_names().no_duplicates()
    }

    pub fn new() -> (r: Self)
        ensures
            r.wf(),
            r.spec_names().len() == 0,
    {
        let r = QueryPlanner { available_indexes: Vec::new() };
        assert(r.spec_names() =~= Seq::<Seq<char>>::empty());
        r
    }

    /// Registers an index under a name; an index already under that name is
    /// replaced in place.
    pub fn register_index(&mut self, name: String, info: IndexInfo)
        requires
            old(self).wf(),
        ensures
            final(self).wf(),
            final(self).spec_names().contains(name@),
            old(self).spec_names().contains(name@) ==> final(self).spec_names() == old(self).spec_names(),
            !old(self).spec_names().contains(name@) ==> final(self).spec_names() == old(self).spec_names().push(name@),
            forall|i: int| 0 <= i < final(self).spec_names().len() ==> (#[trigger] final(self).spec_names()[i] == name@
                ==> final(self).spec_index(i) == info) && (final(self).spec_names()[i] != name@ ==> final(self).spec_index(i) == old(self).spec_index(i)),
    {
        let ghost n = name@;
        let ghost old_names = self.spec_names();
        let mut i: usize = 0;
        while i < self.available_indexes.len()
            invariant
                i <= self.available_indexes@.len(),
                old_names == self.spec_names(),
                old_names == old(self).spec_names(),
                *self == *old(self),
                old_names.no_duplicates(),
                n == name@,
                forall|j: int| 0 <= j < i ==> self.spec_names()[j] != n,
            decreases self.available_indexes@.len() - i,
        {
            assert(self.spec_names()[i as int] == self.available_indexes@[i as int].0@);
            if self.available_indexes[i].0 == name {
                let ghost old_self = *self;
                let mut entry = (name, info);
                self.available_indexes.set_and_swap(i, &mut entry);
                proof {
                    assert(self.available_indexes@[i as int].0@ == n);
                    assert(self.spec_names() =~= old_names);
                    assert(self.spec_names()[i as int] == n);
                    assert forall|k: int| 0 <= k < self.spec_names().len() && #[trigger] self.spec_names()[k] == n implies k == i by {
                        assert(old_names[k] == old_names[i as int]);
                    }
                    assert forall|k: int| 0 <= k < self.spec_names().len() && k != i implies #[trigger] self.spec_index(k) == old_self.spec_index(k) by {}
                }
                return;
            }
            i += 1;
        }
        let ghost old_self = *self;
        self.available_indexes.push((name, info));
        proof {
            assert(self.spec_names() =~= old_names.push(n));
            assert(!old_names.contains(n));
            assert(self.spec_names()[old_names.len() as int] == n);
            assert forall|a: int, b: int| 0 <= a < b < self.spec_names().len() implies self.spec_names()[a] != self.spec_names()[b] by {
                if b == old_names.len() {
                    assert(old_names.contains(old_names[a]));
                }
            }
            assert forall|k: int| 0 <= k < old_names.len() implies #[trigger] self.spec_index(k) == old_self.spec_index(k) by {}
        }
    }

    /// Whether an index can answer a query with this range and filter.
    pub fn can_satisfy_query(&self, index_name: &str, info: &IndexInfo, time_range: &TimeRange, filter: &Option<FilterExpr>) -> (r: bool)
        ensures
            r == satisfies(*info, *time_range, *filter),
    {
        if !info.covers_time_range(time_range) {
            return false;
        }
        match filter {
            Some(f) => info.can_satisfy_filter(f),
            None => true,
        }
    }

    /// For each registered index, in order of registration: its name, and
    /// the rows it is expected to hold for the range where it can answer the
    /// query.
    pub fn candidates(&self, time_range: &TimeRange, filter: &Option<FilterExpr>) -> (r: Vec<(String, Option<usize>)>)
        ensures
            r@.len() == self.spec_names().len(),
            forall|i: int| 0 <= i < r@.len() ==> {
                &&& (#[trigger] r@[i]).0@ == self.spec_names()[i]
                &&& (r@[i].1 is Some <==> satisfies(self.spec_index(i), *time_range, *filter))
                &&& (r@[i].1 matches Some(n) ==> n == rows_in(
                    self.spec_index(i).time_range,
                    self.spec_index(i).estimated_rows,
                    *time_range,
                ))
            },
    {
        let mut out: Vec<(String, Option<usize>)> = Vec::new();
        let mut i: usize = 0;
        while i < self.available_indexes.len()
            invariant
                i <= self.available_indexes@.len(),
                out@.len() == i,
                forall|k: int| 0 <= k < i ==> {
                    &&& (#[trigger] out@[k]).0@ == self.spec_names()[k]
                    &&& (out@[k].1 is Some <==> satisfies(self.spec_index(k), *time_range, *filter))
                    &&& (out@[k].1 matches Some(n) ==> n == rows_in(
                        self.spec_index(k).time_range,
                        self.spec_index(k).estimated_rows,
                        *time_range,
                    ))
                },
            decreases self.available_indexes@.len() - i,
        {
            let entry = &self.available_indexes[i];
            let rows = if self.can_satisfy_query(entry.0.as_str(), &entry.1, time_range, filter) {
                Some(entry.1.estimate_rows_in_range(time_range))
            } else {
                None
            };
            out.push((entry.0.clone(), rows));
            i += 1;
        }
        out
    }
}

} // verus!
