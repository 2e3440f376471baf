//! What the planner knows of an index: its time span, its tag keys and its
//! size.
use vstd::prelude::*;
use crate::ast::{TimeRange, FilterExpr};
use crate::data::DataPoint;
use crate::sstable::{names_view, contains_name};

verus! {

#[derive(Debug)]
pub struct IndexInfo {
    pub name: String,
    pub time_range: TimeRange,
    pub tag_keys: Vec<String>,
    pub estimated_rows: usize,
}

/// Whether an index spanning `index` holds the whole of `query`. A span
/// that is not absolute holds nothing.
pub open spec fn covers(index: TimeRange, query: TimeRange) -> bool {
    match (index, query) {
        (TimeRange::Absolute { start: s1, end: e1 }, TimeRange::Absolute { start: s2, end: e2 }) => s2 >= s1 && e2 <= e1,
        (TimeRange::Absolute { start: s1, end: e1 }, TimeRange::Last { duration }) => e1 - duration >= s1,
        (TimeRange::Absolute { start: s1, end: e1 }, TimeRange::Relative { offset, duration }) => e1 - offset >= s1
            && e1 - offset + duration <= e1,
        _ => false,
    }
}

/// Whether every tag key a filter reads is among `keys`.
pub open spec fn keys_cover(keys: Seq<Seq<char>>, f: FilterExpr) -> bool
    decreases f,
{
    match f {
        FilterExpr::TagFilter(t) => keys.contains(t.key@),
        FilterExpr::And(l, r) => keys_cover(keys, *l) && keys_cover(keys, *r),
        FilterExpr::Or(l, r) => keys_cover(keys, *l) && keys_cover(keys, *r),
        FilterExpr::Not(e) => keys_cover(keys, *e),
    }
}

/// `rows * part / whole` rounded down, held to the range of usize; a
/// negative share gives 0, and an empty whole gives 0 for no rows and the
/// largest usize otherwise.
pub open spec fn share_of(rows: int, part: int, whole: int) -> int {
    if whole == 0 {
        if rows * part > 0 { usize::MAX as int } else { 0 }
    } else {
        let q = if (rows * part >= 0) == (whole > 0) {
            (if rows * part >= 0 { rows * part } else { -(rows * part) }) / (if whole > 0 { whole } else { -whole })
        } else {
            -1
        };
        if q < 0 { 0 } else if q > usize::MAX { usize::MAX as int } else { q }
    }
}

/// The rows an index spanning `index` with `rows` rows is expected to hold
/// for `query`.
pub open spec fn rows_in(index: TimeRange, rows: usize, query: TimeRange) -> int {
    match (index, query) {
        (TimeRange::Absolute { start: s1, end: e1 }, TimeRange::Absolute { start: s2, end: e2 }) => share_of(rows as int, e2 - s2, e1 - s1),
        (TimeRange::Absolute { start: s1, end: e1 }, TimeRange::Last { duration }) => share_of(rows as int, duration as int, e1 - s1),
        (TimeRange::Absolute { start: s1, end: e1 }, TimeRange::Relative { offset, duration }) => share_of(rows as int, duration as int, e1 - s1),
        _ => rows as int,
    }
}

fn magnitude(x: i128) -> (r: u128)
    requires
        x > i128::MIN,
    ensures
        r == (if x >= 0 { x as int } else { -x }),
{
    if x >= 0 { x as u128 } else { (-x) as u128 }
}

/// The share `rows * part / whole`, see `share_of`.
fn share(rows: usize, part: i128, whole: i128) -> (r: usize)
    requires
        -0x1_0000_0000_0000_0000 < part < 0x1_0000_0000_0000_0000,
        -0x1_0000_0000_0000_0000 < whole < 0x1_0000_0000_0000_0000,
    ensures
        r == share_of(rows as int, part as int, whole as int),
{
    let r = rows as u128;
    let p = magnitude(part);
    assert(r * p <= 0xffff_ffff_ffff_ffff * 0xffff_ffff_ffff_ffff) by (nonlinear_arith)
        requires r <= 0xffff_ffff_ffff_ffff, p <= 0xffff_ffff_ffff_ffff;
    let prod = r * p;
    let ghost signed = rows as int * part as int;
    assert(prod == (if signed >= 0 { signed } else { -signed })) by (nonlinear_arith)
        requires prod == r * p, r == rows as int, p == (if part >= 0 { part as int } else { -part }), signed == rows as int * part as int, rows >= 0;
    assert((signed > 0) == (rows > 0 && part > 0)) by (nonlinear_arith)
        requires signed == rows as int * part as int, rows >= 0;
    let nonneg = rows == 0 || part >= 0;
    assert(nonneg == (signed >= 0)) by (nonlinear_arith)
        requires signed == rows as int * part as int, rows >= 0, nonneg == (rows == 0 || part >= 0);
    if whole == 0 {
        if rows > 0 && part > 0 { usize::MAX } else { 0 }
    } else if nonneg != (whole > 0) {
        0
    } else {
        let w = magnitude(whole);
        let q = prod / w;
        if q > usize::MAX as u128 { usize::MAX } else { q as usize }
    }
}

impl IndexInfo {
    pub fn new(name: String, time_range: TimeRange, tag_keys: Vec<String>, estimated_rows: usize) -> (r: Self)
        ensures
            r.name == name,
            r.time_range == time_range,
            r.tag_keys == tag_keys,
            r.estimated_rows == estimated_rows,
    {
        IndexInfo { name, time_range, tag_keys, estimated_rows }
    }

    /// Counts a new point: one more row, and an absolute span widened to
    /// reach the point's timestamp.
    pub fn update(&mut self, point: &DataPoint)
        ensures
            final(self).name == old(self).name,
            final(self).tag_keys == old(self).tag_keys,
            final(self).estimated_rows == if old(self).estimated_rows < usize::MAX {
                old(self).estimated_rows + 1
            } else {
                usize::MAX as int
            },
            final(self).time_range == match old(self).time_range {
                TimeRange::Absolute { start, end } => TimeRange::Absolute {
                    start: if point.timestamp < start { point.timestamp } else { start },
                    end: if point.timestamp > end { point.timestamp } else { end },
                },
                other => other,
            },
    {
        if self.estimated_rows < usize::MAX {
            self.estimated_rows = self.estimated_rows + 1;
        }
        match self.time_range {
            TimeRange::Absolute { start, end } => {
                let s = if point.timestamp < start { point.timestamp } else { start };
                let e = if point.timestamp > end { point.timestamp } else { end };
                self.time_range = TimeRange::Absolute { start: s, end: e };
            },
            _ => {},
        }
    }

    /// Whether an absolute span holds the timestamp.
    pub fn contains_timestamp(&self, timestamp: i64) -> (r: bool)
        ensures
            r == (self.time_range matches TimeRange::Absolute { start, end } && start <= timestamp
                <= end),
    {
        match self.time_range {
            TimeRange::Absolute { start, end } => start <= timestamp && timestamp <= end,
            _ => false,
        }
    }

    /// Whether an absolute span meets `[start, end]`.
    pub fn overlaps(&self, start: i64, end: i64) -> (r: bool)
        ensures
            r == (self.time_range matches TimeRange::Absolute { start: s, end: e } && s <= end && start
                <= e),
    {
        match self.time_range {
            TimeRange::Absolute { start: s, end: e } => s <= end && start <= e,
            _ => false,
        }
    }

    pub fn covers_time_range(&self, query_range: &TimeRange) -> (r: bool)
        ensures
            r == covers(self.time_range, *query_range),
    {
        match (self.time_range, *query_range) {
            (TimeRange::Absolute { start: s1, end: e1 }, TimeRange::Absolute { start: s2, end: e2 }) => s2 >= s1 && e2 <= e1,
            (TimeRange::Absolute { start: s1, end: e1 }, TimeRange::Last { duration }) => {
                (e1 as i128) - (duration as i128) >= s1 as i128
            },
            (TimeRange::Absolute { start: s1, end: e1 }, TimeRange::Relative { offset, duration }) => {
                let qs = (e1 as i128) - (offset as i128);
                qs >= s1 as i128 && qs + (duration as i128) <= e1 as i128
            },
            _ => false,
        }
    }

    pub fn can_satisfy_filter(&self, filter: &FilterExpr) -> (r: bool)
        ensures
            r == keys_cover(names_view(self.tag_keys@), *filter),
        decreases filter,
    {
        match filter {
            FilterExpr::TagFilter(tag_filter) => contains_name(&self.tag_keys, &tag_filter.key),
            FilterExpr::And(left, right) => self.can_satisfy_filter(left) && self.can_satisfy_filter(right),
            FilterExpr::Or(left, right) => self.can_satisfy_filter(left) && self.can_satisfy_filter(right),
            FilterExpr::Not(expr) => self.can_satisfy_filter(expr),
        }
    }

    pub fn estimate_rows_in_range(&self, range: &TimeRange) -> (r: usize)
        ensures
            r == rows_in(self.time_range, self.estimated_rows, *range),
    {
        match (self.time_range, *range) {
            (TimeRange::Absolute { start: s1, end: e1 }, TimeRange::Absolute { start: s2, end: e2 }) => {
                share(self.estimated_rows, (e2 as i128) - (s2 as i128), (e1 as i128) - (s1 as i128))
            },
            (TimeRange::Absolute { start: s1, end: e1 }, TimeRange::Last { duration }) => {
                share(self.estimated_rows, duration as i128, (e1 as i128) - (s1 as i128))
            },
            (TimeRange::Absolute { start: s1, end: e1 }, TimeRange::Relative { offset: _, duration }) => {
                share(self.estimated_rows, duration as i128, (e1 as i128) - (s1 as i128))
            },
            _ => self.estimated_rows,
        }
    }
}

} // verus!
