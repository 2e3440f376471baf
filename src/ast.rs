//! The resolved form of a query, as handed over by the query front end.
use vstd::prelude::*;

verus! {

#[derive(Debug)]
pub enum AstError {
    InvalidTimeRange(String),
    InvalidTagFilter(String),
    InvalidFunctionCall(String),
}

/// A time range in nanoseconds.
#[derive(Debug, Clone, Copy, PartialEq, Eq)]
pub enum TimeRange {
    Absolute { start: i64, end: i64 },
    Relative { offset: i64, duration: i64 },
    Last { duration: i64 },
}

#[derive(Debug, Clone, Copy, PartialEq, Eq)]
pub enum TagFilterOp {
    Eq,
    Neq,
    Regex,
    NotRegex,
}

#[derive(Debug)]
pub struct TagFilter {
    pub key: String,
    pub op: TagFilterOp,
    pub value: String,
}

#[derive(Debug)]
pub enum FilterExpr {
    TagFilter(TagFilter),
    And(Box<FilterExpr>, Box<FilterExpr>),
    Or(Box<FilterExpr>, Box<FilterExpr>),
    Not(Box<FilterExpr>),
}

/// An argument of a function call. A number is held as the bit pattern of
/// an IEEE-754 double.
#[derive(Debug)]
pub enum FunctionArg {
    Identifier(String),
    NumberLiteral(u64),
    StringLiteral(String),
    FunctionCall(Box<FunctionCall>),
}

#[derive(Debug)]
pub struct FunctionCall {
    pub name: String,
    pub args: Vec<FunctionArg>,
}

#[derive(Debug)]
pub struct SelectExpr {
    pub function: FunctionCall,
    pub alias: Option<String>,
}

#[derive(Debug)]
pub struct Query {
    pub select: Vec<SelectExpr>,
    pub from: String,
    pub time_range: Option<TimeRange>,
    pub filter: Option<FilterExpr>,
    pub group_by: Vec<String>,
    /// Field and whether the order is descending.
    pub order_by: Vec<(String, bool)>,
    pub limit: Option<usize>,
    pub offset: Option<usize>,
}

impl Query {
    pub fn new() -> (r: Self)
        ensures
            r.select@.len() == 0,
            r.from@.len() == 0,
            r.time_range is None,
            r.filter is None,
            r.group_by@.len() == 0,
            r.order_by@.len() == 0,
            r.limit is None,
            r.offset is None,
    {
        Query {
            select: Vec::new(),
            from: String::new(),
            time_range: None,
            filter: None,
            group_by: Vec::new(),
            order_by: Vec::new(),
            limit: None,
            offset: None,
        }
    }
}

} // verus!
