//! Checks a resolved query against the known functions and a schema.
use vstd::prelude::*;
use crate::ast::{Query, FunctionCall, FunctionArg, FilterExpr, SelectExpr};
use crate::sstable::{names_view, contains_name};

verus! {

#[derive(Debug)]
pub enum ValidationError {
    UnknownFunction(String),
    /// Function, expected count, count given.
    InvalidArgumentCount(String, usize, usize),
    InvalidArgumentType(String, String),
    UnknownTagKey(String),
    InvalidTagValueType(String),
    InvalidOrderByField(String),
    InvalidGroupByField(String),
}

pub open spec fn builtin_functions() -> Seq<Seq<char>> {
    seq![
        "avg"@, "sum"@, "min"@, "max"@, "count"@, "rate"@, "stddev"@, "percentile"@,
    ]
}

/// Functions that take exactly one argument.
pub open spec fn unary_function(name: Seq<char>) -> bool {
    name == "avg"@ || name == "sum"@ || name == "min"@ || name == "max"@ || name == "count"@
        || name == "rate"@
}

/// The functions a query may call.
pub struct FunctionRegistry {
    functions: Vec<String>,
}

impl FunctionRegistry {
    pub closed spec fn spec_functions(&self) -> Seq<Seq<char>> {
        names_view(self.functions@)
    }

    /// The built-in aggregates.
    pub fn new() -> (r: Self)
        ensures
            r.spec_functions() == builtin_functions(),
    {
        let mut functions: Vec<String> = Vec::new();
        functions.push("avg".to_string());
        functions.push("sum".to_string());
        functions.push("min".to_string());
        functions.push("max".to_string());
        functions.push("count".to_string());
        functions.push("rate".to_string());
        functions.push("stddev".to_string());
        functions.push("percentile".to_string());
        let r = FunctionRegistry { functions };
        assert(r.spec_functions() =~= builtin_functions());
        r
    }

    pub fn validate_function(&self, name: &str) -> (r: Result<(), ValidationError>)
        ensures
            r is Ok <==> self.spec_functions().contains(name@),
            r matches Err(e) ==> e matches ValidationError::UnknownFunction(n) && n@ == name@,
    {
        let n = name.to_string();
        if !contains_name(&self.functions, &n) {
            return Err(ValidationError::UnknownFunction(n));
        }
        Ok(())
    }

    /// Checks that the function is known and, for the built-in ones, that it
    /// gets the right number of arguments: one for the plain aggregates, two
    /// for `percentile`, whose second must be a number.
    pub fn validate_arguments(&self, call: &FunctionCall) -> (r: Result<(), ValidationError>)
        ensures
            r is Ok <==> self.spec_functions().contains(call.name@) && (unary_function(call.name@)
                ==> call.args@.len() == 1) && (call.name@ == "percentile"@ ==> call.args@.len() == 2
                && call.args@[1] is NumberLiteral),
            !self.spec_functions().contains(call.name@) ==> r matches Err(ValidationError::UnknownFunction(_)),
    {
        match self.validate_function(call.name.as_str()) {
            Err(e) => return Err(e),
            Ok(()) => {},
        }
        let n = call.args.len();
        proof {
            reveal_strlit("avg");
            reveal_strlit("sum");
            reveal_strlit("min");
            reveal_strlit("max");
            reveal_strlit("count");
            reveal_strlit("rate");
            reveal_strlit("percentile");
        }
        if is_unary(call.name.as_str()) {
            if n != 1 {
                return Err(ValidationError::InvalidArgumentCount(call.name.clone(), 1, n));
            }
            assert(call.name@ != "percentile"@) by {
                assert(call.name@.len() != 10 || call.name@ != "percentile"@);
            }
            Ok(())
        } else if crate::text::str_eq(call.name.as_str(), "percentile") {
            if n != 2 {
                return Err(ValidationError::InvalidArgumentCount(call.name.clone(), 2, n));
            }
            match &call.args[1] {
                FunctionArg::NumberLiteral(_) => Ok(()),
                _ => Err(
                    ValidationError::InvalidArgumentType(
                        call.name.clone(),
                        "Second argument must be a number".to_string(),
                    ),
                ),
            }
        } else {
            Ok(())
        }
    }
}

fn is_unary(name: &str) -> (r: bool)
    ensures
        r == unary_function(name@),
{
    crate::text::str_eq(name, "avg") || crate::text::str_eq(name, "sum") || crate::text::str_eq(
        name,
        "min",
    ) || crate::text::str_eq(name, "max") || crate::text::str_eq(name, "count")
        || crate::text::str_eq(name, "rate")
}

/// The tag keys and value fields a query may name.
pub struct Schema {
    pub tag_keys: Vec<String>,
    pub value_fields: Vec<String>,
}

impl Schema {
    pub fn new() -> (r: Self)
        ensures
            r.tag_keys@.len() == 0,
            r.value_fields@.len() == 0,
    {
        Schema { tag_keys: Vec::new(), value_fields: Vec::new() }
    }

    /// Adds a tag key, once.
    pub fn add_tag_key(&mut self, key: String)
        ensures
            names_view(final(self).tag_keys@).to_set() == names_view(old(self).tag_keys@).to_set().insert(key@),
            final(self).value_fields == old(self).value_fields,
    {
        let ghost k = key@;
        if !contains_name(&self.tag_keys, &key) {
            let ghost prev = names_view(self.tag_keys@);
            self.tag_keys.push(key);
            assert(names_view(self.tag_keys@) =~= prev.push(k));
            proof {
                lemma_push_to_set(prev, k);
            }
        } else {
            assert(names_view(self.tag_keys@).to_set().insert(k) =~= names_view(self.tag_keys@).to_set());
        }
    }

    /// Adds a value field, once.
    pub fn add_value_field(&mut self, field: String)
        ensures
            names_view(final(self).value_fields@).to_set() == names_view(old(self).value_fields@).to_set().insert(field@),
            final(self).tag_keys == old(self).tag_keys,
    {
        let ghost k = field@;
        if !contains_name(&self.value_fields, &field) {
            let ghost prev = names_view(self.value_fields@);
            self.value_fields.push(field);
            assert(names_view(self.value_fields@) =~= prev.push(k));
            proof {
                lemma_push_to_set(prev, k);
            }
        } else {
            assert(names_view(self.value_fields@).to_set().insert(k) =~= names_view(self.value_fields@).to_set());
        }
    }

    pub fn validate_tag_key(&self, key: &str) -> (r: Result<(), ValidationError>)
        ensures
            r is Ok <==> names_view(self.tag_keys@).contains(key@),
            r matches Err(e) ==> e matches ValidationError::UnknownTagKey(k) && k@ == key@,
    {
        let k = key.to_string();
        if !contains_name(&self.tag_keys, &k) {
            return Err(ValidationError::UnknownTagKey(k));
        }
        Ok(())
    }

    pub fn validate_value_field(&self, field: &str) -> (r: Result<(), ValidationError>)
        ensures
            r is Ok <==> names_view(self.value_fields@).contains(field@),
            r matches Err(e) ==> e matches ValidationError::InvalidOrderByField(k) && k@ == field@,
    {
        let k = field.to_string();
        if !contains_name(&self.value_fields, &k) {
            return Err(ValidationError::InvalidOrderByField(k));
        }
        Ok(())
    }
}

proof fn lemma_push_to_set(s: Seq<Seq<char>>, x: Seq<char>)
    ensures
        s.push(x).to_set() == s.to_set().insert(x),
{
    assert forall|y: Seq<char>| s.push(x).to_set().contains(y) <==> s.to_set().insert(x).contains(y) by {
        if s.push(x).contains(y) {
            let k = choose|k: int| 0 <= k < s.push(x).len() && #[trigger] s.push(x)[k] == y;
            if k < s.len() {
                assert(s[k] == y);
            }
        }
        if s.contains(y) {
            let k = choose|k: int| 0 <= k < s.len() && #[trigger] s[k] == y;
            assert(s.push(x)[k] == y);
        }
        if y == x {
            assert(s.push(x)[s.len() as int] == y);
        }
    }
    assert(s.push(x).to_set() =~= s.to_set().insert(x));
}

/// Whether every tag key a filter reads is in the schema.
pub open spec fn filter_keys_known(keys: Seq<Seq<char>>, f: FilterExpr) -> bool
    decreases f,
{
    match f {
        FilterExpr::TagFilter(t) => keys.contains(t.key@),
        FilterExpr::And(l, r) => filter_keys_known(keys, *l) && filter_keys_known(keys, *r),
        FilterExpr::Or(l, r) => filter_keys_known(keys, *l) && filter_keys_known(keys, *r),
        FilterExpr::Not(e) => filter_keys_known(keys, *e),
    }
}

/// A group-by or order-by field must be a value field or a select alias.
pub open spec fn field_known(schema: Schema, select: Seq<SelectExpr>, field: Seq<char>) -> bool {
    names_view(schema.value_fields@).contains(field) || exists|j: int| 0 <= j < select.len()
        && (#[trigger] select[j].alias matches Some(a) && a@ == field)
}

/// Checks a query against the function registry and a schema.
pub struct QueryValidator {
    function_registry: FunctionRegistry,
    schema: Schema,
}

impl QueryValidator {
    pub closed spec fn spec_schema(&self) -> Schema {
        self.schema
    }

    pub closed spec fn spec_functions(&self) -> Seq<Seq<char>> {
        self.function_registry.spec_functions()
    }

    pub fn new() -> (r: Self)
        ensures
            r.spec_functions() == builtin_functions(),
            r.spec_schema().tag_keys@.len() == 0,
            r.spec_schema().value_fields@.len() == 0,
    {
        QueryValidator { function_registry: FunctionRegistry::new(), schema: Schema::new() }
    }

    pub fn with_schema(self, schema: Schema) -> (r: Self)
        ensures
            r.spec_schema() == schema,
            r.spec_functions() == self.spec_functions(),
    {
        QueryValidator { function_registry: self.function_registry, schema }
    }

    /// Checks a function call: its name and argument count, that each
    /// identifier argument is a value field, and each nested call likewise.
    pub fn validate_function_call(&self, call: &FunctionCall) -> (r: Result<(), ValidationError>)
        ensures
            r is Ok ==> self.spec_functions().contains(call.name@),
            r is Ok ==> forall|i: int| 0 <= i < call.args@.len() ==> (#[trigger] call.args@[i] matches FunctionArg::Identifier(n) ==> names_view(self.spec_schema().value_fields@).contains(n@)),
            !self.spec_functions().contains(call.name@) ==> r matches Err(ValidationError::UnknownFunction(_)),
        decreases call,
    {
        match self.function_registry.validate_arguments(call) {
            Err(e) => return Err(e),
            Ok(()) => {},
        }
        let mut i: usize = 0;
        while i < call.args.len()
            invariant
                i <= call.args@.len(),
                self.spec_functions().contains(call.name@),
                forall|j: int| 0 <= j < i ==> (#[trigger] call.args@[j] matches FunctionArg::Identifier(n) ==> names_view(self.spec_schema().value_fields@).contains(n@)),
            decreases call.args@.len() - i,
        {
            match &call.args[i] {
                FunctionArg::Identifier(name) => {
                    match self.schema.validate_value_field(name.as_str()) {
                        Err(e) => return Err(e),
                        Ok(()) => {},
                    }
                },
                FunctionArg::FunctionCall(nested) => {
                    assert(decreases_to!(call => call.args));
                    match self.validate_function_call(nested) {
                        Err(e) => return Err(e),
                        Ok(()) => {},
                    }
                },
                _ => {},
            }
            i += 1;
        }
        Ok(())
    }

    /// Checks a whole query: every selected call, the filter's tag keys,
    /// and that each group-by and order-by field is a value field or a
    /// select alias.
    pub fn validate(&self, query: &Query) -> (r: Result<(), ValidationError>)
        ensures
            r is Ok ==> forall|i: int| 0 <= i < query.select@.len() ==> self.spec_functions().contains(#[trigger] query.select@[i].function.name@),
            r is Ok ==> (query.filter matches Some(f) ==> filter_keys_known(names_view(self.spec_schema().tag_keys@), f)),
            r is Ok ==> forall|i: int| 0 <= i < query.group_by@.len() ==> field_known(self.spec_schema(), query.select@, #[trigger] query.group_by@[i]@),
            r is Ok ==> forall|i: int| 0 <= i < query.order_by@.len() ==> field_known(self.spec_schema(), query.select@, #[trigger] query.order_by@[i].0@),
            (exists|i: int| 0 <= i < query.select@.len() && !self.spec_functions().contains(#[trigger] query.select@[i].function.name@)) ==> r is Err,
    {
        let mut i: usize = 0;
        while i < query.select.len()
            invariant
                i <= query.select@.len(),
                forall|j: int| 0 <= j < i ==> self.spec_functions().contains(#[trigger] query.select@[j].function.name@),
            decreases query.select@.len() - i,
        {
            match self.validate_function_call(&query.select[i].function) {
                Err(e) => return Err(e),
                Ok(()) => {},
            }
            i += 1;
        }
        match &query.filter {
            Some(f) => {
                match self.validate_filter(f) {
                    Err(e) => return Err(e),
                    Ok(()) => {},
                }
            },
            None => {},
        }
        let mut i: usize = 0;
        while i < query.group_by.len()
            invariant
                i <= query.group_by@.len(),
                forall|j: int| 0 <= j < i ==> field_known(self.spec_schema(), query.select@, #[trigger] query.group_by@[j]@),
            decreases query.group_by@.len() - i,
        {
            if !self.field_is_known(&query.select, &query.group_by[i]) {
                return Err(ValidationError::InvalidGroupByField(query.group_by[i].clone()));
            }
            i += 1;
        }
        let mut i: usize = 0;
        while i < query.order_by.len()
            invariant
                i <= query.order_by@.len(),
                forall|j: int| 0 <= j < i ==> field_known(self.spec_schema(), query.select@, #[trigger] query.order_by@[j].0@),
            decreases query.order_by@.len() - i,
        {
            if !self.field_is_known(&query.select, &query.order_by[i].0) {
                return Err(ValidationError::InvalidOrderByField(query.order_by[i].0.clone()));
            }
            i += 1;
        }
        Ok(())
    }

    fn field_is_known(&self, select: &Vec<SelectExpr>, field: &String) -> (r: bool)
        ensures
            r == field_known(self.spec_schema(), select@, field@),
    {
        if contains_name(&self.schema.value_fields, field) {
            return true;
        }
        let mut i: usize = 0;
        while i < select.len()
            invariant
                i <= select@.len(),
                forall|j: int| 0 <= j < i ==> !(#[trigger] select@[j].alias matches Some(a) && a@ == field@),
            decreases select@.len() - i,
        {
            match &select[i].alias {
                Some(a) => {
                    if *a == *field {
                        return true;
                    }
                },
                None => {},
            }
            i += 1;
        }
        false
    }

    /// Checks that every tag key of a filter is in the schema.
    pub fn validate_filter(&self, filter: &FilterExpr) -> (r: Result<(), ValidationError>)
        ensures
            r is Ok <==> filter_keys_known(names_view(self.spec_schema().tag_keys@), *filter),
            r matches Err(e) ==> e is UnknownTagKey,
        decreases filter,
    {
        match filter {
            FilterExpr::TagFilter(tag_filter) => self.schema.validate_tag_key(tag_filter.key.as_str()),
            FilterExpr::And(left, right) => {
                match self.validate_filter(left) {
                    Err(e) => Err(e),
                    Ok(()) => self.validate_filter(right),
                }
            },
            FilterExpr::Or(left, right) => {
                match self.validate_filter(left) {
                    Err(e) => Err(e),
                    Ok(()) => self.validate_filter(right),
                }
            },
            FilterExpr::Not(expr) => self.validate_filter(expr),
        }
    }
}

} // verus!
