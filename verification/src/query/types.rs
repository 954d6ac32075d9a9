//! The abstract syntax of object queries and their results.

use vstd::prelude::*;

verus! {

/// `SELECT … FROM … [WHERE …] [LIMIT n]`.
#[derive(Debug, PartialEq, Eq)]
pub struct Query {
    pub select: SelectClause,
    pub from: FromClause,
    pub filter: Option<WhereClause>,
    pub limit: Option<usize>,
}

/// What a query projects.
#[derive(Debug, Clone, PartialEq, Eq)]
pub enum SelectClause {
    All,
    Fields(Vec<FieldRef>),
    /// Objects referenced through a field, duplicates kept.
    Objects(FieldRef),
    /// Objects referenced through a field, each once, first seen first.
    DistinctObjects(FieldRef),
}

/// A built-in attribute or an instance field path.
#[derive(Debug, Clone, PartialEq, Eq)]
pub enum FieldRef {
    BuiltIn(BuiltInField),
    InstanceField(String),
}

/// The `@` attributes.
#[derive(Debug, Clone, Copy, PartialEq, Eq, Structural)]
pub enum BuiltInField {
    ObjectId,
    ClassName,
    ShallowSize,
    RetainedSize,
    ObjectAddress,
    ToString,
    GcRootPath,
}

/// Where candidate objects come from.
#[derive(Debug, PartialEq, Eq)]
pub struct FromClause {
    pub class_pattern: ClassPattern,
    pub instanceof: bool,
}

/// Largest number of class patterns in one `FROM` list.
pub const MAX_MULTI_CLASS_FROM_LIST_SIZE: usize = 8;

/// Largest number of reference hops in `SELECT OBJECTS`.
pub const MAX_OBJECTS_FIELD_HOPS: usize = 3;

/// A `FROM` source.
#[derive(Debug, PartialEq, Eq)]
pub enum ClassPattern {
    Exact(String),
    Glob(String),
    /// Two or more comma-separated patterns.
    Multi(Vec<ClassPattern>),
    /// `outbounds(id)`, `inbounds(id)` or `dominators(id)`.
    Traversal(TraversalFunction),
    /// `OBJECTS (<query>)`, one level deep.
    Subquery(Box<Query>),
}

/// The traversal functions of `FROM`.
#[derive(Debug, Clone, Copy, PartialEq, Eq, Structural)]
pub enum TraversalFunction {
    /// Objects the given object references.
    Outbounds(u64),
    /// Objects that reference the given object.
    Inbounds(u64),
    /// The immediate dominators of the given object, nearest first.
    Dominators(u64),
}

/// Conditions joined left to right by `operators`.
#[derive(Debug, Clone, PartialEq, Eq)]
pub struct WhereClause {
    pub conditions: Vec<Condition>,
    pub operators: Vec<LogicalOp>,
}

/// `AND` or `OR`.
#[derive(Debug, Clone, Copy, PartialEq, Eq, Structural)]
pub enum LogicalOp {
    And,
    Or,
}

/// `field op value`.
#[derive(Debug, Clone, PartialEq, Eq)]
pub struct Condition {
    pub field: FieldRef,
    pub op: ComparisonOp,
    pub value: Value,
}

/// Comparison operators.
#[derive(Debug, Clone, Copy, PartialEq, Eq, Structural)]
pub enum ComparisonOp {
    Eq,
    Ne,
    Gt,
    Lt,
    Ge,
    Le,
    /// SQL pattern: `%` any run, `_` any one character.
    Like,
    /// Case-sensitive substring.
    Contains,
    /// `=~`, a regular expression.
    RegexMatch,
    IsNull,
    IsNotNull,
    InstanceOf,
}

/// A literal.
#[derive(Debug, Clone, PartialEq, Eq)]
pub enum Value {
    Int(i64),
    Str(String),
    Null,
    Bool(bool),
}

/// One query, or two joined by `UNION`.
#[derive(Debug, PartialEq, Eq)]
pub enum QueryStatement {
    Single(Query),
    Union(Query, Query),
}

/// A table of results.
#[derive(Debug, Clone, PartialEq, Eq)]
pub struct QueryResult {
    pub columns: Vec<String>,
    pub rows: Vec<Vec<CellValue>>,
    pub total_matched: usize,
    pub truncated: bool,
}

/// One result cell.
#[derive(Debug, Clone, PartialEq, Eq)]
pub enum CellValue {
    Id(u64),
    Str(String),
    Int(i64),
    Bool(bool),
    Null,
}

/// Why a query cannot be evaluated.
#[derive(Debug, Clone, PartialEq, Eq)]
pub enum QueryError {
    FeatureUnavailableInOverviewMode { feature: String, hint: String },
    NotImplemented(String),
    Unsupported(String),
}

/// The text of a query error.
pub open spec fn query_error_text(e: QueryError) -> Seq<char> {
    match e {
        QueryError::FeatureUnavailableInOverviewMode { feature, .. } => "'"@ + feature@
            + "' is a deep-mode-only OQL feature."@,
        QueryError::NotImplemented(d) => "Operation not yet implemented: "@ + d@,
        QueryError::Unsupported(d) => "Unsupported operation: "@ + d@,
    }
}

impl QueryError {
    /// The error's text.
    pub fn to_string(&self) -> (s: String)
        ensures
            s@ == query_error_text(*self),
    {
        let mut out: Vec<char> = Vec::new();
        match self {
            QueryError::FeatureUnavailableInOverviewMode { feature, .. } => {
                crate::text::push_str(&mut out, "'");
                crate::text::push_str(&mut out, feature.as_str());
                crate::text::push_str(&mut out, "' is a deep-mode-only OQL feature.");
            },
            QueryError::NotImplemented(d) => {
                crate::text::push_str(&mut out, "Operation not yet implemented: ");
                crate::text::push_str(&mut out, d.as_str());
            },
            QueryError::Unsupported(d) => {
                crate::text::push_str(&mut out, "Unsupported operation: ");
                crate::text::push_str(&mut out, d.as_str());
            },
        }
        proof {
            assert(out@ =~= query_error_text(*self));
        }
        crate::text::string_from_chars(&out)
    }

    /// A feature that needs the full object graph.
    pub fn feature_unavailable_in_overview_mode(feature: &str, hint: &str) -> (e: Self)
        ensures
            e matches QueryError::FeatureUnavailableInOverviewMode { feature: f, hint: h } && f@ == feature@ && h@ == hint@,
    {
        QueryError::FeatureUnavailableInOverviewMode { feature: feature.to_owned(), hint: hint.to_owned() }
    }
}

/// A syntax error, with the byte offset where it was noticed.
#[derive(Debug, Clone, PartialEq, Eq)]
pub struct QueryParseError {
    message: String,
}

impl QueryParseError {
    /// An error with the given message.
    pub fn new(message: String) -> (e: Self)
        ensures
            e.message_view() == message@,
    {
        QueryParseError { message }
    }

    /// The message.
    pub closed spec fn message_view(&self) -> Seq<char> {
        self.message@
    }

    /// The message text.
    pub fn to_string(&self) -> (s: String)
        ensures
            s@ == self.message_view(),
    {
        self.message.clone()
    }
}

} // verus!
