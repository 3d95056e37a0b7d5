//! Rows, values and query parameters of the store, with their views.

use vstd::prelude::*;
use crate::weight::Weight;

verus! {

/// The two tables of the store.
#[derive(Clone, Copy, Debug, PartialEq, Eq, Structural)]
pub enum Table {
    Tags,
    Relationship,
}

/// The condition under which an upsert overwrites a row that is already there.
#[derive(Clone, Copy, Debug, PartialEq, Eq, Structural)]
pub enum Guard {
    /// Overwrite in every case.
    Always,
    /// Overwrite a relationship only if the new weight is strictly greater
    /// than the stored one and the stored row is not an origin edge.
    HeavierDerived,
}

/// How the rows of a read are ordered.
#[derive(Clone, Copy, Debug, PartialEq, Eq, Structural)]
pub enum Options {
    /// In the order in which the table holds them.
    Plain,
    /// Strongest first; rows of equal weight stay in table order.
    OrderByWeight,
}

/// Why the store turned an operation down.
#[derive(Clone, Copy, Debug, PartialEq, Eq, Structural)]
pub enum DatabaseError {
    /// A row with the same primary key is already there.
    UniqueViolation,
    /// Any other refusal: a relationship whose end is not a tag, a tag that
    /// relationships still name, or a query that does not fit its table.
    BackendFailure,
}

/// A row of `tags` as contracts see it.
pub struct TagRecord {
    pub name: Seq<char>,
    pub info: Option<Seq<char>>,
}

/// A row of `relationship` as contracts see it.
pub struct Relation {
    pub tag1: Seq<char>,
    pub tag2: Seq<char>,
    pub weight: Weight,
    pub is_origin: bool,
}

/// A row of either table as contracts see it.
pub enum Record {
    Tag(TagRecord),
    Relation(Relation),
}

/// A single column value as contracts see it.
pub enum Scalar {
    Str(Seq<char>),
    Decimal(Weight),
    Bool(bool),
    Null,
}

/// A row filter as contracts see it.
pub enum Filter {
    True,
    TagNameIs(Seq<char>),
    Tag1Is(Seq<char>),
    Tag2Is(Seq<char>),
    PairIs(Seq<char>, Seq<char>),
    IsOrigin(bool),
}

/// Tag rows as rows of either table.
pub open spec fn tags_as_records(rows: Seq<TagRecord>) -> Seq<Record> {
    rows.map_values(|t: TagRecord| Record::Tag(t))
}

/// Relationship rows as rows of either table.
pub open spec fn relations_as_records(rows: Seq<Relation>) -> Seq<Record> {
    rows.map_values(|r: Relation| Record::Relation(r))
}

/// The text behind an optional string.
pub open spec fn text_of(s: Option<String>) -> Option<Seq<char>> {
    match s {
        Some(t) => Some(t@),
        None => None,
    }
}

impl Record {
    /// The value in column `index`, counting the table's columns from zero.
    pub open spec fn value(self, index: int) -> Option<Scalar> {
        match self {
            Record::Tag(t) => if index == 0 {
                Some(Scalar::Str(t.name))
            } else if index == 1 {
                Some(
                    match t.info {
                        Some(s) => Scalar::Str(s),
                        None => Scalar::Null,
                    },
                )
            } else {
                None
            },
            Record::Relation(r) => if index == 0 {
                Some(Scalar::Str(r.tag1))
            } else if index == 1 {
                Some(Scalar::Str(r.tag2))
            } else if index == 2 {
                Some(Scalar::Decimal(r.weight))
            } else if index == 3 {
                Some(Scalar::Bool(r.is_origin))
            } else {
                None
            },
        }
    }
}

impl Filter {
    /// Whether the filter speaks of columns that `table` has.
    pub open spec fn fits(self, table: Table) -> bool {
        match self {
            Filter::True => true,
            Filter::TagNameIs(_) => table == Table::Tags,
            _ => table == Table::Relationship,
        }
    }

    /// Whether a tag of this name passes a filter on `tags`.
    pub open spec fn holds_of_name(self, name: Seq<char>) -> bool {
        match self {
            Filter::True => true,
            Filter::TagNameIs(n) => name == n,
            _ => false,
        }
    }

    /// Whether a relationship passes a filter on `relationship`.
    pub open spec fn holds_of(self, r: Relation) -> bool {
        match self {
            Filter::True => true,
            Filter::Tag1Is(n) => r.tag1 == n,
            Filter::Tag2Is(n) => r.tag2 == n,
            Filter::PairIs(a, b) => r.tag1 == a && r.tag2 == b,
            Filter::IsOrigin(o) => r.is_origin == o,
            Filter::TagNameIs(_) => false,
        }
    }
}

impl Guard {
    /// Whether `new` may overwrite `stored` under this guard.
    pub open spec fn permits(self, stored: Relation, new: Relation) -> bool {
        match self {
            Guard::Always => true,
            Guard::HeavierDerived => new.weight.exceeds(stored.weight) && !stored.is_origin,
        }
    }
}

/// A row of `tags`.
#[derive(Debug)]
pub struct TagRow {
    pub tag_name: String,
    pub info: Option<String>,
}

/// A row of `relationship`.
#[derive(Debug)]
pub struct RelationRow {
    pub tag1: String,
    pub tag2: String,
    pub weight: Weight,
    pub is_origin: bool,
}

/// A row of either table.
#[derive(Debug)]
pub enum Row {
    Tag(TagRow),
    Relation(RelationRow),
}

/// A single column value.
#[derive(Debug)]
pub enum Value {
    Str(String),
    Decimal(Weight),
    Bool(bool),
    Null,
}

/// The type of a column.
#[derive(Clone, Copy, Debug, PartialEq, Eq, Structural)]
pub enum DataType {
    Text,
    Decimal,
    Boolean,
}

/// A filter on the rows of a table.
#[derive(Debug)]
pub enum Predicate {
    /// Every row.
    True,
    /// `tag_name = ..`, on `tags`.
    TagNameIs(String),
    /// `tag1 = ..`, on `relationship`.
    Tag1Is(String),
    /// `tag2 = ..`, on `relationship`.
    Tag2Is(String),
    /// `tag1 = .. AND tag2 = ..`, on `relationship`.
    PairIs(String, String),
    /// `is_origin = ..`, on `relationship`.
    IsOrigin(bool),
}

impl View for TagRow {
    type V = TagRecord;

    open spec fn view(&self) -> TagRecord {
        TagRecord { name: self.tag_name@, info: text_of(self.info) }
    }
}

impl View for RelationRow {
    type V = Relation;

    open spec fn view(&self) -> Relation {
        Relation {
            tag1: self.tag1@,
            tag2: self.tag2@,
            weight: self.weight,
            is_origin: self.is_origin,
        }
    }
}

impl View for Row {
    type V = Record;

    open spec fn view(&self) -> Record {
        match self {
            Row::Tag(t) => Record::Tag(t@),
            Row::Relation(r) => Record::Relation(r@),
        }
    }
}

impl View for Value {
    type V = Scalar;

    open spec fn view(&self) -> Scalar {
        match self {
            Value::Str(s) => Scalar::Str(s@),
            Value::Decimal(w) => Scalar::Decimal(*w),
            Value::Bool(b) => Scalar::Bool(*b),
            Value::Null => Scalar::Null,
        }
    }
}

impl View for Predicate {
    type V = Filter;

    open spec fn view(&self) -> Filter {
        match self {
            Predicate::True => Filter::True,
            Predicate::TagNameIs(n) => Filter::TagNameIs(n@),
            Predicate::Tag1Is(n) => Filter::Tag1Is(n@),
            Predicate::Tag2Is(n) => Filter::Tag2Is(n@),
            Predicate::PairIs(a, b) => Filter::PairIs(a@, b@),
            Predicate::IsOrigin(o) => Filter::IsOrigin(*o),
        }
    }
}

/// The views of a sequence of rows.
pub open spec fn records(rows: Seq<Row>) -> Seq<Record> {
    rows.map_values(|r: Row| r@)
}

/// The views of a sequence of tag rows.
pub open spec fn tag_records(rows: Seq<TagRow>) -> Seq<TagRecord> {
    rows.map_values(|r: TagRow| r@)
}

/// The views of a sequence of relationship rows.
pub open spec fn relations(rows: Seq<RelationRow>) -> Seq<Relation> {
    rows.map_values(|r: RelationRow| r@)
}

/// The text of an optional text, empty where there is none.
pub open spec fn or_empty(text: Option<Seq<char>>) -> Seq<char> {
    match text {
        Some(t) => t,
        None => Seq::empty(),
    }
}

/// The string of an optional string, empty where there is none.
pub fn text_or_empty(text: Option<String>) -> (out: String)
    ensures
        out@ == or_empty(text_of(text)),
{
    match text {
        Some(t) => t,
        None => String::new(),
    }
}

/// A copy of an optional string.
pub fn copy_text(s: &Option<String>) -> (r: Option<String>)
    ensures
        text_of(r) == text_of(*s),
{
    match s {
        Some(t) => Some(t.clone()),
        None => None,
    }
}

impl Clone for TagRow {
    fn clone(&self) -> (r: Self)
        ensures
            r@ == self@,
    {
        TagRow { tag_name: self.tag_name.clone(), info: copy_text(&self.info) }
    }
}

impl Clone for RelationRow {
    fn clone(&self) -> (r: Self)
        ensures
            r@ == self@,
    {
        RelationRow {
            tag1: self.tag1.clone(),
            tag2: self.tag2.clone(),
            weight: self.weight,
            is_origin: self.is_origin,
        }
    }
}

impl Clone for Row {
    fn clone(&self) -> (r: Self)
        ensures
            r@ == self@,
    {
        match self {
            Row::Tag(t) => Row::Tag(t.clone()),
            Row::Relation(l) => Row::Relation(l.clone()),
        }
    }
}

impl DatabaseError {
    /// The error in words.
    pub open spec fn text(self) -> Seq<char> {
        match self {
            DatabaseError::UniqueViolation => "unique violation"@,
            DatabaseError::BackendFailure => "backend failure"@,
        }
    }

    /// The error in words.
    pub fn to_string(&self) -> (line: String)
        ensures
            line@ == self.text(),
    {
        match self {
            DatabaseError::UniqueViolation => "unique violation".to_string(),
            DatabaseError::BackendFailure => "backend failure".to_string(),
        }
    }
}

impl Predicate {
    /// Whether the filter speaks of columns that `table` has.
    pub fn suits(&self, table: Table) -> (b: bool)
        ensures
            b == self@.fits(table),
    {
        match self {
            Predicate::True => true,
            Predicate::TagNameIs(_) => table == Table::Tags,
            _ => table == Table::Relationship,
        }
    }

    /// Whether a tag of this name passes the filter.
    pub fn passes_name(&self, name: &String) -> (b: bool)
        ensures
            b == self@.holds_of_name(name@),
    {
        match self {
            Predicate::True => true,
            Predicate::TagNameIs(n) => *name == *n,
            _ => false,
        }
    }

    /// Whether a relationship passes the filter.
    pub fn passes(&self, r: &RelationRow) -> (b: bool)
        ensures
            b == self@.holds_of(r@),
    {
        match self {
            Predicate::True => true,
            Predicate::Tag1Is(n) => r.tag1 == *n,
            Predicate::Tag2Is(n) => r.tag2 == *n,
            Predicate::PairIs(a, b) => r.tag1 == *a && r.tag2 == *b,
            Predicate::IsOrigin(o) => r.is_origin == *o,
            Predicate::TagNameIs(_) => false,
        }
    }
}

impl Guard {
    /// Whether `new` may overwrite `stored` under this guard.
    pub fn allows(self, stored: &RelationRow, new: &RelationRow) -> (b: bool)
        ensures
            b == self.permits(stored@, new@),
    {
        match self {
            Guard::Always => true,
            Guard::HeavierDerived => new.weight.is_above(stored.weight) && !stored.is_origin,
        }
    }
}

impl Row {
    /// The value in column `index`, or `None` where the row has no such column.
    pub fn get_value_by_index(&self, index: usize) -> (v: Option<Value>)
        ensures
            match v {
                Some(x) => self@.value(index as int) == Some(x@),
                None => self@.value(index as int).is_none(),
            },
    {
        match self {
            Row::Tag(t) => {
                if index == 0 {
                    Some(Value::Str(t.tag_name.clone()))
                } else if index == 1 {
                    match &t.info {
                        Some(s) => Some(Value::Str(s.clone())),
                        None => Some(Value::Null),
                    }
                } else {
                    None
                }
            },
            Row::Relation(r) => {
                if index == 0 {
                    Some(Value::Str(r.tag1.clone()))
                } else if index == 1 {
                    Some(Value::Str(r.tag2.clone()))
                } else if index == 2 {
                    Some(Value::Decimal(r.weight))
                } else if index == 3 {
                    Some(Value::Bool(r.is_origin))
                } else {
                    None
                }
            },
        }
    }
}

} // verus!
