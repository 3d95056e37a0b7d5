//! The store itself and its four operations: create, read, update, delete.

use vstd::prelude::*;
use crate::db::model::{
    Store, lemma_filter_links, lemma_filter_tags, lemma_link_lookup, lemma_push_link,
    lemma_push_tag, lemma_set_link, lemma_set_tag, lemma_tag_lookup,
};
use crate::db::rank::{lemma_slot_unique, ranked};
use crate::db::schema::{
    DataType, Record, Relation, RelationRow, Row, Scalar, TagRecord, TagRow, Value, records,
    relations, relations_as_records, tag_records, tags_as_records,
};
use crate::seqs::{lemma_filter_ends, lemma_filter_next};
use crate::weight::Weight;

pub use crate::db::schema::{DatabaseError, Guard, Options, Predicate, Table};

verus! {

/// What an operation hands back: a success marker, or the rows of a read.
#[derive(Debug)]
pub enum DatabaseResult {
    Success(String),
    Things(Vec<Row>),
}

/// An in-memory store with the tables `tags` and `relationship`.
pub struct Database {
    tags: Vec<TagRow>,
    links: Vec<RelationRow>,
}

impl View for Database {
    type V = Store;

    closed spec fn view(&self) -> Store {
        Store { tags: tag_records(self.tags@), links: relations(self.links@) }
    }
}

/// Whether `res` is the success marker of a write that the store took.
pub open spec fn acknowledged(res: Result<DatabaseResult, DatabaseError>) -> bool {
    res matches Ok(DatabaseResult::Success(m)) && m@ == "success"@
}

/// Whether `res` is the refusal `e`.
pub open spec fn refused(res: Result<DatabaseResult, DatabaseError>, e: DatabaseError) -> bool {
    res matches Err(x) && x == e
}

impl DatabaseResult {
    /// The rows that the result carries; none for a success marker.
    pub open spec fn rows(self) -> Seq<Record> {
        match self {
            DatabaseResult::Success(_) => Seq::empty(),
            DatabaseResult::Things(v) => records(v@),
        }
    }

    /// Whether every row has a column `index`.
    pub open spec fn has_column(self, index: int) -> bool {
        forall|i: int| 0 <= i < self.rows().len() ==> (#[trigger] self.rows()[i]).value(index) is Some
    }

    /// The result of a read that found `value`: the rows, or the success
    /// marker where there are none.
    pub fn from(value: Vec<Row>) -> (r: DatabaseResult)
        ensures
            r.rows() == records(value@),
            value.len() == 0 ==> acknowledged(Ok(r)),
            value.len() > 0 ==> r == DatabaseResult::Things(value),
    {
        if value.len() == 0 {
            assert(records(value@) =~= Seq::empty());
            DatabaseResult::Success("success".to_string())
        } else {
            DatabaseResult::Things(value)
        }
    }

    /// The number of rows.
    pub fn len(&self) -> (n: usize)
        ensures
            n == self.rows().len(),
    {
        match self {
            DatabaseResult::Success(_) => 0,
            DatabaseResult::Things(v) => v.len(),
        }
    }

    /// Column `index` of every row, in row order, each value read as a `T`.
    pub fn get<T: GlueType>(&self, index: usize) -> (out: Vec<T>)
        requires
            self.has_column(index as int),
        ensures
            out.len() == self.rows().len(),
            forall|i: int|
                0 <= i < out.len() ==> (#[trigger] out[i]).stands_for(
                    self.rows()[i].value(index as int).unwrap(),
                ),
    {
        let mut out: Vec<T> = Vec::new();
        match self {
            DatabaseResult::Success(_) => {},
            DatabaseResult::Things(v) => {
                let mut i: usize = 0;
                while i < v.len()
                    invariant
                        i <= v.len(),
                        self.rows() == records(v@),
                        self.has_column(index as int),
                        out.len() == i,
                        forall|j: int|
                            0 <= j < i ==> (#[trigger] out[j]).stands_for(
                                self.rows()[j].value(index as int).unwrap(),
                            ),
                    decreases v.len() - i,
                {
                    assert(self.rows()[i as int] == v[i as int]@);
                    match v[i].get_value_by_index(index) {
                        Some(x) => {
                            out.push(T::get_content(x));
                        },
                        None => {
                            assert(false);
                        },
                    }
                    i += 1;
                }
            },
        }
        out
    }
}

/// A type that a column value can be read as.
pub trait GlueType: Sized {
    /// The column type that holds such values.
    spec fn kind() -> DataType;

    /// Whether `self` is what `thing` reads as: its content where `thing`
    /// is of this kind, the type's default where it is not.
    spec fn stands_for(&self, thing: Scalar) -> bool;

    fn get_glue_type() -> (t: DataType)
        ensures
            t == Self::kind(),
    ;

    fn get_content(thing: Value) -> (r: Self)
        ensures
            r.stands_for(thing@),
    ;
}

impl GlueType for String {
    open spec fn kind() -> DataType {
        DataType::Text
    }

    open spec fn stands_for(&self, thing: Scalar) -> bool {
        self@ == match thing {
            Scalar::Str(s) => s,
            _ => Seq::<char>::empty(),
        }
    }

    fn get_glue_type() -> (t: DataType) {
        DataType::Text
    }

    fn get_content(thing: Value) -> (r: String) {
        match thing {
            Value::Str(content) => content,
            _ => String::new(),
        }
    }
}

impl GlueType for Weight {
    open spec fn kind() -> DataType {
        DataType::Decimal
    }

    open spec fn stands_for(&self, thing: Scalar) -> bool {
        *self == match thing {
            Scalar::Decimal(w) => w,
            _ => Weight { millionths: 0 },
        }
    }

    fn get_glue_type() -> (t: DataType) {
        DataType::Decimal
    }

    fn get_content(thing: Value) -> (r: Weight) {
        match thing {
            Value::Decimal(content) => content,
            _ => Weight::from_millionths(0),
        }
    }
}

impl GlueType for bool {
    open spec fn kind() -> DataType {
        DataType::Boolean
    }

    open spec fn stands_for(&self, thing: Scalar) -> bool {
        *self == match thing {
            Scalar::Bool(b) => b,
            _ => false,
        }
    }

    fn get_glue_type() -> (t: DataType) {
        DataType::Boolean
    }

    fn get_content(thing: Value) -> (r: bool) {
        match thing {
            Value::Bool(content) => content,
            _ => false,
        }
    }
}

/// Whether `res` is what a read that selects `rows` hands back.
pub open spec fn carries(res: Result<DatabaseResult, DatabaseError>, rows: Seq<Record>) -> bool {
    &&& res matches Ok(r)
    &&& r.rows() == rows
    &&& rows.len() == 0 ==> acknowledged(res)
    &&& rows.len() > 0 ==> r is Things
}

/// The rows in order of weight, strongest first, equal weights in the
/// order given.
fn rank(rows: Vec<RelationRow>) -> (out: Vec<RelationRow>)
    ensures
        relations(out@) == ranked(relations(rows@)),
{
    let mut out: Vec<RelationRow> = Vec::new();
    let mut i: usize = 0;
    assert(relations(rows@).take(0) =~= Seq::empty());
    assert(relations(out@) =~= Seq::empty());
    while i < rows.len()
        invariant
            i <= rows.len(),
            relations(out@) == ranked(relations(rows@).take(i as int)),
        decreases rows.len() - i,
    {
        let r = rows[i].clone();
        let mut k: usize = 0;
        while k < out.len() && !r.weight.is_above(out[k].weight)
            invariant
                k <= out.len(),
                forall|j: int| 0 <= j < k ==> !r.weight.exceeds(#[trigger] relations(out@)[j].weight),
            decreases out.len() - k,
        {
            k += 1;
        }
        proof {
            let done = relations(rows@).take(i as int);
            let next = relations(rows@).take(i + 1);
            assert(next.drop_last() =~= done);
            assert(next.last() == r@);
            if k < out.len() {
                assert(relations(out@)[k as int] == out[k as int]@);
            }
            lemma_slot_unique(relations(out@), r@.weight, k as int);
        }
        let ghost before = relations(out@);
        out.insert(k, r);
        assert(relations(out@) =~= before.insert(k as int, r@));
        i += 1;
    }
    assert(relations(rows@).take(rows.len() as int) =~= relations(rows@));
    out
}

impl Database {
    /// Whether the table constraints hold.
    ///
    /// A new store keeps them and every operation preserves them; the
    /// tables are private, so at run time no store exists that breaks them.
    pub open spec fn wf(&self) -> bool {
        self@.wf()
    }

    /// A store with both tables empty.
    pub fn new() -> (db: Database)
        ensures
            db.wf(),
            db@ == Store::empty(),
    {
        let db = Database { tags: Vec::new(), links: Vec::new() };
        assert(db@.tags =~= Seq::empty());
        assert(db@.links =~= Seq::empty());
        db
    }

    fn find_tag(&self, name: &String) -> (r: Option<usize>)
        ensures
            match r {
                Some(i) => self@.tag_at(i as int, name@),
                None => !self@.has_tag(name@),
            },
    {
        let mut i: usize = 0;
        while i < self.tags.len()
            invariant
                i <= self.tags.len(),
                forall|j: int| 0 <= j < i ==> !self@.tag_at(j, name@),
            decreases self.tags.len() - i,
        {
            if self.tags[i].tag_name == *name {
                return Some(i);
            }
            i += 1;
        }
        None
    }

    fn find_link(&self, a: &String, b: &String) -> (r: Option<usize>)
        ensures
            match r {
                Some(i) => self@.link_at(i as int, a@, b@),
                None => !self@.has_link(a@, b@),
            },
    {
        let mut i: usize = 0;
        while i < self.links.len()
            invariant
                i <= self.links.len(),
                forall|j: int| 0 <= j < i ==> !self@.link_at(j, a@, b@),
            decreases self.links.len() - i,
        {
            if self.links[i].tag1 == *a && self.links[i].tag2 == *b {
                return Some(i);
            }
            i += 1;
        }
        None
    }

    /// Inserts `row` into its table.
    ///
    /// A row whose key is taken is refused as a unique violation; a
    /// relationship one of whose ends is not a tag is refused as a backend
    /// failure.  A refused row leaves the store as it was.
    pub fn create(&mut self, row: Row) -> (res: Result<DatabaseResult, DatabaseError>)
        requires
            old(self).wf(),
        ensures
            final(self).wf(),
            match old(self)@.created(row@) {
                Ok(s) => final(self)@ == s && acknowledged(res),
                Err(e) => final(self)@ == old(self)@ && refused(res, e),
            },
    {
        match row {
            Row::Tag(t) => {
                if self.find_tag(&t.tag_name).is_some() {
                    return Err(DatabaseError::UniqueViolation);
                }
                proof {
                    lemma_push_tag(self@, t@);
                }
                self.tags.push(t);
                assert(self@.tags =~= old(self)@.tags.push(t@));
            },
            Row::Relation(r) => {
                if self.find_link(&r.tag1, &r.tag2).is_some() {
                    return Err(DatabaseError::UniqueViolation);
                }
                if self.find_tag(&r.tag1).is_none() || self.find_tag(&r.tag2).is_none() {
                    return Err(DatabaseError::BackendFailure);
                }
                proof {
                    lemma_push_link(self@, r@);
                }
                self.links.push(r);
                assert(self@.links =~= old(self)@.links.push(r@));
            },
        }
        Ok(DatabaseResult::Success("success".to_string()))
    }

    /// Inserts `row`, or where its key is taken, overwrites the stored row
    /// if `cond` permits it and leaves it alone if not.
    ///
    /// A guard on weights does not fit a tag, and a new relationship one of
    /// whose ends is not a tag cannot be inserted: both are refused as
    /// backend failures and leave the store as it was.
    pub fn update(&mut self, row: Row, cond: Guard) -> (res: Result<DatabaseResult, DatabaseError>)
        requires
            old(self).wf(),
        ensures
            final(self).wf(),
            match old(self)@.upserted(row@, cond) {
                Ok(s) => final(self)@ == s && acknowledged(res),
                Err(e) => final(self)@ == old(self)@ && refused(res, e),
            },
    {
        if let Row::Tag(_) = &row {
            if cond != Guard::Always {
                return Err(DatabaseError::BackendFailure);
            }
        }
        match self.create(row.clone()) {
            Err(DatabaseError::UniqueViolation) => {},
            other => {
                return other;
            },
        }
        match row {
            Row::Tag(t) => {
                match self.find_tag(&t.tag_name) {
                    Some(i) => {
                        proof {
                            lemma_tag_lookup(self@, i as int, t@.name);
                            lemma_set_tag(self@, i as int, t@);
                        }
                        self.tags[i] = t;
                        assert(self@.tags =~= old(self)@.tags.update(i as int, t@));
                    },
                    None => {
                        assert(false);
                    },
                }
            },
            Row::Relation(r) => {
                match self.find_link(&r.tag1, &r.tag2) {
                    Some(i) => {
                        proof {
                            lemma_link_lookup(self@, i as int, r@.tag1, r@.tag2);
                            lemma_set_link(self@, i as int, r@);
                        }
                        if cond.allows(&self.links[i], &r) {
                            self.links[i] = r;
                            assert(self@.links =~= old(self)@.links.update(i as int, r@));
                        }
                    },
                    None => {
                        assert(false);
                    },
                }
            },
        }
        Ok(DatabaseResult::Success("success".to_string()))
    }

    /// Deletes the rows of `table` that pass `cond`.
    ///
    /// A filter that does not fit the table, and a delete that would take a
    /// tag that a relationship still names, are refused as backend failures
    /// and leave the store as it was.
    pub fn delete(&mut self, table: Table, cond: &Predicate) -> (res: Result<
        DatabaseResult,
        DatabaseError,
    >)
        requires
            old(self).wf(),
        ensures
            final(self).wf(),
            match old(self)@.deleted(table, cond@) {
                Ok(s) => final(self)@ == s && acknowledged(res),
                Err(e) => final(self)@ == old(self)@ && refused(res, e),
            },
    {
        if !cond.suits(table) {
            return Err(DatabaseError::BackendFailure);
        }
        match table {
            Table::Tags => {
                let mut j: usize = 0;
                while j < self.links.len()
                    invariant
                        j <= self.links.len(),
                        self.wf(),
                        *self == *old(self),
                        cond@.fits(table),
                        table == Table::Tags,
                        forall|x: int|
                            #![trigger self@.links[x]]
                            0 <= x < j ==> !cond@.holds_of_name(self@.links[x].tag1)
                                && !cond@.holds_of_name(self@.links[x].tag2),
                    decreases self.links.len() - j,
                {
                    if cond.passes_name(&self.links[j].tag1) || cond.passes_name(
                        &self.links[j].tag2,
                    ) {
                        assert(self@.links[j as int] == self.links[j as int]@);
                        assert(self@.names_in_use(cond@));
                        return Err(DatabaseError::BackendFailure);
                    }
                    j += 1;
                }
                let ghost keep = |t: TagRecord| !cond@.holds_of_name(t.name);
                let mut kept: Vec<TagRow> = Vec::new();
                let mut i: usize = 0;
                proof {
                    lemma_filter_ends(self@.tags, keep);
                    assert(tag_records(kept@) =~= Seq::empty());
                }
                while i < self.tags.len()
                    invariant
                        i <= self.tags.len(),
                        keep == |t: TagRecord| !cond@.holds_of_name(t.name),
                        tag_records(kept@) == self@.tags.take(i as int).filter(keep),
                    decreases self.tags.len() - i,
                {
                    proof {
                        lemma_filter_next(self@.tags, keep, i as int);
                    }
                    let ghost before = tag_records(kept@);
                    if !cond.passes_name(&self.tags[i].tag_name) {
                        kept.push(self.tags[i].clone());
                        assert(tag_records(kept@) =~= before.push(self.tags[i as int]@));
                    }
                    i += 1;
                }
                proof {
                    lemma_filter_ends(self@.tags, keep);
                    lemma_filter_tags(self@, keep);
                }
                self.tags = kept;
            },
            Table::Relationship => {
                let ghost keep = |r: Relation| !cond@.holds_of(r);
                let mut kept: Vec<RelationRow> = Vec::new();
                let mut i: usize = 0;
                proof {
                    lemma_filter_ends(self@.links, keep);
                    assert(relations(kept@) =~= Seq::empty());
                }
                while i < self.links.len()
                    invariant
                        i <= self.links.len(),
                        keep == |r: Relation| !cond@.holds_of(r),
                        relations(kept@) == self@.links.take(i as int).filter(keep),
                    decreases self.links.len() - i,
                {
                    proof {
                        lemma_filter_next(self@.links, keep, i as int);
                    }
                    let ghost before = relations(kept@);
                    if !cond.passes(&self.links[i]) {
                        kept.push(self.links[i].clone());
                        assert(relations(kept@) =~= before.push(self.links[i as int]@));
                    }
                    i += 1;
                }
                proof {
                    lemma_filter_ends(self@.links, keep);
                    lemma_filter_links(self@, keep);
                }
                self.links = kept;
            },
        }
        Ok(DatabaseResult::Success("success".to_string()))
    }

    /// Reads the rows of `table` that pass `cond`, ordered as `opts` says.
    ///
    /// A filter that does not fit the table, and an order by weight on
    /// `tags`, are refused as backend failures.
    pub fn read(&self, table: Table, cond: &Predicate, opts: Options) -> (res: Result<
        DatabaseResult,
        DatabaseError,
    >)
        ensures
            match self@.selected(table, cond@, opts) {
                Ok(rows) => carries(res, rows),
                Err(e) => refused(res, e),
            },
    {
        if !cond.suits(table) {
            return Err(DatabaseError::BackendFailure);
        }
        let mut out: Vec<Row> = Vec::new();
        match table {
            Table::Tags => {
                if opts == Options::OrderByWeight {
                    return Err(DatabaseError::BackendFailure);
                }
                let ghost keep = |t: TagRecord| cond@.holds_of_name(t.name);
                let mut i: usize = 0;
                proof {
                    lemma_filter_ends(self@.tags, keep);
                    assert(records(out@) =~= tags_as_records(Seq::empty()));
                }
                while i < self.tags.len()
                    invariant
                        i <= self.tags.len(),
                        keep == |t: TagRecord| cond@.holds_of_name(t.name),
                        records(out@) == tags_as_records(self@.tags.take(i as int).filter(keep)),
                    decreases self.tags.len() - i,
                {
                    proof {
                        lemma_filter_next(self@.tags, keep, i as int);
                    }
                    let ghost before = self@.tags.take(i as int).filter(keep);
                    let ghost prior = records(out@);
                    if cond.passes_name(&self.tags[i].tag_name) {
                        out.push(Row::Tag(self.tags[i].clone()));
                        assert(records(out@) =~= prior.push(Record::Tag(self@.tags[i as int])));
                        assert(prior.push(Record::Tag(self@.tags[i as int])) =~= tags_as_records(
                            before.push(self@.tags[i as int]),
                        ));
                    }
                    i += 1;
                }
            },
            Table::Relationship => {
                let ghost keep = |r: Relation| cond@.holds_of(r);
                let mut found: Vec<RelationRow> = Vec::new();
                let mut i: usize = 0;
                proof {
                    lemma_filter_ends(self@.links, keep);
                    assert(relations(found@) =~= Seq::empty());
                }
                while i < self.links.len()
                    invariant
                        i <= self.links.len(),
                        keep == |r: Relation| cond@.holds_of(r),
                        relations(found@) == self@.links.take(i as int).filter(keep),
                    decreases self.links.len() - i,
                {
                    proof {
                        lemma_filter_next(self@.links, keep, i as int);
                    }
                    let ghost before = relations(found@);
                    if cond.passes(&self.links[i]) {
                        found.push(self.links[i].clone());
                        assert(relations(found@) =~= before.push(self.links[i as int]@));
                    }
                    i += 1;
                }
                let found = if opts == Options::OrderByWeight {
                    rank(found)
                } else {
                    found
                };
                let mut k: usize = 0;
                assert(records(out@) =~= relations_as_records(relations(found@).take(0)));
                while k < found.len()
                    invariant
                        k <= found.len(),
                        records(out@) == relations_as_records(relations(found@).take(k as int)),
                    decreases found.len() - k,
                {
                    let ghost prior = records(out@);
                    out.push(Row::Relation(found[k].clone()));
                    assert(records(out@) =~= prior.push(Record::Relation(found[k as int]@)));
                    assert(prior.push(Record::Relation(found[k as int]@)) =~= relations_as_records(
                        relations(found@).take(k + 1),
                    ));
                    k += 1;
                }
                assert(relations(found@).take(found.len() as int) =~= relations(found@));
            },
        }
        Ok(DatabaseResult::from(out))
    }
}

} // verus!
