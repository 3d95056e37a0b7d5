//! The store as contracts see it: two sequences of rows, and what each
//! of the four operations makes of them.

use vstd::prelude::*;
use crate::db::rank::ranked;
use crate::seqs::{distinct, lemma_filter_distinct};
use crate::db::schema::{
    DatabaseError, Filter, Guard, Options, Record, Relation, Table, TagRecord, relations_as_records,
    tags_as_records,
};

verus! {

/// The contents of the store, each table in the order in which rows came in.
pub struct Store {
    pub tags: Seq<TagRecord>,
    pub links: Seq<Relation>,
}

impl Store {
    /// A store without rows.
    pub open spec fn empty() -> Store {
        Store { tags: Seq::empty(), links: Seq::empty() }
    }

    /// Whether row `i` of `tags` is the tag `name`.
    pub open spec fn tag_at(self, i: int, name: Seq<char>) -> bool {
        0 <= i < self.tags.len() && self.tags[i].name == name
    }

    /// Whether `tags` has a row for `name`.
    pub open spec fn has_tag(self, name: Seq<char>) -> bool {
        exists|i: int| self.tag_at(i, name)
    }

    /// The position of the row for `name`.
    pub open spec fn tag_index(self, name: Seq<char>) -> int {
        choose|i: int| self.tag_at(i, name)
    }

    /// The row for `name`, if there is one.
    pub open spec fn tag(self, name: Seq<char>) -> Option<TagRecord> {
        if self.has_tag(name) {
            Some(self.tags[self.tag_index(name)])
        } else {
            None
        }
    }

    /// Whether row `i` of `relationship` is the edge from `a` to `b`.
    pub open spec fn link_at(self, i: int, a: Seq<char>, b: Seq<char>) -> bool {
        0 <= i < self.links.len() && self.links[i].tag1 == a && self.links[i].tag2 == b
    }

    /// Whether `relationship` has a row for the edge from `a` to `b`.
    pub open spec fn has_link(self, a: Seq<char>, b: Seq<char>) -> bool {
        exists|i: int| self.link_at(i, a, b)
    }

    /// The position of the row for the edge from `a` to `b`.
    pub open spec fn link_index(self, a: Seq<char>, b: Seq<char>) -> int {
        choose|i: int| self.link_at(i, a, b)
    }

    /// The row for the edge from `a` to `b`, if there is one.
    pub open spec fn link(self, a: Seq<char>, b: Seq<char>) -> Option<Relation> {
        if self.has_link(a, b) {
            Some(self.links[self.link_index(a, b)])
        } else {
            None
        }
    }

    /// Whether no two rows of `tags` have the same name.
    pub open spec fn unique_tags(self) -> bool {
        forall|i: int, j: int|
            0 <= i < self.tags.len() && 0 <= j < self.tags.len() && (#[trigger] self.tags[i]).name == (
            #[trigger] self.tags[j]).name ==> i == j
    }

    /// Whether no two rows of `relationship` have the same ordered pair of ends.
    pub open spec fn unique_links(self) -> bool {
        forall|i: int, j: int|
            0 <= i < self.links.len() && 0 <= j < self.links.len() && (#[trigger] self.links[i]).tag1 == (
            #[trigger] self.links[j]).tag1 && self.links[i].tag2 == self.links[j].tag2 ==> i == j
    }

    /// Whether both ends of every relationship are tags.
    pub open spec fn ends_exist(self) -> bool {
        forall|i: int|
            #![trigger self.links[i]]
            0 <= i < self.links.len() ==> self.has_tag(self.links[i].tag1) && self.has_tag(
                self.links[i].tag2,
            )
    }

    /// The table constraints: primary keys occur once, and both ends of
    /// every relationship are tags.
    pub open spec fn wf(self) -> bool {
        &&& self.unique_tags()
        &&& self.unique_links()
        &&& self.ends_exist()
    }

    /// The names of all tags, in table order.
    pub open spec fn names(self) -> Seq<Seq<char>> {
        self.tags.map_values(|t: TagRecord| t.name)
    }

    /// The relationships that pass `cond`, in table order.
    pub open spec fn matching(self, cond: Filter) -> Seq<Relation> {
        self.links.filter(|r: Relation| cond.holds_of(r))
    }

    /// The tags that pass `cond`, in table order.
    pub open spec fn matching_tags(self, cond: Filter) -> Seq<TagRecord> {
        self.tags.filter(|t: TagRecord| cond.holds_of_name(t.name))
    }

    /// The edges that leave `name`, in table order.
    pub open spec fn links_from(self, name: Seq<char>) -> Seq<Relation> {
        self.matching(Filter::Tag1Is(name))
    }

    /// Whether some relationship names a tag that `cond` selects.
    pub open spec fn names_in_use(self, cond: Filter) -> bool {
        exists|i: int|
            #![trigger self.links[i]]
            0 <= i < self.links.len() && (cond.holds_of_name(self.links[i].tag1) || cond.holds_of_name(
                self.links[i].tag2,
            ))
    }

    /// Insert: the row is appended, unless its key is taken or, for a
    /// relationship, one of its ends is not a tag.
    pub open spec fn created(self, rec: Record) -> Result<Store, DatabaseError> {
        match rec {
            Record::Tag(t) => if self.has_tag(t.name) {
                Err(DatabaseError::UniqueViolation)
            } else {
                Ok(Store { tags: self.tags.push(t), links: self.links })
            },
            Record::Relation(r) => if self.has_link(r.tag1, r.tag2) {
                Err(DatabaseError::UniqueViolation)
            } else if !(self.has_tag(r.tag1) && self.has_tag(r.tag2)) {
                Err(DatabaseError::BackendFailure)
            } else {
                Ok(Store { tags: self.tags, links: self.links.push(r) })
            },
        }
    }

    /// Insert, or on a key that is taken, overwrite the stored row in place
    /// where `guard` permits it and leave it alone where not.
    pub open spec fn upserted(self, rec: Record, guard: Guard) -> Result<Store, DatabaseError> {
        match rec {
            Record::Tag(t) => if guard != Guard::Always {
                Err(DatabaseError::BackendFailure)
            } else if self.has_tag(t.name) {
                Ok(Store { tags: self.tags.update(self.tag_index(t.name), t), links: self.links })
            } else {
                Ok(Store { tags: self.tags.push(t), links: self.links })
            },
            Record::Relation(r) => if self.has_link(r.tag1, r.tag2) {
                let i = self.link_index(r.tag1, r.tag2);
                if guard.permits(self.links[i], r) {
                    Ok(Store { tags: self.tags, links: self.links.update(i, r) })
                } else {
                    Ok(self)
                }
            } else if !(self.has_tag(r.tag1) && self.has_tag(r.tag2)) {
                Err(DatabaseError::BackendFailure)
            } else {
                Ok(Store { tags: self.tags, links: self.links.push(r) })
            },
        }
    }

    /// Delete the rows of `table` that pass `cond`; tags that relationships
    /// still name cannot go.
    pub open spec fn deleted(self, table: Table, cond: Filter) -> Result<Store, DatabaseError> {
        if !cond.fits(table) {
            Err(DatabaseError::BackendFailure)
        } else {
            match table {
                Table::Tags => if self.names_in_use(cond) {
                    Err(DatabaseError::BackendFailure)
                } else {
                    Ok(
                        Store {
                            tags: self.tags.filter(|t: TagRecord| !cond.holds_of_name(t.name)),
                            links: self.links,
                        },
                    )
                },
                Table::Relationship => Ok(
                    Store {
                        tags: self.tags,
                        links: self.links.filter(|r: Relation| !cond.holds_of(r)),
                    },
                ),
            }
        }
    }

    /// The rows of `table` that pass `cond`, ordered as `opts` says.
    pub open spec fn selected(self, table: Table, cond: Filter, opts: Options) -> Result<
        Seq<Record>,
        DatabaseError,
    > {
        if !cond.fits(table) {
            Err(DatabaseError::BackendFailure)
        } else {
            match table {
                Table::Tags => if opts == Options::OrderByWeight {
                    Err(DatabaseError::BackendFailure)
                } else {
                    Ok(tags_as_records(self.matching_tags(cond)))
                },
                Table::Relationship => {
                    Ok(
                        relations_as_records(
                            if opts == Options::OrderByWeight {
                                ranked(self.matching(cond))
                            } else {
                                self.matching(cond)
                            },
                        ),
                    )
                },
            }
        }
    }

    /// The store with a row for the tag, unless the name is taken already.
    pub open spec fn with_tag(self, t: TagRecord) -> Store {
        match self.created(Record::Tag(t)) {
            Ok(s) => s,
            Err(_) => self,
        }
    }

    /// The store after an upsert, whether or not the store took it.
    pub open spec fn with(self, rec: Record, guard: Guard) -> Store {
        match self.upserted(rec, guard) {
            Ok(s) => s,
            Err(_) => self,
        }
    }

    /// The store after a delete, whether or not the store took it.
    pub open spec fn without(self, table: Table, cond: Filter) -> Store {
        match self.deleted(table, cond) {
            Ok(s) => s,
            Err(_) => self,
        }
    }
}

/// Stores with the same `tags` table have the same tags.
pub proof fn lemma_same_tags(s: Store, n: Store)
    requires
        s.tags == n.tags,
        s.unique_tags(),
    ensures
        forall|name: Seq<char>| (#[trigger] n.has_tag(name)) == s.has_tag(name),
        forall|name: Seq<char>| (#[trigger] n.tag(name)) == s.tag(name),
{
    assert forall|name: Seq<char>| (#[trigger] n.has_tag(name)) == s.has_tag(name) by {
        if s.has_tag(name) {
            assert(n.tag_at(s.tag_index(name), name));
        }
        if n.has_tag(name) {
            assert(s.tag_at(n.tag_index(name), name));
        }
    }
    assert forall|name: Seq<char>| (#[trigger] n.tag(name)) == s.tag(name) by {
        if s.has_tag(name) {
            let i = s.tag_index(name);
            let k = n.tag_index(name);
            assert(s.tag_at(i, name) && n.tag_at(k, name));
            assert(s.tags[i].name == s.tags[k].name);
        }
    }
}

/// Stores with the same `relationship` table have the same edges.
pub proof fn lemma_same_links(s: Store, n: Store)
    requires
        s.links == n.links,
        s.unique_links(),
    ensures
        forall|a: Seq<char>, b: Seq<char>| (#[trigger] n.has_link(a, b)) == s.has_link(a, b),
        forall|a: Seq<char>, b: Seq<char>| (#[trigger] n.link(a, b)) == s.link(a, b),
{
    assert forall|a: Seq<char>, b: Seq<char>| (#[trigger] n.has_link(a, b)) == s.has_link(a, b) by {
        if s.has_link(a, b) {
            assert(n.link_at(s.link_index(a, b), a, b));
        }
        if n.has_link(a, b) {
            assert(s.link_at(n.link_index(a, b), a, b));
        }
    }
    assert forall|a: Seq<char>, b: Seq<char>| (#[trigger] n.link(a, b)) == s.link(a, b) by {
        if s.has_link(a, b) {
            let i = s.link_index(a, b);
            let k = n.link_index(a, b);
            assert(s.link_at(i, a, b) && n.link_at(k, a, b));
            assert(s.links[i].tag1 == s.links[k].tag1);
        }
    }
}

/// A row that sits at `i` is the row that a lookup of its name finds.
pub proof fn lemma_tag_lookup(s: Store, i: int, name: Seq<char>)
    requires
        s.unique_tags(),
        s.tag_at(i, name),
    ensures
        s.has_tag(name),
        s.tag_index(name) == i,
        s.tag(name) == Some(s.tags[i]),
{
    let k = s.tag_index(name);
    assert(s.tag_at(k, name));
    assert(s.tags[k].name == s.tags[i].name);
}

/// A row that sits at `i` is the row that a lookup of its key finds.
pub proof fn lemma_link_lookup(s: Store, i: int, a: Seq<char>, b: Seq<char>)
    requires
        s.unique_links(),
        s.link_at(i, a, b),
    ensures
        s.has_link(a, b),
        s.link_index(a, b) == i,
        s.link(a, b) == Some(s.links[i]),
{
    let k = s.link_index(a, b);
    assert(s.link_at(k, a, b));
    assert(s.links[k].tag1 == s.links[i].tag1);
}

/// Appending a tag under a new name keeps the constraints and changes no
/// other lookup.
pub proof fn lemma_push_tag(s: Store, t: TagRecord)
    requires
        s.wf(),
        !s.has_tag(t.name),
    ensures
        ({
            let n = Store { tags: s.tags.push(t), links: s.links };
            &&& n.wf()
            &&& forall|name: Seq<char>| (#[trigger] n.tag(name)) == if name == t.name {
                    Some(t)
                } else {
                    s.tag(name)
                }
            &&& forall|name: Seq<char>| (#[trigger] n.has_tag(name)) == (name == t.name || s.has_tag(name))
        }),
{
    let n = Store { tags: s.tags.push(t), links: s.links };
    let last = s.tags.len() as int;
    assert forall|i: int, j: int|
        0 <= i < n.tags.len() && 0 <= j < n.tags.len() && (#[trigger] n.tags[i]).name == (
        #[trigger] n.tags[j]).name implies i == j by {
        if i < last && j < last {
            assert(s.tags[i].name == s.tags[j].name);
        } else if i < last {
            assert(s.tag_at(i, t.name));
        } else if j < last {
            assert(s.tag_at(j, t.name));
        }
    }
    assert forall|name: Seq<char>| s.has_tag(name) implies n.has_tag(name) by {
        let k = s.tag_index(name);
        assert(s.tag_at(k, name));
        assert(n.tag_at(k, name));
    }
    assert(n.wf());
    assert forall|name: Seq<char>| (#[trigger] n.tag(name)) == if name == t.name {
            Some(t)
        } else {
            s.tag(name)
        } by {
        if name == t.name {
            assert(n.tag_at(last, name));
            lemma_tag_lookup(n, last, name);
        } else if n.has_tag(name) {
            let k = n.tag_index(name);
            assert(n.tag_at(k, name));
            assert(s.tag_at(k, name));
            lemma_tag_lookup(s, k, name);
        } else {
            assert(!s.has_tag(name));
        }
    }
    assert forall|name: Seq<char>| (#[trigger] n.has_tag(name)) == (name == t.name || s.has_tag(name)) by {
        if name == t.name {
            assert(n.tag_at(last, name));
        } else if n.has_tag(name) {
            let k = n.tag_index(name);
            assert(n.tag_at(k, name));
            assert(s.tag_at(k, name));
        }
    }
}

/// Appending a relationship under a new key, between tags, keeps the
/// constraints and changes no other lookup.
pub proof fn lemma_push_link(s: Store, r: Relation)
    requires
        s.wf(),
        !s.has_link(r.tag1, r.tag2),
        s.has_tag(r.tag1),
        s.has_tag(r.tag2),
    ensures
        ({
            let n = Store { tags: s.tags, links: s.links.push(r) };
            &&& n.wf()
            &&& forall|a: Seq<char>, b: Seq<char>| (#[trigger] n.link(a, b)) == if a == r.tag1 && b == r.tag2 {
                    Some(r)
                } else {
                    s.link(a, b)
                }
        }),
{
    let n = Store { tags: s.tags, links: s.links.push(r) };
    let last = s.links.len() as int;
    assert forall|i: int, j: int|
        0 <= i < n.links.len() && 0 <= j < n.links.len() && (#[trigger] n.links[i]).tag1 == (
        #[trigger] n.links[j]).tag1 && n.links[i].tag2 == n.links[j].tag2 implies i == j by {
        if i < last && j < last {
            assert(s.links[i].tag1 == s.links[j].tag1);
        } else if i < last {
            assert(s.link_at(i, r.tag1, r.tag2));
        } else if j < last {
            assert(s.link_at(j, r.tag1, r.tag2));
        }
    }
    lemma_same_tags(s, n);
    assert forall|i: int| #![trigger n.links[i]] 0 <= i < n.links.len() implies n.has_tag(
        n.links[i].tag1,
    ) && n.has_tag(n.links[i].tag2) by {
        if i < last {
            assert(n.links[i] == s.links[i]);
        }
    }
    assert(n.wf());
    assert forall|a: Seq<char>, b: Seq<char>| (#[trigger] n.link(a, b)) == if a == r.tag1 && b == r.tag2 {
            Some(r)
        } else {
            s.link(a, b)
        } by {
        if a == r.tag1 && b == r.tag2 {
            assert(n.link_at(last, a, b));
            lemma_link_lookup(n, last, a, b);
        } else if n.has_link(a, b) {
            let k = n.link_index(a, b);
            assert(n.link_at(k, a, b));
            assert(s.link_at(k, a, b));
            lemma_link_lookup(s, k, a, b);
        } else if s.has_link(a, b) {
            let k = s.link_index(a, b);
            assert(s.link_at(k, a, b));
            assert(n.link_at(k, a, b));
        }
    }
}

/// Overwriting a tag row by one of the same name keeps the constraints and
/// changes no other lookup.
pub proof fn lemma_set_tag(s: Store, i: int, t: TagRecord)
    requires
        s.wf(),
        s.tag_at(i, t.name),
    ensures
        ({
            let n = Store { tags: s.tags.update(i, t), links: s.links };
            &&& n.wf()
            &&& forall|name: Seq<char>| (#[trigger] n.tag(name)) == if name == t.name {
                    Some(t)
                } else {
                    s.tag(name)
                }
            &&& forall|name: Seq<char>| (#[trigger] n.has_tag(name)) == s.has_tag(name)
        }),
{
    let n = Store { tags: s.tags.update(i, t), links: s.links };
    assert forall|x: int, y: int|
        0 <= x < n.tags.len() && 0 <= y < n.tags.len() && (#[trigger] n.tags[x]).name == (
        #[trigger] n.tags[y]).name implies x == y by {
        assert(n.tags[x].name == s.tags[x].name && n.tags[y].name == s.tags[y].name);
    }
    assert forall|name: Seq<char>| (#[trigger] n.has_tag(name)) == s.has_tag(name) by {
        if s.has_tag(name) {
            let k = s.tag_index(name);
            assert(s.tag_at(k, name));
            assert(n.tag_at(k, name));
        }
        if n.has_tag(name) {
            let k = n.tag_index(name);
            assert(n.tag_at(k, name));
            assert(s.tag_at(k, name));
        }
    }
    assert(n.wf());
    assert forall|name: Seq<char>| (#[trigger] n.tag(name)) == if name == t.name {
            Some(t)
        } else {
            s.tag(name)
        } by {
        if n.has_tag(name) {
            let k = n.tag_index(name);
            assert(n.tag_at(k, name));
            assert(s.tag_at(k, name));
            lemma_tag_lookup(s, k, name);
            if name == t.name {
                assert(s.tags[k].name == s.tags[i].name);
            }
        }
    }
}

/// Overwriting a relationship row by one of the same key keeps the
/// constraints and changes no other lookup.
pub proof fn lemma_set_link(s: Store, i: int, r: Relation)
    requires
        s.wf(),
        s.link_at(i, r.tag1, r.tag2),
    ensures
        ({
            let n = Store { tags: s.tags, links: s.links.update(i, r) };
            &&& n.wf()
            &&& forall|a: Seq<char>, b: Seq<char>| (#[trigger] n.link(a, b)) == if a == r.tag1 && b == r.tag2 {
                    Some(r)
                } else {
                    s.link(a, b)
                }
        }),
{
    let n = Store { tags: s.tags, links: s.links.update(i, r) };
    assert forall|x: int, y: int|
        0 <= x < n.links.len() && 0 <= y < n.links.len() && (#[trigger] n.links[x]).tag1 == (
        #[trigger] n.links[y]).tag1 && n.links[x].tag2 == n.links[y].tag2 implies x == y by {
        assert(n.links[x].tag1 == s.links[x].tag1 && n.links[y].tag1 == s.links[y].tag1);
        assert(n.links[x].tag2 == s.links[x].tag2 && n.links[y].tag2 == s.links[y].tag2);
    }
    lemma_same_tags(s, n);
    assert forall|x: int| #![trigger n.links[x]] 0 <= x < n.links.len() implies n.has_tag(
        n.links[x].tag1,
    ) && n.has_tag(n.links[x].tag2) by {
        assert(n.links[x].tag1 == s.links[x].tag1 && n.links[x].tag2 == s.links[x].tag2);
    }
    assert(n.wf());
    assert forall|a: Seq<char>, b: Seq<char>| (#[trigger] n.link(a, b)) == if a == r.tag1 && b == r.tag2 {
            Some(r)
        } else {
            s.link(a, b)
        } by {
        if n.has_link(a, b) {
            let k = n.link_index(a, b);
            assert(n.link_at(k, a, b));
            assert(s.link_at(k, a, b));
            lemma_link_lookup(s, k, a, b);
            if a == r.tag1 && b == r.tag2 {
                assert(s.links[k].tag1 == s.links[i].tag1);
            }
        } else if s.has_link(a, b) {
            let k = s.link_index(a, b);
            assert(s.link_at(k, a, b));
            assert(n.link_at(k, a, b));
        }
    }
}

/// Dropping relationships keeps the constraints; a kept edge is found as
/// before and a dropped one is gone.
pub proof fn lemma_filter_links(s: Store, keep: spec_fn(Relation) -> bool)
    requires
        s.wf(),
    ensures
        ({
            let n = Store { tags: s.tags, links: s.links.filter(keep) };
            &&& n.wf()
            &&& forall|a: Seq<char>, b: Seq<char>| (#[trigger] n.link(a, b)) == match s.link(a, b) {
                    Some(r) => if keep(r) {
                        Some(r)
                    } else {
                        None
                    },
                    None => None,
                }
        }),
{
    let n = Store { tags: s.tags, links: s.links.filter(keep) };
    let key = |r: Relation| (r.tag1, r.tag2);
    assert(distinct(s.links, key));
    lemma_filter_distinct(s.links, key, keep);
    lemma_same_tags(s, n);
    assert forall|x: int, y: int|
        0 <= x < n.links.len() && 0 <= y < n.links.len() && (#[trigger] n.links[x]).tag1 == (
        #[trigger] n.links[y]).tag1 && n.links[x].tag2 == n.links[y].tag2 implies x == y by {
        assert(key(n.links[x]) == key(n.links[y]));
    }
    assert forall|x: int| #![trigger n.links[x]] 0 <= x < n.links.len() implies n.has_tag(
        n.links[x].tag1,
    ) && n.has_tag(n.links[x].tag2) by {
        assert(s.links.contains(n.links[x]));
        let m = choose|m: int| 0 <= m < s.links.len() && s.links[m] == n.links[x];
        assert(s.has_tag(s.links[m].tag1));
    }
    assert(n.wf());
    assert forall|a: Seq<char>, b: Seq<char>| (#[trigger] n.link(a, b)) == match s.link(a, b) {
            Some(r) => if keep(r) {
                Some(r)
            } else {
                None
            },
            None => None,
        } by {
        if n.has_link(a, b) {
            let k = n.link_index(a, b);
            assert(n.link_at(k, a, b));
            assert(s.links.contains(n.links[k]));
            let m = choose|m: int| 0 <= m < s.links.len() && s.links[m] == n.links[k];
            assert(s.link_at(m, a, b));
            lemma_link_lookup(s, m, a, b);
        } else if s.has_link(a, b) {
            let m = s.link_index(a, b);
            assert(s.link_at(m, a, b));
            if keep(s.links[m]) {
                assert(n.links.contains(s.links[m]));
                let k = choose|k: int| 0 <= k < n.links.len() && n.links[k] == s.links[m];
                assert(n.link_at(k, a, b));
            }
        }
    }
}

/// Dropping tags that no relationship names keeps the constraints; a kept
/// tag is found as before and a dropped one is gone.
pub proof fn lemma_filter_tags(s: Store, keep: spec_fn(TagRecord) -> bool)
    requires
        s.wf(),
        forall|i: int|
            #![trigger s.links[i]]
            0 <= i < s.links.len() ==> (forall|t: TagRecord|
                t.name == s.links[i].tag1 || t.name == s.links[i].tag2 ==> keep(t)),
    ensures
        ({
            let n = Store { tags: s.tags.filter(keep), links: s.links };
            &&& n.wf()
            &&& forall|name: Seq<char>| (#[trigger] n.tag(name)) == match s.tag(name) {
                    Some(t) => if keep(t) {
                        Some(t)
                    } else {
                        None
                    },
                    None => None,
                }
        }),
{
    let n = Store { tags: s.tags.filter(keep), links: s.links };
    let key = |t: TagRecord| t.name;
    assert(distinct(s.tags, key));
    lemma_filter_distinct(s.tags, key, keep);
    assert forall|x: int, y: int|
        0 <= x < n.tags.len() && 0 <= y < n.tags.len() && (#[trigger] n.tags[x]).name == (
        #[trigger] n.tags[y]).name implies x == y by {
        assert(key(n.tags[x]) == key(n.tags[y]));
    }
    assert forall|name: Seq<char>| (#[trigger] n.tag(name)) == match s.tag(name) {
            Some(t) => if keep(t) {
                Some(t)
            } else {
                None
            },
            None => None,
        } by {
        if n.has_tag(name) {
            let k = n.tag_index(name);
            assert(n.tag_at(k, name));
            assert(s.tags.contains(n.tags[k]));
            let m = choose|m: int| 0 <= m < s.tags.len() && s.tags[m] == n.tags[k];
            assert(s.tag_at(m, name));
            lemma_tag_lookup(s, m, name);
        } else if s.has_tag(name) {
            let m = s.tag_index(name);
            assert(s.tag_at(m, name));
            if keep(s.tags[m]) {
                assert(n.tags.contains(s.tags[m]));
                let k = choose|k: int| 0 <= k < n.tags.len() && n.tags[k] == s.tags[m];
                assert(n.tag_at(k, name));
            }
        }
    }
    assert forall|x: int| #![trigger n.links[x]] 0 <= x < n.links.len() implies n.has_tag(
        n.links[x].tag1,
    ) && n.has_tag(n.links[x].tag2) by {
        let a = s.links[x].tag1;
        let b = s.links[x].tag2;
        assert(s.has_tag(a) && s.has_tag(b));
        assert(n.tag(a) is Some);
        assert(n.tag(b) is Some);
    }
}

/// What an upsert of a relationship does to the lookups: only the edge of
/// that key can change, and it changes as the guard and the constraints say.
pub proof fn lemma_with_relation(s: Store, r: Relation, guard: Guard)
    requires
        s.wf(),
    ensures
        ({
            let t = s.with(Record::Relation(r), guard);
            &&& t.wf()
            &&& t.tags == s.tags
            &&& t.link(r.tag1, r.tag2) == match s.link(r.tag1, r.tag2) {
                Some(stored) => if guard.permits(stored, r) {
                    Some(r)
                } else {
                    Some(stored)
                },
                None => if s.has_tag(r.tag1) && s.has_tag(r.tag2) {
                    Some(r)
                } else {
                    None
                },
            }
            &&& forall|a: Seq<char>, b: Seq<char>|
                !(a == r.tag1 && b == r.tag2) ==> (#[trigger] t.link(a, b)) == s.link(a, b)
        }),
{
    if s.has_link(r.tag1, r.tag2) {
        let i = s.link_index(r.tag1, r.tag2);
        assert(s.link_at(i, r.tag1, r.tag2));
        lemma_link_lookup(s, i, r.tag1, r.tag2);
        if guard.permits(s.links[i], r) {
            lemma_set_link(s, i, r);
        }
    } else if s.has_tag(r.tag1) && s.has_tag(r.tag2) {
        lemma_push_link(s, r);
    }
}

/// What an insert of a tag does to the lookups: a new name gets its row,
/// a taken name keeps the row it has.
pub proof fn lemma_with_tag(s: Store, t: TagRecord)
    requires
        s.wf(),
    ensures
        ({
            let n = s.with_tag(t);
            &&& n.wf()
            &&& n.links == s.links
            &&& n.has_tag(t.name)
            &&& n.tag(t.name) == match s.tag(t.name) {
                Some(stored) => Some(stored),
                None => Some(t),
            }
            &&& forall|name: Seq<char>| name != t.name ==> (#[trigger] n.tag(name)) == s.tag(name)
            &&& forall|name: Seq<char>| s.has_tag(name) ==> #[trigger] n.has_tag(name)
            &&& forall|a: Seq<char>, b: Seq<char>| (#[trigger] n.link(a, b)) == s.link(a, b)
        }),
{
    let n = s.with_tag(t);
    if !s.has_tag(t.name) {
        lemma_push_tag(s, t);
        lemma_same_links(s, n);
    }
}

/// What an upsert of a tag does to the lookups: the name gets the new row,
/// every other name keeps its own.
pub proof fn lemma_with_tag_row(s: Store, t: TagRecord)
    requires
        s.wf(),
    ensures
        ({
            let n = s.with(Record::Tag(t), Guard::Always);
            &&& n.wf()
            &&& n.links == s.links
            &&& n.tag(t.name) == Some(t)
            &&& forall|name: Seq<char>| name != t.name ==> (#[trigger] n.tag(name)) == s.tag(name)
            &&& forall|a: Seq<char>, b: Seq<char>| (#[trigger] n.link(a, b)) == s.link(a, b)
        }),
{
    let n = s.with(Record::Tag(t), Guard::Always);
    if s.has_tag(t.name) {
        let i = s.tag_index(t.name);
        assert(s.tag_at(i, t.name));
        lemma_set_tag(s, i, t);
    } else {
        lemma_push_tag(s, t);
    }
    lemma_same_links(s, n);
}

} // verus!
