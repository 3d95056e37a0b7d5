//! Tags and the operations on them.

use vstd::prelude::*;
use crate::db::crud::{
    Database, DatabaseError, DatabaseResult, Guard, Options, Predicate, Table, acknowledged,
    refused,
};
use crate::db::model::Store;
use crate::db::schema::{
    Filter, Record, Relation, RelationRow, Row, TagRecord, TagRow, copy_text, relations, text_of,
};
use crate::db::schema::{relations_as_records, tags_as_records};
use crate::graph::{
    hop, lemma_cleared, lemma_link_ends, lemma_matching_name, lemma_matching_pair,
};
use crate::seqs::{lemma_filter_all, lemma_fold_ends, lemma_fold_next};
use crate::weight::Weight;

verus! {

/// A named node of the graph with an optional description.
#[derive(Debug)]
pub struct Tag {
    pub name: String,
    pub desc: Option<String>,
}

impl View for Tag {
    type V = TagRecord;

    open spec fn view(&self) -> TagRecord {
        TagRecord { name: self.name@, info: text_of(self.desc) }
    }
}

/// Something that names a tag: a tag itself, or a bare name.
pub trait MakeTag {
    /// The tag that `self` names.
    spec fn names(&self) -> TagRecord;

    fn get_name(&self) -> (name: String)
        ensures
            name@ == self.names().name,
    ;

    fn get_desc(&self) -> (desc: Option<String>)
        ensures
            text_of(desc) == self.names().info,
    ;

    fn get_tag(&self) -> (tag: Tag)
        ensures
            tag@ == self.names(),
    ;
}

impl MakeTag for Tag {
    open spec fn names(&self) -> TagRecord {
        self@
    }

    fn get_name(&self) -> (name: String) {
        self.name.clone()
    }

    fn get_desc(&self) -> (desc: Option<String>) {
        copy_text(&self.desc)
    }

    fn get_tag(&self) -> (tag: Tag) {
        Tag { name: self.get_name(), desc: self.get_desc() }
    }
}

impl MakeTag for String {
    open spec fn names(&self) -> TagRecord {
        TagRecord { name: self@, info: None }
    }

    fn get_name(&self) -> (name: String) {
        self.clone()
    }

    fn get_desc(&self) -> (desc: Option<String>) {
        None
    }

    fn get_tag(&self) -> (tag: Tag) {
        Tag { name: self.clone(), desc: None }
    }
}

/// The tags and weights that a list of neighbours names.
pub open spec fn peers<T: MakeTag>(pairs: Seq<(T, Weight)>) -> Seq<(TagRecord, Weight)> {
    pairs.map_values(|p: (T, Weight)| (p.0.names(), p.1))
}

/// Whether `res` is the success marker of a finished `add_tag`.
pub open spec fn added_marker(res: Result<DatabaseResult, DatabaseError>) -> bool {
    res matches Ok(DatabaseResult::Success(m)) && m@ == "add_tag successful"@
}

/// The texts of a sequence of strings.
pub open spec fn texts(names: Seq<String>) -> Seq<Seq<char>> {
    names.map_values(|s: String| s@)
}

/// The ends and weights of the edges that leave `name`, in table order.
fn outgoing(db: &Database, name: &String) -> (out: (Vec<String>, Vec<Weight>))
    ensures
        out.0.len() == db@.links_from(name@).len(),
        out.1.len() == db@.links_from(name@).len(),
        forall|i: int|
            0 <= i < out.0.len() ==> (#[trigger] out.0[i])@ == db@.links_from(name@)[i].tag2,
        forall|i: int| 0 <= i < out.1.len() ==> (#[trigger] out.1[i]) == db@.links_from(name@)[i].weight,
{
    match db.read(Table::Relationship, &Predicate::Tag1Is(name.clone()), Options::Plain) {
        Ok(things) => {
            let ends = things.get::<String>(1);
            let weights = things.get::<Weight>(2);
            (ends, weights)
        },
        // the filter fits the table, so the store does not refuse the read
        Err(_) => (Vec::new(), Vec::new()),
    }
}

impl Tag {
    /// A tag without a description.
    pub fn new(name: &str) -> (tag: Tag)
        ensures
            tag.name@ == name@,
            tag.desc is None,
    {
        Tag { name: name.to_string(), desc: None }
    }

    /// A tag with a description; an empty description counts as none.
    pub fn new_with_desc(name: &str, desc: Option<String>) -> (tag: Tag)
        ensures
            tag.name@ == name@,
            text_of(tag.desc) == match desc {
                Some(d) => if d@.len() > 0 {
                    Some(d@)
                } else {
                    None
                },
                None => None,
            },
    {
        let desc = match desc {
            Some(d) => if d.as_str().is_empty() {
                None
            } else {
                Some(d)
            },
            None => None,
        };
        Tag { name: name.to_string(), desc }
    }

    /// The derived edges that two-edge paths from this tag suggest.
    fn plan(&self, db: &Database) -> (derived: Vec<RelationRow>)
        ensures
            relations(derived@) == db@.candidates(self.name@),
    {
        let (ends, weights) = outgoing(db, &self.name);
        let ghost firsts = db@.links_from(self.name@);
        let ghost paths = |first: Relation| db@.hops(self.name@, first);
        let mut derived: Vec<RelationRow> = Vec::new();
        let mut i: usize = 0;
        proof {
            assert(firsts.take(0) =~= Seq::empty());
            assert(relations(derived@) =~= firsts.take(0).flat_map(paths));
        }
        while i < ends.len()
            invariant
                i <= ends.len(),
                firsts == db@.links_from(self.name@),
                paths == |first: Relation| db@.hops(self.name@, first),
                ends.len() == firsts.len(),
                weights.len() == firsts.len(),
                forall|x: int| 0 <= x < ends.len() ==> (#[trigger] ends[x])@ == firsts[x].tag2,
                forall|x: int| 0 <= x < weights.len() ==> (#[trigger] weights[x]) == firsts[x].weight,
                relations(derived@) == firsts.take(i as int).flat_map(paths),
            decreases ends.len() - i,
        {
            let (far, strengths) = outgoing(db, &ends[i]);
            let ghost first = firsts[i as int];
            let ghost seconds = db@.links_from(first.tag2);
            let ghost done = relations(derived@);
            let mut j: usize = 0;
            assert(relations(derived@) =~= done + seconds.take(0).map_values(
                |second: Relation| hop(self.name@, first, second),
            ));
            while j < far.len()
                invariant
                    j <= far.len(),
                    first.weight == weights[i as int],
                    i < weights.len(),
                    far.len() == seconds.len(),
                    strengths.len() == seconds.len(),
                    forall|x: int| 0 <= x < far.len() ==> (#[trigger] far[x])@ == seconds[x].tag2,
                    forall|x: int|
                        0 <= x < strengths.len() ==> (#[trigger] strengths[x]) == seconds[x].weight,
                    relations(derived@) == done + seconds.take(j as int).map_values(
                        |second: Relation| hop(self.name@, first, second),
                    ),
                decreases far.len() - j,
            {
                let ghost before = relations(derived@);
                derived.push(
                    RelationRow {
                        tag1: self.name.clone(),
                        tag2: far[j].clone(),
                        weight: strengths[j].compose(weights[i]),
                        is_origin: false,
                    },
                );
                assert(relations(derived@) =~= before.push(hop(self.name@, first, seconds[j as int])));
                assert(before.push(hop(self.name@, first, seconds[j as int])) =~= done + seconds.take(
                    j + 1,
                ).map_values(|second: Relation| hop(self.name@, first, second)));
                j += 1;
            }
            proof {
                assert(seconds.take(far.len() as int) =~= seconds);
                firsts.lemma_flat_map_take_append(paths, i as int);
            }
            i += 1;
        }
        assert(firsts.take(ends.len() as int) =~= firsts);
        derived
    }

    /// Tries every edge of `derived` on the store: a new one is inserted,
    /// one that is stronger than a stored derived edge replaces it.
    fn absorb(db: &mut Database, derived: &Vec<RelationRow>)
        requires
            old(db).wf(),
        ensures
            final(db).wf(),
            final(db)@ == old(db)@.absorbed(relations(derived@)),
    {
        let ghost step = |s: Store, c: Relation| s.with(Record::Relation(c), Guard::HeavierDerived);
        let ghost all = relations(derived@);
        let mut k: usize = 0;
        proof {
            lemma_fold_ends(all, db@, step);
        }
        while k < derived.len()
            invariant
                k <= derived.len(),
                db.wf(),
                all == relations(derived@),
                step == |s: Store, c: Relation| s.with(Record::Relation(c), Guard::HeavierDerived),
                db@ == all.take(k as int).fold_left(old(db)@, step),
            decreases derived.len() - k,
        {
            proof {
                lemma_fold_next(all, old(db)@, step, k as int);
            }
            let _ = db.update(Row::Relation(derived[k].clone()), Guard::HeavierDerived);
            k += 1;
        }
        proof {
            lemma_fold_ends(all, old(db)@, step);
        }
    }

    /// One round of propagation from this tag.
    ///
    /// For every edge from this tag to a neighbour and every edge from that
    /// neighbour on, the product of the two weights is tried as the weight
    /// of a derived edge from this tag to the far end.  All paths are read
    /// before the first edge is written, so a round goes one hop and no
    /// further.  An edge that a user set is never overwritten, and a
    /// derived edge only by a strictly greater weight.
    pub fn auto_update_links(&self, db: &mut Database)
        requires
            old(db).wf(),
        ensures
            final(db).wf(),
            final(db)@ == old(db)@.propagated(self.name@),
    {
        let derived = self.plan(db);
        Self::absorb(db, &derived);
    }

    /// The names of all tags, in table order.
    pub fn get_tags(db: &Database) -> (names: Vec<String>)
        ensures
            texts(names@) == db@.names(),
    {
        proof {
            lemma_filter_all(db@.tags, |t: TagRecord| Filter::True.holds_of_name(t.name));
        }
        match db.read(Table::Tags, &Predicate::True, Options::Plain) {
            Ok(things) => {
                let names = things.get::<String>(0);
                assert(texts(names@) =~= db@.names());
                names
            },
            Err(_) => Vec::new(),
        }
    }

    /// One round of propagation from every tag, in table order.
    ///
    /// This is a single wave: edges that a later round derives are not seen
    /// by the rounds before it.
    pub fn update_all_links(db: &mut Database)
        requires
            old(db).wf(),
        ensures
            final(db).wf(),
            final(db)@ == old(db)@.refreshed(),
    {
        let names = Self::get_tags(db);
        let ghost all = db@.names();
        let ghost step = |s: Store, name: Seq<char>| s.propagated(name);
        let mut i: usize = 0;
        proof {
            lemma_fold_ends(all, db@, step);
        }
        while i < names.len()
            invariant
                i <= names.len(),
                db.wf(),
                all == texts(names@),
                step == |s: Store, name: Seq<char>| s.propagated(name),
                db@ == all.take(i as int).fold_left(old(db)@, step),
            decreases names.len() - i,
        {
            proof {
                lemma_fold_next(all, old(db)@, step, i as int);
            }
            let tag = Tag { name: names[i].clone(), desc: None };
            tag.auto_update_links(db);
            i += 1;
        }
        proof {
            lemma_fold_ends(all, old(db)@, step);
        }
    }

    /// Drops every derived edge, then runs one round from every tag.
    ///
    /// What is left of the derived edges afterwards rests on the edges that
    /// users set alone.
    pub fn force_update_all_links(db: &mut Database)
        requires
            old(db).wf(),
        ensures
            final(db).wf(),
            final(db)@ == old(db)@.rebuilt(),
    {
        let _ = db.delete(Table::Relationship, &Predicate::IsOrigin(false));
        Self::update_all_links(db);
    }

    /// Sets the edge from this tag to `target` at weight `ratio`, as an
    /// edge that a user set, then runs one round of propagation from this
    /// tag.
    ///
    /// Both tags must be in the store already: where one is missing the
    /// store refuses the edge and nothing changes.
    pub fn link_tags<T: MakeTag>(&self, db: &mut Database, target: &T, ratio: Weight) -> (res: Result<
        DatabaseResult,
        DatabaseError,
    >)
        requires
            old(db).wf(),
        ensures
            final(db).wf(),
            final(db)@ == old(db)@.linked(self.name@, target.names().name, ratio),
            if old(db)@.has_tag(self.name@) && old(db)@.has_tag(target.names().name) {
                acknowledged(res)
            } else {
                refused(res, DatabaseError::BackendFailure)
            },
    {
        proof {
            if db@.has_link(self.name@, target.names().name) {
                lemma_link_ends(db@, self.name@, target.names().name);
            }
        }
        let row = RelationRow {
            tag1: self.name.clone(),
            tag2: target.get_name(),
            weight: ratio,
            is_origin: true,
        };
        match db.update(Row::Relation(row), Guard::Always) {
            Ok(res) => {
                self.auto_update_links(db);
                Ok(res)
            },
            Err(e) => Err(e),
        }
    }

    /// Adds this tag, then joins each neighbour to it: the neighbour is
    /// added if it is missing, the edge to it is set at the given weight,
    /// and propagation runs from this tag.
    ///
    /// A tag that is there already is left as it is, description included.
    pub fn add_tag<T: MakeTag>(&self, db: &mut Database, name_weight_pairs: &[(T, Weight)]) -> (res:
        Result<DatabaseResult, DatabaseError>)
        requires
            old(db).wf(),
        ensures
            final(db).wf(),
            final(db)@ == old(db)@.added(self@, peers(name_weight_pairs@)),
            added_marker(res),
    {
        // a tag that is there already is no failure; the store refuses a
        // tag for no other reason
        match db.create(Row::Tag(TagRow { tag_name: self.name.clone(), info: copy_text(&self.desc) })) {
            Ok(_) => {},
            Err(DatabaseError::UniqueViolation) => {},
            Err(e) => {
                return Err(e);
            },
        }
        let ghost all = peers(name_weight_pairs@);
        let ghost start = db@;
        let ghost step = |s: Store, p: (TagRecord, Weight)| s.joined(self@.name, p.0, p.1);
        let mut i: usize = 0;
        proof {
            lemma_fold_ends(all, start, step);
        }
        while i < name_weight_pairs.len()
            invariant
                i <= name_weight_pairs.len(),
                db.wf(),
                all == peers(name_weight_pairs@),
                start == old(db)@.with_tag(self@),
                step == |s: Store, p: (TagRecord, Weight)| s.joined(self@.name, p.0, p.1),
                db@ == all.take(i as int).fold_left(start, step),
            decreases name_weight_pairs.len() - i,
        {
            proof {
                lemma_fold_next(all, start, step, i as int);
            }
            let k = &name_weight_pairs[i].0;
            let v = name_weight_pairs[i].1;
            match db.create(Row::Tag(TagRow { tag_name: k.get_name(), info: k.get_desc() })) {
                Ok(_) => {},
                Err(DatabaseError::UniqueViolation) => {},
                Err(e) => {
                    return Err(e);
                },
            }
            // both tags are in the store by now, so the edge is taken
            let _ = self.link_tags(db, k, v);
            self.auto_update_links(db);
            i += 1;
        }
        proof {
            lemma_fold_ends(all, start, step);
        }
        Ok(DatabaseResult::Success("add_tag successful".to_string()))
    }

    /// Sets the description of this tag; the tag is added where it is
    /// missing.
    pub fn modify_tag(&self, db: &mut Database, desc: &str) -> (res: Result<
        DatabaseResult,
        DatabaseError,
    >)
        requires
            old(db).wf(),
        ensures
            final(db).wf(),
            final(db)@ == old(db)@.described(self.name@, desc@),
            acknowledged(res),
    {
        let row = TagRow { tag_name: self.get_name(), info: Some(desc.to_string()) };
        db.update(Row::Tag(row), Guard::Always)
    }

    /// Removes this tag with every edge that leaves or reaches it.
    ///
    /// The edges go first; the tag's row goes only once both deletions of
    /// edges went through.
    pub fn remove_tag(&self, db: &mut Database) -> (res: Result<DatabaseResult, DatabaseError>)
        requires
            old(db).wf(),
        ensures
            final(db).wf(),
            final(db)@ == old(db)@.removed(self.name@),
            acknowledged(res),
    {
        let res1 = db.delete(Table::Relationship, &Predicate::Tag1Is(self.name.clone()));
        let res2 = db.delete(Table::Relationship, &Predicate::Tag2Is(self.name.clone()));
        if res1.is_ok() && res2.is_ok() {
            proof {
                lemma_cleared(old(db)@, self.name@);
            }
            db.delete(Table::Tags, &Predicate::TagNameIs(self.name.clone()))
        } else {
            res1
        }
    }

    /// The weight of the edge from `tag1` to `tag2`, or `None` where there
    /// is no such edge.
    pub fn query_relation<T1: MakeTag, T2: MakeTag>(db: &Database, tag1: &T1, tag2: &T2) -> (weight:
        Option<Weight>)
        requires
            db.wf(),
        ensures
            weight == db@.weight(tag1.names().name, tag2.names().name),
    {
        proof {
            lemma_matching_pair(db@, tag1.names().name, tag2.names().name);
        }
        match db.read(
            Table::Relationship,
            &Predicate::PairIs(tag1.get_name(), tag2.get_name()),
            Options::Plain,
        ) {
            Ok(things) => {
                if things.len() != 1 {
                    return None;
                }
                let weights = things.get::<Weight>(2);
                Some(weights[0])
            },
            Err(_) => None,
        }
    }

    /// The tags that this tag has edges to, strongest edge first; edges of
    /// equal weight come in table order.
    pub fn query_top_related(&self, db: &Database) -> (names: Vec<String>)
        ensures
            texts(names@) == db@.top_related(self.name@),
    {
        match db.read(
            Table::Relationship,
            &Predicate::Tag1Is(self.name.clone()),
            Options::OrderByWeight,
        ) {
            Ok(things) => {
                let names = things.get::<String>(1);
                assert(texts(names@) =~= db@.top_related(self.name@));
                names
            },
            Err(_) => Vec::new(),
        }
    }

    /// The description of this tag, or `None` where the tag has none or is
    /// not in the store.
    pub fn query_desc(&self, db: &Database) -> (desc: Option<String>)
        requires
            db.wf(),
        ensures
            text_of(desc) == db@.description(self.name@),
    {
        proof {
            lemma_matching_name(db@, self.name@);
        }
        match db.read(Table::Tags, &Predicate::TagNameIs(self.name.clone()), Options::Plain) {
            Ok(DatabaseResult::Things(rows)) => {
                if rows.len() != 1 {
                    return None;
                }
                assert(rows[0]@ == tags_as_records(db@.matching_tags(Filter::TagNameIs(self.name@)))[0]);
                match &rows[0] {
                    Row::Tag(t) => copy_text(&t.info),
                    Row::Relation(_) => None,
                }
            },
            _ => None,
        }
    }

    /// For each tag that this tag has an edge to, strongest edge first:
    /// its name, its description and the weight of the edge.
    pub fn qtrd(&self, db: &Database) -> (out: Vec<(String, Option<String>, Option<Weight>)>)
        requires
            db.wf(),
        ensures
            out.len() == db@.top_related(self.name@).len(),
            forall|i: int|
                #![trigger out[i]]
                0 <= i < out.len() ==> {
                    let peer = db@.top_related(self.name@)[i];
                    &&& out[i].0@ == peer
                    &&& text_of(out[i].1) == db@.description(peer)
                    &&& out[i].2 == db@.weight(self.name@, peer)
                },
    {
        let tags = self.query_top_related(db);
        let mut out: Vec<(String, Option<String>, Option<Weight>)> = Vec::new();
        let mut i: usize = 0;
        while i < tags.len()
            invariant
                i <= tags.len(),
                db.wf(),
                texts(tags@) == db@.top_related(self.name@),
                out.len() == i,
                forall|j: int|
                    #![trigger out[j]]
                    0 <= j < i ==> {
                        let peer = db@.top_related(self.name@)[j];
                        &&& out[j].0@ == peer
                        &&& text_of(out[j].1) == db@.description(peer)
                        &&& out[j].2 == db@.weight(self.name@, peer)
                    },
            decreases tags.len() - i,
        {
            assert(texts(tags@)[i as int] == tags[i as int]@);
            let peer = Tag::new(tags[i].as_str());
            let desc = peer.query_desc(db);
            let weight = Self::query_relation(db, self, &peer);
            out.push((tags[i].clone(), desc, weight));
            i += 1;
        }
        out
    }
}

} // verus!
