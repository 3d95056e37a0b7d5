//! What the operations on tags make of a store, stated over its model.

use vstd::prelude::*;
use crate::db::model::{Store, lemma_filter_links, lemma_link_lookup, lemma_tag_lookup};
use crate::db::rank::ranked;
use crate::db::schema::{Filter, Guard, Record, Relation, Table, TagRecord};
use crate::seqs::{distinct, lemma_filter_distinct};
use crate::weight::Weight;

verus! {

/// The derived edge that the path `first`, `second` suggests for `name`:
/// it leads where `second` leads and has the product of both weights.
pub open spec fn hop(name: Seq<char>, first: Relation, second: Relation) -> Relation {
    Relation {
        tag1: name,
        tag2: second.tag2,
        weight: second.weight.product(first.weight),
        is_origin: false,
    }
}

/// An edge that a user set.
pub open spec fn origin(src: Seq<char>, dst: Seq<char>, w: Weight) -> Relation {
    Relation { tag1: src, tag2: dst, weight: w, is_origin: true }
}

impl Store {
    /// The derived edges that the paths through the edge `first` suggest.
    pub open spec fn hops(self, name: Seq<char>, first: Relation) -> Seq<Relation> {
        self.links_from(first.tag2).map_values(|second: Relation| hop(name, first, second))
    }

    /// All derived edges that two-edge paths from `name` suggest, in the
    /// order of the first edge, then of the second.
    pub open spec fn candidates(self, name: Seq<char>) -> Seq<Relation> {
        self.links_from(name).flat_map(|first: Relation| self.hops(name, first))
    }

    /// The store after `derived` was tried: what is new is inserted, what
    /// is stronger than a stored derived edge replaces it, one by one.
    pub open spec fn absorbed(self, derived: Seq<Relation>) -> Store {
        derived.fold_left(
            self,
            |s: Store, c: Relation| s.with(Record::Relation(c), Guard::HeavierDerived),
        )
    }

    /// One round of propagation from `name`: every candidate that the
    /// store holds before the round is tried.
    pub open spec fn propagated(self, name: Seq<char>) -> Store {
        self.absorbed(self.candidates(name))
    }

    /// One round of propagation from each of `names`, in their order.
    pub open spec fn rounds(self, names: Seq<Seq<char>>) -> Store {
        names.fold_left(self, |s: Store, name: Seq<char>| s.propagated(name))
    }

    /// One round of propagation from every tag, in table order.
    pub open spec fn refreshed(self) -> Store {
        self.rounds(self.names())
    }

    /// All derived edges dropped, then one round from every tag.
    pub open spec fn rebuilt(self) -> Store {
        self.without(Table::Relationship, Filter::IsOrigin(false)).refreshed()
    }

    /// The edge from `src` to `dst` set by the user, then a round from
    /// `src`; nothing where one of the two is not a tag.
    pub open spec fn linked(self, src: Seq<char>, dst: Seq<char>, w: Weight) -> Store {
        if self.has_tag(src) && self.has_tag(dst) {
            self.with(Record::Relation(origin(src, dst, w)), Guard::Always).propagated(src)
        } else {
            self
        }
    }

    /// A neighbour joined to `name`: its tag ensured, the edge set, and
    /// one more round from `name`.
    pub open spec fn joined(self, name: Seq<char>, peer: TagRecord, w: Weight) -> Store {
        self.with_tag(peer).linked(name, peer.name, w).propagated(name)
    }

    /// Neighbours joined to `name`, one after the other.
    pub open spec fn joined_all(self, name: Seq<char>, peers: Seq<(TagRecord, Weight)>) -> Store {
        peers.fold_left(self, |s: Store, p: (TagRecord, Weight)| s.joined(name, p.0, p.1))
    }

    /// A tag added with its neighbours.
    pub open spec fn added(self, tag: TagRecord, peers: Seq<(TagRecord, Weight)>) -> Store {
        self.with_tag(tag).joined_all(tag.name, peers)
    }

    /// A tag removed: first the edges that leave it, then those that
    /// reach it, then its row.
    pub open spec fn removed(self, name: Seq<char>) -> Store {
        self.without(Table::Relationship, Filter::Tag1Is(name)).without(
            Table::Relationship,
            Filter::Tag2Is(name),
        ).without(Table::Tags, Filter::TagNameIs(name))
    }

    /// A tag given a description; the tag is made where it is missing.
    pub open spec fn described(self, name: Seq<char>, desc: Seq<char>) -> Store {
        self.with(Record::Tag(TagRecord { name: name, info: Some(desc) }), Guard::Always)
    }

    /// The weight of the edge from `a` to `b`, if there is one.
    pub open spec fn weight(self, a: Seq<char>, b: Seq<char>) -> Option<Weight> {
        match self.link(a, b) {
            Some(r) => Some(r.weight),
            None => None,
        }
    }

    /// The description of the tag `name`; none where the tag has none or
    /// is missing.
    pub open spec fn description(self, name: Seq<char>) -> Option<Seq<char>> {
        match self.tag(name) {
            Some(t) => t.info,
            None => None,
        }
    }

    /// The ends of the edges that leave `name`, strongest edge first,
    /// edges of equal weight in table order.
    pub open spec fn top_related(self, name: Seq<char>) -> Seq<Seq<char>> {
        ranked(self.links_from(name)).map_values(|r: Relation| r.tag2)
    }
}

/// Both ends of a stored edge are tags.
pub proof fn lemma_link_ends(s: Store, a: Seq<char>, b: Seq<char>)
    requires
        s.wf(),
        s.has_link(a, b),
    ensures
        s.has_tag(a),
        s.has_tag(b),
{
    let i = s.link_index(a, b);
    assert(s.link_at(i, a, b));
    assert(s.has_tag(s.links[i].tag1));
}

/// A filter on the primary key of `relationship` finds the stored edge and
/// nothing else.
pub proof fn lemma_matching_pair(s: Store, a: Seq<char>, b: Seq<char>)
    requires
        s.wf(),
    ensures
        s.matching(Filter::PairIs(a, b)) == match s.link(a, b) {
            Some(r) => seq![r],
            None => Seq::empty(),
        },
{
    let keep = |r: Relation| Filter::PairIs(a, b).holds_of(r);
    let key = |r: Relation| (r.tag1, r.tag2);
    let found = s.links.filter(keep);
    assert(distinct(s.links, key));
    lemma_filter_distinct(s.links, key, keep);
    if found.len() > 1 {
        assert(key(found[0]) == key(found[1]));
    }
    if found.len() == 1 {
        assert(s.links.contains(found[0]));
        let m = choose|m: int| 0 <= m < s.links.len() && s.links[m] == found[0];
        assert(s.link_at(m, a, b));
        lemma_link_lookup(s, m, a, b);
        assert(found =~= seq![found[0]]);
    } else {
        if s.has_link(a, b) {
            let m = s.link_index(a, b);
            assert(s.link_at(m, a, b));
            assert(found.contains(s.links[m]));
        }
        assert(found =~= Seq::empty());
    }
}

/// A filter on the primary key of `tags` finds the stored tag and nothing
/// else.
pub proof fn lemma_matching_name(s: Store, name: Seq<char>)
    requires
        s.wf(),
    ensures
        s.matching_tags(Filter::TagNameIs(name)) == match s.tag(name) {
            Some(t) => seq![t],
            None => Seq::empty(),
        },
{
    let keep = |t: TagRecord| Filter::TagNameIs(name).holds_of_name(t.name);
    let key = |t: TagRecord| t.name;
    let found = s.tags.filter(keep);
    assert(distinct(s.tags, key));
    lemma_filter_distinct(s.tags, key, keep);
    if found.len() > 1 {
        assert(key(found[0]) == key(found[1]));
    }
    if found.len() == 1 {
        assert(s.tags.contains(found[0]));
        let m = choose|m: int| 0 <= m < s.tags.len() && s.tags[m] == found[0];
        assert(s.tag_at(m, name));
        lemma_tag_lookup(s, m, name);
        assert(found =~= seq![found[0]]);
    } else {
        if s.has_tag(name) {
            let m = s.tag_index(name);
            assert(s.tag_at(m, name));
            assert(found.contains(s.tags[m]));
        }
        assert(found =~= Seq::empty());
    }
}

/// Once the edges that leave a tag and those that reach it are gone, no
/// relationship names the tag.
pub proof fn lemma_cleared(s: Store, name: Seq<char>)
    requires
        s.wf(),
    ensures
        ({
            let t = s.without(Table::Relationship, Filter::Tag1Is(name)).without(
                Table::Relationship,
                Filter::Tag2Is(name),
            );
            &&& t.wf()
            &&& !t.names_in_use(Filter::TagNameIs(name))
        }),
{
    let keep1 = |r: Relation| !Filter::Tag1Is(name).holds_of(r);
    let keep2 = |r: Relation| !Filter::Tag2Is(name).holds_of(r);
    let key = |r: Relation| (r.tag1, r.tag2);
    let s1 = s.without(Table::Relationship, Filter::Tag1Is(name));
    lemma_filter_links(s, keep1);
    assert(distinct(s.links, key));
    lemma_filter_distinct(s.links, key, keep1);
    let t = s1.without(Table::Relationship, Filter::Tag2Is(name));
    lemma_filter_links(s1, keep2);
    assert(distinct(s1.links, key));
    lemma_filter_distinct(s1.links, key, keep2);
    assert forall|i: int| 0 <= i < t.links.len() implies (#[trigger] t.links[i]).tag1 != name
        && t.links[i].tag2 != name by {
        assert(keep2(t.links[i]));
        assert(s1.links.contains(t.links[i]));
        let m = choose|m: int| 0 <= m < s1.links.len() && s1.links[m] == t.links[i];
        assert(keep1(s1.links[m]));
    }
}

} // verus!
