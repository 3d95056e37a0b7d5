//! What holds of the operations on tags, whatever the store they start from.

use vstd::prelude::*;
use crate::db::model::{
    Store, lemma_filter_links, lemma_filter_tags, lemma_link_lookup, lemma_same_links,
    lemma_same_tags, lemma_with_relation, lemma_with_tag, lemma_with_tag_row,
};
use crate::db::rank::{lemma_ranked_descending, lemma_ranked_permutes, ranked};
use crate::db::schema::{Filter, Guard, Record, Relation, Table, TagRecord};
use crate::graph::{hop, lemma_cleared, lemma_link_ends, origin};
use crate::seqs::{distinct, lemma_filter_distinct, lemma_filter_same, lemma_flat_map_members, mapped_from};
use crate::weight::{UNIT, Weight};

verus! {

/// Whether `after` is the edge `before` still, kept as it was or, for a
/// derived edge, at a weight that is no smaller.
pub open spec fn kept_or_raised(before: Option<Relation>, after: Option<Relation>) -> bool {
    match before {
        Some(r) => after matches Some(n) && n.tag1 == r.tag1 && n.tag2 == r.tag2 && n.is_origin
            == r.is_origin && !r.weight.exceeds(n.weight) && (r.is_origin ==> n == r),
        None => true,
    }
}

/// Whether `t` has the tags of `s`, keeps the constraints, and holds every
/// edge of `s` still, kept or raised.
pub open spec fn grows(s: Store, t: Store) -> bool {
    &&& t.wf()
    &&& t.tags == s.tags
    &&& forall|a: Seq<char>, b: Seq<char>| kept_or_raised(s.link(a, b), #[trigger] t.link(a, b))
}

/// Whether every edge of `t` is an edge of `s` as it was, or one of `derived`.
pub open spec fn explained(s: Store, t: Store, derived: Seq<Relation>) -> bool {
    forall|a: Seq<char>, b: Seq<char>|
        (#[trigger] t.link(a, b)) is Some ==> s.link(a, b) == t.link(a, b) || derived.contains(
            t.link(a, b).unwrap(),
        )
}

/// Whether `found` is an edge that a user set, or one at least as strong
/// as `c`.
pub open spec fn backs(found: Option<Relation>, c: Relation) -> bool {
    match found {
        Some(n) => n.is_origin || !c.weight.exceeds(n.weight),
        None => false,
    }
}

/// Whether `t` holds, for every edge of `derived`, an edge of the same
/// ends that a user set or that is at least as strong.
pub open spec fn honoured(t: Store, derived: Seq<Relation>) -> bool {
    forall|k: int|
        0 <= k < derived.len() ==> backs(t.link((#[trigger] derived[k]).tag1, derived[k].tag2), derived[k])
}

/// Whether every edge of `derived` is a derived edge between tags of `s`.
pub open spec fn proposed(s: Store, derived: Seq<Relation>) -> bool {
    forall|k: int|
        0 <= k < derived.len() ==> !(#[trigger] derived[k]).is_origin && s.has_tag(derived[k].tag1)
            && s.has_tag(derived[k].tag2)
}

proof fn lemma_grows_chain(s: Store, m: Store, t: Store)
    requires
        grows(s, m),
        grows(m, t),
    ensures
        grows(s, t),
{
    assert forall|a: Seq<char>, b: Seq<char>| kept_or_raised(s.link(a, b), #[trigger] t.link(a, b)) by {
        assert(kept_or_raised(s.link(a, b), m.link(a, b)));
        assert(kept_or_raised(m.link(a, b), t.link(a, b)));
    }
}

/// Trying one derived edge keeps or raises what is there.
proof fn lemma_try_grows(s: Store, c: Relation)
    requires
        s.wf(),
        !c.is_origin,
    ensures
        grows(s, s.with(Record::Relation(c), Guard::HeavierDerived)),
{
    lemma_with_relation(s, c, Guard::HeavierDerived);
}

/// Trying a sequence of derived edges keeps or raises what is there, adds
/// nothing that is not among them, and leaves each of them honoured.
proof fn lemma_absorbed(s: Store, derived: Seq<Relation>)
    requires
        s.wf(),
        proposed(s, derived),
    ensures
        grows(s, s.absorbed(derived)),
        explained(s, s.absorbed(derived), derived),
        honoured(s.absorbed(derived), derived),
    decreases derived.len(),
{
    let t = s.absorbed(derived);
    if derived.len() == 0 {
    } else {
        let head = derived.drop_last();
        let c = derived.last();
        let m = s.absorbed(head);
        assert forall|k: int| 0 <= k < head.len() implies !(#[trigger] head[k]).is_origin && s.has_tag(
            head[k].tag1,
        ) && s.has_tag(head[k].tag2) by {
            assert(head[k] == derived[k]);
        }
        lemma_absorbed(s, head);
        assert(t == m.with(Record::Relation(c), Guard::HeavierDerived));
        lemma_try_grows(m, c);
        lemma_with_relation(m, c, Guard::HeavierDerived);
        lemma_grows_chain(s, m, t);
        assert(derived[derived.len() - 1] == c);
        assert forall|a: Seq<char>, b: Seq<char>| (#[trigger] t.link(a, b)) is Some implies s.link(a, b)
            == t.link(a, b) || derived.contains(t.link(a, b).unwrap()) by {
            let n = t.link(a, b).unwrap();
            if t.link(a, b) == m.link(a, b) {
                if s.link(a, b) != Some(n) {
                    assert(head.contains(n));
                    let k = choose|k: int| 0 <= k < head.len() && head[k] == n;
                    assert(derived[k] == n);
                }
            } else {
                assert(n == c);
            }
        }
        assert forall|k: int| 0 <= k < derived.len() implies backs(
            t.link((#[trigger] derived[k]).tag1, derived[k].tag2),
            derived[k],
        ) by {
            if k < head.len() {
                assert(head[k] == derived[k]);
                assert(kept_or_raised(m.link(derived[k].tag1, derived[k].tag2), t.link(
                    derived[k].tag1,
                    derived[k].tag2,
                )));
            } else {
                lemma_same_tags(s, m);
            }
        }
    }
}

/// Whether `s` holds the two edges of the path from `name` over `mid` to `far`.
pub open spec fn path(s: Store, name: Seq<char>, mid: Seq<char>, far: Seq<char>) -> bool {
    s.has_link(name, mid) && s.has_link(mid, far)
}

/// The derived edge that the path from `name` over `mid` to `far` suggests.
pub open spec fn over(s: Store, name: Seq<char>, mid: Seq<char>, far: Seq<char>) -> Relation {
    hop(name, s.link(name, mid).unwrap(), s.link(mid, far).unwrap())
}

/// Whether `c` is the derived edge that some two-edge path of `s` from
/// `name` suggests.
pub open spec fn suggested(s: Store, name: Seq<char>, c: Relation) -> bool {
    exists|mid: Seq<char>| path(s, name, mid, c.tag2) && c == #[trigger] over(s, name, mid, c.tag2)
}

/// The edges that leave a tag are the stored edges whose first end it is.
proof fn lemma_links_from(s: Store, name: Seq<char>)
    requires
        s.wf(),
    ensures
        forall|i: int|
            0 <= i < s.links_from(name).len() ==> (#[trigger] s.links_from(name)[i]).tag1 == name
                && s.link(name, s.links_from(name)[i].tag2) == Some(s.links_from(name)[i]),
        forall|far: Seq<char>|
            s.has_link(name, far) ==> s.links_from(name).contains(#[trigger] s.link(name, far).unwrap()),
{
    let keep = |r: Relation| Filter::Tag1Is(name).holds_of(r);
    let key = |r: Relation| (r.tag1, r.tag2);
    let out = s.links_from(name);
    assert(distinct(s.links, key));
    lemma_filter_distinct(s.links, key, keep);
    assert forall|i: int| 0 <= i < out.len() implies (#[trigger] out[i]).tag1 == name && s.link(
        name,
        out[i].tag2,
    ) == Some(out[i]) by {
        assert(keep(out[i]));
        assert(s.links.contains(out[i]));
        let m = choose|m: int| 0 <= m < s.links.len() && s.links[m] == out[i];
        assert(s.link_at(m, name, out[i].tag2));
        lemma_link_lookup(s, m, name, out[i].tag2);
    }
    assert forall|far: Seq<char>| s.has_link(name, far) implies out.contains(
        #[trigger] s.link(name, far).unwrap(),
    ) by {
        let m = s.link_index(name, far);
        assert(s.link_at(m, name, far));
        assert(keep(s.links[m]));
    }
}

/// The candidates of a round are the derived edges that the two-edge
/// paths from the tag suggest, and no others.
pub proof fn lemma_candidates(s: Store, name: Seq<char>)
    requires
        s.wf(),
    ensures
        proposed(s, s.candidates(name)),
        forall|k: int|
            0 <= k < s.candidates(name).len() ==> suggested(s, name, #[trigger] s.candidates(name)[k]),
        forall|mid: Seq<char>, far: Seq<char>|
            path(s, name, mid, far) ==> s.candidates(name).contains(#[trigger] over(s, name, mid, far)),
{
    let firsts = s.links_from(name);
    let f = |first: Relation| s.hops(name, first);
    let all = s.candidates(name);
    lemma_links_from(s, name);
    lemma_flat_map_members(firsts, f);
    assert forall|k: int| #![trigger all[k]] 0 <= k < all.len() implies !all[k].is_origin && s.has_tag(
        all[k].tag1,
    ) && s.has_tag(all[k].tag2) && suggested(s, name, all[k]) by {
        assert(mapped_from(firsts, f, all[k]));
        let (i, j) = choose|i: int, j: int|
            0 <= i < firsts.len() && 0 <= j < f(firsts[i]).len() && (#[trigger] f(firsts[i])[j]) == all[k];
        let first = firsts[i];
        let mid = first.tag2;
        lemma_links_from(s, mid);
        let second = s.links_from(mid)[j];
        assert(all[k] == hop(name, first, second));
        assert(s.link(name, mid) == Some(first));
        assert(s.link(mid, second.tag2) == Some(second));
        assert(path(s, name, mid, all[k].tag2));
        assert(all[k] == over(s, name, mid, all[k].tag2));
        lemma_link_ends(s, name, mid);
        lemma_link_ends(s, mid, second.tag2);
    }
    assert forall|mid: Seq<char>, far: Seq<char>| path(s, name, mid, far) implies all.contains(
        #[trigger] over(s, name, mid, far),
    ) by {
        lemma_links_from(s, mid);
        let first = s.link(name, mid).unwrap();
        let second = s.link(mid, far).unwrap();
        assert(firsts.contains(first));
        let i = choose|i: int| 0 <= i < firsts.len() && firsts[i] == first;
        assert(first.tag2 == mid);
        assert(s.links_from(mid).contains(second));
        let j = choose|j: int| 0 <= j < s.links_from(mid).len() && s.links_from(mid)[j] == second;
        assert(f(firsts[i])[j] == hop(name, first, second));
        assert(all.contains(f(firsts[i])[j]));
    }
}

/// A round of propagation keeps the constraints and the tags, keeps every
/// edge that a user set exactly as it is, and never lowers the weight of a
/// derived edge.
pub proof fn law_propagation_grows(s: Store, name: Seq<char>)
    requires
        s.wf(),
    ensures
        grows(s, s.propagated(name)),
{
    lemma_candidates(s, name);
    lemma_absorbed(s, s.candidates(name));
}

/// An edge that a user set has the same weight and
/// mark after a round of propagation from any tag.
pub proof fn law_origin_edges_are_never_overwritten(
    s: Store,
    name: Seq<char>,
    a: Seq<char>,
    b: Seq<char>,
)
    requires
        s.wf(),
        s.link(a, b) is Some,
        s.link(a, b).unwrap().is_origin,
    ensures
        s.propagated(name).link(a, b) == s.link(a, b),
{
    law_propagation_grows(s, name);
    assert(kept_or_raised(s.link(a, b), s.propagated(name).link(a, b)));
}

/// An edge that is there before a round is there
/// after it, between the same tags, with the same mark and a weight that
/// is no smaller.
pub proof fn law_weights_never_decrease(s: Store, name: Seq<char>, a: Seq<char>, b: Seq<char>)
    requires
        s.wf(),
        s.link(a, b) is Some,
    ensures
        s.propagated(name).link(a, b) is Some,
        !s.link(a, b).unwrap().weight.exceeds(s.propagated(name).link(a, b).unwrap().weight),
        s.propagated(name).link(a, b).unwrap().is_origin == s.link(a, b).unwrap().is_origin,
{
    law_propagation_grows(s, name);
    assert(kept_or_raised(s.link(a, b), s.propagated(name).link(a, b)));
}

/// After a round from `name`, every two-edge path that was there from
/// `name` to `far` is reflected: there is an edge from `name` to `far`,
/// and it is one that a user set or one at least as strong as the product
/// of the two weights.
pub proof fn law_paths_are_reflected(s: Store, name: Seq<char>, mid: Seq<char>, far: Seq<char>)
    requires
        s.wf(),
        path(s, name, mid, far),
    ensures
        backs(s.propagated(name).link(name, far), over(s, name, mid, far)),
{
    let all = s.candidates(name);
    lemma_candidates(s, name);
    lemma_absorbed(s, all);
    assert(all.contains(over(s, name, mid, far)));
    let k = choose|k: int| 0 <= k < all.len() && all[k] == over(s, name, mid, far);
    assert(backs(s.propagated(name).link(all[k].tag1, all[k].tag2), all[k]));
}

/// A round from `name` changes an edge only by replacing it with the
/// derived edge that some two-edge path from `name` suggested, and makes
/// no other new edges: weights are maxima that paths attain.
pub proof fn law_new_weights_come_from_paths(s: Store, name: Seq<char>, a: Seq<char>, b: Seq<char>)
    requires
        s.wf(),
        s.propagated(name).link(a, b) is Some,
        s.propagated(name).link(a, b) != s.link(a, b),
    ensures
        a == name,
        suggested(s, name, s.propagated(name).link(a, b).unwrap()),
        !s.propagated(name).link(a, b).unwrap().is_origin,
{
    let all = s.candidates(name);
    let t = s.propagated(name);
    lemma_candidates(s, name);
    lemma_absorbed(s, all);
    let n = t.link(a, b).unwrap();
    assert(all.contains(n));
    let k = choose|k: int| 0 <= k < all.len() && all[k] == n;
    assert(suggested(s, name, all[k]));
    assert(t.has_link(a, b));
    let i = t.link_index(a, b);
    assert(t.link_at(i, a, b));
}

/// Where exactly one two-edge path leads from `name` to `far` and there
/// is no edge between the two yet, a round from `name` makes that edge: a
/// derived edge whose weight is the product of the two weights.
pub proof fn law_single_path_sets_the_product(
    s: Store,
    name: Seq<char>,
    mid: Seq<char>,
    far: Seq<char>,
)
    requires
        s.wf(),
        path(s, name, mid, far),
        forall|other: Seq<char>| #[trigger] path(s, name, other, far) ==> other == mid,
        !s.has_link(name, far),
    ensures
        s.propagated(name).link(name, far) == Some(over(s, name, mid, far)),
        !over(s, name, mid, far).is_origin,
        over(s, name, mid, far).weight == s.link(mid, far).unwrap().weight.product(
            s.link(name, mid).unwrap().weight,
        ),
{
    let t = s.propagated(name);
    law_paths_are_reflected(s, name, mid, far);
    law_new_weights_come_from_paths(s, name, name, far);
    let n = t.link(name, far).unwrap();
    let i = t.link_index(name, far);
    assert(t.link_at(i, name, far));
    let other = choose|other: Seq<char>|
        path(s, name, other, n.tag2) && n == #[trigger] over(s, name, other, n.tag2);
    assert(path(s, name, other, far));
}

/// A tag without edges to follow is left alone: where no two-edge path
/// leaves `name`, a round from it changes nothing.
pub proof fn law_no_path_no_change(s: Store, name: Seq<char>)
    requires
        s.wf(),
        forall|mid: Seq<char>, far: Seq<char>| !path(s, name, mid, far),
    ensures
        s.propagated(name) == s,
{
    let all = s.candidates(name);
    lemma_candidates(s, name);
    if all.len() > 0 {
        assert(suggested(s, name, all[0]));
    }
}

/// A round from each of `names` keeps or raises what is there.
proof fn lemma_rounds_grow(s: Store, names: Seq<Seq<char>>)
    requires
        s.wf(),
    ensures
        grows(s, s.rounds(names)),
    decreases names.len(),
{
    if names.len() > 0 {
        let m = s.rounds(names.drop_last());
        lemma_rounds_grow(s, names.drop_last());
        law_propagation_grows(m, names.last());
        lemma_grows_chain(s, m, s.rounds(names));
    }
}

/// A wave over all tags keeps the constraints and the tags, keeps every
/// edge that a user set exactly as it is, and never lowers a weight.
pub proof fn law_wave_grows(s: Store)
    requires
        s.wf(),
    ensures
        grows(s, s.refreshed()),
{
    lemma_rounds_grow(s, s.names());
}

/// A rebuild keeps every edge that a user set exactly as it is.
pub proof fn law_origin_edges_survive_rebuild(s: Store, a: Seq<char>, b: Seq<char>)
    requires
        s.wf(),
        s.link(a, b) is Some,
        s.link(a, b).unwrap().is_origin,
    ensures
        s.rebuilt().link(a, b) == s.link(a, b),
{
    let keep = |r: Relation| !Filter::IsOrigin(false).holds_of(r);
    let base = s.without(Table::Relationship, Filter::IsOrigin(false));
    lemma_filter_links(s, keep);
    lemma_rounds_grow(base, base.names());
    assert(kept_or_raised(base.link(a, b), base.refreshed().link(a, b)));
}

/// Adding a tag without neighbours a second time
/// changes nothing, and after the first time the store holds exactly one
/// row for the tag.
pub proof fn law_add_is_idempotent(s: Store, tag: TagRecord)
    requires
        s.wf(),
    ensures
        s.added(tag, Seq::empty()).wf(),
        s.added(tag, Seq::empty()).added(tag, Seq::empty()) == s.added(tag, Seq::empty()),
        s.added(tag, Seq::empty()).has_tag(tag.name),
        forall|i: int, j: int|
            s.added(tag, Seq::empty()).tag_at(i, tag.name) && s.added(tag, Seq::empty()).tag_at(
                j,
                tag.name,
            ) ==> i == j,
{
    lemma_with_tag(s, tag);
}

/// Removing a tag removes its row and every edge
/// that leaves or reaches it, and nothing else.
pub proof fn law_remove_cascades(s: Store, name: Seq<char>)
    requires
        s.wf(),
    ensures
        s.removed(name).wf(),
        !s.removed(name).has_tag(name),
        forall|other: Seq<char>| other != name ==> (#[trigger] s.removed(name).tag(other)) == s.tag(other),
        forall|a: Seq<char>, b: Seq<char>|
            (#[trigger] s.removed(name).link(a, b)) == if a == name || b == name {
                None
            } else {
                s.link(a, b)
            },
{
    let keep1 = |r: Relation| !Filter::Tag1Is(name).holds_of(r);
    let keep2 = |r: Relation| !Filter::Tag2Is(name).holds_of(r);
    let keep3 = |t: TagRecord| !Filter::TagNameIs(name).holds_of_name(t.name);
    let s1 = s.without(Table::Relationship, Filter::Tag1Is(name));
    let s2 = s1.without(Table::Relationship, Filter::Tag2Is(name));
    let t = s.removed(name);
    lemma_filter_links(s, keep1);
    lemma_filter_links(s1, keep2);
    lemma_cleared(s, name);
    assert forall|i: int| #![trigger s2.links[i]] 0 <= i < s2.links.len() implies (forall|x: TagRecord|
        x.name == s2.links[i].tag1 || x.name == s2.links[i].tag2 ==> keep3(x)) by {
    }
    lemma_filter_tags(s2, keep3);
    lemma_same_links(s2, t);
    lemma_same_tags(s, s2);
    assert forall|other: Seq<char>| (#[trigger] t.tag(other)) == if other == name {
        None
    } else {
        s.tag(other)
    } by {
        if s.has_tag(other) {
            let i = s.tag_index(other);
            assert(s.tag_at(i, other));
        }
    }
    assert(!t.has_tag(name)) by {
        assert(t.tag(name) is None);
    }
    assert forall|a: Seq<char>, b: Seq<char>|
        (#[trigger] t.link(a, b)) == if a == name || b == name {
            None
        } else {
            s.link(a, b)
        } by {
        assert(t.link(a, b) == s2.link(a, b));
        if s.link(a, b) is Some {
            let i = s.link_index(a, b);
            assert(s.link_at(i, a, b));
        }
    }
}

/// A store that keeps the constraints holds
/// at most one row for each ordered pair of tags, and at most one row for
/// each tag name.
pub proof fn law_one_row_per_key(s: Store, i: int, j: int)
    requires
        s.wf(),
    ensures
        0 <= i < s.links.len() && 0 <= j < s.links.len() && s.links[i].tag1 == s.links[j].tag1
            && s.links[i].tag2 == s.links[j].tag2 ==> i == j,
        0 <= i < s.tags.len() && 0 <= j < s.tags.len() && s.tags[i].name == s.tags[j].name ==> i == j,
{
}

/// Whether some tag lies between `a` and `b`: an edge leads from `a` to
/// it and an edge from it to `b`.
pub open spec fn connected(t: Store, a: Seq<char>, b: Seq<char>) -> bool {
    exists|mid: Seq<char>| #[trigger] path(t, a, mid, b)
}

/// Whether every derived edge of `t` runs along a two-edge path of `t`.
pub open spec fn rests_on_paths(t: Store) -> bool {
    forall|a: Seq<char>, b: Seq<char>|
        (#[trigger] t.link(a, b)) is Some && !t.link(a, b).unwrap().is_origin ==> connected(t, a, b)
}

/// A store that grew has the edges that were there.
proof fn lemma_grown_links(s: Store, t: Store, a: Seq<char>, b: Seq<char>)
    requires
        grows(s, t),
        s.has_link(a, b),
    ensures
        t.has_link(a, b),
{
    assert(kept_or_raised(s.link(a, b), t.link(a, b)));
}

proof fn lemma_round_rests(s: Store, name: Seq<char>)
    requires
        s.wf(),
        rests_on_paths(s),
    ensures
        rests_on_paths(s.propagated(name)),
{
    let t = s.propagated(name);
    law_propagation_grows(s, name);
    assert forall|a: Seq<char>, b: Seq<char>|
        (#[trigger] t.link(a, b)) is Some && !t.link(a, b).unwrap().is_origin implies connected(
        t,
        a,
        b,
    ) by {
        if t.link(a, b) == s.link(a, b) {
            assert(connected(s, a, b));
            let mid = choose|mid: Seq<char>| #[trigger] path(s, a, mid, b);
            lemma_grown_links(s, t, a, mid);
            lemma_grown_links(s, t, mid, b);
            assert(path(t, a, mid, b));
        } else {
            law_new_weights_come_from_paths(s, name, a, b);
            let n = t.link(a, b).unwrap();
            let mid = choose|mid: Seq<char>|
                path(s, name, mid, n.tag2) && n == #[trigger] over(s, name, mid, n.tag2);
            assert(t.has_link(a, b));
            let i = t.link_index(a, b);
            assert(t.link_at(i, a, b));
            lemma_grown_links(s, t, a, mid);
            lemma_grown_links(s, t, mid, b);
            assert(path(t, a, mid, b));
        }
    }
}

proof fn lemma_rounds_rest(s: Store, names: Seq<Seq<char>>)
    requires
        s.wf(),
        rests_on_paths(s),
    ensures
        rests_on_paths(s.rounds(names)),
    decreases names.len(),
{
    if names.len() > 0 {
        let m = s.rounds(names.drop_last());
        lemma_rounds_rest(s, names.drop_last());
        lemma_rounds_grow(s, names.drop_last());
        lemma_round_rests(m, names.last());
    }
}

/// After a rebuild every
/// derived edge runs along a two-edge path that the store holds, so none
/// is left over from edges that are gone.
pub proof fn law_rebuilt_edges_rest_on_paths(s: Store)
    requires
        s.wf(),
    ensures
        s.rebuilt().wf(),
        rests_on_paths(s.rebuilt()),
{
    let keep = |r: Relation| !Filter::IsOrigin(false).holds_of(r);
    let key = |r: Relation| (r.tag1, r.tag2);
    let base = s.without(Table::Relationship, Filter::IsOrigin(false));
    lemma_filter_links(s, keep);
    assert(distinct(s.links, key));
    lemma_filter_distinct(s.links, key, keep);
    assert forall|a: Seq<char>, b: Seq<char>|
        (#[trigger] base.link(a, b)) is Some && !base.link(a, b).unwrap().is_origin implies connected(
        base,
        a,
        b,
    ) by {
        let i = base.link_index(a, b);
        assert(base.link_at(i, a, b));
        assert(keep(base.links[i]));
    }
    lemma_rounds_grow(base, base.names());
    lemma_rounds_rest(base, base.names());
}

/// A rebuild starts from the tags and the edges that users set, and from
/// nothing else: stores that agree on those are the same after it,
/// whatever derived edges they held.
pub proof fn law_rebuild_forgets_derived_edges(s: Store, t: Store)
    requires
        s.tags == t.tags,
        s.matching(Filter::IsOrigin(true)) == t.matching(Filter::IsOrigin(true)),
    ensures
        s.rebuilt() == t.rebuilt(),
{
    let set_by_user = |r: Relation| Filter::IsOrigin(true).holds_of(r);
    let not_derived = |r: Relation| !Filter::IsOrigin(false).holds_of(r);
    lemma_filter_same(s.links, set_by_user, not_derived);
    lemma_filter_same(t.links, set_by_user, not_derived);
    assert(s.without(Table::Relationship, Filter::IsOrigin(false)) == t.without(
        Table::Relationship,
        Filter::IsOrigin(false),
    ));
}

/// A delete keeps the constraints.
proof fn lemma_without_wf(s: Store, table: Table, cond: Filter)
    requires
        s.wf(),
    ensures
        s.without(table, cond).wf(),
{
    if cond.fits(table) {
        match table {
            Table::Tags => {
                if !s.names_in_use(cond) {
                    let keep = |t: TagRecord| !cond.holds_of_name(t.name);
                    assert forall|i: int| #![trigger s.links[i]] 0 <= i < s.links.len() implies (forall|
                        x: TagRecord,
                    |
                        x.name == s.links[i].tag1 || x.name == s.links[i].tag2 ==> keep(x)) by {
                    }
                    lemma_filter_tags(s, keep);
                }
            },
            Table::Relationship => {
                lemma_filter_links(s, |r: Relation| !cond.holds_of(r));
            },
        }
    }
}

/// An upsert keeps the constraints.
proof fn lemma_with_wf(s: Store, rec: Record, guard: Guard)
    requires
        s.wf(),
    ensures
        s.with(rec, guard).wf(),
{
    match rec {
        Record::Tag(t) => {
            if guard == Guard::Always {
                lemma_with_tag_row(s, t);
            }
        },
        Record::Relation(r) => {
            lemma_with_relation(s, r, guard);
        },
    }
}

/// Setting an edge keeps the constraints.
proof fn lemma_linked_wf(s: Store, src: Seq<char>, dst: Seq<char>, w: Weight)
    requires
        s.wf(),
    ensures
        s.linked(src, dst, w).wf(),
{
    if s.has_tag(src) && s.has_tag(dst) {
        let m = s.with(Record::Relation(origin(src, dst, w)), Guard::Always);
        lemma_with_relation(s, origin(src, dst, w), Guard::Always);
        law_propagation_grows(m, src);
    }
}

/// Joining neighbours keeps the constraints.
proof fn lemma_joined_all_wf(s: Store, name: Seq<char>, peers: Seq<(TagRecord, Weight)>)
    requires
        s.wf(),
    ensures
        s.joined_all(name, peers).wf(),
    decreases peers.len(),
{
    if peers.len() > 0 {
        let m = s.joined_all(name, peers.drop_last());
        let p = peers.last();
        lemma_joined_all_wf(s, name, peers.drop_last());
        lemma_with_tag(m, p.0);
        lemma_linked_wf(m.with_tag(p.0), name, p.0.name, p.1);
        law_propagation_grows(m.with_tag(p.0).linked(name, p.0.name, p.1), name);
    }
}

/// Every operation keeps the table constraints: no sequence of them leads
/// to a store with two rows for one key, or with an edge whose end is not
/// a tag.
pub proof fn law_constraints_are_kept(s: Store)
    requires
        s.wf(),
    ensures
        forall|rec: Record, guard: Guard| #[trigger] s.with(rec, guard).wf(),
        forall|table: Table, cond: Filter| #[trigger] s.without(table, cond).wf(),
        forall|tag: TagRecord| #[trigger] s.with_tag(tag).wf(),
        forall|name: Seq<char>| #[trigger] s.propagated(name).wf(),
        s.refreshed().wf(),
        s.rebuilt().wf(),
        forall|src: Seq<char>, dst: Seq<char>, w: Weight| #[trigger] s.linked(src, dst, w).wf(),
        forall|tag: TagRecord, peers: Seq<(TagRecord, Weight)>| #[trigger] s.added(tag, peers).wf(),
        forall|name: Seq<char>| #[trigger] s.removed(name).wf(),
        forall|name: Seq<char>, desc: Seq<char>| #[trigger] s.described(name, desc).wf(),
{
    assert forall|rec: Record, guard: Guard| #[trigger] s.with(rec, guard).wf() by {
        lemma_with_wf(s, rec, guard);
    }
    assert forall|table: Table, cond: Filter| #[trigger] s.without(table, cond).wf() by {
        lemma_without_wf(s, table, cond);
    }
    assert forall|tag: TagRecord| #[trigger] s.with_tag(tag).wf() by {
        lemma_with_tag(s, tag);
    }
    assert forall|name: Seq<char>| #[trigger] s.propagated(name).wf() by {
        law_propagation_grows(s, name);
    }
    lemma_rounds_grow(s, s.names());
    law_rebuilt_edges_rest_on_paths(s);
    assert forall|src: Seq<char>, dst: Seq<char>, w: Weight| #[trigger] s.linked(src, dst, w).wf() by {
        lemma_linked_wf(s, src, dst, w);
    }
    assert forall|tag: TagRecord, peers: Seq<(TagRecord, Weight)>| #[trigger]
        s.added(tag, peers).wf() by {
        lemma_with_tag(s, tag);
        lemma_joined_all_wf(s.with_tag(tag), tag.name, peers);
    }
    assert forall|name: Seq<char>| #[trigger] s.removed(name).wf() by {
        law_remove_cascades(s, name);
    }
    assert forall|name: Seq<char>, desc: Seq<char>| #[trigger] s.described(name, desc).wf() by {
        lemma_with_wf(s, Record::Tag(TagRecord { name: name, info: Some(desc) }), Guard::Always);
    }
}

/// Setting an edge between two tags stores it as the user gave it,
/// whatever was there, and treats every other edge as a round of
/// propagation does.
pub proof fn law_link_sets_the_edge(s: Store, src: Seq<char>, dst: Seq<char>, w: Weight)
    requires
        s.wf(),
        s.has_tag(src),
        s.has_tag(dst),
    ensures
        s.linked(src, dst, w).link(src, dst) == Some(origin(src, dst, w)),
        forall|a: Seq<char>, b: Seq<char>|
            !(a == src && b == dst) ==> kept_or_raised(s.link(a, b), #[trigger] s.linked(src, dst, w).link(a, b)),
{
    let m = s.with(Record::Relation(origin(src, dst, w)), Guard::Always);
    let t = s.linked(src, dst, w);
    lemma_with_relation(s, origin(src, dst, w), Guard::Always);
    law_propagation_grows(m, src);
    assert(kept_or_raised(m.link(src, dst), t.link(src, dst)));
    assert forall|a: Seq<char>, b: Seq<char>| !(a == src && b == dst) implies kept_or_raised(
        s.link(a, b),
        #[trigger] t.link(a, b),
    ) by {
        assert(m.link(a, b) == s.link(a, b));
        assert(kept_or_raised(m.link(a, b), t.link(a, b)));
    }
}

/// An edge that a user set between two tags is still there, at the weight
/// given, after a round of propagation from any tag.
pub proof fn law_link_survives_rounds(
    s: Store,
    src: Seq<char>,
    dst: Seq<char>,
    w: Weight,
    name: Seq<char>,
)
    requires
        s.wf(),
        s.has_tag(src),
        s.has_tag(dst),
    ensures
        s.linked(src, dst, w).propagated(name).link(src, dst) == Some(origin(src, dst, w)),
{
    law_link_sets_the_edge(s, src, dst, w);
    lemma_linked_wf(s, src, dst, w);
    law_origin_edges_are_never_overwritten(s.linked(src, dst, w), name, src, dst);
}

/// Setting a description stores it for that tag, makes the tag where it
/// was missing, and changes no other tag and no edge.
pub proof fn law_describe_sets_the_description(s: Store, name: Seq<char>, desc: Seq<char>)
    requires
        s.wf(),
    ensures
        s.described(name, desc).description(name) == Some(desc),
        forall|other: Seq<char>|
            other != name ==> (#[trigger] s.described(name, desc).tag(other)) == s.tag(other),
        forall|a: Seq<char>, b: Seq<char>| (#[trigger] s.described(name, desc).link(a, b)) == s.link(a, b),
{
    lemma_with_tag_row(s, TagRecord { name: name, info: Some(desc) });
}

/// Joining neighbours to `name` keeps every edge that a user set, unless
/// it is an edge from `name` to one of them.
proof fn lemma_joined_all_keeps(
    s: Store,
    name: Seq<char>,
    peers: Seq<(TagRecord, Weight)>,
    a: Seq<char>,
    b: Seq<char>,
)
    requires
        s.wf(),
        s.link(a, b) is Some,
        s.link(a, b).unwrap().is_origin,
        forall|j: int| 0 <= j < peers.len() ==> !(a == name && b == (#[trigger] peers[j]).0.name),
    ensures
        s.joined_all(name, peers).wf(),
        s.joined_all(name, peers).link(a, b) == s.link(a, b),
        forall|other: Seq<char>| s.has_tag(other) ==> #[trigger] s.joined_all(name, peers).has_tag(other),
    decreases peers.len(),
{
    lemma_joined_all_wf(s, name, peers);
    if peers.len() > 0 {
        let head = peers.drop_last();
        let p = peers.last();
        let m = s.joined_all(name, head);
        assert forall|j: int| 0 <= j < head.len() implies !(a == name && b == (#[trigger] head[j]).0.name) by {
            assert(head[j] == peers[j]);
        }
        lemma_joined_all_keeps(s, name, head, a, b);
        lemma_joined_keeps(m, name, p.0, p.1);
        assert(peers[peers.len() - 1] == p);
        assert(kept_or_raised(m.link(a, b), m.joined(name, p.0, p.1).link(a, b)));
    }
}

/// Joining one neighbour to `name` keeps the tags, and keeps or raises
/// every edge but the one from `name` to the neighbour.
proof fn lemma_joined_keeps(s: Store, name: Seq<char>, peer: TagRecord, w: Weight)
    requires
        s.wf(),
    ensures
        s.joined(name, peer, w).wf(),
        s.joined(name, peer, w).has_tag(peer.name),
        forall|other: Seq<char>| s.has_tag(other) ==> #[trigger] s.joined(name, peer, w).has_tag(other),
        forall|a: Seq<char>, b: Seq<char>|
            !(a == name && b == peer.name) ==> kept_or_raised(
                s.link(a, b),
                #[trigger] s.joined(name, peer, w).link(a, b),
            ),
        s.has_tag(name) ==> s.joined(name, peer, w).link(name, peer.name) == Some(
            origin(name, peer.name, w),
        ),
{
    let m = s.with_tag(peer);
    let l = m.linked(name, peer.name, w);
    let t = s.joined(name, peer, w);
    lemma_with_tag(s, peer);
    lemma_linked_wf(m, name, peer.name, w);
    law_propagation_grows(l, name);
    if m.has_tag(name) {
        law_link_sets_the_edge(m, name, peer.name, w);
        assert(kept_or_raised(l.link(name, peer.name), t.link(name, peer.name)));
        lemma_with_relation(m, origin(name, peer.name, w), Guard::Always);
        law_propagation_grows(m.with(Record::Relation(origin(name, peer.name, w)), Guard::Always), name);
    }
    lemma_same_tags(m, l);
    lemma_same_tags(l, t);
    assert forall|a: Seq<char>, b: Seq<char>| !(a == name && b == peer.name) implies kept_or_raised(
        s.link(a, b),
        #[trigger] t.link(a, b),
    ) by {
        assert(m.link(a, b) == s.link(a, b));
        if m.has_tag(name) {
            assert(kept_or_raised(m.link(a, b), l.link(a, b)));
        }
        assert(kept_or_raised(l.link(a, b), t.link(a, b)));
    }
}

/// Adding a tag with neighbours leaves the tag and every neighbour in the
/// store, and from the tag to each neighbour the edge that the user gave:
/// at the weight given where the neighbour is named last.
pub proof fn law_add_links_every_neighbour(
    s: Store,
    tag: TagRecord,
    peers: Seq<(TagRecord, Weight)>,
    i: int,
)
    requires
        s.wf(),
        0 <= i < peers.len(),
        forall|j: int| i < j < peers.len() ==> (#[trigger] peers[j]).0.name != peers[i].0.name,
    ensures
        s.added(tag, peers).has_tag(tag.name),
        s.added(tag, peers).has_tag(peers[i].0.name),
        s.added(tag, peers).link(tag.name, peers[i].0.name) == Some(
            origin(tag.name, peers[i].0.name, peers[i].1),
        ),
{
    let start = s.with_tag(tag);
    let name = tag.name;
    let step = |s: Store, p: (TagRecord, Weight)| s.joined(name, p.0, p.1);
    let before = peers.take(i);
    let after = peers.skip(i + 1);
    let m = start.joined_all(name, before);
    let n = m.joined(name, peers[i].0, peers[i].1);
    lemma_with_tag(s, tag);
    lemma_joined_all_wf(start, name, before);
    lemma_joined_all_tags(start, name, before, name);
    lemma_joined_keeps(m, name, peers[i].0, peers[i].1);
    assert(peers.take(i + 1).drop_last() =~= before);
    assert(peers.take(i + 1).last() == peers[i]);
    assert(start.joined_all(name, peers.take(i + 1)) == n);
    peers.lemma_fold_left_split(start, step, i + 1);
    assert(peers.subrange(0, i + 1) =~= peers.take(i + 1));
    assert(peers.subrange(i + 1, peers.len() as int) =~= after);
    assert(start.joined_all(name, peers) == n.joined_all(name, after));
    assert forall|j: int| 0 <= j < after.len() implies !(name == name && peers[i].0.name == (
    #[trigger] after[j]).0.name) by {
        assert(after[j] == peers[i + 1 + j]);
    }
    lemma_joined_all_keeps(n, name, after, name, peers[i].0.name);
}

/// Joining neighbours keeps every tag.
proof fn lemma_joined_all_tags(
    s: Store,
    name: Seq<char>,
    peers: Seq<(TagRecord, Weight)>,
    other: Seq<char>,
)
    requires
        s.wf(),
        s.has_tag(other),
    ensures
        s.joined_all(name, peers).has_tag(other),
    decreases peers.len(),
{
    if peers.len() > 0 {
        let m = s.joined_all(name, peers.drop_last());
        lemma_joined_all_wf(s, name, peers.drop_last());
        lemma_joined_all_tags(s, name, peers.drop_last(), other);
        lemma_joined_keeps(m, name, peers.last().0, peers.last().1);
    }
}

/// The ranking of the tags that a tag has edges to names exactly those
/// tags, and no tag in it has a stronger edge than a tag before it.
pub proof fn law_top_related_is_ordered(s: Store, name: Seq<char>)
    requires
        s.wf(),
    ensures
        s.top_related(name).len() == s.links_from(name).len(),
        forall|far: Seq<char>| (#[trigger] s.top_related(name).contains(far)) <==> s.has_link(name, far),
        forall|i: int, j: int|
            0 <= i < j < s.top_related(name).len() ==> {
                &&& s.weight(name, #[trigger] s.top_related(name)[i]) is Some
                &&& s.weight(name, #[trigger] s.top_related(name)[j]) is Some
                &&& !s.weight(name, s.top_related(name)[j]).unwrap().exceeds(
                    s.weight(name, s.top_related(name)[i]).unwrap(),
                )
            },
{
    broadcast use vstd::seq_lib::group_to_multiset_ensures;

    let rows = s.links_from(name);
    let sorted = ranked(rows);
    let top = s.top_related(name);
    lemma_links_from(s, name);
    lemma_ranked_permutes(rows);
    lemma_ranked_descending(rows);
    assert forall|k: int| 0 <= k < sorted.len() implies s.link(name, (#[trigger] sorted[k]).tag2) == Some(
        sorted[k],
    ) by {
        assert(sorted.contains(sorted[k]));
        assert(sorted.to_multiset().contains(sorted[k]));
        assert(rows.contains(sorted[k]));
        let m = choose|m: int| 0 <= m < rows.len() && rows[m] == sorted[k];
        assert(s.link(name, rows[m].tag2) == Some(rows[m]));
    }
    assert forall|far: Seq<char>| (#[trigger] top.contains(far)) <==> s.has_link(name, far) by {
        if top.contains(far) {
            let k = choose|k: int| 0 <= k < top.len() && top[k] == far;
            assert(s.link(name, sorted[k].tag2) == Some(sorted[k]));
        }
        if s.has_link(name, far) {
            let r = s.link(name, far).unwrap();
            assert(rows.contains(r));
            assert(rows.to_multiset().contains(r));
            assert(sorted.contains(r));
            let k = choose|k: int| 0 <= k < sorted.len() && sorted[k] == r;
            let i = s.link_index(name, far);
            assert(s.link_at(i, name, far));
            assert(top[k] == far);
        }
    }
    assert forall|i: int, j: int| 0 <= i < j < top.len() implies {
        &&& s.weight(name, #[trigger] top[i]) is Some
        &&& s.weight(name, #[trigger] top[j]) is Some
        &&& !s.weight(name, top[j]).unwrap().exceeds(s.weight(name, top[i]).unwrap())
    } by {
        assert(s.link(name, sorted[i].tag2) == Some(sorted[i]));
        assert(s.link(name, sorted[j].tag2) == Some(sorted[j]));
        assert(!sorted[j].weight.exceeds(sorted[i].weight));
    }
}

/// Within the intended range the product of two weights is no stronger
/// than either of them, so a derived edge is never stronger than the edges
/// it runs along; the order of the two does not matter.
pub proof fn law_products_stay_in_range(a: Weight, b: Weight)
    requires
        a.millionths <= UNIT,
        b.millionths <= UNIT,
    ensures
        a.product(b).millionths <= a.millionths,
        a.product(b).millionths <= b.millionths,
        a.product(b) == b.product(a),
{
    let x = a.millionths as int;
    let y = b.millionths as int;
    let u = UNIT as int;
    assert(x * y <= x * u) by (nonlinear_arith)
        requires
            0 <= x,
            0 <= y <= u,
    ;
    assert(x * y <= u * y) by (nonlinear_arith)
        requires
            0 <= y,
            0 <= x <= u,
    ;
    assert((x * u) / u == x) by (nonlinear_arith)
        requires
            u > 0,
    ;
    assert((u * y) / u == y) by (nonlinear_arith)
        requires
            u > 0,
    ;
    assert((x * y) / u <= (x * u) / u) by (nonlinear_arith)
        requires
            x * y <= x * u,
            u > 0,
    ;
    assert((x * y) / u <= (u * y) / u) by (nonlinear_arith)
        requires
            x * y <= u * y,
            u > 0,
    ;
    assert(x * y == y * x) by (nonlinear_arith);
}

} // verus!
