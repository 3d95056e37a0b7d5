//! Ordering relationships by weight, strongest first.

use vstd::prelude::*;
use crate::weight::Weight;
use crate::db::schema::Relation;

verus! {

/// Whether `k` is where a row of weight `w` goes into `rows`: behind every
/// row at the front that is at least as strong, before the first weaker one.
pub open spec fn is_slot(rows: Seq<Relation>, w: Weight, k: int) -> bool {
    &&& 0 <= k <= rows.len()
    &&& forall|j: int| 0 <= j < k ==> !w.exceeds(#[trigger] rows[j].weight)
    &&& k < rows.len() ==> w.exceeds(rows[k].weight)
}

/// The place of a row of weight `w` in `rows`.
pub open spec fn slot(rows: Seq<Relation>, w: Weight) -> int {
    choose|k: int| is_slot(rows, w, k)
}

/// `rows` with `r` put into its place.
pub open spec fn placed(rows: Seq<Relation>, r: Relation) -> Seq<Relation> {
    rows.insert(slot(rows, r.weight), r)
}

/// `rows` ordered by weight, strongest first, rows of equal weight in the
/// order in which `rows` holds them.
pub open spec fn ranked(rows: Seq<Relation>) -> Seq<Relation>
    decreases rows.len(),
{
    if rows.len() == 0 {
        rows
    } else {
        placed(ranked(rows.drop_last()), rows.last())
    }
}

/// Whether no row is followed by a stronger one.
pub open spec fn descending(rows: Seq<Relation>) -> bool {
    forall|i: int, j: int|
        0 <= i < j < rows.len() ==> !(#[trigger] rows[j]).weight.exceeds((#[trigger] rows[i]).weight)
}

/// How far the rows at the front are at least as strong as `w`.
spec fn front(rows: Seq<Relation>, w: Weight) -> int
    decreases rows.len(),
{
    if rows.len() == 0 || w.exceeds(rows[0].weight) {
        0
    } else {
        1 + front(rows.skip(1), w)
    }
}

proof fn lemma_front_is_slot(rows: Seq<Relation>, w: Weight)
    ensures
        is_slot(rows, w, front(rows, w)),
    decreases rows.len(),
{
    if rows.len() == 0 || w.exceeds(rows[0].weight) {
    } else {
        let rest = rows.skip(1);
        lemma_front_is_slot(rest, w);
        let k = front(rest, w);
        assert forall|j: int| 0 <= j < k + 1 implies !w.exceeds(#[trigger] rows[j].weight) by {
            if j > 0 {
                assert(rows[j] == rest[j - 1]);
            }
        }
        if k + 1 < rows.len() {
            assert(rows[k + 1] == rest[k]);
        }
    }
}

/// Every sequence has exactly one slot for each weight.
pub proof fn lemma_slot_unique(rows: Seq<Relation>, w: Weight, k: int)
    requires
        is_slot(rows, w, k),
    ensures
        slot(rows, w) == k,
{
    let c = slot(rows, w);
    assert(is_slot(rows, w, c));
    if c < k {
        assert(!w.exceeds(rows[c].weight));
    }
    if k < c {
        assert(!w.exceeds(rows[k].weight));
    }
}

/// The slot is a valid position.
pub proof fn lemma_slot_exists(rows: Seq<Relation>, w: Weight)
    ensures
        is_slot(rows, w, slot(rows, w)),
{
    lemma_front_is_slot(rows, w);
}

/// Ranking keeps every row, and only those.
pub proof fn lemma_ranked_permutes(rows: Seq<Relation>)
    ensures
        ranked(rows).len() == rows.len(),
        ranked(rows).to_multiset() == rows.to_multiset(),
    decreases rows.len(),
{
    broadcast use vstd::seq_lib::group_to_multiset_ensures;

    if rows.len() == 0 {
    } else {
        let head = rows.drop_last();
        let r = rows.last();
        lemma_ranked_permutes(head);
        lemma_slot_exists(ranked(head), r.weight);
        let k = slot(ranked(head), r.weight);
        vstd::seq_lib::to_multiset_insert(ranked(head), k, r);
        assert(rows == head.push(r));
    }
}

/// Ranking orders strongest first.
pub proof fn lemma_ranked_descending(rows: Seq<Relation>)
    ensures
        descending(ranked(rows)),
    decreases rows.len(),
{
    if rows.len() == 0 {
    } else {
        let head = ranked(rows.drop_last());
        let r = rows.last();
        lemma_ranked_descending(rows.drop_last());
        lemma_slot_exists(head, r.weight);
        let k = slot(head, r.weight);
        let out = head.insert(k, r);
        assert forall|i: int, j: int| 0 <= i < j < out.len() implies !(#[trigger] out[j]).weight.exceeds(
            (#[trigger] out[i]).weight,
        ) by {
            if j < k {
                assert(out[i] == head[i] && out[j] == head[j]);
            } else if j == k {
                assert(out[i] == head[i]);
            } else if i < k {
                assert(out[i] == head[i] && out[j] == head[j - 1]);
            } else if i == k {
                assert(out[j] == head[j - 1]);
                if k < j - 1 {
                    assert(!head[j - 1].weight.exceeds(head[k].weight));
                }
            } else {
                assert(out[i] == head[i - 1] && out[j] == head[j - 1]);
            }
        }
    }
}

} // verus!
