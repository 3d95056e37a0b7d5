//! Facts about sequences that the proofs of the store and of the graph
//! share.

use vstd::prelude::*;

verus! {

/// Whether no two entries of `rows` have the same key.
pub open spec fn distinct<A, K>(rows: Seq<A>, key: spec_fn(A) -> K) -> bool {
    forall|i: int, j: int|
        0 <= i < rows.len() && 0 <= j < rows.len() && key(#[trigger] rows[i]) == key(#[trigger] rows[j])
            ==> i == j
}

/// Filtering keeps keys distinct, keeps exactly the entries that pass, and
/// takes every kept entry from the sequence it filters.
pub proof fn lemma_filter_distinct<A, K>(rows: Seq<A>, key: spec_fn(A) -> K, keep: spec_fn(A) -> bool)
    requires
        distinct(rows, key),
    ensures
        distinct(rows.filter(keep), key),
        forall|k: int|
            0 <= k < rows.filter(keep).len() ==> keep(#[trigger] rows.filter(keep)[k]) && rows.contains(
                rows.filter(keep)[k],
            ),
        forall|j: int| 0 <= j < rows.len() && keep(rows[j]) ==> rows.filter(keep).contains(#[trigger] rows[j]),
    decreases rows.len(),
{
    reveal(Seq::filter);
    let out = rows.filter(keep);
    if rows.len() > 0 {
        let head = rows.drop_last();
        let sub = head.filter(keep);
        assert forall|i: int, j: int|
            0 <= i < head.len() && 0 <= j < head.len() && key(#[trigger] head[i]) == key(
                #[trigger] head[j],
            ) implies i == j by {
            assert(head[i] == rows[i] && head[j] == rows[j]);
        }
        lemma_filter_distinct(head, key, keep);
        assert forall|k: int| 0 <= k < out.len() implies keep(#[trigger] out[k]) && rows.contains(
            out[k],
        ) by {
            if k < sub.len() {
                assert(out[k] == sub[k]);
                let m = choose|m: int| 0 <= m < head.len() && head[m] == sub[k];
                assert(rows[m] == out[k]);
            } else {
                assert(out[k] == rows[rows.len() - 1]);
            }
        }
        assert forall|j: int| 0 <= j < rows.len() && keep(rows[j]) implies out.contains(
            #[trigger] rows[j],
        ) by {
            if j < head.len() {
                assert(head[j] == rows[j]);
                let m = choose|m: int| 0 <= m < sub.len() && sub[m] == head[j];
                assert(out[m] == rows[j]);
            } else {
                assert(out[out.len() - 1] == rows[j]);
            }
        }
        assert forall|i: int, j: int|
            0 <= i < out.len() && 0 <= j < out.len() && key(#[trigger] out[i]) == key(
                #[trigger] out[j],
            ) implies i == j by {
            if i < sub.len() && j < sub.len() {
                assert(out[i] == sub[i] && out[j] == sub[j]);
            } else if i < sub.len() {
                assert(out[i] == sub[i]);
                let m = choose|m: int| 0 <= m < head.len() && head[m] == sub[i];
                assert(rows[m] == out[i] && rows[rows.len() - 1] == out[j]);
            } else if j < sub.len() {
                assert(out[j] == sub[j]);
                let m = choose|m: int| 0 <= m < head.len() && head[m] == sub[j];
                assert(rows[m] == out[j] && rows[rows.len() - 1] == out[i]);
            }
        }
    }
}

/// Filtering one entry more: the entry is appended where it passes.
pub proof fn lemma_filter_next<A>(rows: Seq<A>, keep: spec_fn(A) -> bool, i: int)
    requires
        0 <= i < rows.len(),
    ensures
        rows.take(i + 1).filter(keep) == if keep(rows[i]) {
            rows.take(i).filter(keep).push(rows[i])
        } else {
            rows.take(i).filter(keep)
        },
{
    reveal(Seq::filter);
    assert(rows.take(i + 1).drop_last() =~= rows.take(i));
}

/// Filtering nothing gives nothing, and all entries are the whole sequence.
pub proof fn lemma_filter_ends<A>(rows: Seq<A>, keep: spec_fn(A) -> bool)
    ensures
        rows.take(rows.len() as int) == rows,
        rows.take(0).filter(keep) == Seq::<A>::empty(),
{
    reveal(Seq::filter);
    assert(rows.take(rows.len() as int) =~= rows);
    assert(rows.take(0) =~= Seq::<A>::empty());
}

/// A filter that every entry passes keeps the sequence as it is.
pub proof fn lemma_filter_all<A>(rows: Seq<A>, keep: spec_fn(A) -> bool)
    requires
        forall|i: int| 0 <= i < rows.len() ==> keep(#[trigger] rows[i]),
    ensures
        rows.filter(keep) == rows,
    decreases rows.len(),
{
    reveal(Seq::filter);
    if rows.len() > 0 {
        let head = rows.drop_last();
        assert forall|i: int| 0 <= i < head.len() implies keep(#[trigger] head[i]) by {
            assert(head[i] == rows[i]);
        }
        lemma_filter_all(head, keep);
        assert(keep(rows[rows.len() - 1]));
        assert(head.push(rows.last()) =~= rows);
    }
}

/// Folding one entry more applies the step to it.
pub proof fn lemma_fold_next<A, B>(rows: Seq<A>, start: B, step: spec_fn(B, A) -> B, i: int)
    requires
        0 <= i < rows.len(),
    ensures
        rows.take(i + 1).fold_left(start, step) == step(rows.take(i).fold_left(start, step), rows[i]),
{
    assert(rows.take(i + 1).drop_last() =~= rows.take(i));
}

/// Folding nothing gives the start, and all entries are the whole sequence.
pub proof fn lemma_fold_ends<A, B>(rows: Seq<A>, start: B, step: spec_fn(B, A) -> B)
    ensures
        rows.take(0).fold_left(start, step) == start,
        rows.take(rows.len() as int) == rows,
{
    assert(rows.take(rows.len() as int) =~= rows);
}

/// Whether `x` is an entry of what `f` makes of some entry of `rows`.
pub open spec fn mapped_from<A, B>(rows: Seq<A>, f: spec_fn(A) -> Seq<B>, x: B) -> bool {
    exists|i: int, j: int| 0 <= i < rows.len() && 0 <= j < f(rows[i]).len() && (#[trigger] f(rows[i])[j]) == x
}

/// Every entry of a flattened map comes from one of the mapped entries,
/// and every entry of those is in it.
pub proof fn lemma_flat_map_members<A, B>(rows: Seq<A>, f: spec_fn(A) -> Seq<B>)
    ensures
        forall|k: int|
            0 <= k < rows.flat_map(f).len() ==> mapped_from(rows, f, #[trigger] rows.flat_map(f)[k]),
        forall|i: int, j: int|
            0 <= i < rows.len() && 0 <= j < f(rows[i]).len() ==> rows.flat_map(f).contains(
                #[trigger] f(rows[i])[j],
            ),
    decreases rows.len(),
{
    let all = rows.flat_map(f);
    if rows.len() == 0 {
        assert(rows.map_values(f) =~= Seq::empty());
    } else {
        let head = rows.drop_last();
        let tail = f(rows.last());
        lemma_flat_map_members(head, f);
        head.lemma_flat_map_push(f, rows.last());
        assert(head.push(rows.last()) =~= rows);
        let front = head.flat_map(f);
        assert(all =~= front + tail);
        assert forall|k: int| 0 <= k < all.len() implies mapped_from(rows, f, #[trigger] all[k]) by {
            if k < front.len() {
                assert(all[k] == front[k]);
                assert(mapped_from(head, f, front[k]));
                let (i, j) = choose|i: int, j: int|
                    0 <= i < head.len() && 0 <= j < f(head[i]).len() && (#[trigger] f(head[i])[j]) == front[k];
                assert(head[i] == rows[i]);
                assert(f(rows[i])[j] == all[k]);
            } else {
                assert(f(rows[rows.len() - 1])[k - front.len()] == all[k]);
            }
        }
        assert forall|i: int, j: int|
            0 <= i < rows.len() && 0 <= j < f(rows[i]).len() implies all.contains(
            #[trigger] f(rows[i])[j],
        ) by {
            if i < head.len() {
                assert(head[i] == rows[i]);
                assert(front.contains(f(head[i])[j]));
                let k = choose|k: int| 0 <= k < front.len() && front[k] == f(head[i])[j];
                assert(all[k] == f(rows[i])[j]);
            } else {
                assert(all[front.len() + j] == f(rows[i])[j]);
            }
        }
    }
}

/// Filters that agree on every entry keep the same entries.
pub proof fn lemma_filter_same<A>(rows: Seq<A>, p: spec_fn(A) -> bool, q: spec_fn(A) -> bool)
    requires
        forall|x: A| (#[trigger] p(x)) == q(x),
    ensures
        rows.filter(p) == rows.filter(q),
    decreases rows.len(),
{
    reveal(Seq::filter);
    if rows.len() > 0 {
        lemma_filter_same(rows.drop_last(), p, q);
    }
}

} // verus!
