//! What a list of ranges adds and removes, independent of its order: the
//! inserted lengths it carries and the base positions its deletes cover.

use vstd::prelude::*;
use crate::ops::Op;

verus! {

/// The sum of `f` over the ranges of `r` from index `i` on.
pub open spec fn tally(r: Seq<Op>, i: int, f: spec_fn(Op) -> int) -> int
    decreases r.len() - i,
{
    if i < 0 || i >= r.len() { 0 } else { f(r[i]) + tally(r, i + 1, f) }
}

/// The inserted length a range carries.
pub open spec fn inserted_len() -> spec_fn(Op) -> int {
    |op: Op| if op.len > 0 { op.len as int } else { 0 }
}

/// The inserted length a range carries at anchor `x`.
pub open spec fn inserted_len_at(x: int) -> spec_fn(Op) -> int {
    |op: Op| if op.len > 0 && op.ins == x { op.len as int } else { 0 }
}

/// The total length inserted by `r`.
pub open spec fn insert_total(r: Seq<Op>) -> int {
    tally(r, 0, inserted_len())
}

/// The total length inserted by `r` at anchor `x`.
pub open spec fn insert_total_at(r: Seq<Op>, x: int) -> int {
    tally(r, 0, inserted_len_at(x))
}

/// A function of a range that is zero on every range that inserts nothing.
pub open spec fn counts_inserts_only(f: spec_fn(Op) -> int) -> bool {
    forall|op: Op| op.len <= 0 ==> #[trigger] f(op) == 0
}

/// The delete range `op` removes base position `p`.
pub open spec fn covers(op: Op, p: int) -> bool {
    op.len < 0 && op.ins <= p < op.ins - op.len
}

/// The base positions the delete range `op` removes.
pub open spec fn cover_set(op: Op) -> Set<int> {
    Set::new(|p: int| covers(op, p))
}

/// The base positions `start .. end`.
pub open spec fn span_set(start: int, end: int) -> Set<int> {
    Set::new(|p: int| start <= p < end)
}

/// The base positions removed by the ranges of `r` from index `i` on.
pub open spec fn deleted_from(r: Seq<Op>, i: int) -> Set<int> {
    Set::new(|p: int| exists|m: int| i <= m < r.len() && 0 <= m && #[trigger] covers(r[m], p))
}

/// The base positions removed by `r`.
pub open spec fn deleted_base(r: Seq<Op>) -> Set<int> {
    deleted_from(r, 0)
}

pub proof fn lemma_counts_inserts_only()
    ensures
        counts_inserts_only(inserted_len()),
        forall|x: int| #[trigger] counts_inserts_only(inserted_len_at(x)),
{
}

/// Splitting a tally at its first range.
pub proof fn lemma_tally_step(r: Seq<Op>, i: int, f: spec_fn(Op) -> int)
    requires
        0 <= i < r.len(),
    ensures
        tally(r, i, f) == f(r[i]) + tally(r, i + 1, f),
{
}

/// Tallies agree on two lists that agree from `i` on.
pub proof fn lemma_tally_same_tail(a: Seq<Op>, b: Seq<Op>, i: int, d: int, f: spec_fn(Op) -> int)
    requires
        0 <= i <= a.len(),
        0 <= i + d,
        a.len() - i == b.len() - (i + d),
        forall|m: int| i <= m < a.len() ==> #[trigger] a[m] == b[m + d],
    ensures
        tally(a, i, f) == tally(b, i + d, f),
    decreases a.len() - i,
{
    if i < a.len() {
        assert(a[i] == b[i + d]);
        lemma_tally_same_tail(a, b, i + 1, d, f);
    }
}

/// Appending a range adds its tally.
pub proof fn lemma_tally_push(r: Seq<Op>, c: Op, i: int, f: spec_fn(Op) -> int)
    requires
        0 <= i <= r.len(),
    ensures
        tally(r.push(c), i, f) == tally(r, i, f) + f(c),
    decreases r.len() - i,
{
    if i < r.len() {
        assert(r.push(c)[i] == r[i]);
        lemma_tally_push(r, c, i + 1, f);
    } else {
        assert(r.push(c)[i] == c);
        assert(tally(r.push(c), i + 1, f) == 0);
    }
}

/// Replacing a range changes the tally by the difference.
pub proof fn lemma_tally_update(r: Seq<Op>, k: int, c: Op, i: int, f: spec_fn(Op) -> int)
    requires
        0 <= i <= k < r.len(),
    ensures
        tally(r.update(k, c), i, f) == tally(r, i, f) - f(r[k]) + f(c),
    decreases r.len() - i,
{
    let r2 = r.update(k, c);
    if i < k {
        assert(r2[i] == r[i]);
        lemma_tally_update(r, k, c, i + 1, f);
    } else {
        lemma_tally_same_tail(r2, r, k + 1, 0, f);
    }
}

/// Inserting a range adds its tally.
pub proof fn lemma_tally_insert(r: Seq<Op>, j: int, c: Op, i: int, f: spec_fn(Op) -> int)
    requires
        0 <= i <= j <= r.len(),
    ensures
        tally(r.insert(j, c), i, f) == tally(r, i, f) + f(c),
    decreases r.len() - i,
{
    let r2 = r.insert(j, c);
    if i < j {
        assert(r2[i] == r[i]);
        lemma_tally_insert(r, j, c, i + 1, f);
    } else {
        assert(r2[j] == c);
        lemma_tally_same_tail(r2, r, j + 1, -1, f);
    }
}

/// The tally of a list from its second range is that of the list without its first.
pub proof fn lemma_tally_drop_first(r: Seq<Op>, f: spec_fn(Op) -> int)
    requires
        r.len() > 0,
    ensures
        tally(r, 1, f) == tally(r.drop_first(), 0, f),
{
    lemma_tally_same_tail(r, r.drop_first(), 1, -1, f);
}

/// The positions removed from index `i` on are those of range `i` and of the rest.
pub proof fn lemma_deleted_step(r: Seq<Op>, i: int)
    requires
        0 <= i < r.len(),
    ensures
        deleted_from(r, i) == cover_set(r[i]).union(deleted_from(r, i + 1)),
{
    assert forall|p: int| #[trigger] deleted_from(r, i).contains(p)
        <==> cover_set(r[i]).union(deleted_from(r, i + 1)).contains(p) by {
        if deleted_from(r, i).contains(p) {
            let m = choose|m: int| i <= m < r.len() && 0 <= m && #[trigger] covers(r[m], p);
            if m > i {
                assert(deleted_from(r, i + 1).contains(p));
            }
        }
        if deleted_from(r, i + 1).contains(p) {
            let m = choose|m: int| i + 1 <= m < r.len() && 0 <= m && #[trigger] covers(r[m], p);
            assert(i <= m);
        }
        if covers(r[i], p) {
            assert(i <= i < r.len() && covers(r[i], p));
        }
    }
    assert(deleted_from(r, i) =~= cover_set(r[i]).union(deleted_from(r, i + 1)));
}

/// Nothing is removed past the end.
pub proof fn lemma_deleted_end(r: Seq<Op>, i: int)
    requires
        i >= r.len(),
    ensures
        deleted_from(r, i) == Set::<int>::empty(),
{
    assert(deleted_from(r, i) =~= Set::<int>::empty());
}

/// The positions removed by a list from its second range are those of the
/// list without its first.
pub proof fn lemma_deleted_drop_first(r: Seq<Op>)
    requires
        r.len() > 0,
    ensures
        deleted_from(r, 1) == deleted_base(r.drop_first()),
{
    let d = r.drop_first();
    assert forall|p: int| #[trigger] deleted_from(r, 1).contains(p) <==> deleted_base(d).contains(p) by {
        if deleted_from(r, 1).contains(p) {
            let m = choose|m: int| 1 <= m < r.len() && 0 <= m && #[trigger] covers(r[m], p);
            assert(d[m - 1] == r[m]);
            assert(0 <= m - 1 < d.len() && covers(d[m - 1], p));
        }
        if deleted_base(d).contains(p) {
            let m = choose|m: int| 0 <= m < d.len() && 0 <= m && #[trigger] covers(d[m], p);
            assert(d[m] == r[m + 1]);
            assert(1 <= m + 1 < r.len() && covers(r[m + 1], p));
        }
    }
    assert(deleted_from(r, 1) =~= deleted_base(d));
}

/// Appending a range adds the positions it removes.
pub proof fn lemma_deleted_push(r: Seq<Op>, c: Op)
    ensures
        deleted_base(r.push(c)) == deleted_base(r).union(cover_set(c)),
{
    let r2 = r.push(c);
    assert forall|p: int| #[trigger] deleted_base(r2).contains(p) <==> deleted_base(r).union(cover_set(c)).contains(p) by {
        if deleted_base(r2).contains(p) {
            let m = choose|m: int| 0 <= m < r2.len() && 0 <= m && #[trigger] covers(r2[m], p);
            if m < r.len() {
                assert(r2[m] == r[m]);
            }
        }
        if deleted_base(r).contains(p) {
            let m = choose|m: int| 0 <= m < r.len() && 0 <= m && #[trigger] covers(r[m], p);
            assert(r2[m] == r[m]);
            assert(0 <= m < r2.len() && covers(r2[m], p));
        }
        if covers(c, p) {
            assert(r2[r.len() as int] == c);
            assert(0 <= r.len() < r2.len() && covers(r2[r.len() as int], p));
        }
    }
    assert(deleted_base(r2) =~= deleted_base(r).union(cover_set(c)));
}

/// Replacing a range by one that removes at least the same positions adds
/// what the new one removes.
pub proof fn lemma_deleted_update(r: Seq<Op>, k: int, c: Op)
    requires
        0 <= k < r.len(),
        cover_set(r[k]).subset_of(cover_set(c)),
    ensures
        deleted_base(r.update(k, c)) == deleted_base(r).union(cover_set(c)),
{
    let r2 = r.update(k, c);
    assert forall|p: int| #[trigger] deleted_base(r2).contains(p) <==> deleted_base(r).union(cover_set(c)).contains(p) by {
        if deleted_base(r2).contains(p) {
            let m = choose|m: int| 0 <= m < r2.len() && 0 <= m && #[trigger] covers(r2[m], p);
            if m != k {
                assert(r2[m] == r[m]);
                assert(0 <= m < r.len() && covers(r[m], p));
            } else {
                assert(cover_set(c).contains(p));
            }
        }
        if deleted_base(r).contains(p) {
            let m = choose|m: int| 0 <= m < r.len() && 0 <= m && #[trigger] covers(r[m], p);
            if m != k {
                assert(r2[m] == r[m]);
                assert(0 <= m < r2.len() && covers(r2[m], p));
            } else {
                assert(cover_set(r[k]).contains(p));
                assert(covers(r2[k], p));
            }
        }
        if covers(c, p) {
            assert(r2[k] == c);
            assert(0 <= k < r2.len() && covers(r2[k], p));
        }
    }
    assert(deleted_base(r2) =~= deleted_base(r).union(cover_set(c)));
}

/// Inserting a range adds the positions it removes.
pub proof fn lemma_deleted_insert(r: Seq<Op>, j: int, c: Op)
    requires
        0 <= j <= r.len(),
    ensures
        deleted_base(r.insert(j, c)) == deleted_base(r).union(cover_set(c)),
{
    let r2 = r.insert(j, c);
    assert forall|p: int| #[trigger] deleted_base(r2).contains(p) <==> deleted_base(r).union(cover_set(c)).contains(p) by {
        if deleted_base(r2).contains(p) {
            let m = choose|m: int| 0 <= m < r2.len() && 0 <= m && #[trigger] covers(r2[m], p);
            if m < j {
                assert(r2[m] == r[m]);
                assert(0 <= m < r.len() && covers(r[m], p));
            } else if m > j {
                assert(r2[m] == r[m - 1]);
                assert(0 <= m - 1 < r.len() && covers(r[m - 1], p));
            }
        }
        if deleted_base(r).contains(p) {
            let m = choose|m: int| 0 <= m < r.len() && 0 <= m && #[trigger] covers(r[m], p);
            if m < j {
                assert(r2[m] == r[m]);
                assert(0 <= m < r2.len() && covers(r2[m], p));
            } else {
                assert(r2[m + 1] == r[m]);
                assert(0 <= m + 1 < r2.len() && covers(r2[m + 1], p));
            }
        }
        if covers(c, p) {
            assert(r2[j] == c);
            assert(0 <= j < r2.len() && covers(r2[j], p));
        }
    }
    assert(deleted_base(r2) =~= deleted_base(r).union(cover_set(c)));
}

/// A range that deletes.
pub open spec fn is_delete() -> spec_fn(Op) -> bool {
    |op: Op| op.len < 0
}

/// A range that does not delete.
pub open spec fn is_not_delete() -> spec_fn(Op) -> bool {
    |op: Op| op.len >= 0
}

/// The delete ranges of `r`, in order.
pub open spec fn delete_ranges(r: Seq<Op>) -> Seq<Op> {
    r.filter(is_delete())
}

/// The ranges of `r` that do not delete, in order.
pub open spec fn other_ranges(r: Seq<Op>) -> Seq<Op> {
    r.filter(is_not_delete())
}

/// The kept elements of a one-element sequence.
pub proof fn lemma_filter_single(c: Op, pred: spec_fn(Op) -> bool)
    ensures
        seq![c].filter(pred) == (if pred(c) { seq![c] } else { Seq::<Op>::empty() }),
{
    Seq::<Op>::empty().lemma_filter_push(c, pred);
    assert(Seq::<Op>::empty().filter(pred) =~= Seq::<Op>::empty()) by {
        reveal(Seq::filter);
    }
    assert(Seq::<Op>::empty().push(c) =~= seq![c]);
}

/// Replacing a range that is not kept by another one that is not kept keeps
/// the filtered sequence.
pub proof fn lemma_filter_update(r: Seq<Op>, k: int, c: Op, pred: spec_fn(Op) -> bool)
    requires
        0 <= k < r.len(),
        !pred(r[k]),
        !pred(c),
    ensures
        r.update(k, c).filter(pred) == r.filter(pred),
{
    let a = r.take(k);
    let b = r.skip(k + 1);
    assert(r =~= a + seq![r[k]] + b);
    assert(r.update(k, c) =~= a + seq![c] + b);
    Seq::filter_distributes_over_add(a + seq![r[k]], b, pred);
    Seq::filter_distributes_over_add(a, seq![r[k]], pred);
    Seq::filter_distributes_over_add(a + seq![c], b, pred);
    Seq::filter_distributes_over_add(a, seq![c], pred);
    lemma_filter_single(r[k], pred);
    lemma_filter_single(c, pred);
    assert(a.filter(pred) + Seq::<Op>::empty() =~= a.filter(pred));
}

/// Inserting a range that is not kept keeps the filtered sequence.
pub proof fn lemma_filter_insert(r: Seq<Op>, j: int, c: Op, pred: spec_fn(Op) -> bool)
    requires
        0 <= j <= r.len(),
        !pred(c),
    ensures
        r.insert(j, c).filter(pred) == r.filter(pred),
{
    let a = r.take(j);
    let b = r.skip(j);
    assert(r =~= a + b);
    assert(r.insert(j, c) =~= a + seq![c] + b);
    Seq::filter_distributes_over_add(a, b, pred);
    Seq::filter_distributes_over_add(a + seq![c], b, pred);
    Seq::filter_distributes_over_add(a, seq![c], pred);
    lemma_filter_single(c, pred);
    assert(a.filter(pred) + Seq::<Op>::empty() =~= a.filter(pred));
}

/// Filtering the ranges from index `i` on, one range at a time.
pub proof fn lemma_filter_skip(r: Seq<Op>, i: int, pred: spec_fn(Op) -> bool)
    requires
        0 <= i < r.len(),
    ensures
        r.skip(i).filter(pred)
            == (if pred(r[i]) { seq![r[i]] } else { Seq::<Op>::empty() }) + r.skip(i + 1).filter(pred),
{
    assert(r.skip(i) =~= seq![r[i]] + r.skip(i + 1));
    Seq::filter_distributes_over_add(seq![r[i]], r.skip(i + 1), pred);
    lemma_filter_single(r[i], pred);
}

} // verus!
