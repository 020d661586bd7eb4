//! What a merge does to the inserted lengths and removed base positions of a
//! sequential list.

use vstd::prelude::*;
use crate::ops::Op;
use crate::delete::{spec_delete_end, spec_delete_span, min_int, max_int};
use crate::merge::{
    merge_delete_walk, spec_merge_insert, merge_one, merge_all, span_ok,
    ordered, end_fits, ends_fit, first_not_below, skip_deletes_at, lemma_first_not_below,
    lemma_skip_deletes_at,
};
use crate::tally::{
    tally, inserted_len_at, insert_total_at, counts_inserts_only, cover_set, span_set,
    deleted_from, deleted_base, lemma_counts_inserts_only, lemma_tally_push, lemma_tally_update,
    lemma_tally_insert, lemma_tally_step, lemma_tally_drop_first, lemma_deleted_step,
    lemma_deleted_end, lemma_deleted_drop_first, lemma_deleted_push, lemma_deleted_update,
    lemma_deleted_insert, is_delete, is_not_delete, delete_ranges, other_ranges, lemma_filter_update,
    lemma_filter_insert, lemma_filter_skip,
};

verus! {

/// A delete range that ends within an `i32` removes the positions from its
/// anchor to its end.
proof fn lemma_delete_cover(c: Op)
    requires
        c.len < 0,
        end_fits(c),
    ensures
        spec_delete_end(c) as int == c.ins - c.len,
        cover_set(c) == span_set(c.ins as int, c.ins - c.len),
{
    assert(cover_set(c) =~= span_set(c.ins as int, c.ins - c.len));
}

/// The delete range built for a span that fits removes exactly that span.
proof fn lemma_span_cover(ds: int, de: int)
    requires
        span_ok(ds, de),
    ensures
        spec_delete_span(ds, de).len < 0,
        cover_set(spec_delete_span(ds, de)) == span_set(ds, de),
{
    assert(cover_set(spec_delete_span(ds, de)) =~= span_set(ds, de));
}

/// Two spans that overlap or touch make up the span from the lesser start to
/// the greater end.
proof fn lemma_span_join(ds: int, de: int, cs: int, ce: int)
    requires
        ds < de,
        cs < ce,
        ce >= ds,
        cs <= de,
    ensures
        span_set(min_int(ds, cs), max_int(de, ce)) == span_set(ds, de).union(span_set(cs, ce)),
{
    assert(span_set(min_int(ds, cs), max_int(de, ce)) =~= span_set(ds, de).union(span_set(cs, ce)));
}

/// The delete walk of a merge keeps the inserted lengths, and removes what the
/// output removed, the window, and what the rest of `r` removes.
proof fn lemma_merge_delete_walk_view(
    r: Seq<Op>, i: int, ds: int, de: int, at: Option<int>, out: Seq<Op>, f: spec_fn(Op) -> int,
)
    requires
        ends_fit(r),
        0 <= i <= r.len(),
        ds < de,
        counts_inserts_only(f),
        at is Some ==> 0 <= at->0 < out.len() && out[at->0].len < 0 && cover_set(out[at->0]) == span_set(ds, de),
        merge_delete_walk(r, i, ds, de, at, out) is Some,
    ensures
        tally(merge_delete_walk(r, i, ds, de, at, out)->0, 0, f) == tally(out, 0, f) + tally(r, i, f),
        deleted_base(merge_delete_walk(r, i, ds, de, at, out)->0)
            == deleted_base(out).union(span_set(ds, de)).union(deleted_from(r, i)),
    decreases r.len() - i,
{
    let n = r.len() as int;
    if i >= n {
        lemma_deleted_end(r, i);
        if at is None {
            let sp = spec_delete_span(ds, de);
            lemma_span_cover(ds, de);
            lemma_tally_push(out, sp, 0, f);
            lemma_deleted_push(out, sp);
            assert(deleted_base(out.push(sp)) =~= deleted_base(out).union(span_set(ds, de)).union(deleted_from(r, i)));
        } else {
            let k = at->0;
            assert forall|p: int| span_set(ds, de).contains(p) implies #[trigger] deleted_base(out).contains(p) by {
                assert(cover_set(out[k]).contains(p));
                assert(0 <= k < out.len() && crate::tally::covers(out[k], p));
            }
            assert(deleted_base(out) =~= deleted_base(out).union(span_set(ds, de)).union(deleted_from(r, i)));
        }
    } else {
        let c = r[i];
        assert(end_fits(c));
        lemma_tally_step(r, i, f);
        lemma_deleted_step(r, i);
        if c.len < 0 {
            let cs = c.ins as int;
            lemma_delete_cover(c);
            let ce = spec_delete_end(c) as int;
            assert(f(c) == 0);
            if ce < ds {
                let o2 = out.push(c);
                lemma_tally_push(out, c, 0, f);
                lemma_deleted_push(out, c);
                if at is Some {
                    assert(o2[at->0] == out[at->0]);
                }
                lemma_merge_delete_walk_view(r, i + 1, ds, de, at, o2, f);
                assert(deleted_base(merge_delete_walk(r, i, ds, de, at, out)->0)
                    =~= deleted_base(out).union(span_set(ds, de)).union(deleted_from(r, i)));
            } else if cs > de {
                if at is None {
                    let sp = spec_delete_span(ds, de);
                    let o1 = out.push(sp);
                    let o2 = o1.push(c);
                    lemma_span_cover(ds, de);
                    lemma_tally_push(out, sp, 0, f);
                    lemma_tally_push(o1, c, 0, f);
                    lemma_deleted_push(out, sp);
                    lemma_deleted_push(o1, c);
                    assert(o2[out.len() as int] == sp);
                    assert(f(sp) == 0);
                    lemma_merge_delete_walk_view(r, i + 1, ds, de, Some(out.len() as int), o2, f);
                    assert(deleted_base(merge_delete_walk(r, i, ds, de, at, out)->0)
                        =~= deleted_base(out).union(span_set(ds, de)).union(deleted_from(r, i)));
                } else {
                    let o2 = out.push(c);
                    lemma_tally_push(out, c, 0, f);
                    lemma_deleted_push(out, c);
                    assert(o2[at->0] == out[at->0]);
                    lemma_merge_delete_walk_view(r, i + 1, ds, de, at, o2, f);
                    assert(deleted_base(merge_delete_walk(r, i, ds, de, at, out)->0)
                        =~= deleted_base(out).union(span_set(ds, de)).union(deleted_from(r, i)));
                }
            } else {
                let nds = min_int(ds, cs);
                let nde = max_int(de, ce);
                lemma_span_join(ds, de, cs, ce);
                match at {
                    Some(k) => {
                        let sp = spec_delete_span(nds, nde);
                        lemma_span_cover(nds, nde);
                        let o2 = out.update(k, sp);
                        assert(f(out[k]) == 0 && f(sp) == 0);
                        lemma_tally_update(out, k, sp, 0, f);
                        lemma_deleted_update(out, k, sp);
                        lemma_merge_delete_walk_view(r, i + 1, nds, nde, at, o2, f);
                        assert(deleted_base(merge_delete_walk(r, i, ds, de, at, out)->0)
                            =~= deleted_base(out).union(span_set(ds, de)).union(deleted_from(r, i)));
                    },
                    None => {
                        lemma_merge_delete_walk_view(r, i + 1, nds, nde, at, out, f);
                        assert(deleted_base(merge_delete_walk(r, i, ds, de, at, out)->0)
                            =~= deleted_base(out).union(span_set(ds, de)).union(deleted_from(r, i)));
                    },
                }
            }
        } else {
            assert(cover_set(c) =~= Set::<int>::empty());
            if at is None && c.ins >= ds {
                let sp = spec_delete_span(ds, de);
                let o1 = out.push(sp);
                let o2 = o1.push(c);
                lemma_span_cover(ds, de);
                lemma_tally_push(out, sp, 0, f);
                lemma_tally_push(o1, c, 0, f);
                lemma_deleted_push(out, sp);
                lemma_deleted_push(o1, c);
                assert(o2[out.len() as int] == sp);
                assert(f(sp) == 0);
                lemma_merge_delete_walk_view(r, i + 1, ds, de, Some(out.len() as int), o2, f);
                assert(deleted_base(merge_delete_walk(r, i, ds, de, at, out)->0)
                    =~= deleted_base(out).union(span_set(ds, de)).union(deleted_from(r, i)));
            } else {
                let o2 = out.push(c);
                lemma_tally_push(out, c, 0, f);
                lemma_deleted_push(out, c);
                if at is Some {
                    assert(o2[at->0] == out[at->0]);
                }
                lemma_merge_delete_walk_view(r, i + 1, ds, de, at, o2, f);
                assert(deleted_base(merge_delete_walk(r, i, ds, de, at, out)->0)
                    =~= deleted_base(out).union(span_set(ds, de)).union(deleted_from(r, i)));
            }
        }
    }
}

/// Merging an insert adds its length at its anchor and removes nothing.
pub proof fn lemma_merge_insert_view(r: Seq<Op>, op: Op, x: int)
    requires
        op.len > 0,
        spec_merge_insert(r, op) is Some,
    ensures
        deleted_base(spec_merge_insert(r, op)->0) == deleted_base(r),
        insert_total_at(spec_merge_insert(r, op)->0, x) == insert_total_at(r, x) + inserted_len_at(x)(op),
{
    let a = op.ins as int;
    let f0 = first_not_below(r, a, 0);
    lemma_first_not_below(r, a, 0);
    lemma_skip_deletes_at(r, a, f0);
    let j = skip_deletes_at(r, a, f0);
    let r2 = spec_merge_insert(r, op)->0;
    assert(cover_set(op) =~= Set::<int>::empty());
    if j < r.len() && r[j].ins == op.ins {
        let c = r2[j];
        assert(r2 == r.update(j, c));
        assert(r[j].len > 0);
        assert(cover_set(r[j]) =~= Set::<int>::empty());
        assert(cover_set(c) =~= Set::<int>::empty());
        lemma_deleted_update(r, j, c);
        lemma_tally_update(r, j, c, 0, inserted_len_at(x));
        assert(deleted_base(r).union(Set::<int>::empty()) =~= deleted_base(r));
    } else {
        lemma_deleted_insert(r, j, op);
        lemma_tally_insert(r, j, op, 0, inserted_len_at(x));
        assert(deleted_base(r).union(Set::<int>::empty()) =~= deleted_base(r));
    }
}

/// Merging one operation whose delete ends within an `i32` adds its inserted
/// length at its anchor and the base positions it removes.
pub proof fn lemma_merge_one_view(r: Seq<Op>, op: Op, x: int)
    requires
        ends_fit(r),
        end_fits(op),
        merge_one(r, op) is Some,
    ensures
        deleted_base(merge_one(r, op)->0) == deleted_base(r).union(cover_set(op)),
        insert_total_at(merge_one(r, op)->0, x) == insert_total_at(r, x) + inserted_len_at(x)(op),
{
    if op.len == 0 {
        assert(cover_set(op) =~= Set::<int>::empty());
        assert(deleted_base(r).union(Set::<int>::empty()) =~= deleted_base(r));
    } else if op.len > 0 {
        lemma_merge_insert_view(r, op, x);
        assert(cover_set(op) =~= Set::<int>::empty());
        assert(deleted_base(r).union(Set::<int>::empty()) =~= deleted_base(r));
    } else {
        lemma_counts_inserts_only();
        lemma_delete_cover(op);
        let ds = op.ins as int;
        let de = spec_delete_end(op) as int;
        let e = Seq::<Op>::empty();
        lemma_merge_delete_walk_view(r, 0, ds, de, None, e, inserted_len_at(x));
        lemma_deleted_end(e, 0);
        assert(tally(e, 0, inserted_len_at(x)) == 0);
        assert(deleted_base(merge_one(r, op)->0) =~= deleted_base(r).union(cover_set(op)));
    }
}

/// The delete walk of a merge keeps every delete range ending within an `i32`.
proof fn lemma_merge_delete_walk_fits(r: Seq<Op>, i: int, ds: int, de: int, at: Option<int>, out: Seq<Op>)
    requires
        ends_fit(r),
        ends_fit(out),
        0 <= i <= r.len(),
        de <= i32::MAX,
        at is Some ==> 0 <= at->0 < out.len(),
        merge_delete_walk(r, i, ds, de, at, out) is Some,
    ensures
        ends_fit(merge_delete_walk(r, i, ds, de, at, out)->0),
    decreases r.len() - i,
{
    if i >= r.len() {
        if at is None {
            let sp = spec_delete_span(ds, de);
            assert forall|m: int| 0 <= m < out.push(sp).len() implies #[trigger] end_fits(out.push(sp)[m]) by {
                if m < out.len() {
                    assert(end_fits(out[m]));
                }
            }
        }
    } else {
        let c = r[i];
        assert(end_fits(c));
        let ce = spec_delete_end(c) as int;
        if c.len < 0 {
            assert(ce == c.ins - c.len);
        }
        let sp = spec_delete_span(ds, de);
        let o1 = out.push(sp);
        let oc = out.push(c);
        let o2 = o1.push(c);
        if span_ok(ds, de) {
            assert forall|m: int| 0 <= m < o1.len() implies #[trigger] end_fits(o1[m]) by {
                if m < out.len() {
                    assert(end_fits(out[m]));
                }
            }
            assert forall|m: int| 0 <= m < o2.len() implies #[trigger] end_fits(o2[m]) by {
                if m < o1.len() {
                    assert(end_fits(o1[m]));
                }
            }
        }
        assert forall|m: int| 0 <= m < oc.len() implies #[trigger] end_fits(oc[m]) by {
            if m < out.len() {
                assert(end_fits(out[m]));
            }
        }
        if c.len < 0 {
            if ce < ds {
                lemma_merge_delete_walk_fits(r, i + 1, ds, de, at, oc);
            } else if c.ins > de {
                if at is None {
                    lemma_merge_delete_walk_fits(r, i + 1, ds, de, Some(out.len() as int), o2);
                } else {
                    lemma_merge_delete_walk_fits(r, i + 1, ds, de, at, oc);
                }
            } else {
                let nds = min_int(ds, c.ins as int);
                let nde = max_int(de, ce);
                match at {
                    Some(k) => {
                        let sq = spec_delete_span(nds, nde);
                        let ou = out.update(k, sq);
                        assert forall|m: int| 0 <= m < ou.len() implies #[trigger] end_fits(ou[m]) by {
                            if m != k {
                                assert(end_fits(out[m]));
                            }
                        }
                        lemma_merge_delete_walk_fits(r, i + 1, nds, nde, at, ou);
                    },
                    None => {
                        lemma_merge_delete_walk_fits(r, i + 1, nds, nde, at, out);
                    },
                }
            }
        } else if at is None && c.ins >= ds {
            lemma_merge_delete_walk_fits(r, i + 1, ds, de, Some(out.len() as int), o2);
        } else {
            lemma_merge_delete_walk_fits(r, i + 1, ds, de, at, oc);
        }
    }
}

/// Merging one operation whose delete ends within an `i32` keeps every delete
/// range ending within an `i32`.
proof fn lemma_merge_one_fits(r: Seq<Op>, op: Op)
    requires
        ends_fit(r),
        end_fits(op),
        merge_one(r, op) is Some,
    ensures
        ends_fit(merge_one(r, op)->0),
{
    if op.len > 0 {
        let a = op.ins as int;
        let f0 = first_not_below(r, a, 0);
        lemma_first_not_below(r, a, 0);
        lemma_skip_deletes_at(r, a, f0);
        let j = skip_deletes_at(r, a, f0);
        let r2 = spec_merge_insert(r, op)->0;
        if j < r.len() && r[j].ins == op.ins {
            assert(r2 == r.update(j, r2[j]));
            assert forall|m: int| 0 <= m < r2.len() implies #[trigger] end_fits(r2[m]) by {
                if m != j {
                    assert(end_fits(r[m]));
                }
            }
        } else {
            assert(r2 == r.insert(j, op));
            assert forall|m: int| 0 <= m < r2.len() implies #[trigger] end_fits(r2[m]) by {
                if m < j {
                    assert(end_fits(r[m]));
                } else if m > j {
                    assert(end_fits(r[m - 1]));
                }
            }
        }
    } else if op.len < 0 {
        lemma_merge_delete_walk_fits(r, 0, op.ins as int, spec_delete_end(op) as int, None, Seq::empty());
    }
}

/// Merging a sequential list into another removes exactly the base positions
/// that either removes, and inserts at each anchor the sum of what the two
/// insert there. The deletes of both lists end within an `i32`.
pub proof fn law_merge_view(r: Seq<Op>, ops: Seq<Op>, x: int)
    requires
        ends_fit(r),
        ends_fit(ops),
        merge_all(r, ops) is Some,
    ensures
        deleted_base(merge_all(r, ops)->0) == deleted_base(r).union(deleted_base(ops)),
        insert_total_at(merge_all(r, ops)->0, x) == insert_total_at(r, x) + insert_total_at(ops, x),
    decreases ops.len(),
{
    if ops.len() == 0 {
        lemma_deleted_end(ops, 0);
        assert(deleted_base(r).union(Set::<int>::empty()) =~= deleted_base(r));
    } else {
        let op = ops[0];
        let rest = ops.drop_first();
        assert(end_fits(op));
        lemma_merge_one_view(r, op, x);
        lemma_merge_one_fits(r, op);
        let m = merge_one(r, op)->0;
        assert forall|k: int| 0 <= k < rest.len() implies #[trigger] end_fits(rest[k]) by {
            assert(rest[k] == ops[k + 1]);
            assert(end_fits(ops[k + 1]));
        }
        law_merge_view(m, rest, x);
        lemma_deleted_step(ops, 0);
        lemma_deleted_drop_first(ops);
        lemma_tally_step(ops, 0, inserted_len_at(x));
        lemma_tally_drop_first(ops, inserted_len_at(x));
        assert(deleted_base(merge_all(r, ops)->0) =~= deleted_base(r).union(deleted_base(ops)));
    }
}

/// The delete walk of a merge passes the ranges that do not delete through in
/// their order.
proof fn lemma_merge_delete_walk_order(r: Seq<Op>, i: int, ds: int, de: int, at: Option<int>, out: Seq<Op>)
    requires
        0 <= i <= r.len(),
        at is Some ==> 0 <= at->0 < out.len() && out[at->0].len < 0,
        merge_delete_walk(r, i, ds, de, at, out) is Some,
    ensures
        other_ranges(merge_delete_walk(r, i, ds, de, at, out)->0) == other_ranges(out) + other_ranges(r.skip(i)),
    decreases r.len() - i,
{
    let p = is_not_delete();
    let n = r.len() as int;
    if i >= n {
        assert(r.skip(i) =~= Seq::<Op>::empty());
        assert(Seq::<Op>::empty().filter(p) =~= Seq::<Op>::empty()) by {
            reveal(Seq::filter);
        }
        if at is None {
            let sp = spec_delete_span(ds, de);
            out.lemma_filter_push(sp, p);
        }
        assert(other_ranges(out) + Seq::<Op>::empty() =~= other_ranges(out));
    } else {
        let c = r[i];
        lemma_filter_skip(r, i, p);
        if c.len < 0 {
            let cs = c.ins as int;
            let ce = spec_delete_end(c) as int;
            assert(Seq::<Op>::empty() + r.skip(i + 1).filter(p) =~= r.skip(i + 1).filter(p));
            if ce < ds {
                let o2 = out.push(c);
                out.lemma_filter_push(c, p);
                if at is Some {
                    assert(o2[at->0] == out[at->0]);
                }
                lemma_merge_delete_walk_order(r, i + 1, ds, de, at, o2);
            } else if cs > de {
                if at is None {
                    let sp = spec_delete_span(ds, de);
                    let o1 = out.push(sp);
                    let o2 = o1.push(c);
                    if span_ok(ds, de) {
                        out.lemma_filter_push(sp, p);
                        o1.lemma_filter_push(c, p);
                        assert(o2[out.len() as int] == sp);
                        lemma_merge_delete_walk_order(r, i + 1, ds, de, Some(out.len() as int), o2);
                    }
                } else {
                    let o2 = out.push(c);
                    out.lemma_filter_push(c, p);
                    assert(o2[at->0] == out[at->0]);
                    lemma_merge_delete_walk_order(r, i + 1, ds, de, at, o2);
                }
            } else {
                let nds = min_int(ds, cs);
                let nde = max_int(de, ce);
                match at {
                    Some(k) => {
                        if span_ok(nds, nde) {
                            let sp = spec_delete_span(nds, nde);
                            let o2 = out.update(k, sp);
                            lemma_filter_update(out, k, sp, p);
                            lemma_merge_delete_walk_order(r, i + 1, nds, nde, at, o2);
                        }
                    },
                    None => {
                        lemma_merge_delete_walk_order(r, i + 1, nds, nde, at, out);
                    },
                }
            }
        } else {
            if at is None && c.ins >= ds {
                let sp = spec_delete_span(ds, de);
                let o1 = out.push(sp);
                let o2 = o1.push(c);
                if span_ok(ds, de) {
                    out.lemma_filter_push(sp, p);
                    o1.lemma_filter_push(c, p);
                    assert(o2[out.len() as int] == sp);
                    lemma_merge_delete_walk_order(r, i + 1, ds, de, Some(out.len() as int), o2);
                    assert(other_ranges(out).push(c) + r.skip(i + 1).filter(p)
                        =~= other_ranges(out) + (seq![c] + r.skip(i + 1).filter(p)));
                }
            } else {
                let o2 = out.push(c);
                out.lemma_filter_push(c, p);
                if at is Some {
                    assert(o2[at->0] == out[at->0]);
                }
                lemma_merge_delete_walk_order(r, i + 1, ds, de, at, o2);
                assert(other_ranges(out).push(c) + r.skip(i + 1).filter(p)
                    =~= other_ranges(out) + (seq![c] + r.skip(i + 1).filter(p)));
            }
        }
    }
}

/// Merging a delete keeps the ranges that do not delete, in their order;
/// merging an insert keeps the delete ranges, in their order.
pub proof fn lemma_merge_one_order(r: Seq<Op>, op: Op)
    requires
        merge_one(r, op) is Some,
    ensures
        op.len < 0 ==> other_ranges(merge_one(r, op)->0) == other_ranges(r),
        op.len >= 0 ==> delete_ranges(merge_one(r, op)->0) == delete_ranges(r),
{
    if op.len > 0 {
        let a = op.ins as int;
        let f0 = first_not_below(r, a, 0);
        lemma_first_not_below(r, a, 0);
        lemma_skip_deletes_at(r, a, f0);
        let j = skip_deletes_at(r, a, f0);
        let r2 = spec_merge_insert(r, op)->0;
        if j < r.len() && r[j].ins == op.ins {
            let c = r2[j];
            assert(r2 == r.update(j, c));
            lemma_filter_update(r, j, c, is_delete());
        } else {
            lemma_filter_insert(r, j, op, is_delete());
        }
    } else if op.len < 0 {
        let e = Seq::<Op>::empty();
        lemma_merge_delete_walk_order(r, 0, op.ins as int, spec_delete_end(op) as int, None, e);
        assert(e.filter(is_not_delete()) =~= e) by {
            reveal(Seq::filter);
        }
        assert(r.skip(0) =~= r);
        assert(e + other_ranges(r) =~= other_ranges(r));
    }
}

} // verus!
