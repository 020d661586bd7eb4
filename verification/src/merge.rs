//! Merging one sequential list into another.

use vstd::prelude::*;
use crate::ops::{Op, OpList};
use crate::locate::spec_grow_at;
use crate::delete::{spec_delete_end, spec_delete_span, min_int, max_int};
use crate::tally::{deleted_base, insert_total_at, inserted_len_at, cover_set, delete_ranges, other_ranges};
use crate::merge_view::{law_merge_view, lemma_merge_insert_view, lemma_merge_one_view, lemma_merge_one_order};

verus! {

/// The first index at or after `i` whose range is anchored at or after `x`.
pub open spec fn first_not_below(r: Seq<Op>, x: int, i: int) -> int
    decreases r.len() - i,
{
    if i >= r.len() || r[i].ins >= x { i } else { first_not_below(r, x, i + 1) }
}

/// The first index at or after `i` that does not hold a delete (or empty)
/// range anchored at `x`.
pub open spec fn skip_deletes_at(r: Seq<Op>, x: int, i: int) -> int
    decreases r.len() - i,
{
    if i >= r.len() || r[i].ins != x || r[i].len > 0 { i } else { skip_deletes_at(r, x, i + 1) }
}

/// The list after merging the insert `op`: it joins the first insert range
/// anchored at the same base that follows the ranges anchored before it and
/// the deletes at its base, and is inserted there otherwise.
/// `None` for a non-positive length or a length overflow.
pub open spec fn spec_merge_insert(r: Seq<Op>, op: Op) -> Option<Seq<Op>> {
    if op.len <= 0 {
        None
    } else {
        let j = skip_deletes_at(r, op.ins as int, first_not_below(r, op.ins as int, 0));
        if j < r.len() && r[j].ins == op.ins {
            spec_grow_at(r, j, op.len as int)
        } else {
            Some(r.insert(j, op))
        }
    }
}

/// A nonempty delete span `start .. end` whose start and length fit in an `i32`.
pub open spec fn span_ok(start: int, end: int) -> bool {
    &&& end > start
    &&& i32::MIN <= start <= i32::MAX
    &&& end - start <= i32::MAX
}

/// Walks `r` from `i` while merging the delete window `ds .. de`: delete ranges
/// that end before the window are kept, those that touch or overlap it are
/// absorbed into it, and the window is placed before the first range that
/// starts after it (or, for inserts, at or after its start); `at` is the index
/// of the window in `out` once placed.
pub open spec fn merge_delete_walk(r: Seq<Op>, i: int, ds: int, de: int, at: Option<int>, out: Seq<Op>) -> Option<Seq<Op>>
    decreases r.len() - i,
{
    if i >= r.len() {
        if at is None {
            if span_ok(ds, de) { Some(out.push(spec_delete_span(ds, de))) } else { None }
        } else {
            Some(out)
        }
    } else {
        let c = r[i];
        if c.len < 0 {
            let cs = c.ins as int;
            let ce = spec_delete_end(c) as int;
            if ce < ds {
                merge_delete_walk(r, i + 1, ds, de, at, out.push(c))
            } else if cs > de {
                if at is None {
                    if span_ok(ds, de) {
                        merge_delete_walk(r, i + 1, ds, de, Some(out.len() as int), out.push(spec_delete_span(ds, de)).push(c))
                    } else {
                        None
                    }
                } else {
                    merge_delete_walk(r, i + 1, ds, de, at, out.push(c))
                }
            } else {
                let nds = min_int(ds, cs);
                let nde = max_int(de, ce);
                match at {
                    Some(k) => if span_ok(nds, nde) {
                        merge_delete_walk(r, i + 1, nds, nde, at, out.update(k, spec_delete_span(nds, nde)))
                    } else {
                        None
                    },
                    None => merge_delete_walk(r, i + 1, nds, nde, at, out),
                }
            }
        } else if at is None && c.ins >= ds {
            if span_ok(ds, de) {
                merge_delete_walk(r, i + 1, ds, de, Some(out.len() as int), out.push(spec_delete_span(ds, de)).push(c))
            } else {
                None
            }
        } else {
            merge_delete_walk(r, i + 1, ds, de, at, out.push(c))
        }
    }
}

/// The list after merging the delete `op`, coalescing the delete spans it
/// overlaps or touches. `None` for a non-negative length or where the merged
/// span does not fit.
pub open spec fn spec_merge_delete(r: Seq<Op>, op: Op) -> Option<Seq<Op>> {
    if op.len >= 0 {
        None
    } else {
        merge_delete_walk(r, 0, op.ins as int, spec_delete_end(op) as int, None, Seq::empty())
    }
}

/// The list after merging one operation of another sequential list.
pub open spec fn merge_one(r: Seq<Op>, op: Op) -> Option<Seq<Op>> {
    if op.len == 0 {
        Some(r)
    } else if op.len > 0 {
        spec_merge_insert(r, op)
    } else {
        spec_merge_delete(r, op)
    }
}

/// The list after merging the operations `ops` one after the other.
pub open spec fn merge_all(r: Seq<Op>, ops: Seq<Op>) -> Option<Seq<Op>>
    decreases ops.len(),
{
    if ops.len() == 0 {
        Some(r)
    } else {
        match merge_one(r, ops[0]) {
            None => None,
            Some(m) => merge_all(m, ops.drop_first()),
        }
    }
}

/// The ranges of `r` are ordered by anchor.
pub open spec fn ordered(r: Seq<Op>) -> bool {
    forall|i: int, j: int| 0 <= i <= j < r.len() ==> #[trigger] r[i].ins <= #[trigger] r[j].ins
}

/// A delete range ends within an `i32`.
pub open spec fn end_fits(op: Op) -> bool {
    op.len < 0 ==> op.ins - op.len <= i32::MAX
}

/// Every delete range of `r` ends within an `i32`.
pub open spec fn ends_fit(r: Seq<Op>) -> bool {
    forall|m: int| 0 <= m < r.len() ==> #[trigger] end_fits(r[m])
}

pub proof fn lemma_first_not_below(r: Seq<Op>, x: int, i: int)
    requires
        0 <= i,
    ensures
        i <= first_not_below(r, x, i),
        i <= r.len() ==> first_not_below(r, x, i) <= r.len(),
        forall|m: int| i <= m < first_not_below(r, x, i) ==> #[trigger] r[m].ins < x,
        first_not_below(r, x, i) < r.len() ==> r[first_not_below(r, x, i)].ins >= x,
    decreases r.len() - i,
{
    if i < r.len() && r[i].ins < x {
        lemma_first_not_below(r, x, i + 1);
    }
}

pub proof fn lemma_skip_deletes_at(r: Seq<Op>, x: int, i: int)
    requires
        0 <= i,
    ensures
        i <= skip_deletes_at(r, x, i),
        i <= r.len() ==> skip_deletes_at(r, x, i) <= r.len(),
        forall|m: int| i <= m < skip_deletes_at(r, x, i) ==> #[trigger] r[m].ins == x,
        skip_deletes_at(r, x, i) < r.len() ==> r[skip_deletes_at(r, x, i)].ins != x || r[skip_deletes_at(r, x, i)].len > 0,
    decreases r.len() - i,
{
    if i < r.len() && r[i].ins == x && r[i].len <= 0 {
        lemma_skip_deletes_at(r, x, i + 1);
    }
}

/// Merging an insert keeps a list ordered.
proof fn lemma_merge_insert_ordered(r: Seq<Op>, op: Op)
    requires
        ordered(r),
        ends_fit(r),
        spec_merge_insert(r, op) is Some,
    ensures
        ordered(spec_merge_insert(r, op)->0),
        ends_fit(spec_merge_insert(r, op)->0),
{
    let x = op.ins as int;
    let f = first_not_below(r, x, 0);
    lemma_first_not_below(r, x, 0);
    lemma_skip_deletes_at(r, x, f);
    let j = skip_deletes_at(r, x, f);
    let r2 = spec_merge_insert(r, op)->0;
    if j < r.len() && r[j].ins == op.ins {
        assert(r2 == r.update(j, r2[j]));
        assert(r2[j].ins == r[j].ins && r2[j].len > 0);
        assert forall|a: int, b: int| 0 <= a <= b < r2.len() implies #[trigger] r2[a].ins <= #[trigger] r2[b].ins by {
            assert(r[a].ins <= r[b].ins);
        }
        assert forall|m: int| 0 <= m < r2.len() implies #[trigger] end_fits(r2[m]) by {
            if m != j {
                assert(r2[m] == r[m]);
            }
        }
    } else {
        assert(r2 == r.insert(j, op));
        assert forall|m: int| 0 <= m < j implies #[trigger] r[m].ins <= x by {
            if m >= f {
                assert(r[m].ins == x);
            }
        }
        assert forall|m: int| j <= m < r.len() implies #[trigger] r[m].ins >= x by {
            if j == f {
                assert(r[f].ins >= x);
                assert(r[f].ins <= r[m].ins);
            } else {
                assert(r[j - 1].ins == x);
                assert(r[j - 1].ins <= r[m].ins);
            }
        }
        assert forall|a: int, b: int| 0 <= a <= b < r2.len() implies #[trigger] r2[a].ins <= #[trigger] r2[b].ins by {
            if b < j {
                assert(r2[a] == r[a] && r2[b] == r[b]);
                assert(r[a].ins <= r[b].ins);
            } else if a > j {
                assert(r2[a] == r[a - 1] && r2[b] == r[b - 1]);
                assert(r[a - 1].ins <= r[b - 1].ins);
            } else if a == j && b == j {
            } else if a == j {
                assert(r2[b] == r[b - 1]);
            } else if b == j {
                assert(r2[a] == r[a]);
            } else {
                assert(r2[a] == r[a] && r2[b] == r[b - 1]);
                assert(r[a].ins <= r[b - 1].ins);
            }
        }
        assert forall|m: int| 0 <= m < r2.len() implies #[trigger] end_fits(r2[m]) by {
            if m < j {
                assert(r2[m] == r[m]);
            } else if m > j {
                assert(r2[m] == r[m - 1]);
            }
        }
    }
}

/// The delete walk of a merge keeps the output ordered: what it has emitted
/// stays at or before the rest of `r`, and at or before the window until the
/// window is placed.
proof fn lemma_merge_delete_walk_ordered(r: Seq<Op>, i: int, ds: int, de: int, at: Option<int>, out: Seq<Op>)
    requires
        ordered(r),
        ends_fit(r),
        0 <= i <= r.len(),
        ordered(out),
        ends_fit(out),
        i32::MIN <= ds < de <= i32::MAX,
        i < r.len() ==> forall|m: int| 0 <= m < out.len() ==> #[trigger] out[m].ins <= r[i].ins,
        at is None ==> forall|m: int| 0 <= m < out.len() ==> #[trigger] out[m].ins <= ds,
        at is Some ==> 0 <= at->0 < out.len() && out[at->0].ins == ds && (i < r.len() ==> r[i].ins >= ds),
        merge_delete_walk(r, i, ds, de, at, out) is Some,
    ensures
        ordered(merge_delete_walk(r, i, ds, de, at, out)->0),
        ends_fit(merge_delete_walk(r, i, ds, de, at, out)->0),
    decreases r.len() - i,
{
    let n = r.len() as int;
    if i >= n {
        if at is None {
            let sp = spec_delete_span(ds, de);
            let o2 = out.push(sp);
            assert forall|a: int, b: int| 0 <= a <= b < o2.len() implies #[trigger] o2[a].ins <= #[trigger] o2[b].ins by {
                if b < out.len() {
                    assert(out[a].ins <= out[b].ins);
                } else if a < out.len() {
                    assert(out[a].ins <= ds);
                }
            }
            assert forall|m: int| 0 <= m < o2.len() implies #[trigger] end_fits(o2[m]) by {
                if m < out.len() {
                    assert(end_fits(out[m]));
                }
            }
        }
    } else {
        let c = r[i];
        assert(end_fits(c));
        if i + 1 < n {
            assert(r[i].ins <= r[i + 1].ins);
        }
        if c.len < 0 {
            let cs = c.ins as int;
            let ce = spec_delete_end(c) as int;
            assert(ce == c.ins - c.len);
            if ce < ds {
                let o2 = out.push(c);
                lemma_push_ordered(out, c);
                lemma_merge_delete_walk_ordered(r, i + 1, ds, de, at, o2);
            } else if cs > de {
                if at is None {
                    let sp = spec_delete_span(ds, de);
                    let o1 = out.push(sp);
                    let o2 = o1.push(c);
                    lemma_push_ordered(out, sp);
                    lemma_push_ordered(o1, c);
                    lemma_merge_delete_walk_ordered(r, i + 1, ds, de, Some(out.len() as int), o2);
                } else {
                    let o2 = out.push(c);
                    lemma_push_ordered(out, c);
                    lemma_merge_delete_walk_ordered(r, i + 1, ds, de, at, o2);
                }
            } else {
                let nds = min_int(ds, cs);
                let nde = max_int(de, ce);
                match at {
                    Some(k) => {
                        let sp = spec_delete_span(nds, nde);
                        let o2 = out.update(k, sp);
                        assert(nds == ds);
                        assert forall|a: int, b: int| 0 <= a <= b < o2.len() implies #[trigger] o2[a].ins <= #[trigger] o2[b].ins by {
                            assert(out[a].ins <= out[b].ins);
                        }
                        assert forall|m: int| 0 <= m < o2.len() implies #[trigger] end_fits(o2[m]) by {
                            if m != k {
                                assert(end_fits(out[m]));
                            }
                        }
                        assert forall|m: int| 0 <= m < o2.len() implies #[trigger] o2[m].ins <= c.ins by {
                            assert(out[m].ins <= c.ins);
                        }
                        lemma_merge_delete_walk_ordered(r, i + 1, nds, nde, at, o2);
                    },
                    None => {
                        lemma_merge_delete_walk_ordered(r, i + 1, nds, nde, at, out);
                    },
                }
            }
        } else if at is None && c.ins >= ds {
            let sp = spec_delete_span(ds, de);
            let o1 = out.push(sp);
            let o2 = o1.push(c);
            lemma_push_ordered(out, sp);
            lemma_push_ordered(o1, c);
            lemma_merge_delete_walk_ordered(r, i + 1, ds, de, Some(out.len() as int), o2);
        } else {
            let o2 = out.push(c);
            lemma_push_ordered(out, c);
            lemma_merge_delete_walk_ordered(r, i + 1, ds, de, at, o2);
        }
    }
}

/// Appending a range anchored at or after every range of an ordered list
/// keeps it ordered.
proof fn lemma_push_ordered(out: Seq<Op>, c: Op)
    requires
        ordered(out),
        ends_fit(out),
        end_fits(c),
        forall|m: int| 0 <= m < out.len() ==> #[trigger] out[m].ins <= c.ins,
    ensures
        ordered(out.push(c)),
        ends_fit(out.push(c)),
        forall|m: int| 0 <= m < out.push(c).len() ==> #[trigger] out.push(c)[m].ins <= c.ins,
{
    let o2 = out.push(c);
    assert forall|a: int, b: int| 0 <= a <= b < o2.len() implies #[trigger] o2[a].ins <= #[trigger] o2[b].ins by {
        if b < out.len() {
            assert(out[a].ins <= out[b].ins);
        } else if a < out.len() {
            assert(out[a].ins <= c.ins);
        }
    }
    assert forall|m: int| 0 <= m < o2.len() implies #[trigger] end_fits(o2[m]) by {
        if m < out.len() {
            assert(end_fits(out[m]));
        }
    }
    assert forall|m: int| 0 <= m < o2.len() implies #[trigger] o2[m].ins <= c.ins by {
        if m < out.len() {
            assert(out[m].ins <= c.ins);
        }
    }
}

/// Merging any one operation keeps a list ordered.
pub proof fn lemma_merge_one_ordered(r: Seq<Op>, op: Op)
    requires
        ordered(r),
        ends_fit(r),
        end_fits(op),
        merge_one(r, op) is Some,
    ensures
        ordered(merge_one(r, op)->0),
        ends_fit(merge_one(r, op)->0),
{
    if op.len > 0 {
        lemma_merge_insert_ordered(r, op);
    } else if op.len < 0 {
        assert(spec_delete_end(op) as int == op.ins - op.len);
        lemma_merge_delete_walk_ordered(r, 0, op.ins as int, spec_delete_end(op) as int, None, Seq::empty());
    }
}

/// Merging a list whose delete ranges end within an `i32` into an ordered
/// list with the same property keeps it ordered by anchor, with every delete
/// range still ending within an `i32`.
pub proof fn law_merge_keeps_order(r: Seq<Op>, ops: Seq<Op>)
    requires
        ordered(r),
        ends_fit(r),
        ends_fit(ops),
        merge_all(r, ops) is Some,
    ensures
        ordered(merge_all(r, ops)->0),
        ends_fit(merge_all(r, ops)->0),
    decreases ops.len(),
{
    if ops.len() > 0 {
        assert(end_fits(ops[0]));
        lemma_merge_one_ordered(r, ops[0]);
        assert forall|m: int| 0 <= m < ops.drop_first().len() implies #[trigger] end_fits(ops.drop_first()[m]) by {
            assert(ops.drop_first()[m] == ops[m + 1]);
            assert(end_fits(ops[m + 1]));
        }
        law_merge_keeps_order(merge_one(r, ops[0])->0, ops.drop_first());
    }
}

impl OpList {
    /// Merges another sequential list into `self`, folding inserts and deletes as needed.
    pub fn merge_sequential_list(&mut self, other: &OpList)
        requires
            merge_all(old(self).ops@, other.ops@) is Some,
        ensures
            final(self).ops@ == merge_all(old(self).ops@, other.ops@)->0,
            final(self).test_op == old(self).test_op,
            ordered(old(self).ops@) && ends_fit(old(self).ops@) && ends_fit(other.ops@)
                ==> ordered(final(self).ops@) && ends_fit(final(self).ops@),
            ends_fit(old(self).ops@) && ends_fit(other.ops@)
                ==> deleted_base(final(self).ops@) == deleted_base(old(self).ops@).union(deleted_base(other.ops@)),
            ends_fit(old(self).ops@) && ends_fit(other.ops@)
                ==> forall|x: int| #[trigger] insert_total_at(final(self).ops@, x)
                    == insert_total_at(old(self).ops@, x) + insert_total_at(other.ops@, x),
    {
        proof {
            if ordered(self.ops@) && ends_fit(self.ops@) && ends_fit(other.ops@) {
                law_merge_keeps_order(self.ops@, other.ops@);
            }
            if ends_fit(self.ops@) && ends_fit(other.ops@) {
                law_merge_view(self.ops@, other.ops@, 0);
                assert forall|x: int| #[trigger] insert_total_at(merge_all(self.ops@, other.ops@)->0, x)
                    == insert_total_at(self.ops@, x) + insert_total_at(other.ops@, x) by {
                    law_merge_view(self.ops@, other.ops@, x);
                }
            }
        }
        let n = other.ops.len();
        let ghost all = other.ops@;
        let ghost goal = merge_all(self.ops@, all);
        let mut i: usize = 0;
        proof {
            assert(all.skip(0) == all);
        }
        while i < n
            invariant
                n == all.len(),
                all == other.ops@,
                i <= n,
                merge_all(self.ops@, all.skip(i as int)) == goal,
                goal is Some,
                self.test_op == old(self).test_op,
            decreases n - i,
        {
            let op = other.ops[i];
            proof {
                assert(all.skip(i as int)[0] == op);
                assert(all.skip(i as int).drop_first() == all.skip(i as int + 1));
            }
            if op.len == 0 {
            } else if op.len > 0 {
                Self::merge_insert(&mut self.ops, op);
            } else {
                Self::merge_delete(&mut self.ops, op);
            }
            i += 1;
        }
        proof {
            assert(all.skip(n as int).len() == 0);
        }
    }

    /// Merges a positive-length operation into an ordered list, combining adjacent inserts at the same base.
    pub fn merge_insert(ranges: &mut Vec<Op>, op: Op)
        requires
            spec_merge_insert(old(ranges)@, op) is Some,
        ensures
            final(ranges)@ == spec_merge_insert(old(ranges)@, op)->0,
            deleted_base(final(ranges)@) == deleted_base(old(ranges)@),
            forall|x: int| #[trigger] insert_total_at(final(ranges)@, x)
                == insert_total_at(old(ranges)@, x) + inserted_len_at(x)(op),
            delete_ranges(final(ranges)@) == delete_ranges(old(ranges)@),
    {
        proof {
            lemma_merge_insert_view(ranges@, op, 0);
            lemma_merge_one_order(ranges@, op);
            assert forall|x: int| #[trigger] insert_total_at(spec_merge_insert(ranges@, op)->0, x)
                == insert_total_at(ranges@, x) + inserted_len_at(x)(op) by {
                lemma_merge_insert_view(ranges@, op, x);
            }
        }
        let ghost r = ranges@;
        let mut idx: usize = 0;
        while idx < ranges.len() && ranges[idx].ins < op.ins
            invariant
                ranges@ == r,
                idx <= r.len(),
                first_not_below(r, op.ins as int, idx as int) == first_not_below(r, op.ins as int, 0),
            decreases r.len() - idx,
        {
            idx += 1;
        }
        let ghost a = idx as int;
        while idx < ranges.len() && ranges[idx].ins == op.ins
            invariant
                ranges@ == r,
                r == old(ranges)@,
                a <= idx <= r.len(),
                a == first_not_below(r, op.ins as int, 0),
                skip_deletes_at(r, op.ins as int, idx as int) == skip_deletes_at(r, op.ins as int, a),
                spec_merge_insert(r, op) is Some,
                deleted_base(spec_merge_insert(r, op)->0) == deleted_base(r),
                forall|x: int| #[trigger] insert_total_at(spec_merge_insert(r, op)->0, x)
                    == insert_total_at(r, x) + inserted_len_at(x)(op),
                delete_ranges(spec_merge_insert(r, op)->0) == delete_ranges(r),
            decreases r.len() - idx,
        {
            if ranges[idx].len > 0 {
                let cur = ranges[idx];
                assert(skip_deletes_at(r, op.ins as int, idx as int) == idx);
                ranges.set(idx, Op { ins: cur.ins, len: cur.len + op.len });
                return;
            }
            idx += 1;
        }
        ranges.insert(idx, op);
    }

    /// Merges a delete operation into an ordered list, coalescing overlapping delete spans.
    pub fn merge_delete(ranges: &mut Vec<Op>, op: Op)
        requires
            spec_merge_delete(old(ranges)@, op) is Some,
        ensures
            final(ranges)@ == spec_merge_delete(old(ranges)@, op)->0,
            ends_fit(old(ranges)@) && end_fits(op)
                ==> deleted_base(final(ranges)@) == deleted_base(old(ranges)@).union(cover_set(op)),
            ends_fit(old(ranges)@) && end_fits(op) ==> forall|x: int| #[trigger] insert_total_at(final(ranges)@, x)
                == insert_total_at(old(ranges)@, x),
            other_ranges(final(ranges)@) == other_ranges(old(ranges)@),
    {
        proof {
            lemma_merge_one_order(ranges@, op);
            if ends_fit(ranges@) && end_fits(op) {
                assert(merge_one(ranges@, op) == spec_merge_delete(ranges@, op));
                lemma_merge_one_view(ranges@, op, 0);
                assert forall|x: int| #[trigger] insert_total_at(spec_merge_delete(ranges@, op)->0, x)
                    == insert_total_at(ranges@, x) by {
                    lemma_merge_one_view(ranges@, op, x);
                }
            }
        }
        let ghost r = ranges@;
        let mut delete_start = op.ins as i64;
        let mut delete_end = Self::delete_end(&op) as i64;
        let old_len = ranges.len();
        let mut out: Vec<Op> = Vec::new();
        let mut inserted_idx: Option<usize> = None;
        let mut read_idx: usize = 0;
        while read_idx < old_len
            invariant
                ranges@ == r,
                old_len == r.len(),
                read_idx <= old_len,
                out@.len() <= 2 * read_idx,
                i32::MIN <= delete_start <= i32::MAX,
                i32::MIN <= delete_end <= i32::MAX,
                match inserted_idx {
                    Some(k) => k < out@.len(),
                    None => true,
                },
                merge_delete_walk(r, read_idx as int, delete_start as int, delete_end as int,
                    match inserted_idx { Some(k) => Some(k as int), None => None }, out@)
                    == spec_merge_delete(r, op),
                spec_merge_delete(r, op) is Some,
            decreases old_len - read_idx,
        {
            let current = ranges[read_idx];
            read_idx += 1;
            if current.len < 0 {
                let current_start = current.ins as i64;
                let current_end = Self::delete_end(&current) as i64;
                if current_end < delete_start {
                    out.push(current);
                    continue;
                }
                if current_start > delete_end {
                    if inserted_idx.is_none() {
                        let delete_op = Self::delete_span(delete_start, delete_end);
                        inserted_idx = Some(out.len());
                        out.push(delete_op);
                    }
                    out.push(current);
                    continue;
                }
                delete_start = if current_start < delete_start { current_start } else { delete_start };
                delete_end = if current_end > delete_end { current_end } else { delete_end };
                match inserted_idx {
                    Some(idx) => {
                        let span = Self::delete_span(delete_start, delete_end);
                        out.set(idx, span);
                    },
                    None => {},
                }
                continue;
            }
            let base = current.ins as i64;
            if inserted_idx.is_none() && base >= delete_start {
                let delete_op = Self::delete_span(delete_start, delete_end);
                inserted_idx = Some(out.len());
                out.push(delete_op);
            }
            out.push(current);
        }
        if inserted_idx.is_none() {
            let delete_op = Self::delete_span(delete_start, delete_end);
            out.push(delete_op);
        }
        *ranges = out;
    }
}

} // verus!
