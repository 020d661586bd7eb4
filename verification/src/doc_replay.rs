//! How replaying user-facing operations acts on the document that the
//! resulting sequential list stands for.

use vstd::prelude::*;
use crate::ops::Op;
use crate::convert::{doc_step, replay, to_oplist_walk, backwards_walk, spec_backwards_apply, advance_prior};
use crate::doc_view::{DocItem, item_at, items, end_base, gap_items, run_items, prefix_base, prefix_doc,
    law_apply_insert_document, lemma_prefix_step, lemma_items_single};
use crate::doc_delete::law_apply_delete_document;
use crate::canonical::{canonical, canonical_from, well_kept, vis_at, lemma_apply_insert_keeps_canonical, lemma_canonical_split,
    lemma_vis_step, lemma_canonical_single};

verus! {

/// A character of a document, with inserted characters no longer told apart
/// by their anchor: a base character by its base position, an inserted one as `None`.
pub open spec fn plain(x: DocItem) -> Option<int> {
    match x {
        DocItem::Base(p) => Some(p),
        DocItem::Inserted(_) => None,
    }
}

/// The document that a sequential list stands for, character by character.
pub open spec fn plain_doc(r: Seq<Op>) -> spec_fn(int) -> Option<int> {
    |k: int| if k < 0 { None } else { plain(item_at(r, k)) }
}

/// The document `d` after the user-facing operation `op`: an insert of `len`
/// new characters at position `ins`, or the removal of the `-len` characters
/// before position `ins`.
pub open spec fn edit(d: spec_fn(int) -> Option<int>, op: Op) -> spec_fn(int) -> Option<int> {
    |k: int|
        if k < 0 {
            None
        } else if op.len > 0 {
            if k < op.ins {
                d(k)
            } else if k < op.ins + op.len {
                None
            } else {
                d(k - op.len)
            }
        } else if op.len < 0 {
            if k < op.ins + op.len {
                d(k)
            } else {
                d(k - op.len)
            }
        } else {
            d(k)
        }
}

/// The document `d` after the operations `ops`, in order.
pub open spec fn edit_all(d: spec_fn(int) -> Option<int>, ops: Seq<Op>) -> spec_fn(int) -> Option<int>
    decreases ops.len(),
{
    if ops.len() == 0 {
        d
    } else {
        edit_all(edit(d, ops[0]), ops.drop_first())
    }
}

/// The operation `op` starts at a document position and, applied to `r`,
/// keeps every base position it reaches within an `i32`.
pub open spec fn step_fits(r: Seq<Op>, op: Op) -> bool {
    op.len == 0 || (op.ins + (if op.len < 0 { op.len as int } else { 0 }) >= 0 && end_base(r, 0) + op.ins <= i32::MAX)
}

/// Every operation of `ops`, applied in turn starting from `r`, fits.
pub open spec fn replay_fits(r: Seq<Op>, ops: Seq<Op>) -> bool
    decreases ops.len(),
{
    if ops.len() == 0 {
        true
    } else {
        step_fits(r, ops[0]) && match doc_step(r, ops[0]) {
            None => true,
            Some(t) => replay_fits(t, ops.drop_first()),
        }
    }
}

/// One operation applied to a canonical list edits its document and keeps it canonical.
proof fn lemma_doc_step(r: Seq<Op>, op: Op)
    requires
        canonical(r),
        step_fits(r, op),
        doc_step(r, op) is Some,
    ensures
        canonical(doc_step(r, op)->0),
        plain_doc(doc_step(r, op)->0) == edit(plain_doc(r), op),
        well_kept(r) ==> well_kept(doc_step(r, op)->0),
{
    let t = doc_step(r, op)->0;
    if op.len > 0 {
        law_apply_insert_document(r, op.ins, op.len);
        lemma_apply_insert_keeps_canonical(r, op.ins, op.len);
    } else if op.len < 0 {
        let pos = (op.ins + op.len) as i32;
        let len = (-op.len) as i32;
        law_apply_delete_document(r, pos, len);
    }
    assert forall|k: int| #[trigger] plain_doc(t)(k) == edit(plain_doc(r), op)(k) by {
        if k >= 0 {
            assert(item_at(t, k) == item_at(t, k));
        }
    }
    assert(plain_doc(t) =~= edit(plain_doc(r), op));
}

/// Replaying user-facing operations on a sequential list in canonical order
/// gives a list, again in canonical order, that stands for the document those
/// operations make of the list's document: each insert puts new characters at
/// its position, each delete removes the characters before its position, and
/// every base character keeps its base position. A list with no empty range
/// and with delete spans that neither overlap nor touch stays so.
pub proof fn law_replay_document(r: Seq<Op>, ops: Seq<Op>)
    requires
        canonical(r),
        replay(r, ops) is Some,
        replay_fits(r, ops),
    ensures
        canonical(replay(r, ops)->0),
        plain_doc(replay(r, ops)->0) == edit_all(plain_doc(r), ops),
        well_kept(r) ==> well_kept(replay(r, ops)->0),
    decreases ops.len(),
{
    if ops.len() > 0 {
        let t = doc_step(r, ops[0])->0;
        lemma_doc_step(r, ops[0]);
        law_replay_document(t, ops.drop_first());
    }
}

/// Editing with `a` and then `x` is editing with `a` followed by `x`.
proof fn lemma_edit_all_push(d: spec_fn(int) -> Option<int>, a: Seq<Op>, x: Op)
    ensures
        edit_all(d, a.push(x)) == edit(edit_all(d, a), x),
    decreases a.len(),
{
    if a.len() == 0 {
        assert(a.push(x)[0] == x);
        assert(a.push(x).drop_first() =~= Seq::<Op>::empty());
        assert(edit_all(edit(d, x), Seq::<Op>::empty()) == edit(d, x));
    } else {
        assert(a.push(x)[0] == a[0]);
        assert(a.push(x).drop_first() =~= a.drop_first().push(x));
        lemma_edit_all_push(edit(d, a[0]), a.drop_first(), x);
    }
}

/// The document of the first `i + 1` ranges of `r` is that of the first `i`
/// ranges edited with range `i` as a user-facing operation at the document
/// position `d1` where its run or its span starts.
proof fn lemma_plain_step(r: Seq<Op>, i: int, d1: int)
    requires
        0 <= i < r.len(),
        d1 == prefix_doc(r, i) + (if r[i].ins > prefix_base(r, i) { r[i].ins - prefix_base(r, i) } else { 0 }),
    ensures
        r[i].len == 0 ==> plain_doc(r.take(i + 1)) == plain_doc(r.take(i)),
        r[i].len > 0 && d1 <= i32::MAX ==> plain_doc(r.take(i + 1))
            == edit(plain_doc(r.take(i)), Op { ins: d1 as i32, len: r[i].len }),
        r[i].len < 0 && d1 - r[i].len <= i32::MAX ==> plain_doc(r.take(i + 1))
            == edit(plain_doc(r.take(i)), Op { ins: (d1 - r[i].len) as i32, len: r[i].len }),
{
    let c = r[i];
    let b = prefix_base(r, i);
    let dd = prefix_doc(r, i);
    let p = items(r.take(i), 0);
    let g = gap_items(b, c.ins as int);
    lemma_prefix_step(r, i);
    lemma_items_single(c, b);
    let p2 = items(r.take(i + 1), 0);
    let b2 = prefix_base(r, i + 1);
    let b1: int = if c.ins > b { c.ins as int } else { b };
    assert(g.len() == d1 - dd);
    assert(b1 - d1 == b - dd);
    if c.len == 0 {
        assert(run_items(c.ins as int, 0) =~= Seq::<DocItem>::empty());
        assert(p2 =~= p + g);
        assert forall|k: int| #[trigger] plain_doc(r.take(i + 1))(k) == plain_doc(r.take(i))(k) by {
            if 0 <= k < dd {
                assert(p2[k] == p[k]);
            } else if dd <= k < d1 {
                assert(p2[k] == g[k - dd]);
            }
        }
        assert(plain_doc(r.take(i + 1)) =~= plain_doc(r.take(i)));
    } else if c.len > 0 {
        if d1 <= i32::MAX {
            let op = Op { ins: d1 as i32, len: c.len };
            let run = run_items(c.ins as int, c.len as int);
            assert(p2 =~= p + g + run);
            assert forall|k: int| #[trigger] plain_doc(r.take(i + 1))(k) == edit(plain_doc(r.take(i)), op)(k) by {
                if 0 <= k < dd {
                    assert(p2[k] == p[k]);
                } else if dd <= k < d1 {
                    assert(p2[k] == g[k - dd]);
                } else if d1 <= k < d1 + c.len {
                    assert(p2[k] == run[k - d1]);
                }
            }
            assert(plain_doc(r.take(i + 1)) =~= edit(plain_doc(r.take(i)), op));
        }
    } else {
        if d1 - c.len <= i32::MAX {
            let op = Op { ins: (d1 - c.len) as i32, len: c.len };
            assert(p2 =~= p + g);
            assert forall|k: int| #[trigger] plain_doc(r.take(i + 1))(k) == edit(plain_doc(r.take(i)), op)(k) by {
                if 0 <= k < dd {
                    assert(p2[k] == p[k]);
                } else if dd <= k < d1 {
                    assert(p2[k] == g[k - dd]);
                }
            }
            assert(plain_doc(r.take(i + 1)) =~= edit(plain_doc(r.take(i)), op));
        }
    }
}

/// Every range of `r` is nonempty.
pub open spec fn no_empty_ranges(r: Seq<Op>) -> bool {
    forall|m: int| 0 <= m < r.len() ==> #[trigger] r[m].len != 0
}

/// The walk of `from_sequential_list_to_oplist` from range `i`, its cursors
/// lagging behind those of the document by the base text that empty ranges
/// skipped over.
proof fn lemma_oplist_walk(r: Seq<Op>, i: int, base: int, doc: int, out: Seq<Op>)
    requires
        0 <= i <= r.len(),
        edit_all(plain_doc(Seq::empty()), out) == plain_doc(r.take(i)),
        base <= prefix_base(r, i),
        prefix_doc(r, i) - doc == prefix_base(r, i) - base,
        no_empty_ranges(r.skip(i)) || canonical_from(r.skip(i), prefix_base(r, i), vis_at(r, i)),
        base < prefix_base(r, i) ==> vis_at(r, i) == prefix_base(r, i) && canonical_from(r.skip(i), prefix_base(r, i), vis_at(r, i)),
        to_oplist_walk(r, i, base, doc, out) is Some,
    ensures
        edit_all(plain_doc(Seq::empty()), to_oplist_walk(r, i, base, doc, out)->0) == plain_doc(r),
    decreases r.len() - i,
{
    if i == r.len() {
        assert(r.take(i) =~= r);
    } else {
        let c = r[i];
        let bb = prefix_base(r, i);
        let dd = prefix_doc(r, i);
        let v = vis_at(r, i);
        let e0 = plain_doc(Seq::<Op>::empty());
        lemma_prefix_step(r, i);
        lemma_items_single(c, bb);
        lemma_vis_step(r, i);
        lemma_canonical_single(c, bb, v);
        lemma_canonical_split(r, i + 1);
        assert(r.skip(i)[0] == c);
        assert(r.skip(i).drop_first() =~= r.skip(i + 1));
        if canonical_from(r.skip(i), bb, v) {
            assert(canonical_from(r.skip(i + 1), prefix_base(r, i + 1), vis_at(r, i + 1)));
        }
        assert(no_empty_ranges(r.skip(i)) ==> no_empty_ranges(r.skip(i + 1))) by {
            if no_empty_ranges(r.skip(i)) {
                assert forall|m: int| 0 <= m < r.skip(i + 1).len() implies #[trigger] r.skip(i + 1)[m].len != 0 by {
                    assert(r.skip(i + 1)[m] == r.skip(i)[m + 1]);
                }
            }
        }
        let d1t: int = dd + (if c.ins > bb { c.ins - bb } else { 0 });
        lemma_plain_step(r, i, d1t);
        assert(gap_items(bb, c.ins as int).len() == d1t - dd);
        if c.len == 0 {
            assert(r.skip(i)[0].len == 0);
            lemma_oplist_walk(r, i + 1, base, doc, out);
        } else {
            let b1: int = if c.ins > base { c.ins as int } else { base };
            let d1: int = if c.ins > base { doc + (c.ins - base) } else { doc };
            assert(d1 == d1t && b1 == (if c.ins > bb { c.ins as int } else { bb }));
            if c.len > 0 {
                let op = Op { ins: d1 as i32, len: c.len };
                lemma_edit_all_push(e0, out, op);
                lemma_oplist_walk(r, i + 1, b1, d1 + c.len, out.push(op));
            } else {
                let op = Op { ins: (d1 - c.len) as i32, len: (c.len as int) as i32 };
                lemma_edit_all_push(e0, out, op);
                lemma_oplist_walk(r, i + 1, b1 - c.len, d1, out.push(op));
            }
        }
    }
}

/// Converting a sequential list in canonical order, or one without empty
/// ranges, into user-facing operations gives operations that, applied to the
/// base document, make the document the list stands for.
pub proof fn law_oplist_document(r: Seq<Op>)
    requires
        canonical(r) || no_empty_ranges(r),
        to_oplist_walk(r, 0, 0, 0, Seq::empty()) is Some,
    ensures
        edit_all(plain_doc(Seq::empty()), to_oplist_walk(r, 0, 0, 0, Seq::empty())->0) == plain_doc(r),
{
    assert(r.take(0) =~= Seq::<Op>::empty());
    assert(r.skip(0) =~= r);
    assert(prefix_base(r, 0) == 0);
    assert(prefix_doc(r, 0) == 0);
    assert(vis_at(r, 0) == 0);
    assert(edit_all(plain_doc(Seq::empty()), Seq::empty()) == plain_doc(Seq::<Op>::empty()));
    lemma_oplist_walk(r, 0, 0, 0, Seq::empty());
}

/// Converting a sequential list in canonical order, or one without empty
/// ranges, into user-facing operations and replaying those on an empty list
/// gives a list that stands for the same document.
pub proof fn law_round_trip_document(r: Seq<Op>)
    requires
        canonical(r) || no_empty_ranges(r),
        to_oplist_walk(r, 0, 0, 0, Seq::empty()) is Some,
        replay(Seq::empty(), to_oplist_walk(r, 0, 0, 0, Seq::empty())->0) is Some,
        replay_fits(Seq::empty(), to_oplist_walk(r, 0, 0, 0, Seq::empty())->0),
    ensures
        plain_doc(replay(Seq::empty(), to_oplist_walk(r, 0, 0, 0, Seq::empty())->0)->0) == plain_doc(r),
{
    law_oplist_document(r);
    assert(canonical(Seq::<Op>::empty()));
    law_replay_document(Seq::empty(), to_oplist_walk(r, 0, 0, 0, Seq::empty())->0);
}

/// The user-facing operation that the conversion walk emits for the nonempty
/// range `c`, at document position `d1`.
pub open spec fn emitted_op(c: Op, d1: int) -> Op {
    if c.len > 0 {
        Op { ins: d1 as i32, len: c.len }
    } else {
        Op { ins: (d1 - c.len) as i32, len: (c.len as int) as i32 }
    }
}

/// The walk of `backwards_apply` with no prior operations.
#[verifier::opaque]
spec fn walk_onto_empty(cur: Seq<Op>, i: int, ranges: Seq<Op>, base: int, doc: int) -> Option<Seq<Op>> {
    backwards_walk(cur, Seq::empty(), i, ranges, base, doc, 0, 0, 0)
}

/// Replay, kept folded.
#[verifier::opaque]
spec fn replay_folded(ranges: Seq<Op>, ops: Seq<Op>) -> Option<Seq<Op>> {
    replay(ranges, ops)
}

/// One replay step, kept folded.
#[verifier::opaque]
spec fn step_folded(ranges: Seq<Op>, op: Op) -> Option<Seq<Op>> {
    doc_step(ranges, op)
}

/// One step of the walk of `backwards_apply` with no prior operations is the
/// replay step of the operation that the conversion walk emits.
proof fn lemma_backwards_step(cur: Seq<Op>, i: int, ranges: Seq<Op>, base: int, doc: int)
    requires
        0 <= i < cur.len(),
        0 <= doc,
        cur[i].len != 0,
        cur[i].len != i32::MIN,
        ({
            let c = cur[i];
            let d1: int = if c.ins > base { doc + (c.ins - base) } else { doc };
            if c.len > 0 { d1 <= i32::MAX } else { d1 - c.len <= i32::MAX }
        }),
    ensures
        ({
            let c = cur[i];
            let b1: int = if c.ins > base { c.ins as int } else { base };
            let d1: int = if c.ins > base { doc + (c.ins - base) } else { doc };
            let nb: int = if c.len > 0 { b1 } else { b1 - c.len };
            let nd: int = if c.len > 0 { d1 + c.len } else { d1 };
            walk_onto_empty(cur, i, ranges, base, doc) == match step_folded(ranges, emitted_op(c, d1)) {
                None => None,
                Some(nr) => walk_onto_empty(cur, i + 1, nr, nb, nd),
            }
        }),
{
    reveal(walk_onto_empty);
    reveal(step_folded);
    let c = cur[i];
    assert(advance_prior(Seq::empty(), c.ins as int, 0, 0, 0) == (0int, 0int, 0int));
}

/// An empty range is skipped by the walk of `backwards_apply`.
proof fn lemma_backwards_skip(cur: Seq<Op>, i: int, ranges: Seq<Op>, base: int, doc: int)
    requires
        0 <= i < cur.len(),
        cur[i].len == 0,
    ensures
        walk_onto_empty(cur, i, ranges, base, doc) == walk_onto_empty(cur, i + 1, ranges, base, doc),
{
    reveal(walk_onto_empty);
}

/// Replaying a nonempty list of operations is one step, then the rest.
proof fn lemma_replay_cons(ranges: Seq<Op>, rest: Seq<Op>)
    requires
        rest.len() > 0,
    ensures
        replay_folded(ranges, rest) == match step_folded(ranges, rest[0]) {
            None => None,
            Some(nr) => replay_folded(nr, rest.drop_first()),
        },
{
    reveal(replay_folded);
    reveal(step_folded);
}

/// A list that starts with `out` followed by `op` splits after `out` into
/// `op` and what follows it.
proof fn lemma_split_after(full: Seq<Op>, out: Seq<Op>, op: Op)
    requires
        out.len() + 1 <= full.len(),
        full.take(out.len() as int + 1) == out.push(op),
    ensures
        full.take(out.len() as int) == out,
        full.skip(out.len() as int).len() > 0,
        full.skip(out.len() as int)[0] == op,
        full.skip(out.len() as int).drop_first() == full.skip(out.len() as int + 1),
{
    assert(full.take(out.len() as int + 1)[out.len() as int] == op);
    assert(full.take(out.len() as int) =~= out.push(op).take(out.len() as int));
    assert(out.push(op).take(out.len() as int) =~= out);
    assert(full.skip(out.len() as int).drop_first() =~= full.skip(out.len() as int + 1));
}

/// The walk of `backwards_apply` with no prior operations makes the same
/// steps as replaying the operations that the conversion walk emits from
/// the same point.
proof fn lemma_backwards_walk_empty(cur: Seq<Op>, i: int, ranges: Seq<Op>, base: int, doc: int, out: Seq<Op>)
    requires
        0 <= i <= cur.len(),
        0 <= doc,
        to_oplist_walk(cur, i, base, doc, out) is Some,
    ensures
        ({
            let full = to_oplist_walk(cur, i, base, doc, out)->0;
            &&& out.len() <= full.len()
            &&& full.take(out.len() as int) == out
            &&& walk_onto_empty(cur, i, ranges, base, doc) == replay_folded(ranges, full.skip(out.len() as int))
        }),
    decreases cur.len() - i,
{
    let full = to_oplist_walk(cur, i, base, doc, out)->0;
    if i >= cur.len() {
        assert(full.take(out.len() as int) =~= out);
        assert(full.skip(out.len() as int) =~= Seq::<Op>::empty());
        reveal(walk_onto_empty);
        reveal(replay_folded);
    } else {
        let c = cur[i];
        if c.len == 0 {
            lemma_backwards_skip(cur, i, ranges, base, doc);
            lemma_backwards_walk_empty(cur, i + 1, ranges, base, doc, out);
        } else {
            let b1: int = if c.ins > base { c.ins as int } else { base };
            let d1: int = if c.ins > base { doc + (c.ins - base) } else { doc };
            let op = emitted_op(c, d1);
            let out1 = out.push(op);
            let nb: int = if c.len > 0 { b1 } else { b1 - c.len };
            let nd: int = if c.len > 0 { d1 + c.len } else { d1 };
            assert(to_oplist_walk(cur, i, base, doc, out) == to_oplist_walk(cur, i + 1, nb, nd, out1));
            lemma_backwards_step(cur, i, ranges, base, doc);
            match step_folded(ranges, op) {
                Some(nr) => {
                    lemma_backwards_walk_empty(cur, i + 1, nr, nb, nd, out1);
                },
                None => {
                    lemma_backwards_walk_empty(cur, i + 1, ranges, nb, nd, out1);
                },
            }
            lemma_split_after(full, out, op);
            lemma_replay_cons(ranges, full.skip(out.len() as int));
        }
    }
}

/// Applying a list backwards onto no prior operations is replaying, on an
/// empty list, the user-facing operations that the list converts to.
pub proof fn law_backwards_onto_empty(cur: Seq<Op>)
    requires
        to_oplist_walk(cur, 0, 0, 0, Seq::empty()) is Some,
    ensures
        spec_backwards_apply(cur, Seq::empty()) == replay(Seq::empty(), to_oplist_walk(cur, 0, 0, 0, Seq::empty())->0),
{
    lemma_backwards_walk_empty(cur, 0, Seq::empty(), 0, 0, Seq::empty());
    let full = to_oplist_walk(cur, 0, 0, 0, Seq::empty())->0;
    assert(full.skip(0) =~= full);
    reveal(walk_onto_empty);
    reveal(replay_folded);
}

/// Applying a list in canonical order, or one without empty ranges,
/// backwards onto no prior operations gives a list that stands for the same
/// document.
pub proof fn law_backwards_onto_empty_document(cur: Seq<Op>)
    requires
        canonical(cur) || no_empty_ranges(cur),
        to_oplist_walk(cur, 0, 0, 0, Seq::empty()) is Some,
        spec_backwards_apply(cur, Seq::empty()) is Some,
        replay_fits(Seq::empty(), to_oplist_walk(cur, 0, 0, 0, Seq::empty())->0),
    ensures
        plain_doc(spec_backwards_apply(cur, Seq::empty())->0) == plain_doc(cur),
{
    law_backwards_onto_empty(cur);
    law_round_trip_document(cur);
}

/// A sequential list built by replaying user-facing operations on an empty
/// list has no empty range, and its delete spans neither overlap nor touch
/// (adjacent deletes are joined into one span).
pub proof fn law_replay_shape(ops: Seq<Op>)
    requires
        replay(Seq::empty(), ops) is Some,
        replay_fits(Seq::empty(), ops),
    ensures
        well_kept(replay(Seq::empty(), ops)->0),
        canonical(replay(Seq::empty(), ops)->0),
{
    assert(canonical(Seq::<Op>::empty()));
    assert(well_kept(Seq::<Op>::empty()));
    law_replay_document(Seq::empty(), ops);
}

} // verus!
