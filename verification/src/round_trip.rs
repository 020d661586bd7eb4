//! Converting a sequential list back into user-facing operations and
//! replaying those gives the same list back, for lists in a simple shape.

use vstd::prelude::*;
use crate::ops::Op;
use crate::convert::{doc_step, replay, to_oplist_walk};
use crate::locate::{LocateBias, PositionRef, locate_walk, spec_locate, spec_apply_insert, walkable, max_ranges};
use crate::doc_view::{items, end_base, gap_items, prefix_base, prefix_doc, lemma_prefix_step, lemma_items_single};
use crate::delete::{DeleteEmit, DeleteWalkState, delete_walk, gap_step, range_step, spec_apply_delete,
    emitted, spec_delete_end, spec_write, max_int};

verus! {

/// The base position right after range `op`: the end of a delete span, the
/// anchor of an insert run.
pub open spec fn after_range(op: Op) -> int {
    if op.len < 0 { op.ins - op.len } else { op.ins as int }
}

/// A sequential list in a simple shape: no empty range, anchors from zero on
/// and in order, one insert run per anchor and placed before a delete at the
/// same anchor, delete spans ending within an `i32` and neither overlapping
/// nor touching, and no insert run right after deleted base text.
pub open spec fn simple_state(s: Seq<Op>) -> bool {
    &&& forall|m: int| 0 <= m < s.len() ==> #[trigger] s[m].len != 0 && s[m].ins >= 0
        && (s[m].len < 0 ==> s[m].ins - s[m].len <= i32::MAX)
    &&& forall|i: int, j: int| #![trigger s[i], s[j]] 0 <= i < j < s.len() ==> {
        &&& s[i].ins <= s[j].ins
        &&& s[i].ins == s[j].ins ==> s[i].len > 0 && s[j].len < 0
        &&& s[i].len < 0 ==> s[i].ins - s[i].len < s[j].ins
    }
}

/// In a simple list each range is anchored at or after the base cursor before
/// it (an insert run strictly after, but for the first range), and the base
/// cursor after a range is the base position right after it.
proof fn lemma_simple_prefix(s: Seq<Op>, i: int)
    requires
        simple_state(s),
        0 <= i <= s.len(),
    ensures
        prefix_base(s, i) == (if i == 0 { 0 } else { after_range(s[i - 1]) }),
        i < s.len() ==> s[i].ins >= prefix_base(s, i),
        i < s.len() && i > 0 && s[i].len > 0 ==> s[i].ins > prefix_base(s, i),
    decreases i,
{
    if i == 0 {
        assert(s.take(0) =~= Seq::<Op>::empty());
    } else {
        lemma_simple_prefix(s, i - 1);
        lemma_prefix_step(s, i - 1);
        lemma_items_single(s[i - 1], prefix_base(s, i - 1));
        assert(s[i - 1].len != 0);
        if i < s.len() {
            assert(s[i - 1].ins <= s[i].ins);
            if s[i - 1].ins == s[i].ins {
                assert(s[i - 1].len > 0 && s[i].len < 0);
            }
        }
    }
}

/// Locating a position past the end of a nonempty list (or at or past the end
/// of an empty one) lands at the end, on the base position that far past the
/// list's end base.
proof fn lemma_locate_past_end(r: Seq<Op>, t: int, j: int)
    requires
        0 <= j <= r.len(),
        t >= items(r, 0).len(),
        r.len() > 0 ==> t > items(r, 0).len(),
    ensures
        locate_walk(r, t, LocateBias::PreferOutsideInsert, j, prefix_base(r, j), prefix_doc(r, j))
            == (PositionRef::Base { base: (end_base(r, 0) + (t - items(r, 0).len())) as i32, index: r.len() as usize }),
    decreases r.len() - j,
{
    let n = r.len() as int;
    if j == n {
        assert(r.take(n) =~= r);
    } else {
        let c = r[j];
        let b = prefix_base(r, j);
        let d = prefix_doc(r, j);
        lemma_prefix_step(r, j);
        lemma_items_single(c, b);
        assert(r == r.take(j + 1) + r.skip(j + 1));
        crate::doc_view::lemma_items_concat(r.take(j + 1), r.skip(j + 1), 0);
        assert(prefix_doc(r, j + 1) <= items(r, 0).len());
        assert(gap_items(b, c.ins as int).len() == (if c.ins > b { c.ins - b } else { 0 }));
        lemma_locate_past_end(r, t, j + 1);
    }
}

/// Inserting the insert run `s[i]` at its document position after the first
/// `i` ranges of a simple list appends it.
proof fn lemma_insert_step(s: Seq<Op>, i: int)
    requires
        simple_state(s),
        s.len() <= max_ranges(),
        0 <= i < s.len(),
        s[i].len > 0,
        prefix_doc(s, i) + (s[i].ins - prefix_base(s, i)) <= i32::MAX,
    ensures
        spec_apply_insert(s.take(i), (prefix_doc(s, i) + (s[i].ins - prefix_base(s, i))) as i32, s[i].len)
            == Some(s.take(i + 1)),
{
    let p = s.take(i);
    let c = s[i];
    let b = prefix_base(s, i);
    let d = prefix_doc(s, i);
    lemma_simple_prefix(s, i);
    let t = d + (c.ins - b);
    assert(p.take(0) =~= Seq::<Op>::empty());
    assert(prefix_base(p, 0) == 0 && prefix_doc(p, 0) == 0);
    lemma_locate_past_end(p, t, 0);
    assert((t as i32) as int == t);
    assert(spec_locate(p, t, LocateBias::PreferOutsideInsert) == (PositionRef::Base { base: c.ins, index: i as usize }));
    if i > 0 {
        assert(p[i - 1] == s[i - 1]);
        assert(s[i - 1].ins <= s[i].ins);
    }
    assert(s.take(i + 1) == p.insert(i, Op { ins: c.ins, len: c.len }));
}

/// The index of the last delete range of `r`.
pub open spec fn last_delete(r: Seq<Op>) -> Option<usize>
    decreases r.len(),
{
    if r.len() == 0 {
        None
    } else if r.last().len < 0 {
        Some((r.len() - 1) as usize)
    } else {
        last_delete(r.drop_last())
    }
}

proof fn lemma_last_delete(r: Seq<Op>)
    requires
        r.len() <= max_ranges(),
    ensures
        last_delete(r) matches Some(k) ==> k < r.len() && r[k as int].len < 0,
    decreases r.len(),
{
    if r.len() > 0 && r.last().len >= 0 {
        lemma_last_delete(r.drop_last());
    }
}

/// The state of a delete walk over the first `j` ranges of `p` that has met
/// nothing of the delete window: those ranges copied, the window untouched.
pub open spec fn untouched_state(p: Seq<Op>, j: int, pos: int) -> DeleteWalkState {
    (prefix_doc(p, j), prefix_base(p, j), pos, p.take(j), last_delete(p.take(j)))
}

/// One step of a delete walk over the first `i` ranges of a simple list,
/// with the window past them: the gap before range `j` and range `j` are copied.
proof fn lemma_untouched_step(s: Seq<Op>, i: int, pos: int, de: int, j: int)
    requires
        simple_state(s),
        0 <= i <= s.len(),
        s.len() <= max_ranges(),
        0 <= j < i,
        prefix_doc(s, i) <= pos < de,
    ensures
        ({
            let p = s.take(i);
            let st = untouched_state(p, j, pos);
            &&& gap_step(p, de, j, st) is Some
            &&& range_step(p[j], de, gap_step(p, de, j, st)->0) == Some(untouched_state(p, j + 1, pos))
        }),
{
    let p = s.take(i);
    let c = p[j];
    assert(c == s[j]);
    let st = untouched_state(p, j, pos);
    let (doc, base, cur, out, last) = st;
    lemma_prefix_step(p, j);
    lemma_items_single(c, base);
    assert(p == p.take(j + 1) + p.skip(j + 1));
    crate::doc_view::lemma_items_concat(p.take(j + 1), p.skip(j + 1), 0);
    assert(p.take(i) =~= p);
    assert(prefix_doc(p, i) == prefix_doc(s, i));
    assert(gap_items(base, c.ins as int).len() == (if c.ins > base { c.ins - base } else { 0 }));
    let b1: int = if c.ins > base { c.ins as int } else { base };
    let d1: int = if c.ins > base { doc + (c.ins - base) } else { doc };
    assert(gap_step(p, de, j, st) == Some((d1, b1, cur, out, last)));
    let g = (d1, b1, cur, out, last);
    assert(p.take(j + 1) == out.push(c));
    lemma_last_delete(out);
    if c.len < 0 {
        match last {
            Some(k) => {
                assert(out[k as int] == s[k as int]);
                assert(spec_delete_end(out[k as int]) == out[k as int].ins - out[k as int].len);
            },
            None => {},
        }
        assert(spec_write(out, out.len() as int, c) == out.push(c));
        assert(out.push(c).last() == c);
        assert(last_delete(out.push(c)) == Some(out.len() as usize));
    } else {
        assert(out.push(c).drop_last() == out);
        assert(last_delete(out.push(c)) == last);
    }
}

/// A delete window starting at or past the end of the first `i` ranges of a
/// simple list leaves each of them as it is.
proof fn lemma_delete_walk_prefix(s: Seq<Op>, i: int, pos: int, de: int, j: int)
    requires
        simple_state(s),
        0 <= i <= s.len(),
        s.len() <= max_ranges(),
        0 <= j <= i,
        prefix_doc(s, i) <= pos < de,
    ensures
        delete_walk(s.take(i), de, j, untouched_state(s.take(i), j, pos))
            == delete_walk(s.take(i), de, i, untouched_state(s.take(i), i, pos)),
    decreases i - j,
{
    if j < i {
        lemma_untouched_step(s, i, pos, de, j);
        lemma_delete_walk_prefix(s, i, pos, de, j + 1);
    }
}

/// Deleting the span of the delete range `s[i]` at its document position
/// after the first `i` ranges of a simple list appends it.
proof fn lemma_delete_step(s: Seq<Op>, i: int)
    requires
        simple_state(s),
        s.len() <= max_ranges(),
        0 <= i < s.len(),
        s[i].len < 0,
        prefix_doc(s, i) + (s[i].ins - prefix_base(s, i)) - s[i].len <= i32::MAX,
    ensures
        spec_apply_delete(s.take(i), (prefix_doc(s, i) + (s[i].ins - prefix_base(s, i))) as i32, (-s[i].len) as i32)
            == Some(s.take(i + 1)),
{
    let p = s.take(i);
    let c = s[i];
    let b = prefix_base(s, i);
    let d = prefix_doc(s, i);
    lemma_simple_prefix(s, i);
    let pos = d + (c.ins - b);
    let dl = -c.len;
    let de = pos + dl;
    assert((pos as i32) as int == pos);
    assert(((-c.len) as i32) as int == dl);
    assert(p.take(0) =~= Seq::<Op>::empty());
    assert(prefix_base(p, 0) == 0 && prefix_doc(p, 0) == 0);
    assert(last_delete(Seq::<Op>::empty()) == None::<usize>);
    assert(untouched_state(p, 0, pos) == (0int, 0int, pos, Seq::<Op>::empty(), None::<usize>));
    lemma_delete_walk_prefix(s, i, pos, de, 0);
    assert(p.take(i) =~= p);
    assert(prefix_doc(p, i) == d && prefix_base(p, i) == b);
    let st = untouched_state(p, i, pos);
    assert(st == (d, b, pos, p, last_delete(p)));
    lemma_last_delete(p);
    let src = DeleteEmit::DocSpan { base_start: (b + (max_int(pos, d) - d)) as i64, len: (de - max_int(pos, d)) as i64 };
    assert(emitted(src) == Some(Some(c)));
    match last_delete(p) {
        Some(k) => {
            assert(p[k as int] == s[k as int]);
            assert(spec_delete_end(p[k as int]) == p[k as int].ins - p[k as int].len);
        },
        None => {},
    }
    assert(spec_write(p, p.len() as int, c) == p.push(c));
    assert(s.take(i + 1) == p.push(c));
}

/// Replay, kept folded.
#[verifier::opaque]
spec fn replay_f(r: Seq<Op>, ops: Seq<Op>) -> Option<Seq<Op>> {
    replay(r, ops)
}

/// One replay step, kept folded.
#[verifier::opaque]
spec fn step_f(r: Seq<Op>, op: Op) -> Option<Seq<Op>> {
    doc_step(r, op)
}

proof fn lemma_replay_f_cons(r: Seq<Op>, rest: Seq<Op>)
    requires
        rest.len() > 0,
    ensures
        replay_f(r, rest) == match step_f(r, rest[0]) {
            None => None,
            Some(t) => replay_f(t, rest.drop_first()),
        },
{
    reveal(replay_f);
    reveal(step_f);
}

/// Replaying the user-facing operation that range `i` of a simple list
/// converts to, on the first `i` ranges, appends range `i`.
proof fn lemma_round_trip_step(s: Seq<Op>, i: int, d1: int)
    requires
        simple_state(s),
        walkable(s),
        0 <= i < s.len(),
        d1 == prefix_doc(s, i) + (if s[i].ins > prefix_base(s, i) { s[i].ins - prefix_base(s, i) } else { 0 }),
        s[i].len > 0 ==> d1 <= i32::MAX,
        s[i].len < 0 ==> d1 - s[i].len <= i32::MAX,
    ensures
        step_f(s.take(i), if s[i].len > 0 {
            Op { ins: d1 as i32, len: s[i].len }
        } else {
            Op { ins: (d1 - s[i].len) as i32, len: (s[i].len as int) as i32 }
        }) == Some(s.take(i + 1)),
{
    reveal(step_f);
    lemma_simple_prefix(s, i);
    assert(s.take(i).len() == i);
    assert(s[i].len != 0);
    if s[i].len > 0 {
        lemma_insert_step(s, i);
    } else {
        lemma_delete_step(s, i);
    }
}

proof fn lemma_split_after_rt(full: Seq<Op>, out: Seq<Op>, op: Op)
    requires
        out.len() + 1 <= full.len(),
        full.take(out.len() as int + 1) == out.push(op),
    ensures
        full.take(out.len() as int) == out,
        full.skip(out.len() as int).len() > 0,
        full.skip(out.len() as int)[0] == op,
        full.skip(out.len() as int).drop_first() == full.skip(out.len() as int + 1),
{
    assert(full.take(out.len() as int + 1)[out.len() as int] == op);
    assert(full.take(out.len() as int) =~= out.push(op).take(out.len() as int));
    assert(out.push(op).take(out.len() as int) =~= out);
    assert(full.skip(out.len() as int).drop_first() =~= full.skip(out.len() as int + 1));
}

proof fn lemma_round_trip_walk(s: Seq<Op>, i: int, out: Seq<Op>)
    requires
        simple_state(s),
        walkable(s),
        0 <= i <= s.len(),
        to_oplist_walk(s, i, prefix_base(s, i), prefix_doc(s, i), out) is Some,
    ensures
        ({
            let full = to_oplist_walk(s, i, prefix_base(s, i), prefix_doc(s, i), out)->0;
            &&& out.len() <= full.len()
            &&& full.take(out.len() as int) == out
            &&& replay_f(s.take(i), full.skip(out.len() as int)) == Some(s)
        }),
    decreases s.len() - i,
{
    let full = to_oplist_walk(s, i, prefix_base(s, i), prefix_doc(s, i), out)->0;
    if i == s.len() {
        assert(full.take(out.len() as int) =~= out);
        assert(full.skip(out.len() as int) =~= Seq::<Op>::empty());
        assert(s.take(i) =~= s);
        reveal(replay_f);
    } else {
        let c = s[i];
        let b = prefix_base(s, i);
        let d = prefix_doc(s, i);
        assert(c.len != 0);
        lemma_prefix_step(s, i);
        lemma_items_single(c, b);
        assert(gap_items(b, c.ins as int).len() == (if c.ins > b { c.ins - b } else { 0 }));
        let b1: int = if c.ins > b { c.ins as int } else { b };
        let d1: int = if c.ins > b { d + (c.ins - b) } else { d };
        let op = if c.len > 0 { Op { ins: d1 as i32, len: c.len } } else { Op { ins: (d1 - c.len) as i32, len: (c.len as int) as i32 } };
        let out1 = out.push(op);
        let nb: int = if c.len > 0 { b1 } else { b1 - c.len };
        let nd: int = if c.len > 0 { d1 + c.len } else { d1 };
        assert(nb == prefix_base(s, i + 1) && nd == prefix_doc(s, i + 1));
        assert(to_oplist_walk(s, i, b, d, out) == to_oplist_walk(s, i + 1, nb, nd, out1));
        lemma_round_trip_step(s, i, d1);
        lemma_round_trip_walk(s, i + 1, out1);
        lemma_split_after_rt(full, out, op);
        lemma_replay_f_cons(s.take(i), full.skip(out.len() as int));
    }
}

/// Converting a sequential list in a simple shape into user-facing operations
/// and replaying those on an empty list gives the same list back.
pub proof fn law_round_trip_simple(s: Seq<Op>)
    requires
        simple_state(s),
        walkable(s),
        to_oplist_walk(s, 0, 0, 0, Seq::empty()) is Some,
    ensures
        replay(Seq::empty(), to_oplist_walk(s, 0, 0, 0, Seq::empty())->0) == Some(s),
{
    assert(s.take(0) =~= Seq::<Op>::empty());
    assert(prefix_base(s, 0) == 0 && prefix_doc(s, 0) == 0);
    lemma_round_trip_walk(s, 0, Seq::empty());
    let full = to_oplist_walk(s, 0, 0, 0, Seq::empty())->0;
    assert(full.skip(0) =~= full);
    reveal(replay_f);
}

} // verus!
