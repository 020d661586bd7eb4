//! What a transform keeps of the list it transforms: every inserted character.

use vstd::prelude::*;
use crate::ops::Op;
use crate::transform::{spec_push_op, push_delete, carry_delete, transform_delete, transform_walk, spec_transform, continues};
use crate::tally::{
    tally, inserted_len, inserted_len_at, insert_total, counts_inserts_only, lemma_counts_inserts_only,
    lemma_tally_push, lemma_tally_update, lemma_tally_step,
};

verus! {

/// `f` counts inserted length: it is zero on ranges that insert nothing, and
/// adds up over two inserts joined at the same anchor.
pub open spec fn counts_inserted_length(f: spec_fn(Op) -> int) -> bool {
    &&& counts_inserts_only(f)
    &&& forall|a: Op, b: Op| #![trigger f(a), f(b)]
        a.len > 0 && b.len > 0 && a.ins == b.ins && a.len + b.len <= i32::MAX
            ==> f(Op { ins: a.ins, len: (a.len + b.len) as i32 }) == f(a) + f(b)
}

/// The inserted length, in all and at each anchor, is counted so.
pub proof fn lemma_counts_inserted_length()
    ensures
        counts_inserted_length(inserted_len()),
        forall|y: int| #[trigger] counts_inserted_length(inserted_len_at(y)),
{
    lemma_counts_inserts_only();
}

/// Appending an operation adds its inserted length.
pub proof fn lemma_push_op_total(ops: Seq<Op>, op: Op, f: spec_fn(Op) -> int)
    requires
        counts_inserted_length(f),
        spec_push_op(ops, op) is Some,
    ensures
        tally(spec_push_op(ops, op)->0, 0, f) == tally(ops, 0, f) + f(op),
{
    if op.len == 0 {
        assert(f(op) == 0);
    } else if ops.len() > 0 && (
        (op.len > 0 && ops.last().len > 0 && ops.last().ins == op.ins)
        || (op.len < 0 && ops.last().len < 0 && ops.last().ins - ops.last().len == op.ins)) {
        let l = ops.last();
        let c = Op { ins: l.ins, len: (l.len + op.len) as i32 };
        lemma_tally_update(ops, ops.len() - 1, c, 0, f);
        if op.len < 0 {
            assert(f(l) == 0 && f(op) == 0 && f(c) == 0);
        } else {
            assert(f(c) == f(l) + f(op));
        }
    } else {
        lemma_tally_push(ops, op, 0, f);
    }
}

/// Appending a delete adds no inserted length.
proof fn lemma_push_delete_total(out: Seq<Op>, at: int, len: int, f: spec_fn(Op) -> int)
    requires
        counts_inserted_length(f),
        push_delete(out, at, len) is Some,
    ensures
        tally(push_delete(out, at, len)->0, 0, f) == tally(out, 0, f),
{
    let d = Op { ins: at as i32, len: (-len) as i32 };
    lemma_push_op_total(out, d, f);
    assert(f(d) == 0);
}

/// Carrying a delete across the base adds no inserted length.
pub proof fn lemma_carry_delete_total(s: Seq<Op>, tie: bool, del_end: int, curr: int, t: int, tshift: int, out: Seq<Op>, f: spec_fn(Op) -> int)
    requires
        counts_inserted_length(f),
        carry_delete(s, tie, del_end, curr, t, tshift, out) is Some,
    ensures
        tally(carry_delete(s, tie, del_end, curr, t, tshift, out)->0, 0, f) == tally(out, 0, f),
    decreases s.len() - t,
{
    if curr >= del_end {
    } else if t >= s.len() || t < 0 {
        lemma_push_delete_total(out, curr + tshift, del_end - curr, f);
    } else {
        let sop = s[t];
        if sop.ins >= del_end {
            lemma_push_delete_total(out, curr + tshift, del_end - curr, f);
        } else {
            let pre: Option<Seq<Op>> = if sop.ins > curr { push_delete(out, curr + tshift, sop.ins - curr) } else { Some(out) };
            let curr1: int = if sop.ins > curr { sop.ins as int } else { curr };
            if sop.ins > curr {
                lemma_push_delete_total(out, curr + tshift, sop.ins - curr, f);
            }
            let out1 = pre->0;
            if sop.len > 0 {
                lemma_carry_delete_total(s, tie, del_end, curr1, t + 1, if tie { tshift + sop.len } else { tshift }, out1, f);
            } else {
                let sop_end = sop.ins - sop.len;
                let overlap = crate::delete::min_int(sop_end, del_end) - curr1;
                if sop_end <= del_end {
                    lemma_carry_delete_total(s, tie, del_end, curr1 + overlap, t + 1, tshift - overlap, out1, f);
                }
            }
        }
    }
}

/// Transforming the operations of `other` from index `i` adds exactly the
/// length they insert.
proof fn lemma_transform_walk_total(s: Seq<Op>, other: Seq<Op>, tie: bool, i: int, si: int, shift: int, out: Seq<Op>)
    requires
        0 <= i,
        transform_walk(s, other, tie, i, si, shift, out) is Some,
    ensures
        tally(transform_walk(s, other, tie, i, si, shift, out)->0, 0, inserted_len())
            == tally(out, 0, inserted_len()) + tally(other, i, inserted_len()),
    decreases other.len() - i,
{
    let f = inserted_len();
    lemma_counts_inserted_length();
    if i < other.len() {
        let op = other[i];
        let target = op.ins as int;
        let adv = crate::transform::advance_base(s, target, tie, si, shift);
        lemma_tally_step(other, i, f);
        if op.len > 0 {
            let mapped = crate::transform::map_insert(s, target, tie, adv.0, target + adv.1);
            lemma_push_op_total(out, Op { ins: mapped as i32, len: op.len }, f);
            let o = spec_push_op(out, Op { ins: mapped as i32, len: op.len })->0;
            lemma_transform_walk_total(s, other, tie, i + 1, adv.0, adv.1, o);
        } else if op.len != i32::MIN {
            let del_end = target - op.len;
            let next = transform_delete(s, tie, target, del_end, adv.0, adv.1, out);
            if 0 <= adv.0 < s.len() && s[adv.0].ins <= target && s[adv.0].len < 0 {
                let sop = s[adv.0];
                let sop_end = sop.ins - sop.len;
                let overlap = crate::delete::min_int(sop_end, del_end) - target;
                lemma_carry_delete_total(s, tie, del_end, target + overlap,
                    if sop_end <= del_end { adv.0 + 1 } else { adv.0 }, adv.1 - overlap, out, f);
            } else {
                lemma_carry_delete_total(s, tie, del_end, target, adv.0, adv.1, out, f);
            }
            lemma_transform_walk_total(s, other, tie, i + 1, adv.0, adv.1, next->0);
        }
    }
}

/// A transformed list inserts exactly as many characters as the list it was
/// made from: a transform moves inserts and trims deletes, and never drops or
/// adds an inserted character.
pub proof fn law_transform_keeps_inserts(s: Seq<Op>, other: Seq<Op>, tie: bool)
    requires
        spec_transform(s, other, tie) is Some,
    ensures
        insert_total(spec_transform(s, other, tie)->0) == insert_total(other),
{
    lemma_transform_walk_total(s, other, tie, 0, 0, 0, Seq::empty());
    assert(tally(Seq::<Op>::empty(), 0, inserted_len()) == 0);
}

/// No range of `ops` is empty, and none continues the one before it: inserts
/// at one position and deletes that meet are joined.
pub open spec fn joined(ops: Seq<Op>) -> bool {
    &&& forall|m: int| 0 <= m < ops.len() ==> #[trigger] ops[m].len != 0
    &&& forall|m: int| 0 < m < ops.len() ==> !continues(ops[m - 1], #[trigger] ops[m])
}

/// Appending an operation keeps a list joined.
proof fn lemma_push_op_joined(ops: Seq<Op>, op: Op)
    requires
        joined(ops),
        spec_push_op(ops, op) is Some,
    ensures
        joined(spec_push_op(ops, op)->0),
{
    let r = spec_push_op(ops, op)->0;
    if op.len == 0 {
    } else if ops.len() > 0 && continues(ops.last(), op) {
        let k = ops.len() - 1;
        assert(r == ops.update(k, r[k]));
        assert forall|m: int| 0 < m < r.len() implies !continues(r[m - 1], #[trigger] r[m]) by {
            if m < k {
                assert(r[m] == ops[m] && r[m - 1] == ops[m - 1]);
            } else {
                assert(!continues(ops[m - 1], ops[m]));
            }
        }
    } else {
        assert forall|m: int| 0 < m < r.len() implies !continues(r[m - 1], #[trigger] r[m]) by {
            if m < ops.len() {
                assert(!continues(ops[m - 1], ops[m]));
            }
        }
    }
}

/// Appending deletes while carrying a delete keeps a list joined.
proof fn lemma_carry_delete_joined(s: Seq<Op>, tie: bool, del_end: int, curr: int, t: int, tshift: int, out: Seq<Op>)
    requires
        joined(out),
        carry_delete(s, tie, del_end, curr, t, tshift, out) is Some,
    ensures
        joined(carry_delete(s, tie, del_end, curr, t, tshift, out)->0),
    decreases s.len() - t,
{
    if curr >= del_end {
    } else if t >= s.len() || t < 0 {
        lemma_push_op_joined(out, Op { ins: (curr + tshift) as i32, len: (-(del_end - curr)) as i32 });
    } else {
        let sop = s[t];
        if sop.ins >= del_end {
            lemma_push_op_joined(out, Op { ins: (curr + tshift) as i32, len: (-(del_end - curr)) as i32 });
        } else {
            let pre: Option<Seq<Op>> = if sop.ins > curr { push_delete(out, curr + tshift, sop.ins - curr) } else { Some(out) };
            let curr1: int = if sop.ins > curr { sop.ins as int } else { curr };
            if sop.ins > curr {
                lemma_push_op_joined(out, Op { ins: (curr + tshift) as i32, len: (-(sop.ins - curr)) as i32 });
            }
            let out1 = pre->0;
            if sop.len > 0 {
                lemma_carry_delete_joined(s, tie, del_end, curr1, t + 1, if tie { tshift + sop.len } else { tshift }, out1);
            } else {
                let sop_end = sop.ins - sop.len;
                let overlap = crate::delete::min_int(sop_end, del_end) - curr1;
                if sop_end <= del_end {
                    lemma_carry_delete_joined(s, tie, del_end, curr1 + overlap, t + 1, tshift - overlap, out1);
                }
            }
        }
    }
}

/// Transforming from index `i` keeps the output joined.
proof fn lemma_transform_walk_joined(s: Seq<Op>, other: Seq<Op>, tie: bool, i: int, si: int, shift: int, out: Seq<Op>)
    requires
        0 <= i,
        joined(out),
        transform_walk(s, other, tie, i, si, shift, out) is Some,
    ensures
        joined(transform_walk(s, other, tie, i, si, shift, out)->0),
    decreases other.len() - i,
{
    if i < other.len() {
        let op = other[i];
        let target = op.ins as int;
        let adv = crate::transform::advance_base(s, target, tie, si, shift);
        if op.len > 0 {
            let mapped = crate::transform::map_insert(s, target, tie, adv.0, target + adv.1);
            lemma_push_op_joined(out, Op { ins: mapped as i32, len: op.len });
            let o = spec_push_op(out, Op { ins: mapped as i32, len: op.len })->0;
            lemma_transform_walk_joined(s, other, tie, i + 1, adv.0, adv.1, o);
        } else if op.len != i32::MIN {
            let del_end = target - op.len;
            let next = transform_delete(s, tie, target, del_end, adv.0, adv.1, out);
            if 0 <= adv.0 < s.len() && s[adv.0].ins <= target && s[adv.0].len < 0 {
                let sop = s[adv.0];
                let sop_end = sop.ins - sop.len;
                let overlap = crate::delete::min_int(sop_end, del_end) - target;
                lemma_carry_delete_joined(s, tie, del_end, target + overlap,
                    if sop_end <= del_end { adv.0 + 1 } else { adv.0 }, adv.1 - overlap, out);
            } else {
                lemma_carry_delete_joined(s, tie, del_end, target, adv.0, adv.1, out);
            }
            lemma_transform_walk_joined(s, other, tie, i + 1, adv.0, adv.1, next->0);
        }
    }
}

/// A transformed list has no empty range, and joins the inserts it places at
/// one position and the deletes that meet: no range continues the one before it.
pub proof fn law_transform_joined(s: Seq<Op>, other: Seq<Op>, tie: bool)
    requires
        spec_transform(s, other, tie) is Some,
    ensures
        joined(spec_transform(s, other, tie)->0),
{
    lemma_transform_walk_joined(s, other, tie, 0, 0, 0, Seq::empty());
}

} // verus!
