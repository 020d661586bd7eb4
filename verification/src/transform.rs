//! Transforming one sequential list against another.

use vstd::prelude::*;
use crate::ops::{Op, OpList, InsertPos, Length};
use crate::locate::walkable;
use crate::delete::min_int;
use crate::merge::ordered;
use crate::tally::insert_total;
use crate::transform_view::{law_transform_keeps_inserts, law_transform_joined, joined};
use crate::tally::deleted_base;
use crate::transform_map::{
    law_transform_deletes, law_transform_inserts, law_transform_inserts_on, deletes_start_outside, kept_image,
    landed_total_at, landed_total_on, clear_of_deletes, deletes_disjoint, lemma_tidy_clear, lemma_tidy_disjoint,
    law_transform_delete_runs, delete_runs, law_transform_delete_images, delete_images,
};
use crate::tally::insert_total_at;

verus! {

/// The list after appending `op`, joined to the last operation when both are
/// inserts at the same position or both are deletes and the last one ends
/// where `op` starts. Empty operations are dropped. `None` on a length overflow.
pub open spec fn spec_push_op(ops: Seq<Op>, op: Op) -> Option<Seq<Op>> {
    if op.len == 0 {
        Some(ops)
    } else if ops.len() > 0 && (
        (op.len > 0 && ops.last().len > 0 && ops.last().ins == op.ins)
        || (op.len < 0 && ops.last().len < 0 && ops.last().ins - ops.last().len == op.ins)) {
        let l = ops.last();
        if l.len + op.len < i32::MIN || l.len + op.len > i32::MAX {
            None
        } else {
            Some(ops.update(ops.len() - 1, Op { ins: l.ins, len: (l.len + op.len) as i32 }))
        }
    } else {
        Some(ops.push(op))
    }
}

/// Consumes, from index `si`, the base operations that lie entirely before
/// `target`: inserts anchored before it (or at it when `tie`), and deletes
/// that end at or before it, accumulating their length into `shift`.
pub open spec fn advance_base(s: Seq<Op>, target: int, tie: bool, si: int, shift: int) -> (int, int)
    decreases s.len() - si,
{
    if si >= s.len() || si < 0 {
        (si, shift)
    } else {
        let sop = s[si];
        if sop.ins > target {
            (si, shift)
        } else if sop.len < 0 {
            if sop.ins - sop.len > target {
                (si, shift)
            } else {
                advance_base(s, target, tie, si + 1, shift + sop.len)
            }
        } else if sop.ins == target && !tie {
            (si, shift)
        } else {
            advance_base(s, target, tie, si + 1, shift + sop.len)
        }
    }
}

/// The position an insert at `target` maps to, starting from `mapped` and
/// looking at the base operations from index `t` that start at or before
/// `target`: inserts shift it (those at `target` only when `tie`), a delete
/// containing `target` pulls it back to the start of the delete.
pub open spec fn map_insert(s: Seq<Op>, target: int, tie: bool, t: int, mapped: int) -> int
    decreases s.len() - t,
{
    if t >= s.len() || t < 0 {
        mapped
    } else {
        let sop = s[t];
        if sop.ins > target {
            mapped
        } else {
            let m2: int = if sop.len > 0 {
                if sop.ins == target && !tie { mapped } else { mapped + sop.len }
            } else if sop.ins <= target && target < sop.ins - sop.len {
                mapped - (target - sop.ins)
            } else {
                mapped
            };
            map_insert(s, target, tie, t + 1, m2)
        }
    }
}

/// Appends the delete of `len` characters starting at `at`. `None` where they
/// do not fit in an `i32` or the append overflows.
pub open spec fn push_delete(out: Seq<Op>, at: int, len: int) -> Option<Seq<Op>> {
    if at < i32::MIN || at > i32::MAX || len > i32::MAX || len < 0 {
        None
    } else {
        spec_push_op(out, Op { ins: at as i32, len: (-len) as i32 })
    }
}

/// The state of a delete being carried across the base operations: the
/// position reached, the base index, and the shift to apply.
pub open spec fn carry_delete(s: Seq<Op>, tie: bool, del_end: int, curr: int, t: int, tshift: int, out: Seq<Op>) -> Option<Seq<Op>>
    decreases s.len() - t,
{
    if curr >= del_end {
        Some(out)
    } else if t >= s.len() || t < 0 {
        push_delete(out, curr + tshift, del_end - curr)
    } else {
        let sop = s[t];
        if sop.ins >= del_end {
            push_delete(out, curr + tshift, del_end - curr)
        } else {
            let pre: Option<Seq<Op>> = if sop.ins > curr { push_delete(out, curr + tshift, sop.ins - curr) } else { Some(out) };
            let curr1: int = if sop.ins > curr { sop.ins as int } else { curr };
            match pre {
                None => None,
                Some(out1) => if sop.len > 0 {
                    carry_delete(s, tie, del_end, curr1, t + 1, if tie { tshift + sop.len } else { tshift }, out1)
                } else {
                    let sop_end = sop.ins - sop.len;
                    let overlap = min_int(sop_end, del_end) - curr1;
                    if sop_end <= del_end {
                        carry_delete(s, tie, del_end, curr1 + overlap, t + 1, tshift - overlap, out1)
                    } else {
                        Some(out1)
                    }
                },
            }
        }
    }
}

/// The delete `target .. del_end`, transformed from base index `si` with shift
/// `shift`: the part inside base deletes is dropped, base inserts inside it
/// split it and shift what follows (when `tie`).
pub open spec fn transform_delete(s: Seq<Op>, tie: bool, target: int, del_end: int, si: int, shift: int, out: Seq<Op>) -> Option<Seq<Op>> {
    if 0 <= si < s.len() && s[si].ins <= target && s[si].len < 0 {
        let sop = s[si];
        let sop_end = sop.ins - sop.len;
        let overlap = min_int(sop_end, del_end) - target;
        carry_delete(s, tie, del_end, target + overlap, if sop_end <= del_end { si + 1 } else { si }, shift - overlap, out)
    } else {
        carry_delete(s, tie, del_end, target, si, shift, out)
    }
}

/// Transforms the operations of `other` from index `i` against `s`, with base
/// index `si` and accumulated shift `shift`, appending to `out`.
pub open spec fn transform_walk(s: Seq<Op>, other: Seq<Op>, tie: bool, i: int, si: int, shift: int, out: Seq<Op>) -> Option<Seq<Op>>
    decreases other.len() - i,
{
    if i >= other.len() || i < 0 {
        Some(out)
    } else {
        let op = other[i];
        let target = op.ins as int;
        let adv = advance_base(s, target, tie, si, shift);
        let next: Option<Seq<Op>> = if op.len > 0 {
            let mapped = map_insert(s, target, tie, adv.0, target + adv.1);
            if mapped < i32::MIN || mapped > i32::MAX {
                None
            } else {
                spec_push_op(out, Op { ins: mapped as i32, len: op.len })
            }
        } else if op.len == i32::MIN {
            None
        } else {
            transform_delete(s, tie, target, target - op.len, adv.0, adv.1, out)
        };
        match next {
            None => None,
            Some(o) => transform_walk(s, other, tie, i + 1, adv.0, adv.1, o),
        }
    }
}

/// `other` transformed against `s`; `tie` says whether operations of `s` at the
/// same position come first.
pub open spec fn spec_transform(s: Seq<Op>, other: Seq<Op>, tie: bool) -> Option<Seq<Op>> {
    transform_walk(s, other, tie, 0, 0, 0, Seq::empty())
}

/// `b` continues `a`: two inserts at the same position, or a delete starting
/// where the delete `a` ends.
pub open spec fn continues(a: Op, b: Op) -> bool {
    (a.len > 0 && b.len > 0 && a.ins == b.ins) || (a.len < 0 && b.len < 0 && a.ins - a.len == b.ins)
}

/// No operation of `ops` is empty, has the least `i32` length, or continues the one before it.
pub open spec fn compact(ops: Seq<Op>) -> bool {
    &&& forall|m: int| 0 <= m < ops.len() ==> #[trigger] ops[m].len != 0 && ops[m].len != i32::MIN
    &&& forall|m: int| 0 < m < ops.len() ==> !continues(ops[m - 1], #[trigger] ops[m])
}

proof fn lemma_transform_empty_walk(other: Seq<Op>, tie: bool, i: int)
    requires
        compact(other),
        0 <= i <= other.len(),
    ensures
        transform_walk(Seq::empty(), other, tie, i, 0, 0, other.take(i)) == Some(other),
    decreases other.len() - i,
{
    if i == other.len() {
        assert(other.take(i) =~= other);
    } else {
        let op = other[i];
        let s = Seq::<Op>::empty();
        assert(advance_base(s, op.ins as int, tie, 0, 0) == (0int, 0int));
        assert(map_insert(s, op.ins as int, tie, 0, op.ins as int) == op.ins as int);
        assert(other.take(i + 1) == other.take(i).push(op));
        if i > 0 {
            assert(other.take(i).last() == other[i - 1]);
        }
        if op.len < 0 {
            assert(carry_delete(s, tie, op.ins - op.len, op.ins as int, 0, 0, other.take(i))
                == push_delete(other.take(i), op.ins as int, -op.len));
            assert(Op { ins: (op.ins as int) as i32, len: (-(-op.len)) as i32 } == op);
        }
        lemma_transform_empty_walk(other, tie, i + 1);
    }
}

/// Transforming a list without empty or continuing operations against an
/// empty list gives it back unchanged.
pub proof fn law_transform_against_empty(other: Seq<Op>, tie: bool)
    requires
        compact(other),
    ensures
        spec_transform(Seq::empty(), other, tie) == Some(other),
{
    assert(other.take(0) =~= Seq::<Op>::empty());
    lemma_transform_empty_walk(other, tie, 0);
}

/// No insert (or empty range) of `s` stands at the position of an insert (or
/// empty range) of `other`, or within the span of a delete of `other`: where
/// the operations of the two lists meet, which comes first does not matter.
pub open spec fn no_ties(s: Seq<Op>, other: Seq<Op>) -> bool {
    forall|m: int, k: int| #![trigger s[m], other[k]]
        0 <= m < s.len() && 0 <= k < other.len() && s[m].len >= 0 ==> {
            &&& other[k].len >= 0 ==> s[m].ins != other[k].ins
            &&& other[k].len < 0 ==> !(other[k].ins <= s[m].ins < other[k].ins - other[k].len)
        }
}

/// `s` is ordered by position, and every range after a delete starts at or
/// after the end of its span (deletes are disjoint, and no later insert lies
/// within one).
pub open spec fn tidy(s: Seq<Op>) -> bool {
    &&& ordered(s)
    &&& forall|i: int, j: int| #![trigger s[i], s[j]]
        0 <= i < j < s.len() && s[i].len < 0 ==> s[j].ins >= s[i].ins - s[i].len
}

proof fn lemma_advance_base_tie(s: Seq<Op>, target: int, si: int, shift: int)
    requires
        forall|m: int| 0 <= m < s.len() && #[trigger] s[m].len >= 0 ==> s[m].ins != target,
    ensures
        advance_base(s, target, true, si, shift) == advance_base(s, target, false, si, shift),
        0 <= si <= s.len() ==> {
            let a = advance_base(s, target, true, si, shift).0;
            &&& si <= a <= s.len()
            &&& a < s.len() ==> s[a].ins > target || (s[a].len < 0 && s[a].ins - s[a].len > target)
        },
    decreases s.len() - si,
{
    if 0 <= si < s.len() {
        let sop = s[si];
        if sop.ins <= target {
            if sop.len < 0 {
                if sop.ins - sop.len <= target {
                    lemma_advance_base_tie(s, target, si + 1, shift + sop.len);
                }
            } else {
                assert(sop.ins != target);
                lemma_advance_base_tie(s, target, si + 1, shift + sop.len);
            }
        }
    }
}

proof fn lemma_map_insert_tie(s: Seq<Op>, target: int, t: int, mapped: int)
    requires
        forall|m: int| 0 <= m < s.len() && #[trigger] s[m].len >= 0 ==> s[m].ins != target,
    ensures
        map_insert(s, target, true, t, mapped) == map_insert(s, target, false, t, mapped),
    decreases s.len() - t,
{
    if 0 <= t < s.len() {
        let sop = s[t];
        if sop.len > 0 {
            assert(sop.ins != target);
        }
        if sop.ins <= target {
            let m2: int = if sop.len > 0 {
                mapped + sop.len
            } else if sop.ins <= target && target < sop.ins - sop.len {
                mapped - (target - sop.ins)
            } else {
                mapped
            };
            lemma_map_insert_tie(s, target, t + 1, m2);
        }
    }
}

proof fn lemma_carry_delete_tie(s: Seq<Op>, lo: int, del_end: int, curr: int, t: int, tshift: int, out: Seq<Op>)
    requires
        tidy(s),
        0 <= t,
        forall|m: int| t <= m < s.len() ==> #[trigger] s[m].ins >= lo,
        forall|m: int| 0 <= m < s.len() && #[trigger] s[m].len > 0 ==> !(lo <= s[m].ins < del_end),
    ensures
        carry_delete(s, true, del_end, curr, t, tshift, out) == carry_delete(s, false, del_end, curr, t, tshift, out),
    decreases s.len() - t,
{
    if curr < del_end && t < s.len() {
        let sop = s[t];
        if sop.ins < del_end {
            let pre: Option<Seq<Op>> = if sop.ins > curr { push_delete(out, curr + tshift, sop.ins - curr) } else { Some(out) };
            let curr1: int = if sop.ins > curr { sop.ins as int } else { curr };
            match pre {
                None => {},
                Some(out1) => if sop.len > 0 {
                    assert(sop.ins >= lo);
                    assert(false);
                } else {
                    let sop_end = sop.ins - sop.len;
                    let overlap = min_int(sop_end, del_end) - curr1;
                    if sop_end <= del_end {
                        lemma_carry_delete_tie(s, lo, del_end, curr1 + overlap, t + 1, tshift - overlap, out1);
                    }
                },
            }
        }
    }
}

proof fn lemma_transform_walk_tie(s: Seq<Op>, other: Seq<Op>, i: int, si: int, shift: int, out: Seq<Op>)
    requires
        no_ties(s, other),
        tidy(s),
        0 <= i,
        0 <= si <= s.len(),
    ensures
        transform_walk(s, other, true, i, si, shift, out) == transform_walk(s, other, false, i, si, shift, out),
    decreases other.len() - i,
{
    if i < other.len() {
        let op = other[i];
        let target = op.ins as int;
        assert forall|m: int| 0 <= m < s.len() && #[trigger] s[m].len >= 0 implies s[m].ins != target by {
            if op.len >= 0 {
                assert(s[m].ins != other[i].ins);
            } else {
                assert(!(other[i].ins <= s[m].ins < other[i].ins - other[i].len));
            }
        }
        lemma_advance_base_tie(s, target, si, shift);
        let adv = advance_base(s, target, true, si, shift);
        if op.len > 0 {
            lemma_map_insert_tie(s, target, adv.0, target + adv.1);
        } else if op.len != i32::MIN {
            let del_end = target - op.len;
            assert forall|m: int| 0 <= m < s.len() && #[trigger] s[m].len > 0 implies !(target <= s[m].ins < del_end) by {
                if op.len < 0 {
                    assert(!(other[i].ins <= s[m].ins < other[i].ins - other[i].len));
                }
            }
            if 0 <= adv.0 < s.len() && s[adv.0].ins <= target && s[adv.0].len < 0 {
                let sop = s[adv.0];
                let sop_end = sop.ins - sop.len;
                let overlap = min_int(sop_end, del_end) - target;
                if sop_end <= del_end {
                    assert forall|m: int| adv.0 + 1 <= m < s.len() implies #[trigger] s[m].ins >= target by {
                        assert(s[m].ins >= s[adv.0].ins - s[adv.0].len);
                    }
                    lemma_carry_delete_tie(s, target, del_end, target + overlap, adv.0 + 1, adv.1 - overlap, out);
                }
            } else {
                assert forall|m: int| adv.0 <= m < s.len() implies #[trigger] s[m].ins >= target by {
                    assert(s[adv.0].ins <= s[m].ins);
                }
                lemma_carry_delete_tie(s, target, del_end, target, adv.0, adv.1, out);
            }
        }
        let next: Option<Seq<Op>> = if op.len > 0 {
            let mapped = map_insert(s, target, true, adv.0, target + adv.1);
            if mapped < i32::MIN || mapped > i32::MAX {
                None
            } else {
                spec_push_op(out, Op { ins: mapped as i32, len: op.len })
            }
        } else if op.len == i32::MIN {
            None
        } else {
            transform_delete(s, true, target, target - op.len, adv.0, adv.1, out)
        };
        match next {
            None => {},
            Some(o) => lemma_transform_walk_tie(s, other, i + 1, adv.0, adv.1, o),
        }
    }
}

/// Where `s` is ordered with its inserts outside its own deletes, and no
/// insert of `s` stands at the position of an insert of `other` or within the
/// span of a delete of `other`, transforming `other` against `s` gives the
/// same whichever of the two comes first at equal positions.
pub proof fn law_transform_tie_free(s: Seq<Op>, other: Seq<Op>)
    requires
        tidy(s),
        no_ties(s, other),
    ensures
        spec_transform(s, other, true) == spec_transform(s, other, false),
{
    lemma_transform_walk_tie(s, other, 0, 0, 0, Seq::empty());
}

impl OpList {
    /// Transforms another sequential list against `self`.
    /// `self` is the base transformation. `other` is the operation to transform.
    /// Returns a new `OpList` representing `other` applied after `self`.
    pub fn transform(&self, other: &OpList) -> (res: OpList)
        requires
            walkable(self.ops@),
            spec_transform(self.ops@, other.ops@, true) is Some,
        ensures
            res.ops@ == spec_transform(self.ops@, other.ops@, true)->0,
            res.test_op is None,
            self.ops@.len() == 0 && compact(other.ops@) ==> res.ops@ == other.ops@,
            insert_total(res.ops@) == insert_total(other.ops@),
            joined(res.ops@),
            clear_of_deletes(self.ops@) && ordered(other.ops@) && deletes_start_outside(self.ops@, other.ops@)
                ==> deleted_base(res.ops@) == kept_image(self.ops@, deleted_base(other.ops@)),
            clear_of_deletes(self.ops@) && ordered(other.ops@)
                ==> deleted_base(res.ops@) == delete_images(self.ops@, other.ops@),
            deletes_disjoint(self.ops@) && ordered(other.ops@) ==> forall|y: int| #[trigger] insert_total_at(res.ops@, y)
                == landed_total_at(self.ops@, other.ops@, y),
    {
        proof {
            law_transform_keeps_inserts(self.ops@, other.ops@, true);
            law_transform_joined(self.ops@, other.ops@, true);
            if deletes_disjoint(self.ops@) && ordered(other.ops@) {
                assert forall|y: int| #[trigger] insert_total_at(spec_transform(self.ops@, other.ops@, true)->0, y)
                    == landed_total_at(self.ops@, other.ops@, y) by {
                    law_transform_inserts(self.ops@, other.ops@, y);
                }
            }
            if clear_of_deletes(self.ops@) && ordered(other.ops@) {
                law_transform_delete_images(self.ops@, other.ops@);
            }
            if clear_of_deletes(self.ops@) && ordered(other.ops@) && deletes_start_outside(self.ops@, other.ops@) {
                law_transform_deletes(self.ops@, other.ops@);
            }
            if self.ops@.len() == 0 && compact(other.ops@) {
                assert(self.ops@ =~= Seq::<Op>::empty());
                law_transform_against_empty(other.ops@, true);
            }
        }
        self.transform_impl(other, true)
    }

    /// Applies a transformation on the sequential list.
    /// `transformer` is the operation to apply on `self`.
    pub fn apply_transformation(&mut self, transformer: &OpList)
        requires
            walkable(transformer.ops@),
            spec_transform(transformer.ops@, old(self).ops@, false) is Some,
        ensures
            final(self).ops@ == spec_transform(transformer.ops@, old(self).ops@, false)->0,
            final(self).test_op == old(self).test_op,
            tidy(transformer.ops@) && no_ties(transformer.ops@, old(self).ops@)
                ==> spec_transform(transformer.ops@, old(self).ops@, true) == Some(final(self).ops@),
            insert_total(final(self).ops@) == insert_total(old(self).ops@),
            joined(final(self).ops@),
            tidy(transformer.ops@) && no_ties(transformer.ops@, old(self).ops@) && ordered(old(self).ops@)
                && deletes_start_outside(transformer.ops@, old(self).ops@)
                ==> deleted_base(final(self).ops@) == kept_image(transformer.ops@, deleted_base(old(self).ops@)),
            tidy(transformer.ops@) && no_ties(transformer.ops@, old(self).ops@) && ordered(old(self).ops@)
                ==> forall|y: int| #[trigger] insert_total_at(final(self).ops@, y)
                    == landed_total_at(transformer.ops@, old(self).ops@, y),
            deletes_disjoint(transformer.ops@) && ordered(old(self).ops@)
                ==> forall|y: int| #[trigger] insert_total_at(final(self).ops@, y)
                    == landed_total_on(transformer.ops@, old(self).ops@, false, y),
            clear_of_deletes(transformer.ops@) && ordered(old(self).ops@)
                && deletes_start_outside(transformer.ops@, old(self).ops@)
                ==> deleted_base(final(self).ops@) == delete_runs(transformer.ops@, old(self).ops@),
    {
        proof {
            if clear_of_deletes(transformer.ops@) && ordered(self.ops@)
                && deletes_start_outside(transformer.ops@, self.ops@) {
                law_transform_delete_runs(transformer.ops@, self.ops@);
            }
            law_transform_keeps_inserts(transformer.ops@, self.ops@, false);
            law_transform_joined(transformer.ops@, self.ops@, false);
            if deletes_disjoint(transformer.ops@) && ordered(self.ops@) {
                assert forall|y: int| #[trigger] insert_total_at(spec_transform(transformer.ops@, self.ops@, false)->0, y)
                    == landed_total_on(transformer.ops@, self.ops@, false, y) by {
                    law_transform_inserts_on(transformer.ops@, self.ops@, false, y);
                }
            }
            if tidy(transformer.ops@) && no_ties(transformer.ops@, self.ops@) {
                lemma_tidy_clear(transformer.ops@);
                lemma_tidy_disjoint(transformer.ops@);
                law_transform_tie_free(transformer.ops@, self.ops@);
                if ordered(self.ops@) && deletes_start_outside(transformer.ops@, self.ops@) {
                    law_transform_deletes(transformer.ops@, self.ops@);
                }
                if ordered(self.ops@) {
                    assert forall|y: int| #[trigger] insert_total_at(spec_transform(transformer.ops@, self.ops@, true)->0, y)
                        == landed_total_at(transformer.ops@, self.ops@, y) by {
                        law_transform_inserts(transformer.ops@, self.ops@, y);
                    }
                }
            }
        }
        let new_ops = transformer.transform_impl(self, false);
        self.ops = new_ops.ops;
    }

    /// Appends an operation, joining it to the last one when they continue each other.
    pub fn push_op(ops: &mut Vec<Op>, op: Op)
        requires
            spec_push_op(old(ops)@, op) is Some,
        ensures
            final(ops)@ == spec_push_op(old(ops)@, op)->0,
    {
        if op.len == 0 {
            return;
        }
        let n = ops.len();
        if n > 0 {
            let last = ops[n - 1];
            if op.len > 0 && last.len > 0 {
                if last.ins == op.ins {
                    ops.set(n - 1, Op { ins: last.ins, len: last.len + op.len });
                    return;
                }
            }
            if op.len < 0 && last.len < 0 {
                let last_end = last.ins as i64 - last.len as i64;
                if last_end == op.ins as i64 {
                    ops.set(n - 1, Op { ins: last.ins, len: last.len + op.len });
                    return;
                }
            }
        }
        ops.push(op);
    }

    /// Appends the delete of `len` characters at `at`.
    fn push_delete(res_ops: &mut Vec<Op>, at: i64, len: i64)
        requires
            push_delete(old(res_ops)@, at as int, len as int) is Some,
        ensures
            final(res_ops)@ == push_delete(old(res_ops)@, at as int, len as int)->0,
    {
        let ins: InsertPos = at as InsertPos;
        let len_i32: Length = len as Length;
        Self::push_op(res_ops, Op { ins, len: -len_i32 });
    }

    /// Transforms `other` against `self`; `shift_on_tie` says whether operations
    /// of `self` at the same position come first.
    pub fn transform_impl(&self, other: &OpList, shift_on_tie: bool) -> (res: OpList)
        requires
            walkable(self.ops@),
            spec_transform(self.ops@, other.ops@, shift_on_tie) is Some,
        ensures
            res.ops@ == spec_transform(self.ops@, other.ops@, shift_on_tie)->0,
            res.test_op is None,
    {
        let mut res_ops: Vec<Op> = Vec::new();
        let s_ops = &self.ops;
        let ghost s = s_ops@;
        let ghost oth = other.ops@;
        let ghost goal = spec_transform(s, oth, shift_on_tie);
        let tie = shift_on_tie;
        let sn = s_ops.len();
        let on = other.ops.len();
        let mut s_i: usize = 0;
        let mut cumulative_shift: i64 = 0;
        let mut i: usize = 0;
        while i < on
            invariant
                s == s_ops@,
                oth == other.ops@,
                sn == s.len(),
                on == oth.len(),
                walkable(s),
                tie == shift_on_tie,
                i <= on,
                s_i <= sn,
                -(s_i * 0x8000_0000) <= cumulative_shift <= s_i * 0x8000_0000,
                transform_walk(s, oth, tie, i as int, s_i as int, cumulative_shift as int, res_ops@) == goal,
                goal is Some,
            decreases on - i,
        {
            let op = other.ops[i];
            let target = op.ins as i64;
            let ghost si0 = s_i as int;
            let ghost sh0 = cumulative_shift as int;
            let ghost out0 = res_ops@;
            // Advance s_i to target
            while s_i < sn
                invariant
                    s == s_ops@,
                    sn == s.len(),
                    walkable(s),
                    si0 <= s_i <= sn,
                    -(s_i * 0x8000_0000) <= cumulative_shift <= s_i * 0x8000_0000,
                    target == op.ins,
                    advance_base(s, target as int, tie, s_i as int, cumulative_shift as int)
                        == advance_base(s, target as int, tie, si0, sh0),
                ensures
                    si0 <= s_i <= sn,
                    -(s_i * 0x8000_0000) <= cumulative_shift <= s_i * 0x8000_0000,
                    advance_base(s, target as int, tie, si0, sh0) == (s_i as int, cumulative_shift as int),
                decreases sn - s_i,
            {
                let sop = s_ops[s_i];
                let sop_ins = sop.ins as i64;
                if sop_ins > target {
                    break;
                }
                if sop.len < 0 {
                    let sop_end = sop_ins - sop.len as i64;
                    if sop_end > target {
                        // Overlaps target. Don't consume.
                        break;
                    }
                    cumulative_shift += sop.len as i64;
                    s_i += 1;
                } else {
                    if sop_ins == target && !tie {
                        break;
                    }
                    cumulative_shift += sop.len as i64;
                    s_i += 1;
                }
            }
            proof {
                assert(transform_walk(s, oth, tie, i as int, si0, sh0, out0) is Some);
            }
            if op.len > 0 {
                let mut mapped_pos = target + cumulative_shift;
                let mut temp_s_i = s_i;
                let ghost m0 = mapped_pos as int;
                let ghost t0 = s_i as int;
                while temp_s_i < sn
                    invariant
                        s == s_ops@,
                        sn == s.len(),
                        walkable(s),
                        t0 <= temp_s_i <= sn,
                        target == op.ins,
                        -0x8000_0000 - (temp_s_i * 0x2_0000_0000) <= mapped_pos <= 0x8000_0000 + temp_s_i * 0x2_0000_0000,
                        map_insert(s, target as int, tie, temp_s_i as int, mapped_pos as int)
                            == map_insert(s, target as int, tie, t0, m0),
                    ensures
                        map_insert(s, target as int, tie, t0, m0) == mapped_pos as int,
                    decreases sn - temp_s_i,
                {
                    let sop = s_ops[temp_s_i];
                    let sop_ins = sop.ins as i64;
                    if sop_ins > target {
                        break;
                    }
                    if sop.len > 0 {
                        if sop_ins == target && !tie {
                            // Don't shift for inserts at target if !shift_on_tie
                        } else {
                            mapped_pos += sop.len as i64;
                        }
                    } else {
                        let sop_end = sop_ins - sop.len as i64;
                        if sop_ins <= target && target < sop_end {
                            mapped_pos -= target - sop_ins;
                        }
                    }
                    temp_s_i += 1;
                }
                let ins: InsertPos = mapped_pos as InsertPos;
                Self::push_op(&mut res_ops, Op { ins, len: op.len });
            } else {
                let del_len = -op.len as i64;
                let del_end = target + del_len;
                let mut curr = target;
                let mut temp_s_i = s_i;
                let mut temp_shift = cumulative_shift;
                let ghost out1 = res_ops@;
                // Check if we are inside a delete initially
                if temp_s_i < sn {
                    let sop = s_ops[temp_s_i];
                    let sop_ins = sop.ins as i64;
                    if sop_ins <= curr && sop.len < 0 {
                        let sop_end = sop_ins - sop.len as i64;
                        let overlap = (if sop_end <= del_end { sop_end } else { del_end }) - curr;
                        curr += overlap;
                        temp_shift -= overlap;
                        if sop_end <= del_end {
                            temp_s_i += 1;
                        }
                    }
                }
                assert(carry_delete(s, tie, del_end as int, curr as int, temp_s_i as int, temp_shift as int, out1)
                    == transform_delete(s, tie, target as int, del_end as int, s_i as int, cumulative_shift as int, out1));
                let ghost c0 = curr as int;
                let ghost ts0 = temp_s_i as int;
                let ghost sh1 = temp_shift as int;
                while curr < del_end
                    invariant_except_break
                        -0x8000_0000 <= curr <= 0x1_8000_0000,
                        -(temp_s_i * 0x4_0000_0000) - 0x4_0000_0000 <= temp_shift <= temp_s_i * 0x4_0000_0000 + 0x4_0000_0000,
                        carry_delete(s, tie, del_end as int, curr as int, temp_s_i as int, temp_shift as int, res_ops@)
                            == carry_delete(s, tie, del_end as int, c0, ts0, sh1, out1),
                    invariant
                        s == s_ops@,
                        sn == s.len(),
                        walkable(s),
                        target == op.ins,
                        del_end == target - op.len,
                        ts0 <= temp_s_i <= sn,
                        carry_delete(s, tie, del_end as int, c0, ts0, sh1, out1) is Some,
                    ensures
                        carry_delete(s, tie, del_end as int, c0, ts0, sh1, out1) == Some(res_ops@),
                    decreases sn - temp_s_i,
                {
                    if temp_s_i >= sn {
                        let len = del_end - curr;
                        Self::push_delete(&mut res_ops, curr + temp_shift, len);
                        break;
                    }
                    let sop = s_ops[temp_s_i];
                    let sop_ins = sop.ins as i64;
                    if sop_ins >= del_end {
                        let len = del_end - curr;
                        Self::push_delete(&mut res_ops, curr + temp_shift, len);
                        break;
                    }
                    // sop.ins is in [curr, del_end)
                    if sop_ins > curr {
                        let len = sop_ins - curr;
                        Self::push_delete(&mut res_ops, curr + temp_shift, len);
                        curr = sop_ins;
                    }
                    // Now curr == sop_ins
                    if sop.len > 0 {
                        if tie {
                            temp_shift += sop.len as i64;
                        }
                        temp_s_i += 1;
                    } else {
                        let sop_end = sop_ins - sop.len as i64;
                        let overlap = (if sop_end <= del_end { sop_end } else { del_end }) - curr;
                        curr += overlap;
                        temp_shift -= overlap;
                        if sop_end <= del_end {
                            temp_s_i += 1;
                        } else {
                            break;
                        }
                    }
                }
            }
            i += 1;
        }
        OpList { ops: res_ops, test_op: None }
    }
}

} // verus!
