//! Conversions between user-facing operation lists and sequential lists.

use vstd::prelude::*;
use crate::ops::{Op, OpList, InsertPos, Length, pairs_to_ops, ops_to_pairs};
use crate::locate::{walkable, spec_apply_insert};
use crate::delete::spec_apply_delete;
use crate::canonical::{canonical, well_kept};
use crate::round_trip::{simple_state, law_round_trip_simple};
use crate::doc_replay::{plain_doc, edit_all, replay_fits, no_empty_ranges, law_replay_document, law_oplist_document,
    law_backwards_onto_empty};

verus! {

/// The sequential list after applying the user-facing operation `op`: an
/// insert of `len` characters at document position `ins`, or a delete of the
/// `-len` characters before document position `ins`. `None` where the
/// operation cannot be applied, or where the list is too long to be walked.
pub open spec fn doc_step(r: Seq<Op>, op: Op) -> Option<Seq<Op>> {
    if !walkable(r) {
        None
    } else if op.len == 0 {
        Some(r)
    } else if op.len > 0 {
        spec_apply_insert(r, op.ins, op.len)
    } else if op.ins + op.len < i32::MIN || op.len == i32::MIN {
        None
    } else {
        spec_apply_delete(r, (op.ins + op.len) as i32, (-op.len) as i32)
    }
}

/// The sequential list after applying the operations `ops` in order to `r`.
pub open spec fn replay(r: Seq<Op>, ops: Seq<Op>) -> Option<Seq<Op>>
    decreases ops.len(),
{
    if ops.len() == 0 {
        Some(r)
    } else {
        match doc_step(r, ops[0]) {
            None => None,
            Some(t) => replay(t, ops.drop_first()),
        }
    }
}

/// The sequential list that the operations of `l` are applied on top of.
pub open spec fn seed(l: OpList) -> Seq<Op> {
    match l.test_op {
        Some(t) => pairs_to_ops(t@),
        None => Seq::empty(),
    }
}

/// Replaying `a` then `b` is replaying `a + b`.
pub proof fn lemma_replay_concat(r: Seq<Op>, a: Seq<Op>, b: Seq<Op>)
    ensures
        replay(r, a + b) == match replay(r, a) {
            None => None,
            Some(t) => replay(t, b),
        },
    decreases a.len(),
{
    if a.len() == 0 {
        assert(a + b == b);
    } else {
        assert((a + b)[0] == a[0]);
        assert((a + b).drop_first() == a.drop_first() + b);
        match doc_step(r, a[0]) {
            None => {},
            Some(t) => lemma_replay_concat(t, a.drop_first(), b),
        }
    }
}

pub proof fn lemma_pairs_round_trip(s: Seq<Op>)
    ensures
        pairs_to_ops(ops_to_pairs(s)) == s,
{
    assert(pairs_to_ops(ops_to_pairs(s)) =~= s);
}

/// Seeding a list with the sequential list of `ops` and replaying `new_ops` on
/// top of it gives the sequential list of `ops` followed by `new_ops`.
pub proof fn law_seeded_replay(ops: Seq<Op>, new_ops: Seq<Op>)
    requires
        replay(Seq::empty(), ops) is Some,
    ensures
        replay(pairs_to_ops(ops_to_pairs(replay(Seq::empty(), ops)->0)), new_ops)
            == replay(Seq::empty(), ops + new_ops),
{
    lemma_pairs_round_trip(replay(Seq::empty(), ops)->0);
    lemma_replay_concat(Seq::empty(), ops, new_ops);
}

/// Walks a sequential list from index `i` (base cursor `base`, document cursor
/// `doc`) and emits each range as a user-facing operation: an insert at the
/// document position it lands on, a delete ending where its span ends in the
/// document. Empty ranges are dropped. `None` where a position or length does
/// not fit in an `i32`.
pub open spec fn to_oplist_walk(r: Seq<Op>, i: int, base: int, doc: int, out: Seq<Op>) -> Option<Seq<Op>>
    decreases r.len() - i,
{
    if i >= r.len() {
        Some(out)
    } else {
        let c = r[i];
        if c.len == 0 {
            to_oplist_walk(r, i + 1, base, doc, out)
        } else {
            let b1: int = if c.ins > base { c.ins as int } else { base };
            let d1: int = if c.ins > base { doc + (c.ins - base) } else { doc };
            if c.len > 0 {
                if d1 < i32::MIN || d1 > i32::MAX {
                    None
                } else {
                    to_oplist_walk(r, i + 1, b1, d1 + c.len, out.push(Op { ins: d1 as i32, len: c.len }))
                }
            } else {
                let dl: int = -c.len;
                if d1 + dl < i32::MIN || d1 + dl > i32::MAX || dl > i32::MAX {
                    None
                } else {
                    to_oplist_walk(r, i + 1, b1 + dl, d1, out.push(Op { ins: (d1 + dl) as i32, len: (-dl) as i32 }))
                }
            }
        }
    }
}

/// Advances through the prior operations that take effect at or before base
/// position `rb` (an insert at its anchor, a delete at the end of its span),
/// accumulating the shift of all of them and of the deletes alone.
/// The result is the new index and the two shifts.
pub open spec fn advance_prior(prior: Seq<Op>, rb: int, p: int, sa: int, sd: int) -> (int, int, int)
    decreases prior.len() - p,
{
    if p >= prior.len() || p < 0 {
        (p, sa, sd)
    } else {
        let po = prior[p];
        let eff: int = if po.len > 0 { po.ins as int } else { po.ins - po.len };
        if eff <= rb {
            if po.len > 0 {
                advance_prior(prior, rb, p + 1, sa + po.len, sd)
            } else {
                advance_prior(prior, rb, p + 1, sa + po.len, sd + po.len)
            }
        } else {
            (p, sa, sd)
        }
    }
}

/// Replays the sequential list `cur` (from index `i`) on top of `ranges`, the
/// sequential list being built from `prior`: each range is placed at its
/// document position shifted by the prior operations that precede it (inserts
/// by the prior deletes, deletes by all prior operations).
pub open spec fn backwards_walk(
    cur: Seq<Op>,
    prior: Seq<Op>,
    i: int,
    ranges: Seq<Op>,
    base: int,
    doc: int,
    sa: int,
    sd: int,
    p: int,
) -> Option<Seq<Op>>
    decreases cur.len() - i,
{
    if i >= cur.len() {
        Some(ranges)
    } else {
        let c = cur[i];
        if c.len == 0 {
            backwards_walk(cur, prior, i + 1, ranges, base, doc, sa, sd, p)
        } else {
            let rb = c.ins as int;
            let b1: int = if rb > base { rb } else { base };
            let d1: int = if rb > base { doc + (rb - base) } else { doc };
            let adv = advance_prior(prior, rb, p, sa, sd);
            let adjusted: int = if c.len > 0 { d1 + adv.2 } else { d1 + adv.1 };
            if !walkable(ranges) || adjusted < i32::MIN || adjusted > i32::MAX {
                None
            } else if c.len > 0 {
                match spec_apply_insert(ranges, adjusted as i32, c.len) {
                    None => None,
                    Some(nr) => backwards_walk(cur, prior, i + 1, nr, b1, d1 + c.len, adv.1, adv.2, adv.0),
                }
            } else if c.len == i32::MIN {
                None
            } else {
                match spec_apply_delete(ranges, adjusted as i32, (-c.len) as i32) {
                    None => None,
                    Some(nr) => backwards_walk(cur, prior, i + 1, nr, b1 - c.len, d1, adv.1, adv.2, adv.0),
                }
            }
        }
    }
}

/// `self` applied on top of `prior`.
pub open spec fn spec_backwards_apply(cur: Seq<Op>, prior: Seq<Op>) -> Option<Seq<Op>> {
    backwards_walk(cur, prior, 0, prior, 0, 0, 0, 0, 0)
}

/// The nonempty ranges of `cur` from index `i` (base cursor `base`, document
/// cursor `doc`), each with the base position it is anchored at and the
/// user-facing operation it stands for: an insert at the document position of
/// its run, a delete ending where its span ends in the document. `None` where a
/// position or length does not fit in an `i32`.
pub open spec fn ops_with_base_walk(cur: Seq<Op>, i: int, base: int, doc: int, out: Seq<(int, Op)>) -> Option<Seq<(int, Op)>>
    decreases cur.len() - i,
{
    if i >= cur.len() {
        Some(out)
    } else {
        let c = cur[i];
        if c.len == 0 {
            ops_with_base_walk(cur, i + 1, base, doc, out)
        } else {
            let rb = c.ins as int;
            let b1: int = if rb > base { rb } else { base };
            let d1: int = if rb > base { doc + (rb - base) } else { doc };
            if c.len > 0 {
                if d1 < i32::MIN || d1 > i32::MAX {
                    None
                } else {
                    ops_with_base_walk(cur, i + 1, b1, d1 + c.len, out.push((rb, Op { ins: d1 as i32, len: c.len })))
                }
            } else {
                let dl: int = -c.len;
                if d1 + dl < i32::MIN || d1 + dl > i32::MAX || dl > i32::MAX {
                    None
                } else {
                    ops_with_base_walk(cur, i + 1, b1 + dl, d1, out.push((rb, Op { ins: (d1 + dl) as i32, len: (-dl) as i32 })))
                }
            }
        }
    }
}

/// Applies the based operations `ops` from index `k` on top of `ranges`, each
/// shifted by the operations of `prior` that take effect at or before its
/// base (inserts by the prior deletes, deletes by all prior operations).
pub open spec fn reference_walk(ops: Seq<(int, Op)>, prior: Seq<Op>, k: int, ranges: Seq<Op>, sa: int, sd: int, p: int) -> Option<Seq<Op>>
    decreases ops.len() - k,
{
    if k >= ops.len() || k < 0 {
        Some(ranges)
    } else {
        let (b, op) = ops[k];
        let adv = advance_prior(prior, b, p, sa, sd);
        if op.len == 0 {
            reference_walk(ops, prior, k + 1, ranges, adv.1, adv.2, adv.0)
        } else if op.len > 0 {
            let adjusted: int = op.ins + adv.2;
            if !walkable(ranges) || adjusted < i32::MIN || adjusted > i32::MAX {
                None
            } else {
                match spec_apply_insert(ranges, adjusted as i32, op.len) {
                    None => None,
                    Some(nr) => reference_walk(ops, prior, k + 1, nr, adv.1, adv.2, adv.0),
                }
            }
        } else {
            let start: int = op.ins + op.len + adv.1;
            if !walkable(ranges) || start < i32::MIN || start > i32::MAX || op.len == i32::MIN {
                None
            } else {
                match spec_apply_delete(ranges, start as i32, (-op.len) as i32) {
                    None => None,
                    Some(nr) => reference_walk(ops, prior, k + 1, nr, adv.1, adv.2, adv.0),
                }
            }
        }
    }
}

/// `cur` applied on top of `prior` in two passes: its ranges turned into
/// based user-facing operations first, then these applied with their shifts.
pub open spec fn spec_backwards_apply_reference(cur: Seq<Op>, prior: Seq<Op>) -> Option<Seq<Op>> {
    match ops_with_base_walk(cur, 0, 0, 0, Seq::empty()) {
        None => None,
        Some(ops) => reference_walk(ops, prior, 0, prior, 0, 0, 0),
    }
}

/// One shifted step: the insert of `len` characters, or the delete of `-len`
/// characters, at document position `at`. `None` where it cannot be made.
#[verifier::opaque]
spec fn shifted_step(ranges: Seq<Op>, at: int, len: i32) -> Option<Seq<Op>> {
    if !walkable(ranges) || at < i32::MIN || at > i32::MAX {
        None
    } else if len > 0 {
        spec_apply_insert(ranges, at as i32, len)
    } else if len == i32::MIN {
        None
    } else {
        spec_apply_delete(ranges, at as i32, (-len) as i32)
    }
}

/// The one-pass walk, kept folded.
#[verifier::opaque]
spec fn one_pass(cur: Seq<Op>, prior: Seq<Op>, i: int, ranges: Seq<Op>, base: int, doc: int, sa: int, sd: int, p: int) -> Option<Seq<Op>> {
    backwards_walk(cur, prior, i, ranges, base, doc, sa, sd, p)
}

/// The second pass of the two-pass version, kept folded.
#[verifier::opaque]
spec fn two_pass(ops: Seq<(int, Op)>, prior: Seq<Op>, k: int, ranges: Seq<Op>, sa: int, sd: int, p: int) -> Option<Seq<Op>> {
    reference_walk(ops, prior, k, ranges, sa, sd, p)
}

proof fn lemma_one_pass_step(cur: Seq<Op>, prior: Seq<Op>, i: int, ranges: Seq<Op>, base: int, doc: int, sa: int, sd: int, p: int)
    requires
        0 <= i < cur.len(),
    ensures
        ({
            let c = cur[i];
            let rb = c.ins as int;
            let b1: int = if rb > base { rb } else { base };
            let d1: int = if rb > base { doc + (rb - base) } else { doc };
            let adv = advance_prior(prior, rb, p, sa, sd);
            let at: int = if c.len > 0 { d1 + adv.2 } else { d1 + adv.1 };
            let nb: int = if c.len > 0 { b1 } else { b1 - c.len };
            let nd: int = if c.len > 0 { d1 + c.len } else { d1 };
            &&& c.len == 0 ==> one_pass(cur, prior, i, ranges, base, doc, sa, sd, p)
                == one_pass(cur, prior, i + 1, ranges, base, doc, sa, sd, p)
            &&& c.len != 0 ==> one_pass(cur, prior, i, ranges, base, doc, sa, sd, p) == match shifted_step(ranges, at, c.len) {
                None => None,
                Some(nr) => one_pass(cur, prior, i + 1, nr, nb, nd, adv.1, adv.2, adv.0),
            }
        }),
{
    reveal(one_pass);
    reveal(shifted_step);
}

proof fn lemma_two_pass_step(ops: Seq<(int, Op)>, prior: Seq<Op>, k: int, ranges: Seq<Op>, sa: int, sd: int, p: int)
    requires
        0 <= k < ops.len(),
        ops[k].1.len != 0,
    ensures
        ({
            let (b, op) = ops[k];
            let adv = advance_prior(prior, b, p, sa, sd);
            let at: int = if op.len > 0 { op.ins + adv.2 } else { op.ins + op.len + adv.1 };
            two_pass(ops, prior, k, ranges, sa, sd, p) == match shifted_step(ranges, at, op.len) {
                None => None,
                Some(nr) => two_pass(ops, prior, k + 1, nr, adv.1, adv.2, adv.0),
            }
        }),
{
    reveal(two_pass);
    reveal(shifted_step);
}

/// The one-pass walk of `backwards_apply` from range `i` makes the steps of
/// the two-pass version on the based operations that remain.
proof fn lemma_backwards_reference(cur: Seq<Op>, prior: Seq<Op>, i: int, ranges: Seq<Op>, base: int, doc: int,
    sa: int, sd: int, p: int, out: Seq<(int, Op)>)
    requires
        0 <= i <= cur.len(),
        0 <= doc,
        ops_with_base_walk(cur, i, base, doc, out) is Some,
    ensures
        ({
            let full = ops_with_base_walk(cur, i, base, doc, out)->0;
            &&& out.len() <= full.len()
            &&& full.take(out.len() as int) == out
            &&& one_pass(cur, prior, i, ranges, base, doc, sa, sd, p) == two_pass(full, prior, out.len() as int, ranges, sa, sd, p)
        }),
    decreases cur.len() - i,
{
    let full = ops_with_base_walk(cur, i, base, doc, out)->0;
    if i >= cur.len() {
        assert(full.take(out.len() as int) =~= out);
        reveal(one_pass);
        reveal(two_pass);
    } else {
        let c = cur[i];
        lemma_one_pass_step(cur, prior, i, ranges, base, doc, sa, sd, p);
        if c.len == 0 {
            lemma_backwards_reference(cur, prior, i + 1, ranges, base, doc, sa, sd, p, out);
        } else {
            let rb = c.ins as int;
            let b1: int = if rb > base { rb } else { base };
            let d1: int = if rb > base { doc + (rb - base) } else { doc };
            let dl: int = -c.len;
            let op = if c.len > 0 { Op { ins: d1 as i32, len: c.len } } else { Op { ins: (d1 + dl) as i32, len: (-dl) as i32 } };
            let out1 = out.push((rb, op));
            let nb: int = if c.len > 0 { b1 } else { b1 + dl };
            let nd: int = if c.len > 0 { d1 + c.len } else { d1 };
            assert(ops_with_base_walk(cur, i, base, doc, out) == ops_with_base_walk(cur, i + 1, nb, nd, out1));
            let adv = advance_prior(prior, rb, p, sa, sd);
            let at: int = if c.len > 0 { d1 + adv.2 } else { d1 + adv.1 };
            match shifted_step(ranges, at, c.len) {
                Some(nr) => {
                    lemma_backwards_reference(cur, prior, i + 1, nr, nb, nd, adv.1, adv.2, adv.0, out1);
                },
                None => {
                    lemma_backwards_reference(cur, prior, i + 1, ranges, nb, nd, adv.1, adv.2, adv.0, out1);
                },
            }
            assert(full.take(out1.len() as int)[out.len() as int] == (rb, op));
            assert(full[out.len() as int] == (rb, op));
            assert(full.take(out.len() as int) =~= out1.take(out.len() as int));
            assert(out1.take(out.len() as int) =~= out);
            assert(op.len == c.len);
            lemma_two_pass_step(full, prior, out.len() as int, ranges, sa, sd, p);
        }
    }
}

/// `backwards_apply` gives what the two-pass version gives: the ranges of
/// `cur` turned into based user-facing operations, then applied on top of
/// `prior` with their shifts.
pub proof fn law_backwards_apply_reference(cur: Seq<Op>, prior: Seq<Op>)
    requires
        ops_with_base_walk(cur, 0, 0, 0, Seq::empty()) is Some,
    ensures
        spec_backwards_apply(cur, prior) == spec_backwards_apply_reference(cur, prior),
{
    lemma_backwards_reference(cur, prior, 0, prior, 0, 0, 0, 0, 0, Seq::empty());
    reveal(one_pass);
    reveal(two_pass);
}

impl OpList {
    /// Replays the operations in order to produce a sequential list of ranges anchored to the base document.
    pub fn from_oplist_to_sequential_list(&self) -> (res: OpList)
        requires
            replay(seed(*self), self.ops@) is Some,
        ensures
            res.ops@ == replay(seed(*self), self.ops@)->0,
            res.test_op is None,
            canonical(seed(*self)) && replay_fits(seed(*self), self.ops@) ==> canonical(res.ops@)
                && plain_doc(res.ops@) == edit_all(plain_doc(seed(*self)), self.ops@)
                && (well_kept(seed(*self)) ==> well_kept(res.ops@)),
    {
        proof {
            if canonical(seed(*self)) && replay_fits(seed(*self), self.ops@) {
                law_replay_document(seed(*self), self.ops@);
            }
        }
        let mut ranges: Vec<Op> = match &self.test_op {
            Some(t) => crate::ops::pairs_into_ops(t.as_slice()),
            None => Vec::new(),
        };
        let ghost all = self.ops@;
        let ghost goal = replay(seed(*self), all);
        let n = self.ops.len();
        let mut i: usize = 0;
        proof {
            assert(all.skip(0) == all);
        }
        while i < n
            invariant
                n == all.len(),
                all == self.ops@,
                i <= n,
                replay(ranges@, all.skip(i as int)) == goal,
                goal is Some,
            decreases n - i,
        {
            let op = self.ops[i];
            proof {
                assert(all.skip(i as int)[0] == op);
                assert(all.skip(i as int).drop_first() == all.skip(i as int + 1));
            }
            if op.len == 0 {
            } else if op.len > 0 {
                Self::apply_insert(&mut ranges, op.ins, op.len);
            } else {
                let start = op.ins + op.len;
                let len = -op.len;
                Self::apply_delete(&mut ranges, start, len);
            }
            i += 1;
        }
        proof {
            assert(all.skip(n as int).len() == 0);
        }
        OpList { ops: ranges, test_op: None }
    }

    /// Applies `self` on top of a prior `OpList`, adjusting for all offsets so the result mirrors baseline order.
    pub fn backwards_apply(&self, prior: &OpList) -> (res: OpList)
        requires
            walkable(self.ops@),
            walkable(prior.ops@),
            spec_backwards_apply(self.ops@, prior.ops@) is Some,
        ensures
            res.ops@ == spec_backwards_apply(self.ops@, prior.ops@)->0,
            res.test_op is None,
            prior.ops@.len() == 0 && to_oplist_walk(self.ops@, 0, 0, 0, Seq::empty()) is Some
                ==> res.ops@ == replay(Seq::empty(), to_oplist_walk(self.ops@, 0, 0, 0, Seq::empty())->0)->0,
            ops_with_base_walk(self.ops@, 0, 0, 0, Seq::empty()) is Some
                ==> Some(res.ops@) == spec_backwards_apply_reference(self.ops@, prior.ops@),
    {
        proof {
            if ops_with_base_walk(self.ops@, 0, 0, 0, Seq::empty()) is Some {
                law_backwards_apply_reference(self.ops@, prior.ops@);
            }
            if prior.ops@.len() == 0 && to_oplist_walk(self.ops@, 0, 0, 0, Seq::empty()) is Some {
                assert(prior.ops@ =~= Seq::<Op>::empty());
                law_backwards_onto_empty(self.ops@);
            }
        }
        let mut ranges: Vec<Op> = Vec::new();
        let mut k: usize = 0;
        while k < prior.ops.len()
            invariant
                k <= prior.ops@.len(),
                ranges@ == prior.ops@.take(k as int),
            decreases prior.ops@.len() - k,
        {
            ranges.push(prior.ops[k]);
            proof {
                assert(prior.ops@.take(k as int + 1) == prior.ops@.take(k as int).push(prior.ops@[k as int]));
            }
            k += 1;
        }
        proof {
            assert(prior.ops@.take(k as int) == prior.ops@);
        }
        let ghost cur = self.ops@;
        let ghost pr = prior.ops@;
        let ghost goal = spec_backwards_apply(cur, pr);
        let mut base_cursor: i64 = 0;
        let mut doc_cursor: i64 = 0;
        let mut cumulative_shift_all: i64 = 0;
        let mut cumulative_shift_deletes: i64 = 0;
        let mut p: usize = 0;
        let n = self.ops.len();
        let pn = prior.ops.len();
        let mut i: usize = 0;
        while i < n
            invariant
                n == cur.len(),
                cur == self.ops@,
                pn == pr.len(),
                pr == prior.ops@,
                walkable(cur),
                walkable(pr),
                i <= n,
                p <= pn,
                0 <= base_cursor <= i * 0x1_0000_0000,
                0 <= doc_cursor <= i * 0x1_0000_0000,
                -(p * 0x8000_0000) <= cumulative_shift_all <= p * 0x8000_0000,
                -(p * 0x8000_0000) <= cumulative_shift_deletes <= p * 0x8000_0000,
                backwards_walk(cur, pr, i as int, ranges@, base_cursor as int, doc_cursor as int,
                    cumulative_shift_all as int, cumulative_shift_deletes as int, p as int) == goal,
                goal is Some,
            decreases n - i,
        {
            let range = self.ops[i];
            if range.len == 0 {
                i += 1;
                continue;
            }
            let range_base = range.ins as i64;
            if range_base > base_cursor {
                let advance = range_base - base_cursor;
                doc_cursor += advance;
                base_cursor = range_base;
            }
            let ghost p0 = p as int;
            let ghost sa0 = cumulative_shift_all as int;
            let ghost sd0 = cumulative_shift_deletes as int;
            while p < pn
                invariant
                    pn == pr.len(),
                    pr == prior.ops@,
                    walkable(pr),
                    p0 <= p <= pn,
                    -(p * 0x8000_0000) <= cumulative_shift_all <= p * 0x8000_0000,
                    -(p * 0x8000_0000) <= cumulative_shift_deletes <= p * 0x8000_0000,
                    range_base == range.ins,
                    advance_prior(pr, range_base as int, p as int, cumulative_shift_all as int, cumulative_shift_deletes as int)
                        == advance_prior(pr, range_base as int, p0, sa0, sd0),
                ensures
                    p0 <= p <= pn,
                    -(p * 0x8000_0000) <= cumulative_shift_all <= p * 0x8000_0000,
                    -(p * 0x8000_0000) <= cumulative_shift_deletes <= p * 0x8000_0000,
                    advance_prior(pr, range_base as int, p0, sa0, sd0)
                        == (p as int, cumulative_shift_all as int, cumulative_shift_deletes as int),
                decreases pn - p,
            {
                let prior_op = prior.ops[p];
                let prior_base = prior_op.ins as i64;
                let effective_base = if prior_op.len > 0 {
                    prior_base
                } else {
                    prior_base + (-(prior_op.len as i64))
                };
                if effective_base <= range_base {
                    p += 1;
                    if prior_op.len > 0 {
                        cumulative_shift_all += prior_op.len as i64;
                    } else {
                        let delete_len = -(prior_op.len as i64);
                        cumulative_shift_all += -delete_len;
                        cumulative_shift_deletes += -delete_len;
                    }
                } else {
                    break;
                }
            }
            proof {
                assert(backwards_walk(cur, pr, i as int, ranges@, base_cursor as int, doc_cursor as int,
                    sa0, sd0, p0) is Some);
            }
            let adjusted_cursor = if range.len > 0 {
                doc_cursor + cumulative_shift_deletes
            } else {
                doc_cursor + cumulative_shift_all
            };
            if range.len > 0 {
                let ins: InsertPos = adjusted_cursor as InsertPos;
                Self::apply_insert(&mut ranges, ins, range.len);
                doc_cursor += range.len as i64;
            } else {
                let delete_len = -(range.len as i64);
                let start: InsertPos = adjusted_cursor as InsertPos;
                let len: Length = delete_len as Length;
                Self::apply_delete(&mut ranges, start, len);
                base_cursor += delete_len;
            }
            i += 1;
        }
        OpList { ops: ranges, test_op: None }
    }

    /// Converts a sequential range list back into the user-facing op list, compacting along the way.
    pub fn from_sequential_list_to_oplist(&mut self)
        requires
            walkable(old(self).ops@),
            to_oplist_walk(old(self).ops@, 0, 0, 0, Seq::empty()) is Some,
        ensures
            final(self).ops@ == to_oplist_walk(old(self).ops@, 0, 0, 0, Seq::empty())->0,
            final(self).test_op is None,
            canonical(old(self).ops@) || no_empty_ranges(old(self).ops@)
                ==> edit_all(plain_doc(Seq::empty()), final(self).ops@) == plain_doc(old(self).ops@),
            simple_state(old(self).ops@) ==> replay(Seq::empty(), final(self).ops@) == Some(old(self).ops@),
    {
        proof {
            if simple_state(self.ops@) {
                law_round_trip_simple(self.ops@);
            }
            if canonical(self.ops@) || no_empty_ranges(self.ops@) {
                law_oplist_document(self.ops@);
            }
        }
        let ghost r = self.ops@;
        let mut base_cursor: i64 = 0;
        let mut doc_cursor: i64 = 0;
        let mut out: Vec<Op> = Vec::new();
        let n = self.ops.len();
        let mut read_idx: usize = 0;
        while read_idx < n
            invariant
                r == self.ops@,
                n == r.len(),
                walkable(r),
                read_idx <= n,
                0 <= base_cursor <= read_idx * 0x1_0000_0000,
                0 <= doc_cursor <= read_idx * 0x1_0000_0000,
                to_oplist_walk(r, read_idx as int, base_cursor as int, doc_cursor as int, out@)
                    == to_oplist_walk(r, 0, 0, 0, Seq::empty()),
                to_oplist_walk(r, 0, 0, 0, Seq::empty()) is Some,
            decreases n - read_idx,
        {
            let range = self.ops[read_idx];
            read_idx += 1;
            if range.len == 0 {
                continue;
            }
            let range_base = range.ins as i64;
            if range_base > base_cursor {
                let advance = range_base - base_cursor;
                doc_cursor += advance;
                base_cursor = range_base;
            }
            if range.len > 0 {
                let ins: InsertPos = doc_cursor as InsertPos;
                out.push(Op { ins, len: range.len });
                doc_cursor += range.len as i64;
            } else {
                let delete_len = -(range.len as i64);
                let delete_start = doc_cursor;
                let ins: InsertPos = (delete_start + delete_len) as InsertPos;
                let len: Length = delete_len as Length;
                out.push(Op { ins, len: -len });
                base_cursor += delete_len;
            }
        }
        self.ops = out;
        self.test_op = None;
    }
}

} // verus!
