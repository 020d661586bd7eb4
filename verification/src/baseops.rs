//! Building sequential lists through the segment model of a document.

use vstd::prelude::*;
use crate::ops::{Op, InsertPos, Length, pairs_to_ops, pairs_into_ops};
use crate::document::{
    Document, Segment, SegmentKind, MAX_BASE_LEN, fits32, spec_insert_at_doc, spec_delete_doc_range,
    spec_apply_canonical_state, spec_into_oplist,
};

verus! {

#[derive(Clone, Debug, PartialEq)]
pub struct OpList {
    /// Operations to be applied.
    pub ops: Vec<Op>,
    /// A sequential list that the operations are applied on top of.
    pub test_op: Option<Vec<(InsertPos, Length)>>,
}

/// Creates an OpList from a fixed-size array of operations
#[allow(non_snake_case)]
pub fn getOpList<const N: usize>(list: [(InsertPos, Length); N]) -> (res: OpList)
    ensures
        res.ops@ == pairs_to_ops(list@),
        res.test_op is None,
{
    OpList { ops: pairs_into_ops(list.as_slice()), test_op: None }
}

/// Creates an OpList from a Vec of operations
#[allow(non_snake_case)]
pub fn getOpListbyVec(list: Vec<(InsertPos, Length)>) -> (res: OpList)
    ensures
        res.ops@ == pairs_to_ops(list@),
        res.test_op is None,
{
    OpList { ops: pairs_into_ops(list.as_slice()), test_op: None }
}

/// Creates an OpList for testing with pre-existing range list
#[allow(non_snake_case)]
pub fn getOpListforTesting<const N: usize, const M: usize>(
    pre_existing_range_list: [(InsertPos, Length); N],
    oplist: [(InsertPos, Length); M],
) -> (res: OpList)
    ensures
        res.ops@ == pairs_to_ops(oplist@),
        res.test_op matches Some(t) && t@ == pre_existing_range_list@,
{
    let pre = pre_existing_range_list.as_slice();
    let mut copy: Vec<(InsertPos, Length)> = Vec::new();
    let mut i: usize = 0;
    while i < pre.len()
        invariant
            i <= pre@.len(),
            copy@ == pre@.take(i as int),
        decreases pre@.len() - i,
    {
        copy.push(pre[i]);
        proof {
            assert(pre@.take(i as int + 1) == pre@.take(i as int).push(pre@[i as int]));
        }
        i += 1;
    }
    proof {
        assert(pre@.take(i as int) == pre@);
    }
    OpList { ops: pairs_into_ops(oplist.as_slice()), test_op: Some(copy) }
}

/// The segments of a new document.
pub open spec fn new_segments() -> Seq<Segment> {
    seq![Segment { kind: SegmentKind::Base { start: 0 }, len: MAX_BASE_LEN }]
}

/// The document after applying the user-facing operation `op`. `None` where
/// it cannot be applied (a delete reaching before the start of the document,
/// or a position that does not fit).
pub open spec fn segment_step(segs: Seq<Segment>, op: Op) -> Option<Seq<Segment>> {
    if op.len == 0 {
        Some(segs)
    } else if op.len > 0 {
        spec_insert_at_doc(segs, op.ins as int, op.len as int)
    } else if op.ins + op.len < 0 || op.ins < 0 {
        None
    } else {
        spec_delete_doc_range(segs, op.ins + op.len, op.ins as int)
    }
}

/// The document after applying `ops` in order.
pub open spec fn segment_replay(segs: Seq<Segment>, ops: Seq<Op>) -> Option<Seq<Segment>>
    decreases ops.len(),
{
    if ops.len() == 0 {
        Some(segs)
    } else {
        match segment_step(segs, ops[0]) {
            None => None,
            Some(t) => segment_replay(t, ops.drop_first()),
        }
    }
}

/// The sequential list of `l`: the seed list applied to a new document, the
/// operations replayed on it, and the document read back.
pub open spec fn spec_sequential(l: OpList) -> Option<Seq<Op>> {
    let seeded = match l.test_op {
        Some(t) => spec_apply_canonical_state(new_segments(), t@),
        None => Some(new_segments()),
    };
    match seeded {
        None => None,
        Some(s) => match segment_replay(s, l.ops@) {
            None => None,
            Some(f) => spec_into_oplist(f),
        },
    }
}

impl OpList {
    /// Replays the operations on a document seeded with the existing
    /// sequential list, and returns the sequential list of the result.
    pub fn from_oplist_to_sequential_list(&self) -> (res: OpList)
        requires
            spec_sequential(*self) is Some,
        ensures
            res.ops@ == spec_sequential(*self)->0,
            res.test_op is None,
    {
        let mut document = Document::new();
        match &self.test_op {
            Some(existing) => document.apply_canonical_state(existing.as_slice()),
            None => {},
        }
        let ghost all = self.ops@;
        let ghost start = document.segments@;
        let n = self.ops.len();
        let mut i: usize = 0;
        proof {
            assert(all.skip(0) == all);
        }
        while i < n
            invariant
                n == all.len(),
                all == self.ops@,
                i <= n,
                segment_replay(document.segments@, all.skip(i as int)) == segment_replay(start, all),
                segment_replay(start, all) is Some,
                spec_into_oplist(segment_replay(start, all)->0) is Some,
                spec_sequential(*self) == spec_into_oplist(segment_replay(start, all)->0),
            decreases n - i,
        {
            let op = self.ops[i];
            proof {
                assert(all.skip(i as int)[0] == op);
                assert(all.skip(i as int).drop_first() == all.skip(i as int + 1));
            }
            if op.len == 0 {
            } else if op.len > 0 {
                document.insert_at_doc(op.ins as i64, op.len as i64);
            } else {
                let start = op.ins as i64 + op.len as i64;
                let end = op.ins as i64;
                document.delete_doc_range(start, end);
            }
            i += 1;
        }
        proof {
            assert(all.skip(n as int).len() == 0);
        }
        document.into_oplist()
    }

    /// Shifts every operation by the length of the one before it.
    pub fn from_sequential_list_to_oplist(&mut self)
        requires
            forall|i: int| 1 <= i < old(self).ops@.len() ==>
                fits32(old(self).ops@[i].ins + old(self).ops@[i - 1].len),
        ensures
            final(self).ops@.len() == old(self).ops@.len(),
            final(self).ops@.len() > 0 ==> final(self).ops@[0] == old(self).ops@[0],
            forall|i: int| 1 <= i < old(self).ops@.len() ==>
                final(self).ops@[i] == (Op {
                    ins: (old(self).ops@[i].ins + old(self).ops@[i - 1].len) as i32,
                    len: old(self).ops@[i].len,
                }),
            final(self).test_op == old(self).test_op,
    {
        let ghost o = self.ops@;
        let n = self.ops.len();
        let mut i: usize = 1;
        while i < n
            invariant
                n == o.len(),
                1 <= i || n == 0,
                self.ops@.len() == n,
                forall|k: int| 1 <= k < o.len() ==> fits32(o[k].ins + o[k - 1].len),
                forall|k: int| i <= k < n || k == 0 ==> 0 <= k < n ==> self.ops@[k] == o[k],
                forall|k: int| 1 <= k < i && k < n ==> self.ops@[k] == (Op { ins: (o[k].ins + o[k - 1].len) as i32, len: o[k].len }),
                self.test_op == old(self).test_op,
            decreases n - i,
        {
            let prev_len = self.ops[i - 1].len;
            let cur = self.ops[i];
            assert(cur == o[i as int]);
            assert(prev_len == o[i - 1].len);
            assert(fits32(o[i as int].ins + o[i - 1].len));
            self.ops.set(i, Op { ins: cur.ins + prev_len, len: cur.len });
            i += 1;
        }
    }

    /// Changes delete ranges such as 2,-1 to 1,2 to 1,-2.
    /// Should only be used for reading output for testing.
    pub fn clean_delete(&mut self)
        requires
            forall|i: int| 0 <= i < old(self).ops@.len() && old(self).ops@[i].len < 0 ==>
                fits32(old(self).ops@[i].ins + old(self).ops@[i].len) && old(self).ops@[i].ins != i32::MIN,
        ensures
            final(self).ops@.len() == old(self).ops@.len(),
            forall|i: int| 0 <= i < old(self).ops@.len() ==>
                final(self).ops@[i] == (if old(self).ops@[i].len < 0 {
                    Op { ins: (old(self).ops@[i].ins + old(self).ops@[i].len) as i32, len: (-old(self).ops@[i].ins) as i32 }
                } else {
                    old(self).ops@[i]
                }),
            final(self).test_op == old(self).test_op,
    {
        let ghost o = self.ops@;
        let n = self.ops.len();
        let mut i: usize = 0;
        while i < n
            invariant
                n == o.len(),
                i <= n,
                self.ops@.len() == n,
                forall|k: int| 0 <= k < o.len() && o[k].len < 0 ==> fits32(o[k].ins + o[k].len) && o[k].ins != i32::MIN,
                forall|k: int| i <= k < n ==> self.ops@[k] == o[k],
                forall|k: int| 0 <= k < i ==> self.ops@[k] == (if o[k].len < 0 {
                    Op { ins: (o[k].ins + o[k].len) as i32, len: (-o[k].ins) as i32 }
                } else {
                    o[k]
                }),
                self.test_op == old(self).test_op,
            decreases n - i,
        {
            let op = self.ops[i];
            assert(op == o[i as int]);
            if op.len < 0 {
                assert(fits32(o[i as int].ins + o[i as int].len));
                let ins = op.ins;
                self.ops.set(i, Op { ins: op.ins + op.len, len: -ins });
            }
            i += 1;
        }
    }
}

} // verus!
