//! A first sketch of folding operations into a list of discontinuous ranges,
//! on unsigned positions and lengths.

use vstd::prelude::*;

verus! {

#[derive(Clone, Copy, Debug, PartialEq, Eq, Structural)]
pub struct Op {
    pub ins: u32,
    pub len: u32,
}

#[derive(Debug)]
pub struct OpList {
    pub ops: Vec<Op>,
}

/// The operations that a sequence of pairs stands for.
pub open spec fn pairs_to_ops(s: Seq<(u32, u32)>) -> Seq<Op> {
    s.map_values(|p: (u32, u32)| Op { ins: p.0, len: p.1 })
}

#[allow(non_snake_case)]
pub fn getOpList<const N: usize>(list: [(u32, u32); N]) -> (res: OpList)
    ensures
        res.ops@ == pairs_to_ops(list@),
{
    let s = list.as_slice();
    let mut ops: Vec<Op> = Vec::new();
    let mut i: usize = 0;
    while i < s.len()
        invariant
            i <= s@.len(),
            ops@ == pairs_to_ops(s@.take(i as int)),
        decreases s@.len() - i,
    {
        let (ins, len) = s[i];
        ops.push(Op { ins, len });
        proof {
            assert(s@.take(i as int + 1) == s@.take(i as int).push(s@[i as int]));
        }
        i += 1;
    }
    proof {
        assert(s@.take(i as int) == s@);
    }
    OpList { ops }
}

impl Default for OpList {
    fn default() -> (res: Self)
        ensures
            res.ops@ == Seq::<Op>::empty(),
    {
        OpList { ops: Vec::new() }
    }
}

/// Scans the ranges from `j` for operation `(ins, len)` with index `i`: the
/// first range that `ins` lies strictly after and that `len` ends before grows
/// by `len` (and nothing is to be inserted, `-1`); a range starting after
/// `ins` stops the scan with `i` as the place to insert at; every other range
/// also sets that place to `i`. `None` where an addition overflows.
pub open spec fn range_scan(rs: Seq<Op>, ins: int, len: int, i: int, j: int, idx: int) -> Option<(Seq<Op>, int)>
    decreases rs.len() - j,
{
    if j >= rs.len() || j < 0 {
        Some((rs, idx))
    } else {
        let r = rs[j];
        if ins > r.ins && r.ins + r.len > u32::MAX {
            None
        } else if ins > r.ins && len < r.ins + r.len {
            if r.len + len > u32::MAX {
                None
            } else {
                Some((rs.update(j, Op { ins: r.ins, len: (r.len + len) as u32 }), -1))
            }
        } else if ins < r.ins {
            Some((rs, i))
        } else {
            range_scan(rs, ins, len, i, j + 1, i)
        }
    }
}

proof fn lemma_range_scan(rs: Seq<Op>, ins: int, len: int, i: int, j: int, idx: int)
    requires
        idx == -1 || idx == i,
        range_scan(rs, ins, len, i, j, idx) is Some,
    ensures
        ({
            let (out, at) = range_scan(rs, ins, len, i, j, idx)->0;
            (at == -1 || at == i) && out.len() == rs.len()
        }),
    decreases rs.len() - j,
{
    if 0 <= j < rs.len() {
        let r = rs[j];
        if !(ins > r.ins && r.ins + r.len > u32::MAX) && !(ins > r.ins && len < r.ins + r.len) && !(ins < r.ins) {
            lemma_range_scan(rs, ins, len, i, j + 1, i);
        }
    }
}

/// Folds the operations from index `i` into the ranges `rs`.
pub open spec fn discontinues_walk(ops: Seq<Op>, i: int, rs: Seq<Op>) -> Option<Seq<Op>>
    decreases ops.len() - i,
{
    if i >= ops.len() || i < 0 {
        Some(rs)
    } else {
        let op = ops[i];
        match range_scan(rs, op.ins as int, op.len as int, i, 0, -1) {
            None => None,
            Some(sc) => if sc.1 == -1 {
                discontinues_walk(ops, i + 1, sc.0)
            } else if sc.1 > sc.0.len() {
                None
            } else {
                discontinues_walk(ops, i + 1, sc.0.insert(sc.1, op))
            },
        }
    }
}

/// The ranges of `ops`, starting from a single empty range at 0.
pub open spec fn spec_discontinues_range(ops: Seq<Op>) -> Option<Seq<Op>> {
    discontinues_walk(ops, 0, seq![Op { ins: 0, len: 0 }])
}

impl OpList {
    pub fn add(&mut self, op: Op)
        ensures
            final(self).ops@ == old(self).ops@.push(op),
    {
        self.ops.push(op);
    }

    pub fn discontinues_range(&self) -> (res: OpList)
        requires
            self.ops@.len() < isize::MAX,
            spec_discontinues_range(self.ops@) is Some,
        ensures
            res.ops@ == spec_discontinues_range(self.ops@)->0,
    {
        let mut new_oplist = getOpList([(0, 0)]);
        proof {
            assert(new_oplist.ops@ == seq![Op { ins: 0, len: 0 }]);
        }
        let ghost all = self.ops@;
        let n = self.ops.len();
        let mut i: usize = 0;
        while i < n
            invariant
                all == self.ops@,
                n == all.len(),
                n < isize::MAX,
                i <= n,
                discontinues_walk(all, i as int, new_oplist.ops@) == spec_discontinues_range(all),
                spec_discontinues_range(all) is Some,
            decreases n - i,
        {
            let op = self.ops[i];
            let ins = op.ins;
            let len = op.len;
            let ghost rs0 = new_oplist.ops@;
            let mut new_range_element_index: isize = -1;
            let m = new_oplist.ops.len();
            let mut j: usize = 0;
            while j < m
                invariant_except_break
                    range_scan(new_oplist.ops@, ins as int, len as int, i as int, j as int, new_range_element_index as int)
                        == range_scan(rs0, ins as int, len as int, i as int, 0, -1),
                invariant
                    m == new_oplist.ops@.len(),
                    m == rs0.len(),
                    j <= m,
                    i < isize::MAX,
                    range_scan(rs0, ins as int, len as int, i as int, 0, -1) is Some,
                ensures
                    range_scan(rs0, ins as int, len as int, i as int, 0, -1)
                        == Some((new_oplist.ops@, new_range_element_index as int)),
                decreases m - j,
            {
                let range = new_oplist.ops[j];
                if (ins > range.ins) && (len < range.ins + range.len) {
                    new_oplist.ops.set(j, Op { ins: range.ins, len: range.len + len });
                    new_range_element_index = -1;
                    break;
                } else if ins < range.ins {
                    new_range_element_index = i as isize;
                    break;
                } else {
                    new_range_element_index = i as isize;
                }
                j += 1;
            }
            proof {
                assert(discontinues_walk(all, i as int, rs0) is Some);
                assert(all[i as int] == op);
                lemma_range_scan(rs0, ins as int, len as int, i as int, 0, -1);
            }
            if new_range_element_index != -1 {
                new_oplist.ops.insert(new_range_element_index as usize, Op { ins, len });
            }
            i += 1;
        }
        new_oplist
    }
}

} // verus!
