//! The operation type and the operation list that the rest of the crate works on.
//!
//! An [`Op`] is a pair `(ins, len)`. In a user-facing operation list `ins` is a
//! document position: a positive `len` inserts `len` characters at `ins`, a
//! negative `len` deletes the `-len` characters just before `ins`.
//! In a *sequential list* the same pair is read in base-document coordinates:
//! a negative `len` removes the base characters `ins .. ins - len`, a positive
//! `len` inserts `len` characters anchored at base position `ins`.

use vstd::prelude::*;

verus! {

/// A position in a document.
pub type InsertPos = i32;

/// A signed length: positive for insertions, negative for deletions.
pub type Length = i32;

#[derive(Clone, Copy, Debug, PartialEq, Eq, Structural)]
pub struct Op {
    /// Insert position in the document.
    pub ins: InsertPos,
    /// Length of the operation (positive for insert, negative for delete).
    pub len: Length,
}

#[derive(Clone, Debug, PartialEq)]
pub struct OpList {
    /// Operations to be applied.
    pub ops: Vec<Op>,
    /// A sequential list that the operations are applied on top of.
    pub test_op: Option<Vec<(InsertPos, Length)>>,
}

/// The operation that a `(position, length)` pair stands for.
pub open spec fn pair_op(p: (InsertPos, Length)) -> Op {
    Op { ins: p.0, len: p.1 }
}

/// The operations that a sequence of `(position, length)` pairs stands for.
pub open spec fn pairs_to_ops(s: Seq<(InsertPos, Length)>) -> Seq<Op> {
    s.map_values(|p: (InsertPos, Length)| pair_op(p))
}

/// The `(position, length)` pairs of a sequence of operations.
pub open spec fn ops_to_pairs(s: Seq<Op>) -> Seq<(InsertPos, Length)> {
    s.map_values(|o: Op| (o.ins, o.len))
}

/// Copies a slice of pairs into a vector of operations.
pub fn pairs_into_ops(list: &[(InsertPos, Length)]) -> (ops: Vec<Op>)
    ensures
        ops@ == pairs_to_ops(list@),
{
    let mut ops: Vec<Op> = Vec::new();
    let mut i: usize = 0;
    while i < list.len()
        invariant
            i <= list@.len(),
            ops@ == pairs_to_ops(list@.take(i as int)),
        decreases list@.len() - i,
    {
        let (ins, len) = list[i];
        ops.push(Op { ins, len });
        proof {
            assert(list@.take(i as int + 1) == list@.take(i as int).push(list@[i as int]));
        }
        i += 1;
    }
    proof {
        assert(list@.take(i as int) == list@);
    }
    ops
}

/// Builds an `OpList` from a fixed-size array of (position, length) tuples while clearing any testing state.
#[allow(non_snake_case)]
pub fn getOpList<const N: usize>(list: [(InsertPos, Length); N]) -> (res: OpList)
    ensures
        res.ops@ == pairs_to_ops(list@),
        res.test_op is None,
{
    OpList { ops: pairs_into_ops(list.as_slice()), test_op: None }
}

/// Builds an `OpList` from a runtime `Vec` of (position, length) tuples while clearing any testing state.
#[allow(non_snake_case)]
pub fn getOpListbyVec(list: Vec<(InsertPos, Length)>) -> (res: OpList)
    ensures
        res.ops@ == pairs_to_ops(list@),
        res.test_op is None,
{
    OpList { ops: pairs_into_ops(list.as_slice()), test_op: None }
}

/// Copies a slice of pairs into a vector of pairs.
fn copy_pairs(list: &[(InsertPos, Length)]) -> (res: Vec<(InsertPos, Length)>)
    ensures
        res@ == list@,
{
    let mut res: Vec<(InsertPos, Length)> = Vec::new();
    let mut i: usize = 0;
    while i < list.len()
        invariant
            i <= list@.len(),
            res@ == list@.take(i as int),
        decreases list@.len() - i,
    {
        res.push(list[i]);
        proof {
            assert(list@.take(i as int + 1) == list@.take(i as int).push(list@[i as int]));
        }
        i += 1;
    }
    proof {
        assert(list@.take(i as int) == list@);
    }
    res
}

/// Builds an `OpList` and seeds it with a pre-existing sequential list for testing.
#[allow(non_snake_case)]
pub fn getOpListforTesting<const N: usize, const M: usize>(
    pre_existing_range_list: [(InsertPos, Length); N],
    oplist: [(InsertPos, Length); M],
) -> (res: OpList)
    ensures
        res.ops@ == pairs_to_ops(oplist@),
        res.test_op matches Some(t) && t@ == pre_existing_range_list@,
{
    OpList {
        ops: pairs_into_ops(oplist.as_slice()),
        test_op: Some(copy_pairs(pre_existing_range_list.as_slice())),
    }
}

} // verus!
