//! A log of operations per client.

use vstd::prelude::*;
use std::collections::HashMap;

verus! {

broadcast use vstd::std_specs::hash::group_hash_axioms;

/// Every client has a unique id.
pub type ClientId = u32;

pub type Sequence = u32;

#[allow(non_snake_case)]
#[derive(Clone, Copy, Debug, PartialEq, Eq, Structural)]
pub struct OpId {
    pub UserID: ClientId,
    pub Seq: Sequence,
}

impl OpId {
    /// The frontier marker has both fields at their maximum.
    pub fn is_frontier(&self) -> (b: bool)
        ensures
            b == (self.UserID == u32::MAX && self.Seq == u32::MAX),
    {
        if self.UserID == u32::MAX && self.Seq == u32::MAX {
            return true
        } else {
            return false
        }
    }
}

impl Default for OpId {
    /// The frontier marker.
    fn default() -> (id: Self)
        ensures
            id.UserID == u32::MAX,
            id.Seq == u32::MAX,
    {
        Self { UserID: u32::MAX, Seq: u32::MAX }
    }
}

#[derive(Clone, Copy, Debug, PartialEq, Eq, Structural)]
pub enum OpType {
    Insert,
}

#[allow(non_snake_case)]
#[derive(Clone, Copy, Debug, PartialEq, Eq, Structural)]
pub struct Op {
    pub OpId: OpId,
    pub Pos: u32,
    pub Len: u32,
    /// The child of the operation; the frontier marker while it has none.
    pub child: OpId,
    pub OpType: OpType,
}

pub struct OpLog {
    pub log: HashMap<ClientId, Vec<Op>>,
    pub frontiers: Vec<Op>,
    pub first_ops: Vec<Op>,
}

/// The next local insert of client `user_id`: numbered one past its last
/// operation, or 0 for its first.
pub open spec fn next_insert(log: Map<ClientId, Vec<Op>>, pos: u32, len: u32, user_id: ClientId) -> Op {
    let seq: int = if log.contains_key(user_id) { log[user_id]@.last().OpId.Seq + 1 } else { 0 };
    Op {
        OpId: OpId { UserID: user_id, Seq: seq as u32 },
        Pos: pos,
        Len: len,
        child: OpId { UserID: u32::MAX, Seq: u32::MAX },
        OpType: OpType::Insert,
    }
}

impl OpLog {
    /// Appends a local insert of `len` characters at `pos` to the log of client `user_id`.
    pub fn local_insert_at_pos(&mut self, pos: u32, len: u32, user_id: ClientId)
        requires
            old(self).log@.contains_key(user_id) ==> old(self).log@[user_id]@.len() > 0
                && old(self).log@[user_id]@.last().OpId.Seq < u32::MAX,
        ensures
            final(self).log@.dom() == old(self).log@.dom().insert(user_id),
            forall|k: ClientId| k != user_id && old(self).log@.contains_key(k) ==> #[trigger] final(self).log@[k] == old(self).log@[k],
            final(self).log@[user_id]@ == (if old(self).log@.contains_key(user_id) {
                old(self).log@[user_id]@
            } else {
                Seq::empty()
            }).push(next_insert(old(self).log@, pos, len, user_id)),
            final(self).frontiers@ == old(self).frontiers@,
            final(self).first_ops@ == old(self).first_ops@,
    {
        let ghost old_log = self.log@;
        match self.log.remove(&user_id) {
            Some(mut log) => {
                let last_op = log[log.len() - 1];
                log.push(Op {
                    OpId: OpId { UserID: user_id, Seq: last_op.OpId.Seq + 1 },
                    Pos: pos,
                    Len: len,
                    child: OpId::default(),
                    OpType: OpType::Insert,
                });
                self.log.insert(user_id, log);
            },
            None => {
                let mut log: Vec<Op> = Vec::new();
                log.push(Op {
                    OpId: OpId { UserID: user_id, Seq: 0 },
                    Pos: pos,
                    Len: len,
                    child: OpId::default(),
                    OpType: OpType::Insert,
                });
                self.log.insert(user_id, log);
            },
        }
        proof {
            assert(self.log@.dom() =~= old_log.dom().insert(user_id));
        }
    }

    /// The frontier operations.
    pub fn frontier(&self) -> (res: &[Op])
        ensures
            res@ == self.frontiers@,
    {
        self.frontiers.as_slice()
    }
}

} // verus!
