//! Nodes of a range tree of run-length encoded CRDT edits, and the searches
//! that find the leaf and the run holding a document position.

use vstd::prelude::*;

verus! {

#[allow(non_snake_case)]
#[derive(Clone, Copy, Debug, PartialEq, Eq, Structural)]
pub struct OpID {
    pub UserID: i32,
    pub seq: u32,
}

#[allow(non_snake_case)]
#[derive(Clone, Copy, Debug, PartialEq, Eq, Structural)]
pub struct CRDTEdits {
    pub ID: OpID,
    pub LO: OpID,
    pub RLE_length: i32,
    pub RO: OpID,
}

pub enum Node<const INTERNAL_ENT: usize, const LEAF_ENTRIES: usize> {
    Internal(Box<NodeInternal<INTERNAL_ENT, LEAF_ENTRIES>>),
    Leaf(Box<NodeLeaf<INTERNAL_ENT, LEAF_ENTRIES>>),
}

/// An internal node: pairs of (count of subtree elements, subtree).
pub struct NodeInternal<const INTERNAL_ENT: usize, const LEAF_ENTRIES: usize> {
    pub len_counts: [u32; INTERNAL_ENT],
    pub children: Vec<Option<Node<INTERNAL_ENT, LEAF_ENTRIES>>>,
}

/// A leaf node: run-length encoded edits.
pub struct NodeLeaf<const INT_ENTRIES: usize, const LEAF_ENTRIES: usize> {
    /// Number of entries which have been populated.
    pub num_entries: u8,
    pub data: [CRDTEdits; LEAF_ENTRIES],
}

/// The length of a run, read as an unsigned count.
pub open spec fn run_len(e: CRDTEdits) -> int {
    (e.RLE_length as u32) as int
}

/// Walks the runs of a leaf from `i` (the runs before covering positions up
/// to `count`) to the run that covers `pos`. `None` where a count overflows.
pub open spec fn leaf_walk(data: Seq<CRDTEdits>, pos: int, i: int, count: int) -> Option<Option<CRDTEdits>>
    decreases data.len() - i,
{
    if i >= data.len() || i < 0 {
        Some(None)
    } else if count + run_len(data[i]) > u32::MAX {
        None
    } else if pos >= count && pos < count + run_len(data[i]) {
        Some(Some(data[i]))
    } else {
        leaf_walk(data, pos, i + 1, count + run_len(data[i]))
    }
}

/// The start position of a search: the given offset, or 0.
pub open spec fn start_count(offset: Option<u32>) -> int {
    match offset {
        Some(o) => o as int,
        None => 0,
    }
}

/// The leaf reached by descending from internal node `n` (whose subtrees
/// start at position `count`) towards `pos`. `None` where the descent fails
/// (a missing child, or a count that overflows).
pub open spec fn internal_search<const I: usize, const L: usize>(n: NodeInternal<I, L>, pos: int, count: int) -> Option<Option<NodeLeaf<I, L>>>
    decreases n, n.len_counts@.len() + 1,
{
    internal_walk(n, pos, 0, count)
}

/// Walks the subtrees of `n` from `i` (the ones before covering positions up
/// to `count`) to the one covering `pos`, and descends into it.
pub open spec fn internal_walk<const I: usize, const L: usize>(n: NodeInternal<I, L>, pos: int, i: int, count: int) -> Option<Option<NodeLeaf<I, L>>>
    decreases n, n.len_counts@.len() - i,
{
    if i >= n.len_counts@.len() || i < 0 {
        Some(None)
    } else if i >= n.children@.len() {
        None
    } else {
        match n.children@[i] {
            None => None,
            Some(child) => {
                let lc = n.len_counts@[i] as int;
                if count + lc > u32::MAX {
                    None
                } else if pos >= count && pos < count + lc {
                    match child {
                        Node::Internal(c) => internal_search(*c, pos, count),
                        Node::Leaf(l) => Some(Some(*l)),
                    }
                } else {
                    internal_walk(n, pos, i + 1, count + lc)
                }
            },
        }
    }
}

impl<const INTERNAL_ENT: usize, const LEAF_ENTRIES: usize> NodeInternal<INTERNAL_ENT, LEAF_ENTRIES> {
    /// Searches for leaf node with pos.
    pub fn search(&self, pos: u32, offset: Option<u32>) -> (res: Option<&NodeLeaf<INTERNAL_ENT, LEAF_ENTRIES>>)
        requires
            internal_search(*self, pos as int, start_count(offset)) is Some,
        ensures
            match res {
                Some(l) => internal_search(*self, pos as int, start_count(offset)) == Some(Some(*l)),
                None => internal_search(*self, pos as int, start_count(offset)) == Some(None::<NodeLeaf<INTERNAL_ENT, LEAF_ENTRIES>>),
            },
        decreases self,
    {
        let mut count: u32 = 0;
        match offset {
            Some(o) => {
                count = o;
            },
            None => {},
        }
        let counts = self.len_counts.as_slice();
        let n = counts.len();
        let mut i: usize = 0;
        while i < n
            invariant
                n == self.len_counts@.len(),
                counts@ == self.len_counts@,
                i <= n,
                internal_walk(*self, pos as int, i as int, count as int) == internal_search(*self, pos as int, start_count(offset)),
                internal_search(*self, pos as int, start_count(offset)) is Some,
            decreases n - i,
        {
            let len_count = counts[i];
            let next = &self.children[i];
            match next {
                Some(next_internal) => {
                    let end = count + len_count;
                    if pos >= count && pos < end {
                        match next_internal {
                            Node::Internal(internal_child) => {
                                return internal_child.search(pos, Some(count));
                            },
                            Node::Leaf(leaf_child) => {
                                return Some(leaf_child);
                            },
                        }
                    }
                    count = end;
                },
                None => {
                    assert(false);
                },
            }
            i += 1;
        }
        None
    }
}

impl<const INT_ENTRIES: usize, const LEAF_ENTRIES: usize> NodeLeaf<INT_ENTRIES, LEAF_ENTRIES> {
    /// Searches for the run of edits that holds `pos`.
    pub fn search(self, pos: u32, offset: Option<u32>) -> (res: Option<CRDTEdits>)
        requires
            leaf_walk(self.data@, pos as int, 0, start_count(offset)) is Some,
        ensures
            Some(res) == leaf_walk(self.data@, pos as int, 0, start_count(offset)),
    {
        let mut count: u32 = 0;
        match offset {
            Some(o) => {
                count = o;
            },
            None => {},
        }
        let data = self.data.as_slice();
        let n = data.len();
        let mut i: usize = 0;
        while i < n
            invariant
                n == data@.len(),
                data@ == self.data@,
                i <= n,
                leaf_walk(data@, pos as int, i as int, count as int) == leaf_walk(self.data@, pos as int, 0, start_count(offset)),
                leaf_walk(self.data@, pos as int, 0, start_count(offset)) is Some,
            decreases n - i,
        {
            let edits = data[i];
            // Check if pos is within the RLE.
            let end = count + edits.RLE_length as u32;
            if pos >= count && pos < end {
                return Some(edits);
            }
            count = end;
            i += 1;
        }
        None
    }
}

} // verus!
