//! Locating a document position inside a sequential list, and inserting into one.

use vstd::prelude::*;
use crate::ops::{Op, OpList, InsertPos, Length};
use crate::doc_view::{end_base, item_at, inserted_at, insert_anchor, law_apply_insert_document};
use crate::canonical::{canonical, lemma_apply_insert_keeps_canonical};
use crate::tally::{
    delete_ranges, deleted_base, cover_set, is_delete, lemma_filter_update, lemma_filter_insert,
    lemma_deleted_update, lemma_deleted_insert,
};

verus! {

/// Where a document position lives inside a sequential list.
#[derive(Clone, Copy, Debug, PartialEq, Eq, Structural)]
pub enum PositionRef {
    /// At base position `base`, before the range at `index`.
    Base { base: InsertPos, index: usize },
    /// Inside (or at the end of) the insert range at `index`, `offset` characters in.
    Insert { index: usize, offset: Length },
}

/// Which side of an insert run a position on its boundary is attributed to.
#[derive(Clone, Copy, Debug, PartialEq, Eq, Structural)]
pub enum LocateBias {
    PreferInsideInsert,
    PreferOutsideInsert,
}

/// The largest number of ranges a list may hold. A range moves a walk's
/// cursors by less than 2^32, and the walks that transform one list against
/// another move theirs by up to 2^34 per range; with at most 2^28 ranges every
/// cursor stays below 2^62, inside the `i64` cursors the walks use. A list of
/// that many ranges already takes 2 GiB.
pub open spec fn max_ranges() -> int {
    0x1000_0000
}

/// A list short enough to be walked with 64-bit cursors.
pub open spec fn walkable(s: Seq<Op>) -> bool {
    s.len() <= max_ranges()
}

/// Walks `ranges` from index `i`, where the base cursor is `base` and the
/// document cursor is `doc`, until the document position `target` is found.
///
/// Each range is preceded by the untouched base characters between the base
/// cursor and its `ins`. A delete range advances the base cursor only; an
/// insert range advances the document cursor only. With
/// `PreferOutsideInsert`, a position on the boundary of a range is reported
/// as a base position before that range (at its start) or as the end of the
/// insert run (at its end); with `PreferInsideInsert`, a position at the start
/// of an insert run lies inside it.
pub open spec fn locate_walk(
    ranges: Seq<Op>,
    target: int,
    bias: LocateBias,
    i: int,
    base: int,
    doc: int,
) -> PositionRef
    decreases ranges.len() - i,
{
    if i >= ranges.len() {
        PositionRef::Base { base: (base + (target - doc)) as i32, index: ranges.len() as usize }
    } else {
        let r = ranges[i];
        if r.ins > base && target < doc + (r.ins - base) {
            PositionRef::Base { base: (base + (target - doc)) as i32, index: i as usize }
        } else {
            let base1: int = if r.ins > base { r.ins as int } else { base };
            let doc1: int = if r.ins > base { doc + (r.ins - base) } else { doc };
            let outside = bias is PreferOutsideInsert;
            if r.len < 0 {
                if outside && target == doc1 {
                    PositionRef::Base { base: r.ins, index: i as usize }
                } else {
                    locate_walk(ranges, target, bias, i + 1, base1 - r.len, doc1)
                }
            } else if outside && target == doc1 {
                PositionRef::Base { base: r.ins, index: i as usize }
            } else if outside && target == doc1 + r.len {
                PositionRef::Insert { index: i as usize, offset: r.len }
            } else if target < doc1 + r.len && (!outside || target > doc1) {
                PositionRef::Insert { index: i as usize, offset: (target - doc1) as i32 }
            } else {
                locate_walk(ranges, target, bias, i + 1, base1, doc1 + r.len)
            }
        }
    }
}

/// Where document position `pos` lives inside `ranges`.
pub open spec fn spec_locate(ranges: Seq<Op>, pos: int, bias: LocateBias) -> PositionRef {
    locate_walk(ranges, pos, bias, 0, 0, 0)
}

/// A located position names a valid place in a list of length `n`.
pub open spec fn located_in(p: PositionRef, n: int) -> bool {
    match p {
        PositionRef::Base { index, .. } => index <= n,
        PositionRef::Insert { index, .. } => index < n,
    }
}

pub proof fn lemma_locate_walk_in(ranges: Seq<Op>, target: int, bias: LocateBias, i: int, base: int, doc: int)
    requires
        0 <= i,
        walkable(ranges),
    ensures
        located_in(locate_walk(ranges, target, bias, i, base, doc), ranges.len() as int),
    decreases ranges.len() - i,
{
    if i < ranges.len() {
        let r = ranges[i];
        let base1: int = if r.ins > base { r.ins as int } else { base };
        let doc1: int = if r.ins > base { doc + (r.ins - base) } else { doc };
        if r.len < 0 {
            lemma_locate_walk_in(ranges, target, bias, i + 1, base1 - r.len, doc1);
        } else {
            lemma_locate_walk_in(ranges, target, bias, i + 1, base1, doc1 + r.len);
        }
    }
}

/// The list after extending the length of the range at `index` by `len`, or
/// `None` where the new length does not fit in an `i32`.
pub open spec fn spec_grow_at(r: Seq<Op>, index: int, len: int) -> Option<Seq<Op>> {
    if r[index].len + len > i32::MAX || r[index].len + len < i32::MIN {
        None
    } else {
        Some(r.update(index, Op { ins: r[index].ins, len: (r[index].len + len) as i32 }))
    }
}

/// The list after inserting `len` characters anchored at `base` before index
/// `idx`: they join the insert run just before or just at `idx` when that run
/// is anchored at `base`, and form a new range otherwise. `None` for an
/// index past the end or a length overflow.
pub open spec fn spec_insert_positive(r: Seq<Op>, idx: int, base: i32, len: i32) -> Option<Seq<Op>> {
    if len <= 0 {
        Some(r)
    } else if idx > r.len() {
        None
    } else if idx > 0 && r[idx - 1].len > 0 && r[idx - 1].ins == base {
        spec_grow_at(r, idx - 1, len as int)
    } else if idx < r.len() && r[idx].len > 0 && r[idx].ins == base {
        spec_grow_at(r, idx, len as int)
    } else {
        Some(r.insert(idx, Op { ins: base, len }))
    }
}

/// The sequential list after inserting `len` characters at document position
/// `pos`: the position is located outside insert runs; at the end of an insert
/// run the run grows, elsewhere the characters are anchored at the located
/// base position. `None` where the insert cannot be made (a length overflow).
pub open spec fn spec_apply_insert(r: Seq<Op>, pos: i32, len: i32) -> Option<Seq<Op>> {
    if len <= 0 {
        Some(r)
    } else {
        match spec_locate(r, pos as int, LocateBias::PreferOutsideInsert) {
            PositionRef::Insert { index, .. } => spec_grow_at(r, index as int, len as int),
            PositionRef::Base { base, index } => spec_insert_positive(r, index as int, base, len),
        }
    }
}

/// `r2` is `r` with one insert range grown (keeping its anchor) or one new
/// insert range added: every delete range stays, and the length grows by at
/// most one.
pub open spec fn one_insert_more(r: Seq<Op>, r2: Seq<Op>) -> bool {
    exists|j: int| #![trigger r2[j]] 0 <= j <= r.len() && {
        ||| (j < r.len() && r[j].len >= 0 && r2[j].len > 0 && r2[j].ins == r[j].ins && r2 == r.update(j, r2[j]))
        ||| (j < r2.len() && r2[j].len > 0 && r2 == r.insert(j, r2[j]))
    }
}

/// Growing or adding one insert range keeps every delete range, in order, and
/// the base positions they remove, and adds at most one range.
proof fn lemma_one_insert_more_keeps_deletes(r: Seq<Op>, r2: Seq<Op>)
    requires
        one_insert_more(r, r2),
    ensures
        r2.len() <= r.len() + 1,
        delete_ranges(r2) == delete_ranges(r),
        deleted_base(r2) == deleted_base(r),
{
    let j = choose|j: int| #![trigger r2[j]] 0 <= j <= r.len() && {
        ||| (j < r.len() && r[j].len >= 0 && r2[j].len > 0 && r2[j].ins == r[j].ins && r2 == r.update(j, r2[j]))
        ||| (j < r2.len() && r2[j].len > 0 && r2 == r.insert(j, r2[j]))
    };
    let c = r2[j];
    assert(cover_set(c) =~= Set::<int>::empty());
    if j < r.len() && r[j].len >= 0 && r2[j].len > 0 && r2[j].ins == r[j].ins && r2 == r.update(j, r2[j]) {
        assert(cover_set(r[j]) =~= Set::<int>::empty());
        lemma_filter_update(r, j, c, is_delete());
        lemma_deleted_update(r, j, c);
    } else {
        lemma_filter_insert(r, j, c, is_delete());
        lemma_deleted_insert(r, j, c);
    }
    assert(deleted_base(r).union(Set::<int>::empty()) =~= deleted_base(r));
}

/// A position located inside an insert run names an insert range.
proof fn lemma_locate_insert_index(ranges: Seq<Op>, target: int, bias: LocateBias, i: int, base: int, doc: int)
    requires
        0 <= i,
        walkable(ranges),
    ensures
        locate_walk(ranges, target, bias, i, base, doc) matches PositionRef::Insert { index, .. }
            ==> index < ranges.len() && ranges[index as int].len >= 0,
    decreases ranges.len() - i,
{
    if i < ranges.len() {
        let r = ranges[i];
        let base1: int = if r.ins > base { r.ins as int } else { base };
        let doc1: int = if r.ins > base { doc + (r.ins - base) } else { doc };
        if r.len < 0 {
            lemma_locate_insert_index(ranges, target, bias, i + 1, base1 - r.len, doc1);
        } else {
            lemma_locate_insert_index(ranges, target, bias, i + 1, base1, doc1 + r.len);
        }
    }
}

/// Inserting characters grows one insert range or adds one.
pub proof fn lemma_apply_insert_shape(r: Seq<Op>, pos: i32, len: i32)
    requires
        walkable(r),
        len > 0,
        spec_apply_insert(r, pos, len) is Some,
    ensures
        one_insert_more(r, spec_apply_insert(r, pos, len)->0),
{
    let r2 = spec_apply_insert(r, pos, len)->0;
    lemma_locate_insert_index(r, pos as int, LocateBias::PreferOutsideInsert, 0, 0, 0);
    lemma_locate_walk_in(r, pos as int, LocateBias::PreferOutsideInsert, 0, 0, 0);
    match spec_locate(r, pos as int, LocateBias::PreferOutsideInsert) {
        PositionRef::Insert { index, .. } => {
            let j = index as int;
            assert(r2 == r.update(j, r2[j]));
        },
        PositionRef::Base { base, index } => {
            let j = index as int;
            if j > 0 && r[j - 1].len > 0 && r[j - 1].ins == base {
                assert(r2 == r.update(j - 1, r2[j - 1]));
            } else if j < r.len() && r[j].len > 0 && r[j].ins == base {
                assert(r2 == r.update(j, r2[j]));
            } else {
                assert(r2 == r.insert(j, Op { ins: base, len }));
                assert(r2[j] == Op { ins: base, len });
            }
        },
    }
}

impl OpList {
    /// Finds where a given document position lives within the range list, honoring the provided bias.
    pub fn locate_position(ranges: &[Op], pos: InsertPos, bias: LocateBias) -> (res: PositionRef)
        requires
            walkable(ranges@),
        ensures
            res == spec_locate(ranges@, pos as int, bias),
            located_in(res, ranges@.len() as int),
    {
        proof {
            lemma_locate_walk_in(ranges@, pos as int, bias, 0, 0, 0);
        }
        let mut base_cursor: i64 = 0;
        let mut doc_cursor: i64 = 0;
        let target = pos as i64;
        let outside = match bias {
            LocateBias::PreferOutsideInsert => true,
            LocateBias::PreferInsideInsert => false,
        };
        let n = ranges.len();
        let mut index: usize = 0;
        while index < n
            invariant
                n == ranges@.len(),
                walkable(ranges@),
                index <= n,
                0 <= base_cursor <= index * 0x1_0000_0000,
                0 <= doc_cursor <= index * 0x1_0000_0000,
                target == pos as int,
                outside == (bias is PreferOutsideInsert),
                locate_walk(ranges@, target as int, bias, index as int, base_cursor as int, doc_cursor as int)
                    == spec_locate(ranges@, pos as int, bias),
            decreases n - index,
        {
            let range = ranges[index];
            let range_base = range.ins as i64;
            if range_base > base_cursor {
                let gap = range_base - base_cursor;
                if target < doc_cursor + gap {
                    let base = base_cursor + (target - doc_cursor);
                    return PositionRef::Base { base: base as InsertPos, index };
                }
                doc_cursor += gap;
                base_cursor = range_base;
            }
            if range.len < 0 {
                if outside && target == doc_cursor {
                    return PositionRef::Base { base: range.ins, index };
                }
                base_cursor += -(range.len as i64);
            } else {
                let insert_len = range.len as i64;
                if outside && target == doc_cursor {
                    return PositionRef::Base { base: range.ins, index };
                }
                if outside && target == doc_cursor + insert_len {
                    return PositionRef::Insert { index, offset: range.len };
                }
                if target < doc_cursor + insert_len && (!outside || target > doc_cursor) {
                    let offset = target - doc_cursor;
                    return PositionRef::Insert { index, offset: offset as Length };
                }
                doc_cursor += insert_len;
            }
            index += 1;
        }
        let base = base_cursor + (target - doc_cursor);
        PositionRef::Base { base: base as InsertPos, index: n }
    }

    /// Adds `len` to the length of the range at `index`.
    fn grow_at(ranges: &mut Vec<Op>, index: usize, len: Length)
        requires
            index < old(ranges)@.len(),
            spec_grow_at(old(ranges)@, index as int, len as int) is Some,
        ensures
            final(ranges)@ == spec_grow_at(old(ranges)@, index as int, len as int)->0,
    {
        let r = ranges[index];
        ranges.set(index, Op { ins: r.ins, len: r.len + len });
    }

    /// Inserts a positive-length span at the computed index, coalescing with neighbors when possible.
    pub fn insert_positive(ranges: &mut Vec<Op>, idx: usize, base: InsertPos, len: Length)
        requires
            spec_insert_positive(old(ranges)@, idx as int, base, len) is Some,
        ensures
            final(ranges)@ == spec_insert_positive(old(ranges)@, idx as int, base, len)->0,
    {
        if len <= 0 {
            return;
        }
        let insert_idx = idx;
        if insert_idx > 0 && insert_idx - 1 < ranges.len() {
            let prev = ranges[insert_idx - 1];
            if prev.len > 0 && prev.ins == base {
                Self::grow_at(ranges, insert_idx - 1, len);
                return;
            }
        }
        if insert_idx < ranges.len() {
            if ranges[insert_idx].len > 0 && ranges[insert_idx].ins == base {
                Self::grow_at(ranges, insert_idx, len);
                return;
            }
        }
        ranges.insert(insert_idx, Op { ins: base, len });
    }

    /// Applies an insert to an in-progress sequential range list, respecting insertion bias.
    pub fn apply_insert(ranges: &mut Vec<Op>, pos: InsertPos, len: Length)
        requires
            walkable(old(ranges)@),
            spec_apply_insert(old(ranges)@, pos, len) is Some,
        ensures
            final(ranges)@ == spec_apply_insert(old(ranges)@, pos, len)->0,
            pos >= 0 && len > 0 && end_base(old(ranges)@, 0) + pos <= i32::MAX ==> forall|k: int| 0 <= k
                ==> #[trigger] item_at(final(ranges)@, k)
                    == inserted_at(old(ranges)@, pos as int, len as int, insert_anchor(old(ranges)@, pos as int), k),
            canonical(old(ranges)@) && pos >= 0 && end_base(old(ranges)@, 0) + pos <= i32::MAX ==> canonical(final(ranges)@),
            len <= 0 ==> final(ranges)@ == old(ranges)@,
            len > 0 ==> one_insert_more(old(ranges)@, final(ranges)@),
            final(ranges)@.len() <= old(ranges)@.len() + 1,
            delete_ranges(final(ranges)@) == delete_ranges(old(ranges)@),
            deleted_base(final(ranges)@) == deleted_base(old(ranges)@),
    {
        proof {
            if len > 0 {
                lemma_apply_insert_shape(ranges@, pos, len);
                lemma_one_insert_more_keeps_deletes(ranges@, spec_apply_insert(ranges@, pos, len)->0);
            }
            if pos >= 0 && end_base(ranges@, 0) + pos <= i32::MAX {
                if len > 0 {
                    law_apply_insert_document(ranges@, pos, len);
                }
                if canonical(ranges@) {
                    lemma_apply_insert_keeps_canonical(ranges@, pos, len);
                }
            }
        }
        if len <= 0 {
            return;
        }
        match Self::locate_position(ranges.as_slice(), pos, LocateBias::PreferOutsideInsert) {
            PositionRef::Insert { index, .. } => {
                Self::grow_at(ranges, index, len);
            },
            PositionRef::Base { base, index } => {
                Self::insert_positive(ranges, index, base, len);
            },
        }
    }
}

} // verus!
