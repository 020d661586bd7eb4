//! Deleting a document range from a sequential list.

use vstd::prelude::*;
use crate::ops::{Op, OpList, InsertPos, Length};
use crate::locate::walkable;
use crate::doc_view::{end_base, item_at};
use crate::canonical::{canonical, well_kept};
use crate::doc_delete::law_apply_delete_document;

verus! {

/// A delete to be emitted into a list under construction.
pub enum DeleteEmit {
    /// A delete range already present in the list.
    Existing(Op),
    /// The base range `base_start .. base_start + len`.
    DocSpan { base_start: i64, len: i64 },
}

/// The smaller of two integers.
pub open spec fn min_int(a: int, b: int) -> int {
    if a <= b { a } else { b }
}

/// The larger of two integers.
pub open spec fn max_int(a: int, b: int) -> int {
    if a >= b { a } else { b }
}

/// The overlap of the segment `seg_start .. seg_start + seg_len` with the
/// window `cursor .. end`, as `(length, start)`; `(0, 0)` when they do not meet.
pub open spec fn spec_overlap(seg_start: int, seg_len: int, cursor: int, end: int) -> (int, int) {
    if seg_len <= 0 || cursor >= end {
        (0, 0)
    } else if cursor >= seg_start + seg_len || end <= seg_start {
        (0, 0)
    } else {
        (min_int(seg_start + seg_len, end) - max_int(seg_start, cursor), max_int(seg_start, cursor))
    }
}

/// The exclusive end of a delete range, truncated to an `i32`.
pub open spec fn spec_delete_end(op: Op) -> i32 {
    (op.ins - op.len) as i32
}

/// The delete range `start .. end`.
pub open spec fn spec_delete_span(start: int, end: int) -> Op {
    Op { ins: start as i32, len: (start - end) as i32 }
}

/// `r` with `op` written at `idx`, or appended where `idx` is past the end.
pub open spec fn spec_write(r: Seq<Op>, idx: int, op: Op) -> Seq<Op> {
    if 0 <= idx < r.len() { r.update(idx, op) } else { r.push(op) }
}

/// The delete that `src` stands for: `Some(None)` when it is empty,
/// `None` where it cannot be emitted (a positive existing length, or a span
/// that does not fit in `i32`).
pub open spec fn emitted(src: DeleteEmit) -> Option<Option<Op>> {
    match src {
        DeleteEmit::Existing(op) => if op.len > 0 {
            None
        } else if op.len == 0 {
            Some(None)
        } else {
            Some(Some(op))
        },
        DeleteEmit::DocSpan { base_start, len } => if len <= 0 {
            Some(None)
        } else if base_start < i32::MIN || base_start > i32::MAX || len > i32::MAX {
            None
        } else {
            Some(Some(Op { ins: base_start as i32, len: (-len) as i32 }))
        },
    }
}

/// Emits the delete of `src` into `out` (written at `w`, the last emitted
/// delete being at `last`): it extends the last emitted delete when that one
/// ends where the new one starts, and is written as a new range otherwise.
/// The result is the new list, write index and last-delete index.
pub open spec fn spec_emit(out: Seq<Op>, w: int, last: Option<usize>, src: DeleteEmit) -> Option<(Seq<Op>, int, Option<usize>)> {
    match emitted(src) {
        None => None,
        Some(None) => Some((out, w, last)),
        Some(Some(d)) => match last {
            Some(idx) => if idx >= out.len() || out[idx as int].len >= 0 {
                None
            } else if spec_delete_end(out[idx as int]) == d.ins {
                if out[idx as int].len + d.len < i32::MIN {
                    None
                } else {
                    Some((out.update(idx as int, Op { ins: out[idx as int].ins, len: (out[idx as int].len + d.len) as i32 }), w, last))
                }
            } else if w < 0 || w >= usize::MAX {
                None
            } else {
                Some((spec_write(out, w, d), w + 1, Some(w as usize)))
            },
            None => if w < 0 || w >= usize::MAX {
                None
            } else {
                Some((spec_write(out, w, d), w + 1, Some(w as usize)))
            },
        },
    }
}

/// The state of a delete walk: document cursor, base cursor, delete cursor,
/// output list and index of the last emitted delete.
pub type DeleteWalkState = (int, int, int, Seq<Op>, Option<usize>);

/// Deletes the part of the untouched base gap before `r[i]` that overlaps the
/// delete window.
pub open spec fn gap_step(r: Seq<Op>, de: int, i: int, s: DeleteWalkState) -> Option<DeleteWalkState> {
    let (doc, base, cur, out, last) = s;
    let next = r[i].ins as int;
    if next > base {
        let gl = next - base;
        let ov = spec_overlap(doc, gl, cur, de);
        if ov.0 > 0 {
            match spec_emit(out, out.len() as int, last, DeleteEmit::DocSpan { base_start: (base + (ov.1 - doc)) as i64, len: ov.0 as i64 }) {
                None => None,
                Some(e) => Some((doc + gl, next, cur + ov.0, e.0, e.2)),
            }
        } else {
            Some((doc + gl, next, cur, out, last))
        }
    } else {
        Some(s)
    }
}

/// Carries range `c` over: a delete range is emitted (joining an adjacent
/// delete), an insert range loses the characters inside the delete window and
/// is kept when any remain.
pub open spec fn range_step(c: Op, de: int, s: DeleteWalkState) -> Option<DeleteWalkState> {
    let (doc, base, cur, out, last) = s;
    if c.len < 0 {
        match spec_emit(out, out.len() as int, last, DeleteEmit::Existing(c)) {
            None => None,
            Some(e) => Some((doc, base - c.len, cur, e.0, e.2)),
        }
    } else if c.len > 0 {
        let ov = spec_overlap(doc, c.len as int, cur, de);
        let nl: int = if ov.0 > 0 { c.len - ov.0 } else { c.len as int };
        let cur1: int = if ov.0 > 0 { cur + ov.0 } else { cur };
        let out1 = if nl > 0 { out.push(Op { ins: c.ins, len: nl as i32 }) } else { out };
        Some((doc + c.len, base, cur1, out1, last))
    } else {
        Some(s)
    }
}

/// The rest of a delete walk from index `i` in state `s`, ending with the
/// delete of whatever part of the window lies past the last range.
pub open spec fn delete_walk(r: Seq<Op>, de: int, i: int, s: DeleteWalkState) -> Option<Seq<Op>>
    decreases r.len() - i,
{
    if i >= r.len() {
        let (doc, base, cur, out, last) = s;
        if cur < de {
            let os = max_int(cur, doc);
            match spec_emit(out, out.len() as int, last, DeleteEmit::DocSpan { base_start: (base + (os - doc)) as i64, len: (de - os) as i64 }) {
                None => None,
                Some(e) => Some(e.0),
            }
        } else {
            Some(out)
        }
    } else {
        match gap_step(r, de, i, s) {
            None => None,
            Some(g) => match range_step(r[i], de, g) {
                None => None,
                Some(t) => delete_walk(r, de, i + 1, t),
            },
        }
    }
}

/// The sequential list after deleting the `len` document characters starting
/// at document position `pos`. `None` where the delete cannot be made (an
/// emitted delete that does not fit in `i32`, or a length overflow).
pub open spec fn spec_apply_delete(r: Seq<Op>, pos: i32, len: i32) -> Option<Seq<Op>> {
    if len <= 0 {
        Some(r)
    } else {
        delete_walk(r, pos + len, 0, (0, 0, pos as int, Seq::empty(), None))
    }
}

impl OpList {
    /// Writes an operation into the vector, growing it only when needed.
    pub fn write_op(ranges: &mut Vec<Op>, idx: usize, op: Op)
        ensures
            final(ranges)@ == spec_write(old(ranges)@, idx as int, op),
    {
        if idx < ranges.len() {
            ranges.set(idx, op);
        } else {
            ranges.push(op);
        }
    }

    /// Returns the overlap between a segment and a delete window as `(length, start)`.
    pub fn segment_overlap(seg_start: i64, seg_len: i64, delete_cursor: i64, delete_end: i64) -> (res: (i64, i64))
        requires
            seg_len > 0 && delete_cursor < delete_end ==> i64::MIN <= seg_start + seg_len <= i64::MAX,
        ensures
            (res.0 as int, res.1 as int) == spec_overlap(seg_start as int, seg_len as int, delete_cursor as int, delete_end as int),
    {
        if seg_len <= 0 || delete_cursor >= delete_end {
            return (0, 0);
        }
        let seg_end = seg_start + seg_len;
        if delete_cursor >= seg_end || delete_end <= seg_start {
            return (0, 0);
        }
        let start = if seg_start >= delete_cursor { seg_start } else { delete_cursor };
        let end = if seg_end <= delete_end { seg_end } else { delete_end };
        (end - start, start)
    }

    /// Computes the exclusive end position of a delete operation.
    pub fn delete_end(op: &Op) -> (end: InsertPos)
        requires
            op.len < 0,
        ensures
            end == spec_delete_end(*op),
    {
        let end = op.ins as i64 - op.len as i64;
        end as InsertPos
    }

    /// Creates a delete operation spanning from `start` to `end` in base coordinates.
    pub fn delete_span(start: i64, end: i64) -> (op: Op)
        requires
            end > start,
            i32::MIN <= start <= i32::MAX,
            end - start <= i32::MAX,
        ensures
            op == spec_delete_span(start as int, end as int),
            op.ins == start,
            op.len == start - end,
    {
        let ins: InsertPos = start as InsertPos;
        let len_i64 = end - start;
        let len: Length = len_i64 as Length;
        Op { ins, len: -len }
    }

    /// Emits a delete operation, extending the previous delete when adjacent.
    pub fn emit_delete_op(
        ranges: &mut Vec<Op>,
        write_idx: &mut usize,
        last_delete_idx: &mut Option<usize>,
        source: DeleteEmit,
    )
        requires
            spec_emit(old(ranges)@, *old(write_idx) as int, *old(last_delete_idx), source) is Some,
        ensures
            (final(ranges)@, *final(write_idx) as int, *final(last_delete_idx))
                == spec_emit(old(ranges)@, *old(write_idx) as int, *old(last_delete_idx), source)->0,
    {
        let delete_op = match source {
            DeleteEmit::Existing(op) => {
                if op.len == 0 {
                    return;
                }
                op
            },
            DeleteEmit::DocSpan { base_start, len } => {
                if len <= 0 {
                    return;
                }
                let ins: InsertPos = base_start as InsertPos;
                let len_i32: Length = len as Length;
                Op { ins, len: -len_i32 }
            },
        };
        match *last_delete_idx {
            Some(idx) => {
                let prev = ranges[idx];
                if Self::delete_end(&prev) == delete_op.ins {
                    ranges.set(idx, Op { ins: prev.ins, len: prev.len + delete_op.len });
                    return;
                }
            },
            None => {},
        }
        Self::write_op(ranges, *write_idx, delete_op);
        *last_delete_idx = Some(*write_idx);
        *write_idx = *write_idx + 1;
    }

    /// Applies a delete to an in-progress sequential range list by walking gaps and existing inserts.
    #[verifier::rlimit(50)]
    pub fn apply_delete(ranges: &mut Vec<Op>, pos: InsertPos, len: Length)
        requires
            walkable(old(ranges)@),
            spec_apply_delete(old(ranges)@, pos, len) is Some,
        ensures
            final(ranges)@ == spec_apply_delete(old(ranges)@, pos, len)->0,
            canonical(old(ranges)@) && pos >= 0 && len > 0 && end_base(old(ranges)@, 0) + pos + len <= i32::MAX ==> {
                &&& canonical(final(ranges)@)
                &&& well_kept(final(ranges)@)
                &&& forall|k: int| 0 <= k ==> #[trigger] item_at(final(ranges)@, k)
                    == (if k < pos { item_at(old(ranges)@, k) } else { item_at(old(ranges)@, k + len) })
            },
    {
        proof {
            if canonical(ranges@) && pos >= 0 && len > 0 && end_base(ranges@, 0) + pos + len <= i32::MAX {
                law_apply_delete_document(ranges@, pos, len);
            }
        }
        if len <= 0 {
            return;
        }
        let delete_start = pos as i64;
        let delete_end = delete_start + len as i64;
        let mut delete_cursor = delete_start;
        let mut doc_cursor: i64 = 0;
        let mut base_cursor: i64 = 0;
        let mut out: Vec<Op> = Vec::new();
        let mut write_idx: usize = 0;
        let mut last_delete_idx: Option<usize> = None;
        let ghost r = ranges@;
        let old_len = ranges.len();
        let mut read_idx: usize = 0;
        while read_idx < old_len
            invariant
                r == ranges@,
                walkable(r),
                spec_apply_delete(r, pos, len) is Some,
                len > 0,
                old_len == r.len(),
                read_idx <= old_len,
                write_idx == out@.len(),
                out@.len() <= 2 * read_idx,
                0 <= base_cursor <= read_idx * 0x1_0000_0000,
                0 <= doc_cursor <= read_idx * 0x1_0000_0000,
                delete_start == pos,
                delete_end == pos + len,
                delete_start <= delete_cursor <= delete_end,
                delete_walk(r, delete_end as int, read_idx as int,
                    (doc_cursor as int, base_cursor as int, delete_cursor as int, out@, last_delete_idx))
                    == spec_apply_delete(r, pos, len),
            decreases old_len - read_idx,
        {
            let mut current = ranges[read_idx];
            let ghost s0: DeleteWalkState = (doc_cursor as int, base_cursor as int, delete_cursor as int, out@, last_delete_idx);
            proof {
                assert(delete_walk(r, delete_end as int, read_idx as int, s0) is Some);
                assert(gap_step(r, delete_end as int, read_idx as int, s0) is Some);
            }
            let next_ins = current.ins as i64;
            if next_ins > base_cursor {
                let gap_len = next_ins - base_cursor;
                let (overlap_len, overlap_start) = Self::segment_overlap(doc_cursor, gap_len, delete_cursor, delete_end);
                if overlap_len > 0 {
                    let base_offset = overlap_start - doc_cursor;
                    let base_start = base_cursor + base_offset;
                    Self::emit_delete_op(
                        &mut out,
                        &mut write_idx,
                        &mut last_delete_idx,
                        DeleteEmit::DocSpan { base_start, len: overlap_len },
                    );
                    delete_cursor += overlap_len;
                }
                doc_cursor += gap_len;
                base_cursor = next_ins;
            }
            let ghost s1: DeleteWalkState = (doc_cursor as int, base_cursor as int, delete_cursor as int, out@, last_delete_idx);
            assert(gap_step(r, delete_end as int, read_idx as int, s0) == Some(s1));
            assert(range_step(r[read_idx as int], delete_end as int, s1) is Some);
            if current.len < 0 {
                base_cursor += -(current.len as i64);
                Self::emit_delete_op(&mut out, &mut write_idx, &mut last_delete_idx, DeleteEmit::Existing(current));
            } else if current.len > 0 {
                let seg_len = current.len as i64;
                let (overlap_len, _) = Self::segment_overlap(doc_cursor, seg_len, delete_cursor, delete_end);
                if overlap_len > 0 {
                    let overlap_i32: Length = overlap_len as Length;
                    current.len = current.len - overlap_i32;
                    delete_cursor += overlap_len;
                }
                if current.len > 0 {
                    Self::write_op(&mut out, write_idx, current);
                    write_idx += 1;
                }
                doc_cursor += seg_len;
            }
            let ghost s2: DeleteWalkState = (doc_cursor as int, base_cursor as int, delete_cursor as int, out@, last_delete_idx);
            assert(range_step(r[read_idx as int], delete_end as int, s1) == Some(s2));
            read_idx += 1;
        }
        if delete_cursor < delete_end {
            let seg_start = doc_cursor;
            let overlap_start = if delete_cursor >= seg_start { delete_cursor } else { seg_start };
            let overlap_len = delete_end - overlap_start;
            let base_offset = overlap_start - seg_start;
            let base_start = base_cursor + base_offset;
            Self::emit_delete_op(
                &mut out,
                &mut write_idx,
                &mut last_delete_idx,
                DeleteEmit::DocSpan { base_start, len: overlap_len },
            );
        }
        *ranges = out;
    }
}

} // verus!
