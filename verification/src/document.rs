//! A segment-based model of a document built on top of a base text.
//!
//! The document is a sequence of segments: a base segment covers the base
//! characters `start .. start + len`, an insert segment covers `len` inserted
//! characters anchored at base position `anchor`.

use vstd::prelude::*;
use crate::ops::{Op, InsertPos, Length};
use crate::baseops::OpList;
use crate::segment_view::{segs_wf, segs_pos, anchor_at, law_ensure_boundary_anchor, seg_items, boundary_anchor,
    lemma_ensure_boundary, law_insert_at_doc_view,
    law_delete_doc_range_view};

verus! {

/// The length of the base text a new document starts with.
pub const MAX_BASE_LEN: i64 = 0x7fff_ffff;

#[derive(Clone, Copy, Debug, PartialEq, Eq, Structural)]
pub enum SegmentKind {
    Base { start: i64 },
    Insert { anchor: i64 },
}

#[derive(Clone, Copy, Debug, PartialEq, Eq, Structural)]
pub struct Segment {
    pub kind: SegmentKind,
    pub len: i64,
}

pub struct Document {
    pub segments: Vec<Segment>,
}

/// A value that fits in an `i64`.
pub open spec fn fits64(x: int) -> bool {
    i64::MIN <= x <= i64::MAX
}

/// A value that fits in an `i32`.
pub open spec fn fits32(x: int) -> bool {
    i32::MIN <= x <= i32::MAX
}

/// The base position right after segment `seg`: the end of a base segment,
/// the anchor of an insert segment.
pub open spec fn after_anchor(seg: Segment) -> int {
    match seg.kind {
        SegmentKind::Base { start } => start + seg.len,
        SegmentKind::Insert { anchor } => anchor as int,
    }
}

/// Walks the segments from `idx` (at document position `cursor`, the base
/// position there being `anc`) until document position `doc_pos` falls on a
/// segment boundary, splitting the segment that contains it. The result is
/// the segments, the index of the segment starting at `doc_pos` and the base
/// position there. `None` where a position does not fit in an `i64`.
pub open spec fn boundary_walk(segs: Seq<Segment>, doc_pos: int, idx: int, cursor: int, anc: int) -> Option<(Seq<Segment>, int, int)>
    decreases segs.len() - idx,
{
    if idx >= segs.len() || idx < 0 {
        Some((segs, segs.len() as int, anc))
    } else {
        let seg = segs[idx];
        if doc_pos == cursor {
            Some((segs, idx, anc))
        } else if !fits64(cursor + seg.len) || !fits64(after_anchor(seg)) {
            None
        } else if doc_pos < cursor + seg.len {
            let offset = doc_pos - cursor;
            let anchor: int = match seg.kind {
                SegmentKind::Base { start } => start + offset,
                SegmentKind::Insert { anchor } => anchor as int,
            };
            if !fits64(anchor) || !fits64(seg.len - offset) {
                None
            } else if offset == 0 {
                Some((segs, idx, anchor))
            } else {
                let right_kind = match seg.kind {
                    SegmentKind::Base { start } => SegmentKind::Base { start: (start + offset) as i64 },
                    SegmentKind::Insert { anchor } => SegmentKind::Insert { anchor },
                };
                let right = Segment { kind: right_kind, len: (seg.len - offset) as i64 };
                Some((segs.update(idx, Segment { kind: seg.kind, len: offset as i64 }).insert(idx + 1, right), idx + 1, anchor))
            }
        } else {
            boundary_walk(segs, doc_pos, idx + 1, cursor + seg.len, after_anchor(seg))
        }
    }
}

/// Splits the segments at document position `doc_pos`.
pub open spec fn spec_ensure_boundary(segs: Seq<Segment>, doc_pos: int) -> Option<(Seq<Segment>, int, int)> {
    if doc_pos < 0 {
        None
    } else {
        boundary_walk(segs, doc_pos, 0, 0, 0)
    }
}

/// Walks the segments from `i` (at document position `dc`) to the document
/// position of base position `base_pos`: inside or at the end of a base
/// segment that covers it, at the start of the first base segment past it or
/// of an insert segment anchored at it, or at the end of the document.
pub open spec fn base_pos_walk(segs: Seq<Segment>, base_pos: int, i: int, dc: int) -> Option<int>
    decreases segs.len() - i,
{
    if i >= segs.len() || i < 0 {
        Some(dc)
    } else {
        let seg = segs[i];
        match seg.kind {
            SegmentKind::Base { start } => if base_pos < start {
                Some(dc)
            } else if !fits64(start + seg.len) {
                None
            } else if base_pos <= start + seg.len {
                if fits64(dc + (base_pos - start)) { Some(dc + (base_pos - start)) } else { None }
            } else if !fits64(dc + seg.len) {
                None
            } else {
                base_pos_walk(segs, base_pos, i + 1, dc + seg.len)
            },
            SegmentKind::Insert { anchor } => if base_pos == anchor {
                Some(dc)
            } else if !fits64(dc + seg.len) {
                None
            } else {
                base_pos_walk(segs, base_pos, i + 1, dc + seg.len)
            },
        }
    }
}

/// The document position of base position `base_pos`.
pub open spec fn spec_doc_pos_for_base(segs: Seq<Segment>, base_pos: int) -> Option<int> {
    base_pos_walk(segs, base_pos, 0, 0)
}

/// Joins segments `left` and `left + 1` when they continue each other: two
/// base segments that are contiguous in the base, or two insert segments with
/// the same anchor.
pub open spec fn spec_try_merge_pair(segs: Seq<Segment>, left: int) -> Option<Seq<Segment>> {
    if left < 0 || left + 1 >= segs.len() {
        Some(segs)
    } else {
        let l = segs[left];
        let r = segs[left + 1];
        let can: Option<bool> = match (l.kind, r.kind) {
            (SegmentKind::Base { start: ls }, SegmentKind::Base { start: rs }) =>
                if fits64(ls + l.len) { Some(ls + l.len == rs) } else { None },
            (SegmentKind::Insert { anchor: la }, SegmentKind::Insert { anchor: ra }) => Some(la == ra),
            _ => Some(false),
        };
        match can {
            None => None,
            Some(false) => Some(segs),
            Some(true) => if fits64(l.len + r.len) {
                Some(segs.update(left, Segment { kind: l.kind, len: (l.len + r.len) as i64 }).remove(left + 1))
            } else {
                None
            },
        }
    }
}

/// Tries to join the segment at `idx` with its left and then its right neighbor.
pub open spec fn spec_merge_neighbors(segs: Seq<Segment>, idx: int) -> Option<Seq<Segment>> {
    let first = if idx > 0 { spec_try_merge_pair(segs, idx - 1) } else { Some(segs) };
    match first {
        None => None,
        Some(s) => spec_try_merge_pair(s, idx),
    }
}

/// Inserts `len` characters anchored at `anchor` as a segment at `idx` and
/// joins it with its neighbors.
pub open spec fn insert_segment(segs: Seq<Segment>, idx: int, anchor: int, len: int) -> Option<Seq<Segment>> {
    if idx < 0 || idx > segs.len() {
        None
    } else {
        spec_merge_neighbors(segs.insert(idx, Segment { kind: SegmentKind::Insert { anchor: anchor as i64 }, len: len as i64 }), idx)
    }
}

/// Inserts `len` characters at document position `doc_pos`, anchored at the
/// base position there.
pub open spec fn spec_insert_at_doc(segs: Seq<Segment>, doc_pos: int, len: int) -> Option<Seq<Segment>> {
    if len == 0 {
        Some(segs)
    } else {
        match spec_ensure_boundary(segs, doc_pos) {
            None => None,
            Some(b) => insert_segment(b.0, b.1, b.2, len),
        }
    }
}

/// Removes the document range `start .. end` and joins the segments that meet.
pub open spec fn spec_delete_doc_range(segs: Seq<Segment>, start: int, end: int) -> Option<Seq<Segment>> {
    if start >= end {
        Some(segs)
    } else {
        match spec_ensure_boundary(segs, start) {
            None => None,
            Some(b1) => match spec_ensure_boundary(b1.0, end) {
                None => None,
                Some(b2) => {
                    let si = b1.1;
                    let ei = b2.1;
                    if si > ei || ei > b2.0.len() || si < 0 {
                        None
                    } else {
                        let s3 = b2.0.subrange(0, si) + b2.0.subrange(ei, b2.0.len() as int);
                        let s4 = if si > 0 { spec_try_merge_pair(s3, si - 1) } else { Some(s3) };
                        match s4 {
                            None => None,
                            Some(s) => if si < s.len() { spec_try_merge_pair(s, si) } else { Some(s) },
                        }
                    }
                },
            },
        }
    }
}

/// Inserts `len` characters anchored at base position `anchor`, at the
/// document position of that base position.
pub open spec fn spec_insert_at_base(segs: Seq<Segment>, anchor: int, len: int) -> Option<Seq<Segment>> {
    if len == 0 {
        Some(segs)
    } else {
        match spec_doc_pos_for_base(segs, anchor) {
            None => None,
            Some(dp) => match spec_ensure_boundary(segs, dp) {
                None => None,
                Some(b) => insert_segment(b.0, b.1, anchor, len),
            },
        }
    }
}

/// Removes the base range `base_start .. base_start + len`, through the
/// document positions of its two ends.
pub open spec fn spec_delete_base_range(segs: Seq<Segment>, base_start: int, len: int) -> Option<Seq<Segment>> {
    if len == 0 {
        Some(segs)
    } else if !fits64(base_start + len) {
        None
    } else {
        match spec_doc_pos_for_base(segs, base_start) {
            None => None,
            Some(ds) => match spec_doc_pos_for_base(segs, base_start + len) {
                None => None,
                Some(de) => spec_delete_doc_range(segs, ds, de),
            },
        }
    }
}

/// Applies, from index `i`, the delete ranges of a sequential list.
pub open spec fn canon_deletes(segs: Seq<Segment>, ops: Seq<(InsertPos, Length)>, i: int) -> Option<Seq<Segment>>
    decreases ops.len() - i,
{
    if i >= ops.len() || i < 0 {
        Some(segs)
    } else if ops[i].1 < 0 {
        match spec_delete_base_range(segs, ops[i].0 as int, -ops[i].1) {
            None => None,
            Some(s) => canon_deletes(s, ops, i + 1),
        }
    } else {
        canon_deletes(segs, ops, i + 1)
    }
}

/// Applies, from index `i`, the insert ranges of a sequential list.
pub open spec fn canon_inserts(segs: Seq<Segment>, ops: Seq<(InsertPos, Length)>, i: int) -> Option<Seq<Segment>>
    decreases ops.len() - i,
{
    if i >= ops.len() || i < 0 {
        Some(segs)
    } else if ops[i].1 > 0 {
        match spec_insert_at_base(segs, ops[i].0 as int, ops[i].1 as int) {
            None => None,
            Some(s) => canon_inserts(s, ops, i + 1),
        }
    } else {
        canon_inserts(segs, ops, i + 1)
    }
}

/// The document after applying the sequential list `ops`: all of its deletes,
/// then all of its inserts.
pub open spec fn spec_apply_canonical_state(segs: Seq<Segment>, ops: Seq<(InsertPos, Length)>) -> Option<Seq<Segment>> {
    if ops.len() == 0 {
        Some(segs)
    } else {
        match canon_deletes(segs, ops, 0) {
            None => None,
            Some(s) => canon_inserts(s, ops, 0),
        }
    }
}

/// The delete operations of the base segments from `i`: one for each gap
/// between the base covered so far (up to `expected`) and the next base
/// segment, stopping once the base text is covered.
pub open spec fn delete_ops_walk(segs: Seq<Segment>, i: int, expected: int, out: Seq<Op>) -> Option<Seq<Op>>
    decreases segs.len() - i,
{
    if i >= segs.len() || i < 0 {
        Some(out)
    } else {
        let seg = segs[i];
        match seg.kind {
            SegmentKind::Base { start } => {
                let out1: Option<Seq<Op>> = if start > expected {
                    if fits32(expected) && fits32(start - expected) {
                        Some(out.push(Op { ins: expected as i32, len: (-(start - expected)) as i32 }))
                    } else {
                        None
                    }
                } else {
                    Some(out)
                };
                match out1 {
                    None => None,
                    Some(o) => if !fits64(start + seg.len) {
                        None
                    } else if start + seg.len >= MAX_BASE_LEN {
                        Some(o)
                    } else {
                        delete_ops_walk(segs, i + 1, start + seg.len, o)
                    },
                }
            },
            SegmentKind::Insert { .. } => delete_ops_walk(segs, i + 1, expected, out),
        }
    }
}

/// The insert operations of the insert segments from `i`, runs with the same
/// anchor joined, each tagged with its order of appearance.
pub open spec fn insert_ops_walk(segs: Seq<Segment>, i: int, order: int, out: Seq<(Op, usize)>) -> Option<Seq<(Op, usize)>>
    decreases segs.len() - i,
{
    if i >= segs.len() || i < 0 {
        Some(out)
    } else {
        let seg = segs[i];
        match seg.kind {
            SegmentKind::Insert { anchor } => if seg.len == 0 {
                insert_ops_walk(segs, i + 1, order, out)
            } else if !fits32(anchor as int) || !fits32(seg.len as int) {
                None
            } else if out.len() > 0 && out.last().0.ins == anchor {
                let l = out.last().0;
                if fits32(l.len + seg.len) {
                    insert_ops_walk(segs, i + 1, order,
                        out.update(out.len() - 1, (Op { ins: l.ins, len: (l.len + seg.len) as i32 }, out.last().1)))
                } else {
                    None
                }
            } else if order >= usize::MAX {
                None
            } else {
                insert_ops_walk(segs, i + 1, order + 1, out.push((Op { ins: anchor as i32, len: seg.len as i32 }, order as usize)))
            },
            SegmentKind::Base { .. } => insert_ops_walk(segs, i + 1, order, out),
        }
    }
}

/// How an operation is ordered among operations at the same position.
#[derive(Clone, Copy, Debug, PartialEq, Eq, Structural)]
pub enum OrderKey {
    Insert(usize),
    Delete,
}

/// `a` may stand before `b` in the output: a smaller position first; at the
/// same position inserts in their order of appearance, then deletes.
pub open spec fn key_le(a: (Op, OrderKey), b: (Op, OrderKey)) -> bool {
    a.0.ins < b.0.ins || (a.0.ins == b.0.ins && match (a.1, b.1) {
        (OrderKey::Insert(x), OrderKey::Insert(y)) => x <= y,
        (OrderKey::Insert(_), OrderKey::Delete) => true,
        (OrderKey::Delete, OrderKey::Insert(_)) => false,
        (OrderKey::Delete, OrderKey::Delete) => true,
    })
}

/// `x` inserted into `s` after every element that may stand before it.
pub open spec fn insert_sorted(s: Seq<(Op, OrderKey)>, x: (Op, OrderKey)) -> Seq<(Op, OrderKey)>
    decreases s.len(),
{
    if s.len() == 0 {
        seq![x]
    } else if key_le(s.last(), x) {
        s.push(x)
    } else {
        insert_sorted(s.drop_last(), x).push(s.last())
    }
}

/// The stable sort of `s` by position and order key.
pub open spec fn stable_sort(s: Seq<(Op, OrderKey)>) -> Seq<(Op, OrderKey)>
    decreases s.len(),
{
    if s.len() == 0 {
        s
    } else {
        insert_sorted(stable_sort(s.drop_last()), s.last())
    }
}

/// The deletes followed by the inserts, each tagged with its order key.
pub open spec fn tagged(deletes: Seq<Op>, inserts: Seq<(Op, usize)>) -> Seq<(Op, OrderKey)> {
    deletes.map_values(|d: Op| (d, OrderKey::Delete))
        + inserts.map_values(|p: (Op, usize)| (p.0, OrderKey::Insert(p.1)))
}

/// The sequential list of a document: its deletes and inserts, sorted.
pub open spec fn spec_into_oplist(segs: Seq<Segment>) -> Option<Seq<Op>> {
    match delete_ops_walk(segs, 0, 0, Seq::empty()) {
        None => None,
        Some(d) => match insert_ops_walk(segs, 0, 0, Seq::empty()) {
            None => None,
            Some(ins) => Some(stable_sort(tagged(d, ins)).map_values(|p: (Op, OrderKey)| p.0)),
        },
    }
}

/// Converts a length to an `i32`.
pub fn to_length(value: i64) -> (res: Length)
    requires
        fits32(value as int),
    ensures
        res == value,
{
    value as Length
}

/// Converts a position to an `i32`.
pub fn to_insert_pos(value: i64) -> (res: InsertPos)
    requires
        fits32(value as int),
    ensures
        res == value,
{
    value as InsertPos
}

/// The entries of `s` are in order of `key_le`.
pub open spec fn key_sorted(s: Seq<(Op, OrderKey)>) -> bool {
    forall|i: int, j: int| 0 <= i < j < s.len() ==> key_le(#[trigger] s[i], #[trigger] s[j])
}

proof fn lemma_key_le_total(a: (Op, OrderKey), b: (Op, OrderKey))
    ensures
        key_le(a, b) || key_le(b, a),
        key_le(a, a),
{
}

proof fn lemma_key_le_trans(a: (Op, OrderKey), b: (Op, OrderKey), c: (Op, OrderKey))
    requires
        key_le(a, b),
        key_le(b, c),
    ensures
        key_le(a, c),
{
}

/// Inserting into a sorted sequence keeps it sorted and adds exactly `x`.
proof fn lemma_insert_sorted_keeps_order(s: Seq<(Op, OrderKey)>, x: (Op, OrderKey))
    requires
        key_sorted(s),
    ensures
        key_sorted(insert_sorted(s, x)),
        insert_sorted(s, x).to_multiset() == s.to_multiset().insert(x),
        forall|i: int| 0 <= i < insert_sorted(s, x).len() ==> #[trigger] insert_sorted(s, x)[i] == x
            || s.contains(insert_sorted(s, x)[i]),
    decreases s.len(),
{
    broadcast use vstd::multiset::group_multiset_axioms;
    broadcast use vstd::seq_lib::to_multiset_build;
    let r = insert_sorted(s, x);
    if s.len() == 0 {
        assert(s =~= Seq::<(Op, OrderKey)>::empty());
        assert(seq![x] == Seq::<(Op, OrderKey)>::empty().push(x));
        assert(Seq::<(Op, OrderKey)>::empty().to_multiset() =~= vstd::multiset::Multiset::empty()) by {
            vstd::seq_lib::to_multiset_len(Seq::<(Op, OrderKey)>::empty());
        }
    } else if key_le(s.last(), x) {
        assert forall|i: int, j: int| 0 <= i < j < r.len() implies key_le(#[trigger] r[i], #[trigger] r[j]) by {
            if j == s.len() {
                if i < s.len() - 1 {
                    lemma_key_le_trans(s[i], s.last(), x);
                }
            }
        }
        assert forall|i: int| 0 <= i < r.len() implies #[trigger] r[i] == x || s.contains(r[i]) by {
            if i < s.len() {
                assert(s[i] == r[i]);
            }
        }
    } else {
        let t = s.drop_last();
        let l = s.last();
        assert(key_sorted(t)) by {
            assert forall|i: int, j: int| 0 <= i < j < t.len() implies key_le(#[trigger] t[i], #[trigger] t[j]) by {
                assert(t[i] == s[i] && t[j] == s[j]);
            }
        }
        lemma_insert_sorted_keeps_order(t, x);
        let r1 = insert_sorted(t, x);
        lemma_key_le_total(l, x);
        assert forall|i: int| 0 <= i < r1.len() implies key_le(#[trigger] r1[i], l) by {
            if r1[i] != x {
                assert(t.contains(r1[i]));
                let k = choose|k: int| 0 <= k < t.len() && t[k] == r1[i];
                assert(s[k] == t[k]);
                assert(key_le(s[k], s[s.len() - 1]));
            }
        }
        assert forall|i: int, j: int| 0 <= i < j < r.len() implies key_le(#[trigger] r[i], #[trigger] r[j]) by {
            if j == r1.len() {
                assert(r[i] == r1[i]);
            } else {
                assert(r[i] == r1[i] && r[j] == r1[j]);
            }
        }
        assert(s == t.push(l));
        assert forall|i: int| 0 <= i < r.len() implies #[trigger] r[i] == x || s.contains(r[i]) by {
            if i < r1.len() {
                assert(r[i] == r1[i]);
                if r1[i] != x {
                    let k = choose|k: int| 0 <= k < t.len() && t[k] == r1[i];
                    assert(s[k] == t[k]);
                }
            } else {
                assert(s[s.len() - 1] == r[i]);
            }
        }
        assert(r.to_multiset() =~= s.to_multiset().insert(x));
    }
}

/// The stable sort is sorted and holds exactly the entries it was given.
pub proof fn lemma_stable_sort(s: Seq<(Op, OrderKey)>)
    ensures
        key_sorted(stable_sort(s)),
        stable_sort(s).to_multiset() == s.to_multiset(),
    decreases s.len(),
{
    broadcast use vstd::multiset::group_multiset_axioms;
    broadcast use vstd::seq_lib::to_multiset_build;
    if s.len() == 0 {
    } else {
        lemma_stable_sort(s.drop_last());
        lemma_insert_sorted_keeps_order(stable_sort(s.drop_last()), s.last());
        assert(s == s.drop_last().push(s.last()));
    }
}

/// The sequential list of a document is its delete and insert operations,
/// each exactly once, sorted by position (at one position inserts in their
/// order of appearance, then deletes).
pub proof fn law_into_oplist_sorted(segs: Seq<Segment>)
    requires
        spec_into_oplist(segs) is Some,
    ensures
        ({
            let d = delete_ops_walk(segs, 0, 0, Seq::empty())->0;
            let ins = insert_ops_walk(segs, 0, 0, Seq::empty())->0;
            let sorted = stable_sort(tagged(d, ins));
            &&& key_sorted(sorted)
            &&& sorted.to_multiset() == tagged(d, ins).to_multiset()
            &&& spec_into_oplist(segs)->0 == sorted.map_values(|p: (Op, OrderKey)| p.0)
        }),
        forall|i: int, j: int| 0 <= i < j < (spec_into_oplist(segs)->0).len()
            ==> (#[trigger] (spec_into_oplist(segs)->0)[i]).ins <= (#[trigger] (spec_into_oplist(segs)->0)[j]).ins,
{
    let d = delete_ops_walk(segs, 0, 0, Seq::empty())->0;
    let ins = insert_ops_walk(segs, 0, 0, Seq::empty())->0;
    let sorted = stable_sort(tagged(d, ins));
    lemma_stable_sort(tagged(d, ins));
    let res = spec_into_oplist(segs)->0;
    assert forall|i: int, j: int| 0 <= i < j < res.len() implies (#[trigger] res[i]).ins <= (#[trigger] res[j]).ins by {
        assert(key_le(sorted[i], sorted[j]));
    }
}

impl Document {
    /// A document holding the whole base text and nothing else.
    pub fn new() -> (d: Self)
        ensures
            d.segments@ == seq![Segment { kind: SegmentKind::Base { start: 0 }, len: MAX_BASE_LEN }],
    {
        let mut segments: Vec<Segment> = Vec::new();
        segments.push(Segment { kind: SegmentKind::Base { start: 0 }, len: MAX_BASE_LEN });
        Self { segments }
    }

    /// Splits the segments so that a segment starts at document position
    /// `doc_pos`; returns its index and the base position there.
    pub fn ensure_boundary(&mut self, doc_pos: i64) -> (res: (usize, i64))
        requires
            spec_ensure_boundary(old(self).segments@, doc_pos as int) is Some,
        ensures
            (final(self).segments@, res.0 as int, res.1 as int)
                == spec_ensure_boundary(old(self).segments@, doc_pos as int)->0,
            segs_wf(old(self).segments@) ==> {
                &&& segs_wf(final(self).segments@)
                &&& seg_items(final(self).segments@) == seg_items(old(self).segments@)
                &&& res.0 <= final(self).segments@.len()
                &&& seg_items(final(self).segments@.take(res.0 as int)).len() == (if doc_pos <= seg_items(old(self).segments@).len() {
                    doc_pos as int
                } else {
                    seg_items(old(self).segments@).len() as int
                })
            },
            segs_wf(old(self).segments@) && segs_pos(old(self).segments@) ==> res.1 == anchor_at(seg_items(old(self).segments@),
                if doc_pos <= seg_items(old(self).segments@).len() { doc_pos as int } else { seg_items(old(self).segments@).len() as int }),
    {
        proof {
            if segs_wf(self.segments@) {
                lemma_ensure_boundary(self.segments@, doc_pos as int);
                if segs_pos(self.segments@) {
                    law_ensure_boundary_anchor(self.segments@, doc_pos as int);
                }
            }
        }
        let ghost segs = self.segments@;
        let mut cursor: i64 = 0;
        let mut anchor_at_cursor: i64 = 0;
        let n = self.segments.len();
        let mut idx: usize = 0;
        while idx < n
            invariant
                segs == self.segments@,
                segs == old(self).segments@,
                n == segs.len(),
                idx <= n,
                doc_pos >= 0,
                boundary_walk(segs, doc_pos as int, idx as int, cursor as int, anchor_at_cursor as int)
                    == spec_ensure_boundary(segs, doc_pos as int),
                spec_ensure_boundary(segs, doc_pos as int) is Some,
                segs_wf(segs) ==> ({
                    let b = spec_ensure_boundary(segs, doc_pos as int)->0;
                    &&& segs_wf(b.0)
                    &&& seg_items(b.0) == seg_items(segs)
                    &&& 0 <= b.1 <= b.0.len()
                    &&& seg_items(b.0.take(b.1)).len() == (if doc_pos <= seg_items(segs).len() {
                        doc_pos as int
                    } else {
                        seg_items(segs).len() as int
                    })
                }),
                segs_wf(segs) && segs_pos(segs) ==> (spec_ensure_boundary(segs, doc_pos as int)->0).2 == anchor_at(seg_items(segs),
                    if doc_pos <= seg_items(segs).len() { doc_pos as int } else { seg_items(segs).len() as int }),
            decreases n - idx,
        {
            let seg = self.segments[idx];
            let seg_len = seg.len;
            if doc_pos == cursor {
                return (idx, anchor_at_cursor);
            }
            if doc_pos < cursor + seg_len {
                let offset = doc_pos - cursor;
                let anchor = match seg.kind {
                    SegmentKind::Base { start } => start + offset,
                    SegmentKind::Insert { anchor } => anchor,
                };
                if offset == 0 {
                    return (idx, anchor);
                }
                let right_kind = match seg.kind {
                    SegmentKind::Base { start } => SegmentKind::Base { start: start + offset },
                    SegmentKind::Insert { anchor } => SegmentKind::Insert { anchor },
                };
                let right = Segment { kind: right_kind, len: seg_len - offset };
                self.segments.set(idx, Segment { kind: seg.kind, len: offset });
                self.segments.insert(idx + 1, right);
                return (idx + 1, anchor);
            }
            cursor += seg_len;
            anchor_at_cursor = match seg.kind {
                SegmentKind::Base { start } => start + seg_len,
                SegmentKind::Insert { anchor } => anchor,
            };
            idx += 1;
        }
        (n, anchor_at_cursor)
    }

    /// The document position of base position `base_pos`.
    pub fn doc_pos_for_base(&self, base_pos: i64) -> (res: i64)
        requires
            spec_doc_pos_for_base(self.segments@, base_pos as int) is Some,
        ensures
            res == spec_doc_pos_for_base(self.segments@, base_pos as int)->0,
    {
        let ghost segs = self.segments@;
        let mut doc_cursor: i64 = 0;
        let n = self.segments.len();
        let mut i: usize = 0;
        while i < n
            invariant
                segs == self.segments@,
                n == segs.len(),
                i <= n,
                base_pos_walk(segs, base_pos as int, i as int, doc_cursor as int)
                    == spec_doc_pos_for_base(segs, base_pos as int),
                spec_doc_pos_for_base(segs, base_pos as int) is Some,
            decreases n - i,
        {
            let seg = self.segments[i];
            match seg.kind {
                SegmentKind::Base { start } => {
                    if base_pos < start {
                        return doc_cursor;
                    }
                    let end = start + seg.len;
                    if base_pos <= end {
                        return doc_cursor + (base_pos - start);
                    }
                    doc_cursor += seg.len;
                },
                SegmentKind::Insert { anchor } => {
                    if base_pos == anchor {
                        return doc_cursor;
                    }
                    doc_cursor += seg.len;
                },
            }
            i += 1;
        }
        doc_cursor
    }

    /// Tries to join the segment at `idx` with its neighbors.
    pub fn merge_neighbors(&mut self, idx: usize)
        requires
            spec_merge_neighbors(old(self).segments@, idx as int) is Some,
        ensures
            final(self).segments@ == spec_merge_neighbors(old(self).segments@, idx as int)->0,
    {
        if idx > 0 {
            self.try_merge_pair(idx - 1);
        }
        self.try_merge_pair(idx);
    }

    /// Joins the segments at `left` and `left + 1` when they continue each other.
    pub fn try_merge_pair(&mut self, left: usize)
        requires
            spec_try_merge_pair(old(self).segments@, left as int) is Some,
        ensures
            final(self).segments@ == spec_try_merge_pair(old(self).segments@, left as int)->0,
    {
        if left >= self.segments.len() || left + 1 >= self.segments.len() {
            return;
        }
        let l = self.segments[left];
        let r = self.segments[left + 1];
        let can_merge = match (l.kind, r.kind) {
            (SegmentKind::Base { start: left_start }, SegmentKind::Base { start: right_start }) => {
                let expected = left_start + l.len;
                expected == right_start
            },
            (SegmentKind::Insert { anchor: left_anchor }, SegmentKind::Insert { anchor: right_anchor }) => {
                left_anchor == right_anchor
            },
            _ => false,
        };
        if !can_merge {
            return;
        }
        self.segments.set(left, Segment { kind: l.kind, len: l.len + r.len });
        self.segments.remove(left + 1);
    }

    /// Inserts `len` characters at document position `doc_pos`.
    pub fn insert_at_doc(&mut self, doc_pos: i64, len: i64)
        requires
            spec_insert_at_doc(old(self).segments@, doc_pos as int, len as int) is Some,
        ensures
            final(self).segments@ == spec_insert_at_doc(old(self).segments@, doc_pos as int, len as int)->0,
            segs_wf(old(self).segments@) && 0 <= doc_pos <= seg_items(old(self).segments@).len() && 0 < len ==> {
                &&& segs_wf(final(self).segments@)
                &&& seg_items(final(self).segments@) == seg_items(old(self).segments@).take(doc_pos as int)
                    + crate::doc_view::run_items(boundary_anchor(old(self).segments@, doc_pos as int), len as int)
                    + seg_items(old(self).segments@).skip(doc_pos as int)
            },
    {
        proof {
            if segs_wf(self.segments@) && 0 <= doc_pos <= seg_items(self.segments@).len() && 0 < len {
                law_insert_at_doc_view(self.segments@, doc_pos as int, len as int);
            }
        }
        if len == 0 {
            return;
        }
        let (idx, anchor) = self.ensure_boundary(doc_pos);
        self.segments.insert(idx, Segment { kind: SegmentKind::Insert { anchor }, len });
        self.merge_neighbors(idx);
    }

    /// Removes the document range `start .. end`.
    pub fn delete_doc_range(&mut self, start: i64, end: i64)
        requires
            spec_delete_doc_range(old(self).segments@, start as int, end as int) is Some,
        ensures
            final(self).segments@ == spec_delete_doc_range(old(self).segments@, start as int, end as int)->0,
            segs_wf(old(self).segments@) && 0 <= start <= end <= seg_items(old(self).segments@).len() ==> {
                &&& segs_wf(final(self).segments@)
                &&& seg_items(final(self).segments@)
                    == seg_items(old(self).segments@).take(start as int) + seg_items(old(self).segments@).skip(end as int)
            },
    {
        proof {
            if segs_wf(self.segments@) && 0 <= start <= end <= seg_items(self.segments@).len() {
                law_delete_doc_range_view(self.segments@, start as int, end as int);
            }
        }
        if start >= end {
            return;
        }
        let (start_idx, _) = self.ensure_boundary(start);
        let (end_idx, _) = self.ensure_boundary(end);
        let ghost s2 = self.segments@;
        let mut kept: Vec<Segment> = Vec::new();
        let n = self.segments.len();
        let mut k: usize = 0;
        while k < n
            invariant
                s2 == self.segments@,
                n == s2.len(),
                start_idx <= end_idx <= n,
                k <= n,
                kept@ == (if k <= start_idx { s2.subrange(0, k as int) } else if k <= end_idx { s2.subrange(0, start_idx as int) } else { s2.subrange(0, start_idx as int) + s2.subrange(end_idx as int, k as int) }),
            decreases n - k,
        {
            if k < start_idx || k >= end_idx {
                kept.push(self.segments[k]);
            }
            proof {
                if k < start_idx {
                    assert(s2.subrange(0, k as int + 1) == s2.subrange(0, k as int).push(s2[k as int]));
                } else if k >= end_idx {
                    assert(s2.subrange(end_idx as int, k as int + 1) == s2.subrange(end_idx as int, k as int).push(s2[k as int]));
                }
            }
            k += 1;
        }
        self.segments = kept;
        if start_idx > 0 {
            self.try_merge_pair(start_idx - 1);
        }
        if start_idx < self.segments.len() {
            self.try_merge_pair(start_idx);
        }
    }

    /// Inserts `len` characters anchored at base position `anchor`.
    pub fn insert_at_base(&mut self, anchor: i64, len: i64)
        requires
            spec_insert_at_base(old(self).segments@, anchor as int, len as int) is Some,
        ensures
            final(self).segments@ == spec_insert_at_base(old(self).segments@, anchor as int, len as int)->0,
    {
        if len == 0 {
            return;
        }
        let doc_pos = self.doc_pos_for_base(anchor);
        let (idx, _) = self.ensure_boundary(doc_pos);
        self.segments.insert(idx, Segment { kind: SegmentKind::Insert { anchor }, len });
        self.merge_neighbors(idx);
    }

    /// Removes the base range `base_start .. base_start + len`.
    pub fn delete_base_range(&mut self, base_start: i64, len: i64)
        requires
            spec_delete_base_range(old(self).segments@, base_start as int, len as int) is Some,
        ensures
            final(self).segments@ == spec_delete_base_range(old(self).segments@, base_start as int, len as int)->0,
    {
        if len == 0 {
            return;
        }
        let doc_start = self.doc_pos_for_base(base_start);
        let doc_end = self.doc_pos_for_base(base_start + len);
        self.delete_doc_range(doc_start, doc_end);
    }

    /// Applies a sequential list: all of its deletes, then all of its inserts.
    pub fn apply_canonical_state(&mut self, ops: &[(InsertPos, Length)])
        requires
            spec_apply_canonical_state(old(self).segments@, ops@) is Some,
        ensures
            final(self).segments@ == spec_apply_canonical_state(old(self).segments@, ops@)->0,
    {
        if ops.len() == 0 {
            return;
        }
        let ghost s0 = self.segments@;
        let n = ops.len();
        let mut i: usize = 0;
        while i < n
            invariant
                n == ops@.len(),
                i <= n,
                canon_deletes(self.segments@, ops@, i as int) == canon_deletes(s0, ops@, 0),
                canon_deletes(s0, ops@, 0) is Some,
            decreases n - i,
        {
            let (ins, len) = ops[i];
            if len < 0 {
                self.delete_base_range(ins as i64, -(len as i64));
            }
            i += 1;
        }
        let ghost s1 = self.segments@;
        let mut j: usize = 0;
        while j < n
            invariant
                n == ops@.len(),
                j <= n,
                canon_inserts(self.segments@, ops@, j as int) == canon_inserts(s1, ops@, 0),
                canon_inserts(s1, ops@, 0) == spec_apply_canonical_state(s0, ops@),
                spec_apply_canonical_state(s0, ops@) is Some,
            decreases n - j,
        {
            let (ins, len) = ops[j];
            if len > 0 {
                self.insert_at_base(ins as i64, len as i64);
            }
            j += 1;
        }
    }

    /// The delete operations of the document, in base coordinates.
    pub fn collect_delete_ops(&self) -> (res: Vec<Op>)
        requires
            delete_ops_walk(self.segments@, 0, 0, Seq::empty()) is Some,
        ensures
            res@ == delete_ops_walk(self.segments@, 0, 0, Seq::empty())->0,
    {
        let ghost segs = self.segments@;
        let mut deletes: Vec<Op> = Vec::new();
        let mut expected_start: i64 = 0;
        let n = self.segments.len();
        let mut i: usize = 0;
        while i < n
            invariant_except_break
                delete_ops_walk(segs, i as int, expected_start as int, deletes@)
                    == delete_ops_walk(segs, 0, 0, Seq::empty()),
            invariant
                segs == self.segments@,
                n == segs.len(),
                i <= n,
                delete_ops_walk(segs, 0, 0, Seq::empty()) is Some,
            ensures
                delete_ops_walk(segs, 0, 0, Seq::empty()) == Some(deletes@),
            decreases n - i,
        {
            let seg = self.segments[i];
            match seg.kind {
                SegmentKind::Base { start } => {
                    if start > expected_start {
                        let len = start - expected_start;
                        deletes.push(Op { ins: to_insert_pos(expected_start), len: -to_length(len) });
                    }
                    expected_start = start + seg.len;
                    if expected_start >= MAX_BASE_LEN {
                        break;
                    }
                },
                SegmentKind::Insert { .. } => {},
            }
            i += 1;
        }
        deletes
    }

    /// The insert operations of the document, runs with the same anchor joined,
    /// each with its order of appearance.
    pub fn collect_insert_ops(&self) -> (res: Vec<(Op, usize)>)
        requires
            insert_ops_walk(self.segments@, 0, 0, Seq::empty()) is Some,
        ensures
            res@ == insert_ops_walk(self.segments@, 0, 0, Seq::empty())->0,
    {
        let ghost segs = self.segments@;
        let mut inserts: Vec<(Op, usize)> = Vec::new();
        let mut order: usize = 0;
        let n = self.segments.len();
        let mut i: usize = 0;
        while i < n
            invariant
                segs == self.segments@,
                n == segs.len(),
                i <= n,
                insert_ops_walk(segs, i as int, order as int, inserts@)
                    == insert_ops_walk(segs, 0, 0, Seq::empty()),
                insert_ops_walk(segs, 0, 0, Seq::empty()) is Some,
            decreases n - i,
        {
            let seg = self.segments[i];
            match seg.kind {
                SegmentKind::Insert { anchor } => {
                    if seg.len != 0 {
                        let m = inserts.len();
                        let mut joined = false;
                        if m > 0 {
                            let (last_op, last_order) = inserts[m - 1];
                            if last_op.ins == to_insert_pos(anchor) {
                                inserts.set(m - 1, (Op { ins: last_op.ins, len: last_op.len + to_length(seg.len) }, last_order));
                                joined = true;
                            }
                        }
                        if !joined {
                            inserts.push((Op { ins: to_insert_pos(anchor), len: to_length(seg.len) }, order));
                            order += 1;
                        }
                    }
                },
                SegmentKind::Base { .. } => {},
            }
            i += 1;
        }
        inserts
    }
}


/// The position, counted from the front, where `insert_sorted` places `x`
/// among the first `j` elements of `s`: just after the last one that may
/// stand before it.
pub open spec fn back_pos(s: Seq<(Op, OrderKey)>, x: (Op, OrderKey), j: int) -> int
    decreases j,
{
    if j <= 0 {
        0
    } else if key_le(s[j - 1], x) {
        j
    } else {
        back_pos(s, x, j - 1)
    }
}

proof fn lemma_back_pos_prefix(s: Seq<(Op, OrderKey)>, x: (Op, OrderKey), j: int)
    requires
        0 <= j < s.len(),
    ensures
        back_pos(s, x, j) == back_pos(s.drop_last(), x, j),
        0 <= back_pos(s, x, j) <= j,
    decreases j,
{
    if j > 0 {
        lemma_back_pos_prefix(s, x, j - 1);
    }
}

proof fn lemma_insert_sorted(s: Seq<(Op, OrderKey)>, x: (Op, OrderKey))
    ensures
        0 <= back_pos(s, x, s.len() as int) <= s.len(),
        insert_sorted(s, x) == s.insert(back_pos(s, x, s.len() as int), x),
    decreases s.len(),
{
    if s.len() == 0 {
        assert(seq![x] == s.insert(0, x));
    } else if key_le(s.last(), x) {
        assert(s.push(x) == s.insert(s.len() as int, x));
    } else {
        let d = s.drop_last();
        lemma_insert_sorted(d, x);
        lemma_back_pos_prefix(s, x, s.len() - 1);
        let p = back_pos(s, x, s.len() as int);
        assert(p == back_pos(d, x, d.len() as int));
        assert(d.insert(p, x).push(s.last()) == s.insert(p, x));
    }
}

/// Whether `a` may stand before `b` in the output.
fn key_le_exec(a: &(Op, OrderKey), b: &(Op, OrderKey)) -> (res: bool)
    ensures
        res == key_le(*a, *b),
{
    if a.0.ins < b.0.ins {
        return true;
    }
    if a.0.ins != b.0.ins {
        return false;
    }
    match (a.1, b.1) {
        (OrderKey::Insert(x), OrderKey::Insert(y)) => x <= y,
        (OrderKey::Insert(_), OrderKey::Delete) => true,
        (OrderKey::Delete, OrderKey::Insert(_)) => false,
        (OrderKey::Delete, OrderKey::Delete) => true,
    }
}

/// Sorts tagged operations stably by position and order key.
fn sort_tagged(v: &Vec<(Op, OrderKey)>) -> (res: Vec<(Op, OrderKey)>)
    ensures
        res@ == stable_sort(v@),
{
    let mut out: Vec<(Op, OrderKey)> = Vec::new();
    let n = v.len();
    let mut i: usize = 0;
    while i < n
        invariant
            n == v@.len(),
            i <= n,
            out@ == stable_sort(v@.take(i as int)),
        decreases n - i,
    {
        let x = v[i];
        proof {
            assert(v@.take(i as int + 1).drop_last() == v@.take(i as int));
            assert(v@.take(i as int + 1).last() == x);
            lemma_insert_sorted(out@, x);
        }
        let ghost o = out@;
        let mut j = out.len();
        while j > 0 && !key_le_exec(&out[j - 1], &x)
            invariant
                out@ == o,
                j <= o.len(),
                back_pos(o, x, j as int) == back_pos(o, x, o.len() as int),
            decreases j,
        {
            j -= 1;
        }
        out.insert(j, x);
        i += 1;
    }
    proof {
        assert(v@.take(n as int) == v@);
    }
    out
}

impl Document {
    /// The sequential list of the document: its deletes and inserts in base
    /// coordinates, ordered by position, inserts before deletes at the same
    /// position.
    pub fn into_oplist(self) -> (res: OpList)
        requires
            spec_into_oplist(self.segments@) is Some,
        ensures
            res.ops@ == spec_into_oplist(self.segments@)->0,
            res.test_op is None,
            forall|i: int, j: int| 0 <= i < j < res.ops@.len() ==> (#[trigger] res.ops@[i]).ins <= (#[trigger] res.ops@[j]).ins,
    {
        proof {
            law_into_oplist_sorted(self.segments@);
        }
        let deletes = self.collect_delete_ops();
        let inserts = self.collect_insert_ops();
        let mut combined: Vec<(Op, OrderKey)> = Vec::new();
        let nd = deletes.len();
        let mut i: usize = 0;
        while i < nd
            invariant
                nd == deletes@.len(),
                i <= nd,
                combined@ == deletes@.take(i as int).map_values(|d: Op| (d, OrderKey::Delete)),
            decreases nd - i,
        {
            combined.push((deletes[i], OrderKey::Delete));
            proof {
                assert(deletes@.take(i as int + 1).map_values(|d: Op| (d, OrderKey::Delete))
                    == deletes@.take(i as int).map_values(|d: Op| (d, OrderKey::Delete)).push((deletes@[i as int], OrderKey::Delete)));
            }
            i += 1;
        }
        let ghost dpart = deletes@.map_values(|d: Op| (d, OrderKey::Delete));
        proof {
            assert(deletes@.take(nd as int) == deletes@);
        }
        let ni = inserts.len();
        let mut k: usize = 0;
        while k < ni
            invariant
                ni == inserts@.len(),
                k <= ni,
                combined@ == dpart + inserts@.take(k as int).map_values(|p: (Op, usize)| (p.0, OrderKey::Insert(p.1))),
            decreases ni - k,
        {
            let (op, order) = inserts[k];
            combined.push((op, OrderKey::Insert(order)));
            proof {
                assert(inserts@.take(k as int + 1).map_values(|p: (Op, usize)| (p.0, OrderKey::Insert(p.1)))
                    == inserts@.take(k as int).map_values(|p: (Op, usize)| (p.0, OrderKey::Insert(p.1))).push((op, OrderKey::Insert(order))));
            }
            k += 1;
        }
        proof {
            assert(inserts@.take(ni as int) == inserts@);
        }
        let sorted = sort_tagged(&combined);
        let mut ops: Vec<Op> = Vec::new();
        let ns = sorted.len();
        let mut m: usize = 0;
        while m < ns
            invariant
                ns == sorted@.len(),
                m <= ns,
                ops@ == sorted@.take(m as int).map_values(|p: (Op, OrderKey)| p.0),
            decreases ns - m,
        {
            ops.push(sorted[m].0);
            proof {
                assert(sorted@.take(m as int + 1).map_values(|p: (Op, OrderKey)| p.0)
                    == sorted@.take(m as int).map_values(|p: (Op, OrderKey)| p.0).push(sorted@[m as int].0));
            }
            m += 1;
        }
        proof {
            assert(sorted@.take(ns as int) == sorted@);
        }
        OpList { ops, test_op: None }
    }
}

} // verus!
