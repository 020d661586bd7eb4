//! The document that a list of segments stands for, and how the document
//! operations of the segment model act on it.

use vstd::prelude::*;
use crate::document::{
    Segment, SegmentKind, boundary_walk, after_anchor, spec_ensure_boundary, spec_try_merge_pair, spec_merge_neighbors,
    spec_insert_at_doc, spec_delete_doc_range, fits64,
};
use crate::doc_view::{DocItem, gap_items, run_items, lemma_gap_split, lemma_run_split};
use crate::doc_replay::plain;
use crate::ops::Op;
use crate::baseops::{segment_step, segment_replay, new_segments};
use crate::document::MAX_BASE_LEN;

verus! {

/// The characters of one segment: base characters `start .. start + len`,
/// or `len` characters inserted at its anchor.
pub open spec fn seg_item(seg: Segment) -> Seq<DocItem> {
    match seg.kind {
        SegmentKind::Base { start } => gap_items(start as int, start + seg.len),
        SegmentKind::Insert { anchor } => run_items(anchor as int, seg.len as int),
    }
}

/// The characters of a list of segments.
pub open spec fn seg_items(s: Seq<Segment>) -> Seq<DocItem>
    decreases s.len(),
{
    if s.len() == 0 {
        Seq::empty()
    } else {
        seg_item(s[0]) + seg_items(s.drop_first())
    }
}

/// Every segment has a length of zero or more.
pub open spec fn segs_wf(s: Seq<Segment>) -> bool {
    forall|m: int| 0 <= m < s.len() ==> #[trigger] s[m].len >= 0
}

pub proof fn lemma_seg_item_len(seg: Segment)
    requires
        seg.len >= 0,
    ensures
        seg_item(seg).len() == seg.len,
{
}

pub proof fn lemma_seg_items_concat(a: Seq<Segment>, b: Seq<Segment>)
    ensures
        seg_items(a + b) == seg_items(a) + seg_items(b),
    decreases a.len(),
{
    if a.len() == 0 {
        assert(a + b == b);
        assert(Seq::<DocItem>::empty() + seg_items(b) == seg_items(b));
    } else {
        assert((a + b)[0] == a[0]);
        assert((a + b).drop_first() == a.drop_first() + b);
        lemma_seg_items_concat(a.drop_first(), b);
        assert(seg_items(a + b) == seg_item(a[0]) + (seg_items(a.drop_first()) + seg_items(b)));
    }
}

pub proof fn lemma_seg_items_single(seg: Segment)
    ensures
        seg_items(seq![seg]) == seg_item(seg),
{
    assert(seq![seg][0] == seg);
    assert(seq![seg].drop_first() =~= Seq::<Segment>::empty());
    assert(seg_items(seq![seg].drop_first()) == Seq::<DocItem>::empty());
    assert(seg_item(seg) + Seq::<DocItem>::empty() == seg_item(seg));
}

/// The characters of the segments split around index `k`.
pub proof fn lemma_seg_items_at(s: Seq<Segment>, k: int)
    requires
        0 <= k < s.len(),
    ensures
        seg_items(s) == seg_items(s.take(k)) + seg_item(s[k]) + seg_items(s.skip(k + 1)),
{
    assert(s == s.take(k) + seq![s[k]] + s.skip(k + 1));
    lemma_seg_items_concat(s.take(k) + seq![s[k]], s.skip(k + 1));
    lemma_seg_items_concat(s.take(k), seq![s[k]]);
    lemma_seg_items_single(s[k]);
}

/// The length of the characters of well-formed segments grows with the prefix taken.
pub proof fn lemma_seg_prefix_monotone(s: Seq<Segment>, a: int, b: int)
    requires
        segs_wf(s),
        0 <= a <= b <= s.len(),
    ensures
        seg_items(s.take(a)).len() <= seg_items(s.take(b)).len(),
{
    assert(s.take(b) == s.take(a) + s.take(b).skip(a));
    lemma_seg_items_concat(s.take(a), s.take(b).skip(a));
}

/// Splitting a segment at a point inside it leaves the characters unchanged.
proof fn lemma_split_item(seg: Segment, offset: int)
    requires
        0 < offset < seg.len,
        fits64(after_start(seg) + offset),
    ensures
        ({
            let right_kind = match seg.kind {
                SegmentKind::Base { start } => SegmentKind::Base { start: (start + offset) as i64 },
                SegmentKind::Insert { anchor } => SegmentKind::Insert { anchor },
            };
            seg_item(seg) == seg_item(Segment { kind: seg.kind, len: offset as i64 })
                + seg_item(Segment { kind: right_kind, len: (seg.len - offset) as i64 })
        }),
{
    match seg.kind {
        SegmentKind::Base { start } => {
            lemma_gap_split(start as int, start + offset, start + seg.len);
        },
        SegmentKind::Insert { anchor } => {
            lemma_run_split(anchor as int, offset, seg.len - offset);
        },
    }
}

/// The start of a base segment (zero for an insert segment).
pub open spec fn after_start(seg: Segment) -> int {
    match seg.kind {
        SegmentKind::Base { start } => start as int,
        SegmentKind::Insert { .. } => 0,
    }
}

/// Joining two neighbors leaves the characters unchanged.
pub proof fn lemma_try_merge_pair(s: Seq<Segment>, left: int)
    requires
        segs_wf(s),
        spec_try_merge_pair(s, left) is Some,
    ensures
        seg_items(spec_try_merge_pair(s, left)->0) == seg_items(s),
        segs_wf(spec_try_merge_pair(s, left)->0),
{
    if 0 <= left && left + 1 < s.len() {
        let s2 = spec_try_merge_pair(s, left)->0;
        let l = s[left];
        let r = s[left + 1];
        if s2 != s {
            let m = Segment { kind: l.kind, len: (l.len + r.len) as i64 };
            assert(s == s.take(left) + seq![l, r] + s.skip(left + 2));
            assert(s2 == s.take(left) + seq![m] + s.skip(left + 2));
            assert(seq![l, r] == seq![l] + seq![r]);
            lemma_seg_items_concat(s.take(left) + seq![l, r], s.skip(left + 2));
            lemma_seg_items_concat(s.take(left), seq![l, r]);
            lemma_seg_items_concat(seq![l], seq![r]);
            lemma_seg_items_single(l);
            lemma_seg_items_single(r);
            lemma_seg_items_concat(s.take(left) + seq![m], s.skip(left + 2));
            lemma_seg_items_concat(s.take(left), seq![m]);
            lemma_seg_items_single(m);
            match (l.kind, r.kind) {
                (SegmentKind::Base { start: ls }, SegmentKind::Base { start: rs }) => {
                    lemma_gap_split(ls as int, ls + l.len, ls + l.len + r.len);
                },
                (SegmentKind::Insert { anchor: la }, SegmentKind::Insert { anchor: ra }) => {
                    lemma_run_split(la as int, l.len as int, r.len as int);
                },
                _ => {},
            }
            assert forall|k: int| 0 <= k < s2.len() implies #[trigger] s2[k].len >= 0 by {
                if k < left {
                    assert(s2[k] == s[k]);
                } else if k > left {
                    assert(s2[k] == s[k + 1]);
                }
            }
        }
    }
}

/// Splitting at document position `p`: the characters stay the same, and the
/// returned index is where the characters before `p` end. Where a segment
/// was split, the segments before it are unchanged and it held `p` strictly inside.
proof fn lemma_boundary_walk(segs: Seq<Segment>, p: int, idx: int, cursor: int, anc: int)
    requires
        segs_wf(segs),
        0 <= idx <= segs.len(),
        cursor == seg_items(segs.take(idx)).len(),
        cursor <= p,
        fits64(anc),
        anc == (if idx == 0 { 0 } else { after_anchor(segs[idx - 1]) }),
        boundary_walk(segs, p, idx, cursor, anc) is Some,
    ensures
        ({
            let (s2, j, a) = boundary_walk(segs, p, idx, cursor, anc)->0;
            &&& a == (if j == 0 { 0 } else { after_anchor(s2[j - 1]) })
            &&& segs_pos(segs) ==> segs_pos(s2)
            &&& seg_items(s2) == seg_items(segs)
            &&& segs_wf(s2)
            &&& idx <= j <= s2.len()
            &&& fits64(a)
            &&& seg_items(s2.take(j)).len() == (if p <= seg_items(segs).len() { p } else { seg_items(segs).len() as int })
            &&& s2 == segs || (idx < j <= segs.len() && s2.take(j - 1) == segs.take(j - 1)
                && seg_items(segs.take(j - 1)).len() < p < seg_items(segs.take(j)).len())
        }),
    decreases segs.len() - idx,
{
    let n = segs.len() as int;
    if idx == n {
        assert(segs.take(n) =~= segs);
    } else {
        let seg = segs[idx];
        assert(segs.take(idx + 1) == segs.take(idx) + seq![seg]);
        lemma_seg_items_concat(segs.take(idx), seq![seg]);
        lemma_seg_items_single(seg);
        lemma_seg_item_len(seg);
        lemma_seg_prefix_monotone(segs, idx + 1, n);
        assert(segs.take(n) =~= segs);
        if p == cursor {
            lemma_seg_prefix_monotone(segs, idx, n);
        } else if p < cursor + seg.len {
            let offset = p - cursor;
            let right_kind = match seg.kind {
                SegmentKind::Base { start } => SegmentKind::Base { start: (start + offset) as i64 },
                SegmentKind::Insert { anchor } => SegmentKind::Insert { anchor },
            };
            let left = Segment { kind: seg.kind, len: offset as i64 };
            let right = Segment { kind: right_kind, len: (seg.len - offset) as i64 };
            let s2 = segs.update(idx, left).insert(idx + 1, right);
            assert(s2 == segs.take(idx) + seq![left, right] + segs.skip(idx + 1));
            lemma_split_item(seg, offset);
            lemma_seg_items_at(segs, idx);
            assert(seq![left, right] == seq![left] + seq![right]);
            lemma_seg_items_concat(segs.take(idx) + seq![left, right], segs.skip(idx + 1));
            lemma_seg_items_concat(segs.take(idx), seq![left, right]);
            lemma_seg_items_concat(seq![left], seq![right]);
            lemma_seg_items_single(left);
            lemma_seg_items_single(right);
            assert(s2.take(idx + 1) == segs.take(idx) + seq![left]);
            lemma_seg_items_concat(segs.take(idx), seq![left]);
            lemma_seg_item_len(left);
            assert(s2.take(idx) == segs.take(idx));
            assert forall|k: int| 0 <= k < s2.len() implies #[trigger] s2[k].len >= 0 by {
                if k < idx {
                    assert(s2[k] == segs[k]);
                } else if k > idx + 1 {
                    assert(s2[k] == segs[k - 1]);
                }
            }
            if segs_pos(segs) {
                assert forall|k: int| 0 <= k < s2.len() implies #[trigger] s2[k].len > 0 by {
                    if k < idx {
                        assert(s2[k] == segs[k]);
                    } else if k > idx + 1 {
                        assert(s2[k] == segs[k - 1]);
                    }
                }
            }
            assert(s2[idx] == left);
        } else {
            lemma_boundary_walk(segs, p, idx + 1, cursor + seg.len, after_anchor(seg));
        }
    }
}

/// Every segment holds at least one character.
pub open spec fn segs_pos(s: Seq<Segment>) -> bool {
    forall|m: int| 0 <= m < s.len() ==> #[trigger] s[m].len > 0
}

/// The base position that a character inserted at document position `p` of
/// the document `v` is anchored at: just past the base character before it, at
/// the anchor of the inserted character before it, or 0 at the start.
pub open spec fn anchor_at(v: Seq<DocItem>, p: int) -> int {
    if p <= 0 {
        0
    } else {
        match v[p - 1] {
            DocItem::Base(b) => b + 1,
            DocItem::Inserted(a) => a,
        }
    }
}

/// The base position right after a segment is that of its last character.
proof fn lemma_after_anchor_chars(s: Seq<Segment>, j: int)
    requires
        segs_pos(s),
        0 < j <= s.len(),
    ensures
        after_anchor(s[j - 1]) == anchor_at(seg_items(s), seg_items(s.take(j)).len() as int),
{
    let seg = s[j - 1];
    lemma_seg_items_at(s, j - 1);
    assert(s.take(j) == s.take(j - 1) + seq![seg]);
    lemma_seg_items_concat(s.take(j - 1), seq![seg]);
    lemma_seg_items_single(seg);
    lemma_seg_item_len(seg);
    let q = seg_items(s.take(j - 1)).len() + seg.len - 1;
    assert(seg_items(s)[q] == seg_item(seg)[seg.len - 1]);
}

/// The anchor that splitting at document position `p` returns is the anchor a
/// character inserted there gets from the characters of the document.
pub proof fn law_ensure_boundary_anchor(segs: Seq<Segment>, p: int)
    requires
        segs_wf(segs),
        segs_pos(segs),
        spec_ensure_boundary(segs, p) is Some,
    ensures
        (spec_ensure_boundary(segs, p)->0).2 == anchor_at(seg_items(segs),
            if p <= seg_items(segs).len() { p } else { seg_items(segs).len() as int }),
{
    lemma_ensure_boundary(segs, p);
    let (s2, j, a) = spec_ensure_boundary(segs, p)->0;
    if j > 0 {
        lemma_after_anchor_chars(s2, j);
    } else {
        assert(s2.take(0) =~= Seq::<Segment>::empty());
        assert(seg_items(Seq::<Segment>::empty()) == Seq::<DocItem>::empty());
    }
}

/// Splitting at document position `p` from the start of the segments.
pub proof fn lemma_ensure_boundary(segs: Seq<Segment>, p: int)
    requires
        segs_wf(segs),
        spec_ensure_boundary(segs, p) is Some,
    ensures
        ({
            let (s2, j, a) = spec_ensure_boundary(segs, p)->0;
            &&& seg_items(s2) == seg_items(segs)
            &&& segs_wf(s2)
            &&& 0 <= j <= s2.len()
            &&& fits64(a)
            &&& a == (if j == 0 { 0 } else { after_anchor(s2[j - 1]) })
            &&& segs_pos(segs) ==> segs_pos(s2)
            &&& seg_items(s2.take(j)).len() == (if p <= seg_items(segs).len() { p } else { seg_items(segs).len() as int })
            &&& s2 == segs || (0 < j <= segs.len() && s2.take(j - 1) == segs.take(j - 1)
                && seg_items(segs.take(j - 1)).len() < p < seg_items(segs.take(j)).len())
        }),
{
    assert(segs.take(0) =~= Seq::<Segment>::empty());
    assert(seg_items(Seq::<Segment>::empty()) == Seq::<DocItem>::empty());
    lemma_boundary_walk(segs, p, 0, 0, 0);
}

/// The characters of `s` split at a segment index whose prefix holds `p` characters.
proof fn lemma_split_view(s: Seq<Segment>, j: int, p: int)
    requires
        0 <= j <= s.len(),
        seg_items(s.take(j)).len() == p,
    ensures
        seg_items(s.take(j)) == seg_items(s).take(p),
        seg_items(s.skip(j)) == seg_items(s).skip(p),
{
    assert(s == s.take(j) + s.skip(j));
    lemma_seg_items_concat(s.take(j), s.skip(j));
    assert(seg_items(s).take(p) =~= seg_items(s.take(j)));
    assert(seg_items(s).skip(p) =~= seg_items(s.skip(j)));
}

/// Joining the new segment at `idx` with its neighbors leaves the characters unchanged.
proof fn lemma_merge_neighbors(s: Seq<Segment>, idx: int)
    requires
        segs_wf(s),
        spec_merge_neighbors(s, idx) is Some,
    ensures
        seg_items(spec_merge_neighbors(s, idx)->0) == seg_items(s),
        segs_wf(spec_merge_neighbors(s, idx)->0),
{
    if idx > 0 {
        lemma_try_merge_pair(s, idx - 1);
        lemma_try_merge_pair(spec_try_merge_pair(s, idx - 1)->0, idx);
    } else {
        lemma_try_merge_pair(s, idx);
    }
}

/// The base position found at document position `p` when splitting there.
pub open spec fn boundary_anchor(segs: Seq<Segment>, p: int) -> int {
    (spec_ensure_boundary(segs, p)->0).2
}

/// Inserting `len` characters at document position `p` puts `len` characters,
/// anchored at the base position found there, at position `p` of the document.
pub proof fn law_insert_at_doc_view(segs: Seq<Segment>, p: int, len: int)
    requires
        segs_wf(segs),
        0 <= p <= seg_items(segs).len(),
        0 < len <= i64::MAX,
        spec_insert_at_doc(segs, p, len) is Some,
    ensures
        segs_wf(spec_insert_at_doc(segs, p, len)->0),
        seg_items(spec_insert_at_doc(segs, p, len)->0) == seg_items(segs).take(p)
            + run_items(boundary_anchor(segs, p), len) + seg_items(segs).skip(p),
{
    let b = spec_ensure_boundary(segs, p)->0;
    lemma_ensure_boundary(segs, p);
    let (s1, idx, a) = b;
    lemma_split_view(s1, idx, p);
    let x = Segment { kind: SegmentKind::Insert { anchor: a as i64 }, len: len as i64 };
    let s2 = s1.insert(idx, x);
    assert(s2 == s1.take(idx) + seq![x] + s1.skip(idx));
    lemma_seg_items_concat(s1.take(idx) + seq![x], s1.skip(idx));
    lemma_seg_items_concat(s1.take(idx), seq![x]);
    lemma_seg_items_single(x);
    assert forall|k: int| 0 <= k < s2.len() implies #[trigger] s2[k].len >= 0 by {
        if k < idx {
            assert(s2[k] == s1[k]);
        } else if k > idx {
            assert(s2[k] == s1[k - 1]);
        }
    }
    lemma_merge_neighbors(s2, idx);
}

/// Removing the document range `start .. end` removes those characters from the document.
pub proof fn law_delete_doc_range_view(segs: Seq<Segment>, start: int, end: int)
    requires
        segs_wf(segs),
        0 <= start <= end <= seg_items(segs).len(),
        spec_delete_doc_range(segs, start, end) is Some,
    ensures
        segs_wf(spec_delete_doc_range(segs, start, end)->0),
        seg_items(spec_delete_doc_range(segs, start, end)->0) == seg_items(segs).take(start) + seg_items(segs).skip(end),
{
    let v = seg_items(segs);
    if start >= end {
        assert(v.take(start) + v.skip(end) =~= v);
    } else {
        let b1 = spec_ensure_boundary(segs, start)->0;
        lemma_ensure_boundary(segs, start);
        let (s1, si, a1) = b1;
        let b2 = spec_ensure_boundary(s1, end)->0;
        lemma_ensure_boundary(s1, end);
        let (s2, ei, a2) = b2;
        if s2 != s1 {
            if ei - 1 < si {
                lemma_seg_prefix_monotone(s1, ei, si);
            }
            assert(si <= ei - 1);
            assert(s2.take(si) =~= s2.take(ei - 1).take(si));
            assert(s1.take(si) =~= s1.take(ei - 1).take(si));
        }
        assert(s2.take(si) == s1.take(si));
        lemma_split_view(s1, si, start);
        lemma_split_view(s2, ei, end);
        let s3 = s2.subrange(0, si) + s2.subrange(ei, s2.len() as int);
        assert(s2.subrange(0, si) == s2.take(si));
        assert(s2.subrange(ei, s2.len() as int) == s2.skip(ei));
        lemma_seg_items_concat(s2.take(si), s2.skip(ei));
        assert forall|k: int| 0 <= k < s3.len() implies #[trigger] s3[k].len >= 0 by {
            if k < si {
                assert(s3[k] == s2[k]);
            } else {
                assert(s3[k] == s2[k - si + ei]);
            }
        }
        let s4 = if si > 0 { spec_try_merge_pair(s3, si - 1) } else { Some(s3) };
        if si > 0 {
            lemma_try_merge_pair(s3, si - 1);
        }
        let s4v = s4->0;
        if si < s4v.len() {
            lemma_try_merge_pair(s4v, si);
        }
    }
}

/// The characters of a document with inserted characters no longer told
/// apart by their anchor.
pub open spec fn plain_items(v: Seq<DocItem>) -> Seq<Option<int>> {
    v.map_values(|x: DocItem| plain(x))
}

/// The document `d` after the user-facing operation `op`: `len` new characters
/// at position `ins`, or the `-len` characters before position `ins` removed.
pub open spec fn seq_edit(d: Seq<Option<int>>, op: Op) -> Seq<Option<int>> {
    if op.len > 0 {
        d.take(op.ins as int) + Seq::new(op.len as nat, |k: int| None::<int>) + d.skip(op.ins as int)
    } else if op.len < 0 {
        d.take(op.ins + op.len) + d.skip(op.ins as int)
    } else {
        d
    }
}

/// The operation `op` lies within the document `d`.
pub open spec fn seq_edit_fits(d: Seq<Option<int>>, op: Op) -> bool {
    if op.len > 0 {
        0 <= op.ins <= d.len()
    } else if op.len < 0 {
        0 <= op.ins + op.len && op.ins <= d.len()
    } else {
        true
    }
}

/// The document `d` after the operations `ops`, in order.
pub open spec fn seq_edit_all(d: Seq<Option<int>>, ops: Seq<Op>) -> Seq<Option<int>>
    decreases ops.len(),
{
    if ops.len() == 0 {
        d
    } else {
        seq_edit_all(seq_edit(d, ops[0]), ops.drop_first())
    }
}

/// Every operation of `ops` lies within the document it is applied to.
pub open spec fn seq_edits_fit(d: Seq<Option<int>>, ops: Seq<Op>) -> bool
    decreases ops.len(),
{
    if ops.len() == 0 {
        true
    } else {
        seq_edit_fits(d, ops[0]) && seq_edits_fit(seq_edit(d, ops[0]), ops.drop_first())
    }
}

/// One operation applied to a segment document edits its characters.
proof fn lemma_segment_step(segs: Seq<Segment>, op: Op)
    requires
        segs_wf(segs),
        seq_edit_fits(plain_items(seg_items(segs)), op),
        segment_step(segs, op) is Some,
    ensures
        segs_wf(segment_step(segs, op)->0),
        plain_items(seg_items(segment_step(segs, op)->0)) == seq_edit(plain_items(seg_items(segs)), op),
{
    let v = seg_items(segs);
    let t = segment_step(segs, op)->0;
    if op.len > 0 {
        law_insert_at_doc_view(segs, op.ins as int, op.len as int);
        let a = boundary_anchor(segs, op.ins as int);
        assert(plain_items(v.take(op.ins as int) + run_items(a, op.len as int) + v.skip(op.ins as int))
            =~= plain_items(v).take(op.ins as int) + Seq::new(op.len as nat, |k: int| None::<int>) + plain_items(v).skip(op.ins as int));
    } else if op.len < 0 {
        law_delete_doc_range_view(segs, op.ins + op.len, op.ins as int);
        assert(plain_items(v.take(op.ins + op.len) + v.skip(op.ins as int))
            =~= plain_items(v).take(op.ins + op.len) + plain_items(v).skip(op.ins as int));
    }
}

/// Replaying user-facing operations on a segment document, each lying within
/// the document it is applied to, edits its characters the way the
/// operations edit a sequence: inserts put new characters at their position,
/// deletes remove the characters before theirs.
pub proof fn law_segment_replay_view(segs: Seq<Segment>, ops: Seq<Op>)
    requires
        segs_wf(segs),
        seq_edits_fit(plain_items(seg_items(segs)), ops),
        segment_replay(segs, ops) is Some,
    ensures
        segs_wf(segment_replay(segs, ops)->0),
        plain_items(seg_items(segment_replay(segs, ops)->0)) == seq_edit_all(plain_items(seg_items(segs)), ops),
    decreases ops.len(),
{
    if ops.len() > 0 {
        lemma_segment_step(segs, ops[0]);
        law_segment_replay_view(segment_step(segs, ops[0])->0, ops.drop_first());
    }
}

/// The base text: base position `k` at document position `k`.
pub open spec fn base_text() -> Seq<Option<int>> {
    Seq::new(MAX_BASE_LEN as nat, |k: int| Some(k))
}

/// Replaying user-facing operations on a new document gives the base text
/// edited by those operations.
pub proof fn law_new_document_replay(ops: Seq<Op>)
    requires
        seq_edits_fit(base_text(), ops),
        segment_replay(new_segments(), ops) is Some,
    ensures
        plain_items(seg_items(segment_replay(new_segments(), ops)->0)) == seq_edit_all(base_text(), ops),
{
    let n = new_segments();
    lemma_seg_items_single(n[0]);
    assert(n == seq![n[0]]);
    assert(plain_items(seg_items(n)) =~= base_text());
    law_segment_replay_view(n, ops);
}

} // verus!
