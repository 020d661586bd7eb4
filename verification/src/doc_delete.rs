//! How deleting a document range acts on the document of a sequential list.

use vstd::prelude::*;
use crate::ops::Op;
use crate::canonical::{canonical, canonical_from, vis_after, lemma_canonical_concat, lemma_canonical_single, well_kept, deletes_apart};
use crate::delete::{
    DeleteEmit, DeleteWalkState, spec_emit, emitted, spec_delete_end, spec_overlap, gap_step, range_step,
    delete_walk, spec_apply_delete, min_int, max_int,
};
use crate::doc_view::{DocItem, gap_items, run_items, items, end_base, item_at, prefix_base, lemma_items_concat,
    lemma_gap_split, lemma_items_single, lemma_items_three, lemma_end_base_monotone,
    lemma_prefix_step, lemma_prefix_base_le};

verus! {

/// Every range of `t` is an insert.
pub open spec fn all_inserts(t: Seq<Op>) -> bool {
    forall|m: int| 0 <= m < t.len() ==> #[trigger] t[m].len > 0
}

/// Inserts contribute their runs wherever the base cursor is, as long as it is
/// not behind any of their anchors.
proof fn lemma_inserts_base(t: Seq<Op>, b: int)
    requires
        all_inserts(t),
    ensures
        end_base(t, b) >= b,
        forall|m: int| 0 <= m < t.len() ==> end_base(t, b) >= #[trigger] t[m].ins,
        end_base(t, b) == b ==> forall|b2: int| b2 >= b ==> #[trigger] items(t, b2) == items(t, b) && end_base(t, b2) == b2,
    decreases t.len(),
{
    if t.len() > 0 {
        let c = t[0];
        let b1: int = if c.ins > b { c.ins as int } else { b };
        assert(t[0].len > 0);
        assert(all_inserts(t.drop_first())) by {
            assert forall|m: int| 0 <= m < t.drop_first().len() implies #[trigger] t.drop_first()[m].len > 0 by {
                assert(t.drop_first()[m] == t[m + 1]);
            }
        }
        lemma_inserts_base(t.drop_first(), b1);
        assert forall|m: int| 0 <= m < t.len() implies end_base(t, b) >= #[trigger] t[m].ins by {
            if m > 0 {
                assert(t[m] == t.drop_first()[m - 1]);
            }
            lemma_end_base_monotone(t.drop_first(), b1);
        }
        if end_base(t, b) == b {
            assert(c.ins <= b) by {
                lemma_end_base_monotone(t.drop_first(), b1);
            }
            assert(b1 == b);
            assert forall|b2: int| b2 >= b implies #[trigger] items(t, b2) == items(t, b) && end_base(t, b2) == b2 by {
                assert(items(t.drop_first(), b2) == items(t.drop_first(), b));
                assert(gap_items(b2, c.ins as int) =~= Seq::<DocItem>::empty());
                assert(gap_items(b, c.ins as int) =~= Seq::<DocItem>::empty());
            }
        }
    }
}


/// Inserts anchored at or before the base cursor are in canonical order, and
/// leave the visible end, the same way wherever that cursor is.
proof fn lemma_inserts_canonical(t: Seq<Op>, b: int, b2: int, v: int)
    requires
        all_inserts(t),
        b <= b2,
        forall|m: int| 0 <= m < t.len() ==> #[trigger] t[m].ins <= b,
    ensures
        canonical_from(t, b, v) == canonical_from(t, b2, v),
        vis_after(t, b, v) == vis_after(t, b2, v),
    decreases t.len(),
{
    if t.len() > 0 {
        assert(t[0].len > 0);
        assert(t[0].ins <= b);
        assert(all_inserts(t.drop_first())) by {
            assert forall|m: int| 0 <= m < t.drop_first().len() implies #[trigger] t.drop_first()[m].len > 0 by {
                assert(t.drop_first()[m] == t[m + 1]);
            }
        }
        assert forall|m: int| 0 <= m < t.drop_first().len() implies #[trigger] t.drop_first()[m].ins <= b by {
            assert(t.drop_first()[m] == t[m + 1]);
        }
        lemma_inserts_canonical(t.drop_first(), b, b2, v);
    }
}

/// The document `p` with the window `pos .. de` cut out of it.
pub open spec fn cut(p: Seq<DocItem>, pos: int, de: int) -> Seq<DocItem> {
    p.take(min_int(pos, p.len() as int)) + p.skip(min_int(de, p.len() as int))
}

/// `v` held within `0 ..= hi`.
pub open spec fn clamp(v: int, hi: int) -> int {
    if v < 0 { 0 } else if v > hi { hi } else { v }
}

/// Cutting a window out of `p + s` cuts it out of `p`, then out of `s`.
proof fn lemma_cut_append(p: Seq<DocItem>, s: Seq<DocItem>, pos: int, de: int)
    requires
        0 <= pos <= de,
    ensures
        cut(p + s, pos, de) == cut(p, pos, de) + s.take(clamp(pos - p.len(), s.len() as int))
            + s.skip(clamp(de - p.len(), s.len() as int)),
{
    let doc = p.len() as int;
    let l = s.len() as int;
    let x = clamp(pos - doc, l);
    let y = clamp(de - doc, l);
    if de <= doc {
        assert((p + s).take(pos) =~= p.take(pos));
        assert((p + s).skip(de) =~= p.skip(de) + s);
        assert(s.take(x) + s.skip(y) =~= s);
        assert(cut(p + s, pos, de) =~= cut(p, pos, de) + s.take(x) + s.skip(y));
    } else if pos <= doc {
        assert((p + s).take(pos) =~= p.take(pos));
        assert((p + s).skip(min_int(de, doc + l)) =~= s.skip(y));
        assert(p.skip(doc) =~= Seq::<DocItem>::empty());
        assert(s.take(x) =~= Seq::<DocItem>::empty());
        assert(cut(p + s, pos, de) =~= cut(p, pos, de) + s.take(x) + s.skip(y));
    } else {
        assert((p + s).take(min_int(pos, doc + l)) =~= p + s.take(x));
        assert((p + s).skip(min_int(de, doc + l)) =~= s.skip(y));
        assert(p.take(doc) =~= p);
        assert(p.skip(doc) =~= Seq::<DocItem>::empty());
        assert(cut(p + s, pos, de) =~= cut(p, pos, de) + s.take(x) + s.skip(y));
    }
}

/// The overlap of a segment of length `l` at document cursor `doc` with the
/// rest of the window, in terms of where the window starts and ends within the segment.
proof fn lemma_overlap_clamp(doc: int, l: int, pos: int, de: int)
    requires
        0 <= doc,
        0 < l,
        0 <= pos < de,
    ensures
        ({
            let cur = min_int(max_int(pos, doc), de);
            let ov = spec_overlap(doc, l, cur, de);
            let x = clamp(pos - doc, l);
            let y = clamp(de - doc, l);
            &&& ov.0 > 0 ==> ov.0 == y - x && ov.1 == doc + x
            &&& ov.0 <= 0 ==> x == y
            &&& min_int(max_int(pos, doc + l), de) == (if ov.0 > 0 { cur + ov.0 } else { cur })
        }),
{
}

/// Past the listed part of a document comes the base text from the list's end base.
proof fn lemma_item_at_ext(out: Seq<Op>, x: int, k: int)
    requires
        end_base(out, 0) <= x,
        0 <= k,
    ensures
        ({
            let q = items(out, 0) + gap_items(end_base(out, 0), x);
            item_at(out, k) == (if k < q.len() { q[k] } else { DocItem::Base(x + (k - q.len())) })
        }),
{
    let p = items(out, 0);
    let q = p + gap_items(end_base(out, 0), x);
    if k < p.len() {
        assert(q[k] == p[k]);
    } else if k < q.len() {
        assert(q[k] == gap_items(end_base(out, 0), x)[k - p.len()]);
    }
}

/// The index of the last emitted delete names a delete range whose end fits
/// an `i32`, anchored at or after the base cursor before it, followed by inserts only.
pub open spec fn last_fine(out: Seq<Op>, last: Option<usize>) -> bool {
    match last {
        Some(k) => {
            &&& k < out.len()
            &&& out[k as int].len < 0
            &&& out[k as int].ins >= end_base(out.take(k as int), 0)
            &&& out[k as int].ins - out[k as int].len <= i32::MAX
            &&& all_inserts(out.skip(k as int + 1))
        },
        None => true,
    }
}

/// Emitting the delete `d` at or after the end base of `out` appends the base
/// gap up to `d` to the document of `out` and moves its end base past `d`.
proof fn lemma_emit(out: Seq<Op>, last: Option<usize>, src: DeleteEmit, d: Op)
    requires
        last_fine(out, last),
        emitted(src) == Some(Some(d)),
        d.len < 0,
        end_base(out, 0) <= d.ins,
        d.ins - d.len <= i32::MAX,
        spec_emit(out, out.len() as int, last, src) is Some,
    ensures
        ({
            let e = spec_emit(out, out.len() as int, last, src)->0;
            &&& items(e.0, 0) == items(out, 0) + gap_items(end_base(out, 0), d.ins as int)
            &&& end_base(e.0, 0) == d.ins - d.len
            &&& last_fine(e.0, e.2)
            &&& canonical(out) ==> canonical(e.0)
            &&& vis_after(e.0, 0, 0) == (if d.ins > end_base(out, 0) { d.ins as int } else { vis_after(out, 0, 0) })
        }),
{
    let ob = end_base(out, 0);
    let e = spec_emit(out, out.len() as int, last, src)->0;
    let appended = match last {
        Some(k) => spec_delete_end(out[k as int]) != d.ins,
        None => true,
    };
    if appended {
        assert(e.0 == out.push(d));
        assert(out.push(d) == out + seq![d]);
        lemma_items_concat(out, seq![d], 0);
        lemma_items_single(d, ob);
        lemma_canonical_concat(out, seq![d], 0, 0);
        lemma_canonical_single(d, ob, vis_after(out, 0, 0));
        assert(e.2 == Some(out.len() as usize));
        assert(out.push(d).take(out.len() as int) == out);
        assert(out.push(d).skip(out.len() as int + 1) =~= Seq::<Op>::empty());
    } else {
        let k = last->0 as int;
        let ok = out[k];
        let t = out.skip(k + 1);
        let bk = end_base(out.take(k), 0);
        let ee = ok.ins - ok.len;
        assert(spec_delete_end(ok) == ee);
        let g = Op { ins: ok.ins, len: (ok.len + d.len) as i32 };
        assert(e.0 == out.update(k, g));
        assert(out == out.take(k) + seq![ok] + t);
        assert(out.update(k, g) == out.take(k) + seq![g] + t);
        lemma_items_three(out.take(k), ok, t, 0);
        lemma_items_three(out.take(k), g, t, 0);
        lemma_items_single(ok, bk);
        lemma_items_single(g, bk);
        lemma_inserts_base(t, ee);
        assert(end_base(t, ee) == ee);
        lemma_canonical_concat(out.take(k), seq![ok] + t, 0, 0);
        lemma_canonical_concat(out.take(k), seq![g] + t, 0, 0);
        assert(seq![ok] + t == seq![ok] + t);
        assert((seq![ok] + t)[0] == ok);
        assert((seq![ok] + t).drop_first() == t);
        assert((seq![g] + t)[0] == g);
        assert((seq![g] + t).drop_first() == t);
        assert(out.take(k) + (seq![ok] + t) == out);
        assert(out.take(k) + (seq![g] + t) == out.update(k, g));
        let vk = vis_after(out.take(k), 0, 0);
        let v1: int = if ok.ins > bk { ok.ins as int } else { vk };
        lemma_inserts_canonical(t, ee, ee - d.len, v1);
        assert(items(t, ee - d.len) == items(t, ee));
        assert(gap_items(ob, d.ins as int) =~= Seq::<DocItem>::empty());
        assert(out.update(k, g).take(k) == out.take(k));
        assert(out.update(k, g).skip(k + 1) == t);
    }
}

/// An output list under construction that keeps its shape: no empty range,
/// delete spans apart, no delete before the first one is emitted, and every
/// delete ending at or before the end base.
pub open spec fn kept_state(out: Seq<Op>, last: Option<usize>) -> bool {
    &&& well_kept(out)
    &&& last is None ==> forall|m: int| 0 <= m < out.len() ==> #[trigger] out[m].len > 0
    &&& forall|m: int| 0 <= m < out.len() && (#[trigger] out[m]).len < 0 ==> out[m].ins - out[m].len <= end_base(out, 0)
}

/// Emitting a delete keeps the output's shape: a delete touching the last
/// emitted one extends it, any other starts past every delete before it.
proof fn lemma_emit_kept(out: Seq<Op>, last: Option<usize>, src: DeleteEmit, d: Op)
    requires
        last_fine(out, last),
        kept_state(out, last),
        emitted(src) == Some(Some(d)),
        d.len < 0,
        end_base(out, 0) <= d.ins,
        d.ins - d.len <= i32::MAX,
        spec_emit(out, out.len() as int, last, src) is Some,
    ensures
        ({
            let e = spec_emit(out, out.len() as int, last, src)->0;
            kept_state(e.0, e.2)
        }),
{
    lemma_emit(out, last, src, d);
    let ob = end_base(out, 0);
    let e = spec_emit(out, out.len() as int, last, src)->0;
    let o2 = e.0;
    let appended = match last {
        Some(k) => spec_delete_end(out[k as int]) != d.ins,
        None => true,
    };
    if appended {
        assert(o2 == out.push(d));
        assert forall|i: int, j: int| #![trigger o2[i], o2[j]]
            0 <= i < j < o2.len() && o2[i].len < 0 && o2[j].len < 0 implies o2[i].ins - o2[i].len < o2[j].ins by {
            assert(o2[i] == out[i]);
            if j < out.len() {
                assert(o2[j] == out[j]);
            } else {
                match last {
                    Some(k) => {
                        let kk = k as int;
                        assert(spec_delete_end(out[kk]) == out[kk].ins - out[kk].len);
                        if i < kk {
                            assert(out[i].ins - out[i].len < out[kk].ins);
                        } else if i > kk {
                            assert(out.skip(kk + 1)[i - kk - 1] == out[i]);
                        }
                    },
                    None => {},
                }
            }
        }
        assert forall|m: int| 0 <= m < o2.len() implies #[trigger] o2[m].len != 0 by {
            if m < out.len() {
                assert(o2[m] == out[m]);
            }
        }
        assert forall|m: int| 0 <= m < o2.len() && (#[trigger] o2[m]).len < 0 implies o2[m].ins - o2[m].len <= end_base(o2, 0) by {
            if m < out.len() {
                assert(o2[m] == out[m]);
            }
        }
    } else {
        let k = last->0 as int;
        let ok = out[k];
        assert(spec_delete_end(ok) == ok.ins - ok.len);
        assert(o2 == out.update(k, o2[k]));
        assert(o2[k].ins == ok.ins && o2[k].len < 0);
        assert forall|i: int, j: int| #![trigger o2[i], o2[j]]
            0 <= i < j < o2.len() && o2[i].len < 0 && o2[j].len < 0 implies o2[i].ins - o2[i].len < o2[j].ins by {
            if j > k {
                assert(out.skip(k + 1)[j - k - 1] == out[j]);
            } else {
                assert(o2[i] == out[i]);
                if j < k {
                    assert(o2[j] == out[j]);
                }
                assert(out[i].ins - out[i].len < out[j].ins);
            }
        }
        assert forall|m: int| 0 <= m < o2.len() implies #[trigger] o2[m].len != 0 by {
            if m != k {
                assert(o2[m] == out[m]);
            }
        }
        assert forall|m: int| 0 <= m < o2.len() && (#[trigger] o2[m]).len < 0 implies o2[m].ins - o2[m].len <= end_base(o2, 0) by {
            if m != k {
                assert(o2[m] == out[m]);
            }
        }
    }
}

/// Pushing an insert keeps the output's shape.
proof fn lemma_push_insert_kept(out: Seq<Op>, last: Option<usize>, o: Op)
    requires
        kept_state(out, last),
        o.len > 0,
        end_base(out.push(o), 0) >= end_base(out, 0),
    ensures
        kept_state(out.push(o), last),
{
    let o2 = out.push(o);
    assert forall|i: int, j: int| #![trigger o2[i], o2[j]]
        0 <= i < j < o2.len() && o2[i].len < 0 && o2[j].len < 0 implies o2[i].ins - o2[i].len < o2[j].ins by {
        assert(o2[i] == out[i]);
        assert(o2[j] == out[j]);
    }
    assert forall|m: int| 0 <= m < o2.len() implies #[trigger] o2[m].len != 0 by {
        if m < out.len() {
            assert(o2[m] == out[m]);
        }
    }
    assert forall|m: int| 0 <= m < o2.len() && last is None implies #[trigger] o2[m].len > 0 by {
        if m < out.len() {
            assert(o2[m] == out[m]);
        }
    }
    assert forall|m: int| 0 <= m < o2.len() && (#[trigger] o2[m]).len < 0 implies o2[m].ins - o2[m].len <= end_base(o2, 0) by {
        assert(o2[m] == out[m]);
    }
}

/// The state of a delete walk over the processed document `p`: the delete
/// cursor is the window clamped to what has been walked, and the output list,
/// followed by the base text up to the base cursor, is `p` with the window cut out.
pub open spec fn walk_inv(p: Seq<DocItem>, pos: int, de: int, s: DeleteWalkState, vis: int) -> bool {
    let (doc, base, cur, out, last) = s;
    let ob = end_base(out, 0);
    &&& p.len() == doc
    &&& cur == min_int(max_int(pos, doc), de)
    &&& ob <= base
    &&& ob < base ==> vis == base
    &&& vis <= base
    &&& items(out, 0) + gap_items(ob, base) == cut(p, pos, de)
    &&& last_fine(out, last)
    &&& canonical(out)
    &&& vis_after(out, 0, 0) <= vis
    &&& kept_state(out, last)
}

/// A gap step carries the invariant over the base gap before range `i`.
proof fn lemma_gap_step(r: Seq<Op>, de: int, i: int, s: DeleteWalkState, p: Seq<DocItem>, pos: int, vis: int)
    requires
        0 <= i < r.len(),
        0 <= pos < de,
        walk_inv(p, pos, de, s, vis),
        r[i].ins > s.1,
        gap_step(r, de, i, s) is Some,
    ensures
        walk_inv(p + gap_items(s.1, r[i].ins as int), pos, de, gap_step(r, de, i, s)->0, r[i].ins as int),
{
    let (doc, base, cur, out, last) = s;
    let next = r[i].ins as int;
    let gl = next - base;
    let sg = gap_items(base, next);
    let ob = end_base(out, 0);
    lemma_end_base_monotone(out, 0);
    lemma_overlap_clamp(doc, gl, pos, de);
    lemma_cut_append(p, sg, pos, de);
    let x = clamp(pos - doc, gl);
    let y = clamp(de - doc, gl);
    let ov = spec_overlap(doc, gl, cur, de);
    let g = gap_step(r, de, i, s)->0;
    lemma_gap_split(ob, base, next);
    if ov.0 > 0 {
        let src = DeleteEmit::DocSpan { base_start: (base + (ov.1 - doc)) as i64, len: ov.0 as i64 };
        let d = Op { ins: (base + x) as i32, len: (-(y - x)) as i32 };
        assert(emitted(src) == Some(Some(d)));
        lemma_emit(out, last, src, d);
        lemma_emit_kept(out, last, src, d);
        let e = spec_emit(out, out.len() as int, last, src)->0;
        assert(g == (doc + gl, next, cur + ov.0, e.0, e.2));
        lemma_gap_split(ob, base, base + x);
        lemma_gap_split(base, base + x, next);
        lemma_gap_split(base + x, base + y, next);
        assert(sg.take(x) =~= gap_items(base, base + x));
        assert(sg.skip(y) =~= gap_items(base + y, next));
        assert(items(e.0, 0) + gap_items(base + y, next) =~= cut(p, pos, de) + sg.take(x) + sg.skip(y));
    } else {
        assert(g == (doc + gl, next, cur, out, last));
        assert(sg.take(x) + sg.skip(x) =~= sg);
        assert(items(out, 0) + gap_items(ob, next) =~= cut(p, pos, de) + sg.take(x) + sg.skip(y));
    }
}

/// A range step carries the invariant over range `c`, which is anchored at or
/// before the base cursor (at it for a delete range) and, for an insert
/// range, not before the end of the visible base text.
proof fn lemma_range_step(c: Op, de: int, s: DeleteWalkState, p: Seq<DocItem>, pos: int, vis: int)
    requires
        0 <= pos < de,
        walk_inv(p, pos, de, s, vis),
        c.ins <= s.1,
        c.len < 0 ==> c.ins == s.1,
        c.len >= 0 ==> c.ins >= vis,
        s.1 - c.len <= i32::MAX,
        range_step(c, de, s) is Some,
    ensures
        walk_inv(p + items(seq![c], s.1), pos, de, range_step(c, de, s)->0, vis),
{
    let (doc, base, cur, out, last) = s;
    let ob = end_base(out, 0);
    lemma_end_base_monotone(out, 0);
    lemma_items_single(c, base);
    assert(gap_items(base, c.ins as int) =~= Seq::<DocItem>::empty());
    let t = range_step(c, de, s)->0;
    if c.len < 0 {
        let src = DeleteEmit::Existing(c);
        assert(emitted(src) == Some(Some(c)));
        lemma_emit(out, last, src, c);
        lemma_emit_kept(out, last, src, c);
        let e = spec_emit(out, out.len() as int, last, src)->0;
        assert(t == (doc, base - c.len, cur, e.0, e.2));
        assert(items(seq![c], base) =~= Seq::<DocItem>::empty());
        assert(p + items(seq![c], base) =~= p);
        assert(gap_items(base - c.len, base - c.len) =~= Seq::<DocItem>::empty());
        assert(items(e.0, 0) + gap_items(base - c.len, base - c.len) =~= items(out, 0) + gap_items(ob, base));
    } else if c.len > 0 {
        let l = c.len as int;
        let sr = run_items(c.ins as int, l);
        assert(items(seq![c], base) =~= sr);
        lemma_overlap_clamp(doc, l, pos, de);
        lemma_cut_append(p, sr, pos, de);
        let x = clamp(pos - doc, l);
        let y = clamp(de - doc, l);
        let ov = spec_overlap(doc, l, cur, de);
        let nl: int = if ov.0 > 0 { l - ov.0 } else { l };
        assert(sr.take(x) + sr.skip(y) =~= run_items(c.ins as int, nl));
        if nl > 0 {
            let o = Op { ins: c.ins, len: nl as i32 };
            assert(out.push(o) == out + seq![o]);
            lemma_items_concat(out, seq![o], 0);
            lemma_items_single(o, ob);
            lemma_canonical_concat(out, seq![o], 0, 0);
            lemma_canonical_single(o, ob, vis_after(out, 0, 0));
            lemma_end_base_monotone(seq![o], ob);
            lemma_push_insert_kept(out, last, o);
            assert(c.ins == base || ob == base);
            assert(gap_items(ob, c.ins as int) == gap_items(ob, base));
            assert(gap_items(base, base) =~= Seq::<DocItem>::empty());
            assert(items(out.push(o), 0) + gap_items(base, base) =~= cut(p, pos, de) + sr.take(x) + sr.skip(y));
            match last {
                Some(k) => {
                    assert(out.push(o).take(k as int) == out.take(k as int));
                    assert(out.push(o).skip(k as int + 1) == out.skip(k as int + 1).push(o));
                    assert(all_inserts(out.push(o).skip(k as int + 1))) by {
                        let q = out.push(o).skip(k as int + 1);
                        assert forall|m: int| 0 <= m < q.len() implies #[trigger] q[m].len > 0 by {
                            if m < q.len() - 1 {
                                assert(q[m] == out.skip(k as int + 1)[m]);
                            }
                        }
                    }
                },
                None => {},
            }
        } else {
            assert(run_items(c.ins as int, nl) =~= Seq::<DocItem>::empty());
            assert(cut(p, pos, de) + sr.take(x) + sr.skip(y) =~= cut(p, pos, de));
        }
    } else {
        assert(items(seq![c], base) =~= Seq::<DocItem>::empty());
        assert(p + items(seq![c], base) =~= p);
    }
}

/// The document after deleting the window `pos .. de` from the document of `r`.
pub open spec fn deleted_at(r: Seq<Op>, pos: int, de: int, k: int) -> DocItem {
    if k < pos { item_at(r, k) } else { item_at(r, k + (de - pos)) }
}

/// The end of a delete walk: what is left of the window lies in the base text
/// past the last range.
proof fn lemma_walk_tail(r: Seq<Op>, pos: int, de: int, s: DeleteWalkState, vis: int)
    requires
        0 <= pos < de,
        end_base(r, 0) + de <= i32::MAX,
        s.1 == end_base(r, 0),
        walk_inv(items(r, 0), pos, de, s, vis),
        delete_walk(r, de, r.len() as int, s) is Some,
    ensures
        forall|k: int| 0 <= k ==> #[trigger] item_at(delete_walk(r, de, r.len() as int, s)->0, k)
            == deleted_at(r, pos, de, k),
        canonical(delete_walk(r, de, r.len() as int, s)->0),
        well_kept(delete_walk(r, de, r.len() as int, s)->0),
{
    let (doc, base, cur, out, last) = s;
    let d = items(r, 0);
    let ob = end_base(out, 0);
    lemma_end_base_monotone(out, 0);
    let res = delete_walk(r, de, r.len() as int, s)->0;
    if cur < de {
        let bs = base + (cur - doc);
        let src = DeleteEmit::DocSpan { base_start: bs as i64, len: (de - cur) as i64 };
        let dl = Op { ins: bs as i32, len: (-(de - cur)) as i32 };
        assert(max_int(cur, doc) == cur);
        assert(emitted(src) == Some(Some(dl)));
        lemma_emit(out, last, src, dl);
        lemma_emit_kept(out, last, src, dl);
        let e = spec_emit(out, out.len() as int, last, src)->0;
        assert(res == e.0);
        lemma_gap_split(ob, base, bs);
        let t = min_int(pos, doc);
        assert(d.skip(doc) =~= Seq::<DocItem>::empty());
        assert(cut(d, pos, de) =~= d.take(t));
        let q = items(res, 0);
        assert(q =~= d.take(t) + gap_items(base, bs));
        assert forall|k: int| 0 <= k implies #[trigger] item_at(res, k) == deleted_at(r, pos, de, k) by {
            lemma_item_at_ext(res, end_base(res, 0), k);
            assert(gap_items(end_base(res, 0), end_base(res, 0)) =~= Seq::<DocItem>::empty());
            assert(q + gap_items(end_base(res, 0), end_base(res, 0)) == q);
            if k < t {
                assert(q[k] == d[k]);
            } else if k < q.len() {
                assert(q[k] == gap_items(base, bs)[k - t]);
            }
        }
    } else {
        assert(res == out);
        let q = items(out, 0) + gap_items(ob, base);
        assert(q == cut(d, pos, de));
        assert(q =~= d.take(pos) + d.skip(de));
        assert forall|k: int| 0 <= k implies #[trigger] item_at(res, k) == deleted_at(r, pos, de, k) by {
            lemma_item_at_ext(out, base, k);
            if k < pos {
                assert(q[k] == d[k]);
            } else if k < q.len() {
                assert(q[k] == d[k + (de - pos)]);
            }
        }
    }
}

/// The delete walk from range `i` on a list in canonical order from there.
proof fn lemma_walk(r: Seq<Op>, pos: int, de: int, i: int, s: DeleteWalkState, vis: int)
    requires
        0 <= i <= r.len(),
        0 <= pos < de,
        end_base(r, 0) + de <= i32::MAX,
        s.1 == prefix_base(r, i),
        walk_inv(items(r.take(i), 0), pos, de, s, vis),
        canonical_from(r.skip(i), s.1, vis),
        delete_walk(r, de, i, s) is Some,
    ensures
        forall|k: int| 0 <= k ==> #[trigger] item_at(delete_walk(r, de, i, s)->0, k) == deleted_at(r, pos, de, k),
        canonical(delete_walk(r, de, i, s)->0),
        well_kept(delete_walk(r, de, i, s)->0),
    decreases r.len() - i,
{
    if i == r.len() {
        assert(r.take(i) =~= r);
        lemma_walk_tail(r, pos, de, s, vis);
    } else {
        let c = r[i];
        let base = s.1;
        let p = items(r.take(i), 0);
        assert(r.skip(i)[0] == c);
        assert(r.skip(i).drop_first() =~= r.skip(i + 1));
        let b1: int = if c.ins > base { c.ins as int } else { base };
        let v1: int = if c.ins > base { c.ins as int } else { vis };
        lemma_prefix_step(r, i);
        lemma_items_single(c, base);
        lemma_items_single(c, b1);
        lemma_prefix_base_le(r, i + 1);
        let g = gap_step(r, de, i, s)->0;
        let pg = p + gap_items(base, c.ins as int);
        if c.ins > base {
            lemma_gap_step(r, de, i, s, p, pos, vis);
        } else {
            assert(g == s);
            assert(gap_items(base, c.ins as int) =~= Seq::<DocItem>::empty());
            assert(pg =~= p);
        }
        assert(g.1 == b1);
        lemma_range_step(c, de, g, pg, pos, v1);
        let t = range_step(c, de, g)->0;
        if c.len < 0 {
            assert(items(seq![c], base) =~= gap_items(base, c.ins as int));
            assert(items(seq![c], b1) =~= Seq::<DocItem>::empty());
        } else {
            assert(items(seq![c], base) =~= gap_items(base, c.ins as int) + run_items(c.ins as int, c.len as int));
            assert(gap_items(b1, c.ins as int) =~= Seq::<DocItem>::empty());
            assert(items(seq![c], b1) =~= run_items(c.ins as int, c.len as int));
        }
        assert(pg + items(seq![c], b1) =~= items(r.take(i + 1), 0));
        lemma_walk(r, pos, de, i + 1, t, v1);
    }
}

/// Deleting `len` characters at document position `pos` of a sequential list
/// in canonical order deletes them from the document the list stands for: the
/// characters before `pos` stay, and the characters from `pos + len` on follow
/// them. The list stays in canonical order, and comes out with no empty range
/// and with delete spans that neither overlap nor touch.
pub proof fn law_apply_delete_document(r: Seq<Op>, pos: i32, len: i32)
    requires
        canonical(r),
        pos >= 0,
        len > 0,
        end_base(r, 0) + pos + len <= i32::MAX,
        spec_apply_delete(r, pos, len) is Some,
    ensures
        forall|k: int| 0 <= k ==> #[trigger] item_at(spec_apply_delete(r, pos, len)->0, k)
            == (if k < pos { item_at(r, k) } else { item_at(r, k + len) }),
        canonical(spec_apply_delete(r, pos, len)->0),
        well_kept(spec_apply_delete(r, pos, len)->0),
{
    let de = pos + len;
    let s: DeleteWalkState = (0, 0, pos as int, Seq::empty(), None);
    assert(r.take(0) =~= Seq::<Op>::empty());
    assert(r.skip(0) =~= r);
    assert(prefix_base(r, 0) == 0);
    assert(items(Seq::<Op>::empty(), 0) + gap_items(0, 0) =~= cut(Seq::<DocItem>::empty(), pos as int, de));
    assert(canonical(Seq::<Op>::empty()));
    assert(vis_after(Seq::<Op>::empty(), 0, 0) == 0);
    lemma_walk(r, pos as int, de, 0, s, 0);
    let res = spec_apply_delete(r, pos, len)->0;
    assert forall|k: int| 0 <= k implies #[trigger] item_at(res, k)
        == (if k < pos { item_at(r, k) } else { item_at(r, k + len) }) by {
        assert(item_at(res, k) == deleted_at(r, pos as int, de, k));
    }
}

} // verus!
