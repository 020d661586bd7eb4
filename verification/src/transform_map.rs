//! What a transformed list does to the text the base list makes: it deletes
//! the base characters that it deleted and the base list keeps, and inserts
//! what it inserted, each at the position the base list moves it to.

use vstd::prelude::*;
use crate::ops::Op;
use crate::delete::{min_int, max_int};
use crate::merge::ordered;
use crate::transform::{
    spec_push_op, push_delete, carry_delete, transform_delete, transform_walk, spec_transform,
    advance_base, map_insert, tidy,
};
use crate::transform_view::{lemma_push_op_total, lemma_carry_delete_total, lemma_counts_inserted_length};
use crate::tally::{
    tally, inserted_len_at, insert_total_at, cover_set, span_set, deleted_base, covers,
    lemma_tally_step,
    lemma_deleted_end, lemma_deleted_update, lemma_deleted_push,
};

verus! {

/// How far the list `s` moves a position anchored at base position `p`: the
/// length of its inserts anchored before `p` (and at `p` too when `tie`, its
/// inserts there coming first), less the base characters it deletes before `p`.
pub open spec fn shift_on(p: int, tie: bool) -> spec_fn(Op) -> int {
    |op: Op| if op.len >= 0 {
        if op.ins < p || (tie && op.ins == p) { op.len as int } else { 0 }
    } else if op.ins - op.len <= p {
        op.len as int
    } else if op.ins <= p {
        op.ins - p
    } else {
        0
    }
}

/// How far the list `s` moves base position `p`: the length of its inserts
/// anchored at or before `p`, less the base characters it deletes before `p`.
pub open spec fn shift_at(p: int) -> spec_fn(Op) -> int {
    shift_on(p, true)
}

/// The position that the base character `p` takes in the text the list `s`
/// makes of the base text.
pub open spec fn mapped_base(s: Seq<Op>, p: int) -> int {
    p + tally(s, 0, shift_at(p))
}

/// The positions that the base characters in `x` which `s` keeps take in the
/// text `s` makes.
pub open spec fn kept_image(s: Seq<Op>, x: Set<int>) -> Set<int> {
    Set::new(|y: int| exists|p: int| #[trigger] x.contains(p) && !deleted_base(s).contains(p) && y == mapped_base(s, p))
}

/// The positions that the base characters in `x` which `s` keeps take in the
/// text `s` makes, moved on by `off`.
pub open spec fn moved_image(s: Seq<Op>, x: Set<int>, off: int) -> Set<int> {
    Set::new(|y: int| exists|p: int| #[trigger] x.contains(p) && !deleted_base(s).contains(p) && y == mapped_base(s, p) + off)
}

/// How far into a delete of `s` the base position `x` lies: `x` less the
/// start of the delete of `s` that contains it, or zero.
pub open spec fn inside_by(x: int) -> spec_fn(Op) -> int {
    |op: Op| if op.len < 0 && op.ins <= x < op.ins - op.len { x - op.ins } else { 0 }
}

/// How far into the deletes of `s` the base position `x` lies.
pub open spec fn inside_offset(s: Seq<Op>, x: int) -> int {
    tally(s, 0, inside_by(x))
}

/// No delete of `other` starts strictly inside a delete of `s`.
pub open spec fn deletes_start_outside(s: Seq<Op>, other: Seq<Op>) -> bool {
    forall|m: int, k: int| #![trigger s[m], other[k]]
        0 <= m < s.len() && 0 <= k < other.len() && s[m].len < 0 && other[k].len < 0
            ==> !(s[m].ins < other[k].ins < s[m].ins - s[m].len)
}

/// `s` is ordered by anchor, and every delete or empty range that follows a
/// delete starts at or after its end (inserts may stand anywhere).
pub open spec fn clear_of_deletes(s: Seq<Op>) -> bool {
    &&& ordered(s)
    &&& forall|i: int, j: int| #![trigger s[i], s[j]]
        0 <= i < j < s.len() && s[i].len < 0 && s[j].len <= 0 ==> s[j].ins >= s[i].ins - s[i].len
}

/// A tidy list is clear of its deletes.
pub proof fn lemma_tidy_clear(s: Seq<Op>)
    requires
        tidy(s),
    ensures
        clear_of_deletes(s),
{
}

/// The range `op` lies wholly at or before base position `q`.
pub open spec fn lies_before(op: Op, q: int) -> bool {
    if op.len < 0 { op.ins - op.len <= q } else { op.ins <= q }
}

/// The summed lengths of the first `t` ranges of `s`.
pub open spec fn prefix_len(s: Seq<Op>, t: int) -> int
    decreases t,
{
    if t <= 0 { 0 } else { prefix_len(s, t - 1) + s[t - 1].len }
}

/// From index `t` on, the ranges of `s` do not move `p`.
proof fn lemma_tally_tail_zero(s: Seq<Op>, t: int, p: int)
    requires
        0 <= t <= s.len(),
        forall|k: int| t <= k < s.len() ==> #[trigger] s[k].ins > p,
    ensures
        tally(s, t, shift_at(p)) == 0,
    decreases s.len() - t,
{
    if t < s.len() {
        assert(s[t].ins > p);
        lemma_tally_tail_zero(s, t + 1, p);
    }
}

/// Up to index `t`, the ranges of `s` move `p` by their lengths.
proof fn lemma_tally_prefix(s: Seq<Op>, i: int, t: int, p: int)
    requires
        0 <= i <= t <= s.len(),
        forall|k: int| 0 <= k < t ==> lies_before(#[trigger] s[k], p),
    ensures
        tally(s, i, shift_at(p)) == prefix_len(s, t) - prefix_len(s, i) + tally(s, t, shift_at(p)),
    decreases t - i,
{
    if i < t {
        assert(lies_before(s[i], p));
        lemma_tally_prefix(s, i + 1, t, p);
    }
}

/// Where every range before index `t` lies before `p` and every range from `t`
/// on is anchored after it, `s` keeps `p` and moves it by the lengths of the
/// first `t` ranges.
proof fn lemma_mapped_linear(s: Seq<Op>, t: int, p: int)
    requires
        0 <= t <= s.len(),
        forall|k: int| 0 <= k < t ==> lies_before(#[trigger] s[k], p),
        forall|k: int| t <= k < s.len() ==> #[trigger] s[k].ins > p,
    ensures
        mapped_base(s, p) == p + prefix_len(s, t),
        !deleted_base(s).contains(p),
{
    lemma_tally_prefix(s, 0, t, p);
    lemma_tally_tail_zero(s, t, p);
    if deleted_base(s).contains(p) {
        let m = choose|m: int| 0 <= m < s.len() && 0 <= m && #[trigger] covers(s[m], p);
        if m < t {
            assert(lies_before(s[m], p));
        } else {
            assert(s[m].ins > p);
        }
    }
}

/// The image of a union is the union of the images.
proof fn lemma_image_union(s: Seq<Op>, a: Set<int>, b: Set<int>, off: int)
    ensures
        moved_image(s, a.union(b), off) == moved_image(s, a, off).union(moved_image(s, b, off)),
{
    assert forall|y: int| #[trigger] moved_image(s, a.union(b), off).contains(y)
        <==> moved_image(s, a, off).union(moved_image(s, b, off)).contains(y) by {
        if moved_image(s, a.union(b), off).contains(y) {
            let p = choose|p: int| #[trigger] a.union(b).contains(p) && !deleted_base(s).contains(p) && y == mapped_base(s, p) + off;
            if a.contains(p) {
                assert(moved_image(s, a, off).contains(y));
            } else {
                assert(moved_image(s, b, off).contains(y));
            }
        }
        if moved_image(s, a, off).contains(y) {
            let p = choose|p: int| #[trigger] a.contains(p) && !deleted_base(s).contains(p) && y == mapped_base(s, p) + off;
            assert(a.union(b).contains(p));
        }
        if moved_image(s, b, off).contains(y) {
            let p = choose|p: int| #[trigger] b.contains(p) && !deleted_base(s).contains(p) && y == mapped_base(s, p) + off;
            assert(a.union(b).contains(p));
        }
    }
    assert(moved_image(s, a.union(b), off) =~= moved_image(s, a, off).union(moved_image(s, b, off)));
}

/// Nothing of what `s` deletes has an image.
proof fn lemma_image_deleted(s: Seq<Op>, x: Set<int>, off: int)
    requires
        x.subset_of(deleted_base(s)),
    ensures
        moved_image(s, x, off) == Set::<int>::empty(),
{
    assert(moved_image(s, x, off) =~= Set::<int>::empty());
}

/// A span splits in two at a point within it.
proof fn lemma_span_split(a: int, b: int, c: int)
    requires
        a <= b <= c,
    ensures
        span_set(a, c) == span_set(a, b).union(span_set(b, c)),
{
    assert(span_set(a, c) =~= span_set(a, b).union(span_set(b, c)));
}

/// A span of base characters that `s` keeps and moves alike is moved whole.
proof fn lemma_image_linear(s: Seq<Op>, a: int, b: int, t: int, off: int)
    requires
        0 <= t <= s.len(),
        forall|k: int| 0 <= k < t ==> lies_before(#[trigger] s[k], a),
        forall|k: int| t <= k < s.len() ==> #[trigger] s[k].ins >= b,
    ensures
        moved_image(s, span_set(a, b), off) == span_set(a + prefix_len(s, t) + off, b + prefix_len(s, t) + off),
{
    let sh = prefix_len(s, t) + off;
    assert forall|y: int| #[trigger] moved_image(s, span_set(a, b), off).contains(y)
        <==> span_set(a + sh, b + sh).contains(y) by {
        if moved_image(s, span_set(a, b), off).contains(y) {
            let p = choose|p: int| #[trigger] span_set(a, b).contains(p) && !deleted_base(s).contains(p) && y == mapped_base(s, p) + off;
            assert forall|k: int| 0 <= k < t implies lies_before(#[trigger] s[k], p) by {
                assert(lies_before(s[k], a));
            }
            lemma_mapped_linear(s, t, p);
        }
        if span_set(a + sh, b + sh).contains(y) {
            let p = y - sh;
            assert forall|k: int| 0 <= k < t implies lies_before(#[trigger] s[k], p) by {
                assert(lies_before(s[k], a));
            }
            lemma_mapped_linear(s, t, p);
            assert(span_set(a, b).contains(p));
        }
    }
    assert(moved_image(s, span_set(a, b), off) =~= span_set(a + sh, b + sh));
}

/// Appending a delete adds the positions it removes; appending anything else
/// removes nothing more.
proof fn lemma_push_op_deleted(out: Seq<Op>, d: Op)
    requires
        spec_push_op(out, d) is Some,
    ensures
        d.len < 0 ==> deleted_base(spec_push_op(out, d)->0) == deleted_base(out).union(cover_set(d)),
        d.len >= 0 ==> deleted_base(spec_push_op(out, d)->0) == deleted_base(out),
{
    if d.len == 0 {
    } else if out.len() > 0 && (
        (d.len > 0 && out.last().len > 0 && out.last().ins == d.ins)
        || (d.len < 0 && out.last().len < 0 && out.last().ins - out.last().len == d.ins)) {
        let l = out.last();
        let k = out.len() - 1;
        let c = Op { ins: l.ins, len: (l.len + d.len) as i32 };
        if d.len < 0 {
            assert(cover_set(c) =~= cover_set(l).union(cover_set(d)));
            lemma_deleted_update(out, k, c);
            assert forall|p: int| cover_set(l).contains(p) implies #[trigger] deleted_base(out).contains(p) by {
                assert(0 <= k < out.len() && covers(out[k], p));
            }
            assert(deleted_base(out).union(cover_set(c)) =~= deleted_base(out).union(cover_set(d)));
        } else {
            assert(cover_set(l) =~= Set::<int>::empty());
            assert(cover_set(c) =~= Set::<int>::empty());
            lemma_deleted_update(out, k, c);
            assert(deleted_base(out).union(cover_set(c)) =~= deleted_base(out));
        }
    } else {
        lemma_deleted_push(out, d);
        if d.len > 0 {
            assert(cover_set(d) =~= Set::<int>::empty());
            assert(deleted_base(out).union(cover_set(d)) =~= deleted_base(out));
        }
    }
}

/// Appending the delete of the base characters `curr .. end` moved by `sh`.
proof fn lemma_push_delete_span(out: Seq<Op>, curr: int, end: int, sh: int)
    requires
        curr < end,
        push_delete(out, curr + sh, end - curr) is Some,
    ensures
        deleted_base(push_delete(out, curr + sh, end - curr)->0)
            == deleted_base(out).union(span_set(curr + sh, end + sh)),
{
    let d = Op { ins: (curr + sh) as i32, len: (-(end - curr)) as i32 };
    lemma_push_op_deleted(out, d);
    assert(cover_set(d) =~= span_set(curr + sh, end + sh));
}

/// Carrying a delete of the base characters `curr .. del_end` across `s` from
/// index `t`, with the shift off by `off`, removes the positions of those that
/// `s` keeps, moved on by `off`.
proof fn lemma_carry_delete_image(s: Seq<Op>, del_end: int, curr: int, t: int, off: int, out: Seq<Op>)
    requires
        clear_of_deletes(s),
        0 <= t <= s.len(),
        forall|k: int| 0 <= k < t ==> lies_before(#[trigger] s[k], curr),
        forall|k: int| t <= k < s.len() && #[trigger] s[k].len <= 0 ==> s[k].ins >= curr,
        carry_delete(s, true, del_end, curr, t, prefix_len(s, t) + off, out) is Some,
    ensures
        deleted_base(carry_delete(s, true, del_end, curr, t, prefix_len(s, t) + off, out)->0)
            == deleted_base(out).union(moved_image(s, span_set(curr, del_end), off)),
    decreases s.len() - t,
{
    let sh = prefix_len(s, t) + off;
    let res = carry_delete(s, true, del_end, curr, t, sh, out)->0;
    assert forall|k: int| t <= k < s.len() implies #[trigger] s[k].ins >= s[t].ins by {
        assert(s[t].ins <= s[k].ins);
    }
    if curr >= del_end {
        assert(span_set(curr, del_end) =~= Set::<int>::empty());
        lemma_image_deleted(s, span_set(curr, del_end), off);
        assert(deleted_base(out).union(Set::<int>::empty()) =~= deleted_base(out));
    } else if t >= s.len() || s[t].ins >= del_end {
        lemma_push_delete_span(out, curr, del_end, sh);
        lemma_image_linear(s, curr, del_end, t, off);
    } else {
        let sop = s[t];
        let curr1: int = if sop.ins > curr { sop.ins as int } else { curr };
        let out1: Seq<Op> = if sop.ins > curr { push_delete(out, curr + sh, sop.ins - curr)->0 } else { out };
        assert forall|k: int| t + 1 <= k < s.len() && #[trigger] s[k].len <= 0 implies s[k].ins >= curr1 by {
            assert(s[t].ins <= s[k].ins);
        }
        if sop.ins > curr {
            lemma_push_delete_span(out, curr, curr1, sh);
            lemma_image_linear(s, curr, curr1, t, off);
        } else {
            assert(span_set(curr, curr1) =~= Set::<int>::empty());
            lemma_image_deleted(s, span_set(curr, curr1), off);
            assert(deleted_base(out).union(Set::<int>::empty()) =~= deleted_base(out));
        }
        assert(deleted_base(out1) == deleted_base(out).union(moved_image(s, span_set(curr, curr1), off)));
        lemma_span_split(curr, curr1, del_end);
        lemma_image_union(s, span_set(curr, curr1), span_set(curr1, del_end), off);
        if sop.len > 0 {
            assert(prefix_len(s, t + 1) + off == sh + sop.len);
            assert forall|k: int| 0 <= k < t + 1 implies lies_before(#[trigger] s[k], curr1) by {
                if k < t {
                    assert(lies_before(s[k], curr));
                }
            }
            lemma_carry_delete_image(s, del_end, curr1, t + 1, off, out1);
        } else {
            let sop_end = sop.ins - sop.len;
            let overlap = min_int(sop_end, del_end) - curr1;
            let gone = span_set(curr1, min_int(sop_end, del_end));
            assert forall|p: int| gone.contains(p) implies #[trigger] deleted_base(s).contains(p) by {
                assert(0 <= t < s.len() && covers(s[t], p));
            }
            lemma_image_deleted(s, gone, off);
            if sop_end <= del_end {
                assert(prefix_len(s, t + 1) + off == sh - overlap);
                assert forall|k: int| t + 1 <= k < s.len() && #[trigger] s[k].len <= 0 implies s[k].ins >= sop_end by {
                    if sop.len < 0 {
                        assert(s[k].ins >= s[t].ins - s[t].len);
                    }
                }
                assert forall|k: int| 0 <= k < t + 1 implies lies_before(#[trigger] s[k], sop_end) by {
                    if k < t {
                        assert(lies_before(s[k], curr));
                    }
                }
                lemma_carry_delete_image(s, del_end, sop_end, t + 1, off, out1);
                lemma_span_split(curr1, sop_end, del_end);
                lemma_image_union(s, gone, span_set(sop_end, del_end), off);
                assert(moved_image(s, span_set(curr1, del_end), off) =~= moved_image(s, span_set(sop_end, del_end), off));
                assert(deleted_base(res) =~= deleted_base(out).union(moved_image(s, span_set(curr, del_end), off)));
            } else {
                assert(gone =~= span_set(curr1, del_end));
                assert(deleted_base(res) =~= deleted_base(out).union(moved_image(s, span_set(curr, del_end), off)));
            }
        }
    }
}

/// Advancing over the base list, with inserts at the target taken first,
/// consumes exactly the ranges that lie before the target and adds their lengths.
proof fn lemma_advance_base_before(s: Seq<Op>, target: int, si: int, shift: int)
    requires
        0 <= si <= s.len(),
        forall|k: int| 0 <= k < si ==> lies_before(#[trigger] s[k], target),
        shift == prefix_len(s, si),
    ensures
        si <= advance_base(s, target, true, si, shift).0 <= s.len(),
        advance_base(s, target, true, si, shift).1 == prefix_len(s, advance_base(s, target, true, si, shift).0),
        forall|k: int| 0 <= k < advance_base(s, target, true, si, shift).0 ==> lies_before(#[trigger] s[k], target),
        advance_base(s, target, true, si, shift).0 < s.len() ==> {
            let a = advance_base(s, target, true, si, shift).0;
            s[a].ins > target || (s[a].len < 0 && s[a].ins <= target < s[a].ins - s[a].len)
        },
    decreases s.len() - si,
{
    if si < s.len() {
        let sop = s[si];
        if sop.ins <= target && (sop.len >= 0 || sop.ins - sop.len <= target) {
            assert forall|k: int| 0 <= k < si + 1 implies lies_before(#[trigger] s[k], target) by {
                if k < si {
                    assert(lies_before(s[k], target));
                }
            }
            lemma_advance_base_before(s, target, si + 1, shift + sop.len);
        }
    }
}

/// After advancing over the base list with its inserts going first, the
/// offset of the target inside the deletes of the base list is that of the
/// delete the advance stopped at, if it contains the target.
proof fn lemma_inside_offset(s: Seq<Op>, target: int, a: int)
    requires
        clear_of_deletes(s),
        0 <= a <= s.len(),
        forall|k: int| 0 <= k < a ==> lies_before(#[trigger] s[k], target),
        a < s.len() ==> s[a].ins > target || (s[a].len < 0 && s[a].ins <= target < s[a].ins - s[a].len)
            || (s[a].len >= 0 && s[a].ins == target),
    ensures
        inside_offset(s, target) == (if a < s.len() && s[a].len < 0 && s[a].ins <= target { target - s[a].ins } else { 0 }),
{
    let f = inside_by(target);
    assert forall|k: int| 0 <= k < a implies f(#[trigger] s[k]) == 0 by {
        assert(lies_before(s[k], target));
    }
    lemma_tally_skip_zero(s, 0, a, f);
    if a < s.len() {
        if s[a].ins > target {
            assert forall|k: int| a <= k < s.len() implies f(#[trigger] s[k]) == 0 by {
                assert(s[a].ins <= s[k].ins);
            }
            lemma_tally_zero(s, a, f);
        } else {
            assert forall|k: int| a + 1 <= k < s.len() implies f(#[trigger] s[k]) == 0 by {
                if s[k].len < 0 {
                    assert(s[a].ins <= s[k].ins);
                    if s[a].len < 0 {
                        assert(s[k].ins >= s[a].ins - s[a].len);
                    }
                }
            }
            lemma_tally_zero(s, a + 1, f);
            lemma_tally_step(s, a, f);
        }
    }
}

/// Transforming the delete of the base characters `target .. del_end` removes
/// the positions of those that `s` keeps, moved on by how far `target` lies
/// inside a delete of `s`.
proof fn lemma_transform_delete_image(s: Seq<Op>, target: int, del_end: int, si: int, out: Seq<Op>)
    requires
        clear_of_deletes(s),
        target < del_end,
        0 <= si <= s.len(),
        forall|k: int| 0 <= k < si ==> lies_before(#[trigger] s[k], target),
        si < s.len() ==> s[si].ins > target || (s[si].len < 0 && s[si].ins <= target < s[si].ins - s[si].len),
        transform_delete(s, true, target, del_end, si, prefix_len(s, si), out) is Some,
    ensures
        deleted_base(transform_delete(s, true, target, del_end, si, prefix_len(s, si), out)->0)
            == deleted_base(out).union(moved_image(s, span_set(target, del_end), inside_offset(s, target))),
{
    let sh = prefix_len(s, si);
    lemma_inside_offset(s, target, si);
    let off = inside_offset(s, target);
    if 0 <= si < s.len() && s[si].ins <= target && s[si].len < 0 {
        let sop = s[si];
        let sop_end = sop.ins - sop.len;
        let overlap = min_int(sop_end, del_end) - target;
        let gone = span_set(target, min_int(sop_end, del_end));
        assert forall|p: int| gone.contains(p) implies #[trigger] deleted_base(s).contains(p) by {
            assert(0 <= si < s.len() && covers(s[si], p));
        }
        lemma_image_deleted(s, gone, off);
        if sop_end <= del_end {
            assert(prefix_len(s, si + 1) + off == sh - overlap);
            assert forall|k: int| si + 1 <= k < s.len() && #[trigger] s[k].len <= 0 implies s[k].ins >= sop_end by {
                assert(s[k].ins >= s[si].ins - s[si].len);
            }
            assert forall|k: int| 0 <= k < si + 1 implies lies_before(#[trigger] s[k], sop_end) by {
                if k < si {
                    assert(lies_before(s[k], target));
                }
            }
            lemma_carry_delete_image(s, del_end, sop_end, si + 1, off, out);
            lemma_span_split(target, sop_end, del_end);
            lemma_image_union(s, gone, span_set(sop_end, del_end), off);
            assert(moved_image(s, span_set(target, del_end), off) =~= moved_image(s, span_set(sop_end, del_end), off));
        } else {
            assert(gone =~= span_set(target, del_end));
            assert(deleted_base(out).union(Set::<int>::empty()) =~= deleted_base(out));
        }
    } else {
        assert forall|k: int| si <= k < s.len() && #[trigger] s[k].len <= 0 implies s[k].ins >= target by {
            assert(s[si].ins <= s[k].ins);
        }
        assert(prefix_len(s, si) + 0 == sh);
        lemma_carry_delete_image(s, del_end, target, si, 0, out);
    }
}

/// The positions removed for the delete `op` of a transformed list: those of
/// the base characters of its span that `s` keeps, moved on by how far its
/// start lies inside a delete of `s`.
pub open spec fn delete_image(s: Seq<Op>, op: Op) -> Set<int> {
    moved_image(s, cover_set(op), inside_offset(s, op.ins as int))
}

/// The positions removed for the operations of `other` from index `i` on.
pub open spec fn delete_images_from(s: Seq<Op>, other: Seq<Op>, i: int) -> Set<int> {
    Set::new(|y: int| exists|k: int| i <= k < other.len() && 0 <= k && #[trigger] delete_image(s, other[k]).contains(y))
}

/// The positions removed for all the operations of `other`.
pub open spec fn delete_images(s: Seq<Op>, other: Seq<Op>) -> Set<int> {
    delete_images_from(s, other, 0)
}

proof fn lemma_delete_images_step(s: Seq<Op>, other: Seq<Op>, i: int)
    requires
        0 <= i < other.len(),
    ensures
        delete_images_from(s, other, i) == delete_image(s, other[i]).union(delete_images_from(s, other, i + 1)),
{
    assert forall|y: int| #[trigger] delete_images_from(s, other, i).contains(y)
        <==> delete_image(s, other[i]).union(delete_images_from(s, other, i + 1)).contains(y) by {
        if delete_images_from(s, other, i).contains(y) {
            let k = choose|k: int| i <= k < other.len() && 0 <= k && #[trigger] delete_image(s, other[k]).contains(y);
            if k > i {
                assert(delete_images_from(s, other, i + 1).contains(y));
            }
        }
        if delete_images_from(s, other, i + 1).contains(y) {
            let k = choose|k: int| i + 1 <= k < other.len() && 0 <= k && #[trigger] delete_image(s, other[k]).contains(y);
            assert(delete_images_from(s, other, i).contains(y));
        }
        if delete_image(s, other[i]).contains(y) {
            assert(delete_images_from(s, other, i).contains(y));
        }
    }
    assert(delete_images_from(s, other, i) =~= delete_image(s, other[i]).union(delete_images_from(s, other, i + 1)));
}

/// Transforming the operations of `other` from index `i` removes the
/// positions of the base characters they delete and `s` keeps.
proof fn lemma_transform_walk_image(s: Seq<Op>, other: Seq<Op>, i: int, si: int, out: Seq<Op>)
    requires
        clear_of_deletes(s),
        ordered(other),
        0 <= i <= other.len(),
        0 <= si <= s.len(),
        i < other.len() ==> forall|k: int| 0 <= k < si ==> lies_before(#[trigger] s[k], other[i].ins as int),
        transform_walk(s, other, true, i, si, prefix_len(s, si), out) is Some,
    ensures
        deleted_base(transform_walk(s, other, true, i, si, prefix_len(s, si), out)->0)
            == deleted_base(out).union(delete_images_from(s, other, i)),
    decreases other.len() - i,
{
    let sh = prefix_len(s, si);
    if i >= other.len() {
        assert(delete_images_from(s, other, i) =~= Set::<int>::empty());
        assert(deleted_base(out).union(Set::<int>::empty()) =~= deleted_base(out));
    } else {
        let op = other[i];
        let target = op.ins as int;
        lemma_advance_base_before(s, target, si, sh);
        let adv = advance_base(s, target, true, si, sh);
        let a = adv.0;
        lemma_delete_images_step(s, other, i);
        if i + 1 < other.len() {
            assert(other[i].ins <= other[i + 1].ins);
            assert forall|k: int| 0 <= k < a implies lies_before(#[trigger] s[k], other[i + 1].ins as int) by {
                assert(lies_before(s[k], target));
            }
        }
        let next: Option<Seq<Op>> = if op.len > 0 {
            let mapped = map_insert(s, target, true, a, target + adv.1);
            spec_push_op(out, Op { ins: mapped as i32, len: op.len })
        } else {
            transform_delete(s, true, target, target - op.len, a, adv.1, out)
        };
        if op.len >= 0 {
            assert(cover_set(op) =~= Set::<int>::empty());
            lemma_image_deleted(s, cover_set(op), inside_offset(s, target));
            if op.len > 0 {
                let mapped = map_insert(s, target, true, a, target + adv.1);
                lemma_push_op_deleted(out, Op { ins: mapped as i32, len: op.len });
            } else {
                assert(next == Some(out));
            }
        } else {
            lemma_transform_delete_image(s, target, target - op.len, a, out);
            assert(cover_set(op) =~= span_set(target, target - op.len));
        }
        lemma_transform_walk_image(s, other, i + 1, a, next->0);
        assert(deleted_base(out).union(Set::<int>::empty()) =~= deleted_base(out));
        assert(deleted_base(transform_walk(s, other, true, i, si, sh, out)->0)
            =~= deleted_base(out).union(delete_images_from(s, other, i)));
    }
}

/// A list transformed against a base list, the base list's ranges going
/// first, deletes for each of its deletes the base characters of its span that
/// the base list keeps, at the positions the base list moves them to, moved on
/// by how far the start of the span lies inside a delete of the base list;
/// inserts of the base list inside its own deletes move what follows them like
/// any other. The base list is ordered with no delete or empty range inside an
/// earlier delete, and the list transformed is ordered.
pub proof fn law_transform_delete_images(s: Seq<Op>, other: Seq<Op>)
    requires
        clear_of_deletes(s),
        ordered(other),
        spec_transform(s, other, true) is Some,
    ensures
        deleted_base(spec_transform(s, other, true)->0) == delete_images(s, other),
{
    let e = Seq::<Op>::empty();
    assert(prefix_len(s, 0) == 0);
    lemma_transform_walk_image(s, other, 0, 0, e);
    lemma_deleted_end(e, 0);
    assert(Set::<int>::empty().union(delete_images(s, other)) =~= delete_images(s, other));
}

/// A list transformed against a base list deletes exactly the base characters
/// that it deleted and the base list keeps, at the positions the base list
/// moves them to; inserts of the base list that stand inside its own deletes
/// move what follows them like any other. The base list is ordered with no
/// delete or empty range inside an earlier delete, the list transformed is
/// ordered, and none of its deletes starts strictly inside a delete of the
/// base list.
pub proof fn law_transform_deletes(s: Seq<Op>, other: Seq<Op>)
    requires
        clear_of_deletes(s),
        ordered(other),
        deletes_start_outside(s, other),
        spec_transform(s, other, true) is Some,
    ensures
        deleted_base(spec_transform(s, other, true)->0) == kept_image(s, deleted_base(other)),
{
    law_transform_delete_images(s, other);
    let x = deleted_base(other);
    assert forall|y: int| #[trigger] delete_images(s, other).contains(y) <==> kept_image(s, x).contains(y) by {
        if delete_images(s, other).contains(y) {
            let k = choose|k: int| 0 <= k < other.len() && 0 <= k && #[trigger] delete_image(s, other[k]).contains(y);
            let off = inside_offset(s, other[k].ins as int);
            let p = choose|p: int| #[trigger] cover_set(other[k]).contains(p) && !deleted_base(s).contains(p) && y == mapped_base(s, p) + off;
            assert(other[k].len < 0);
            lemma_zero_offset(s, other, k);
            assert(0 <= k < other.len() && covers(other[k], p));
            assert(x.contains(p));
        }
        if kept_image(s, x).contains(y) {
            let p = choose|p: int| #[trigger] x.contains(p) && !deleted_base(s).contains(p) && y == mapped_base(s, p);
            let k = choose|k: int| 0 <= k < other.len() && 0 <= k && #[trigger] covers(other[k], p);
            lemma_zero_offset(s, other, k);
            assert(cover_set(other[k]).contains(p));
            assert(delete_image(s, other[k]).contains(y));
        }
    }
    assert(delete_images(s, other) =~= kept_image(s, x));
}

/// Where no delete of `other` starts strictly inside a delete of `s`, the
/// start of each of its deletes lies inside no delete of `s`.
proof fn lemma_zero_offset(s: Seq<Op>, other: Seq<Op>, k: int)
    requires
        deletes_start_outside(s, other),
        0 <= k < other.len(),
        other[k].len < 0,
    ensures
        inside_offset(s, other[k].ins as int) == 0,
{
    let f = inside_by(other[k].ins as int);
    assert forall|m: int| 0 <= m < s.len() implies f(#[trigger] s[m]) == 0 by {
        if s[m].len < 0 {
            assert(!(s[m].ins < other[k].ins < s[m].ins - s[m].len));
        }
    }
    lemma_tally_zero(s, 0, f);
}

/// The position that something anchored at base position `p` takes in the
/// text the list `s` makes, after the inserts of `s` at `p` when `tie` and
/// before them otherwise.
pub open spec fn placed_at(s: Seq<Op>, p: int, tie: bool) -> int {
    p + tally(s, 0, shift_on(p, tie))
}

/// The length a range inserts at an anchor that `s` places at position `y`.
pub open spec fn landing_on(s: Seq<Op>, tie: bool, y: int) -> spec_fn(Op) -> int {
    |op: Op| if op.len > 0 && placed_at(s, op.ins as int, tie) == y { op.len as int } else { 0 }
}

/// The length a range inserts at an anchor that `s` moves to position `y`,
/// the inserts of `s` at the same anchor coming first.
pub open spec fn landing_at(s: Seq<Op>, y: int) -> spec_fn(Op) -> int {
    landing_on(s, true, y)
}

/// The length `other` inserts at anchors that `s` places at position `y`.
pub open spec fn landed_total_on(s: Seq<Op>, other: Seq<Op>, tie: bool, y: int) -> int {
    tally(other, 0, landing_on(s, tie, y))
}

/// The length `other` inserts at anchors that `s` moves to position `y`, the
/// inserts of `s` at the same anchor coming first.
pub open spec fn landed_total_at(s: Seq<Op>, other: Seq<Op>, y: int) -> int {
    landed_total_on(s, other, true, y)
}

/// `s` is ordered by anchor, and its delete spans do not overlap.
pub open spec fn deletes_disjoint(s: Seq<Op>) -> bool {
    &&& ordered(s)
    &&& forall|i: int, j: int| #![trigger s[i], s[j]]
        0 <= i < j < s.len() && s[i].len < 0 && s[j].len < 0 ==> s[j].ins >= s[i].ins - s[i].len
}

/// The range `op` has been passed on the way to an anchor at `q`: a delete
/// that ends by `q`, or another range anchored before `q` (or at `q` when
/// `tie`).
pub open spec fn passed(op: Op, q: int, tie: bool) -> bool {
    if op.len < 0 { op.ins - op.len <= q } else { op.ins < q || (tie && op.ins == q) }
}

/// From index `t` on, the ranges of `s` anchored after `p` do not move it.
proof fn lemma_tally_tail_zero_on(s: Seq<Op>, t: int, p: int, tie: bool)
    requires
        0 <= t <= s.len(),
        forall|k: int| t <= k < s.len() ==> #[trigger] s[k].ins > p,
    ensures
        tally(s, t, shift_on(p, tie)) == 0,
    decreases s.len() - t,
{
    if t < s.len() {
        assert(s[t].ins > p);
        lemma_tally_tail_zero_on(s, t + 1, p, tie);
    }
}

/// Ranges passed on the way to `p` move it by their lengths.
proof fn lemma_tally_prefix_on(s: Seq<Op>, i: int, t: int, p: int, tie: bool)
    requires
        0 <= i <= t <= s.len(),
        forall|k: int| 0 <= k < t ==> passed(#[trigger] s[k], p, tie),
    ensures
        tally(s, i, shift_on(p, tie)) == prefix_len(s, t) - prefix_len(s, i) + tally(s, t, shift_on(p, tie)),
    decreases t - i,
{
    if i < t {
        assert(passed(s[i], p, tie));
        lemma_tally_prefix_on(s, i + 1, t, p, tie);
    }
}

/// Advancing over the base list consumes the ranges passed on the way to the
/// target, adding their lengths, and stops at one anchored after the target,
/// a delete containing it, or (without `tie`) a range anchored at it.
proof fn lemma_advance_base_on(s: Seq<Op>, target: int, tie: bool, si: int, shift: int)
    requires
        0 <= si <= s.len(),
        forall|k: int| 0 <= k < si ==> passed(#[trigger] s[k], target, tie),
        shift == prefix_len(s, si),
    ensures
        si <= advance_base(s, target, tie, si, shift).0 <= s.len(),
        advance_base(s, target, tie, si, shift).1 == prefix_len(s, advance_base(s, target, tie, si, shift).0),
        forall|k: int| 0 <= k < advance_base(s, target, tie, si, shift).0 ==> passed(#[trigger] s[k], target, tie),
        advance_base(s, target, tie, si, shift).0 < s.len() ==> {
            let a = advance_base(s, target, tie, si, shift).0;
            ||| s[a].ins > target
            ||| (s[a].len < 0 && s[a].ins <= target < s[a].ins - s[a].len)
            ||| (s[a].len >= 0 && !tie && s[a].ins == target)
        },
    decreases s.len() - si,
{
    if si < s.len() {
        let sop = s[si];
        if sop.ins <= target && ((sop.len < 0 && sop.ins - sop.len <= target) || (sop.len >= 0 && !(sop.ins == target && !tie))) {
            assert forall|k: int| 0 <= k < si + 1 implies passed(#[trigger] s[k], target, tie) by {
                if k < si {
                    assert(passed(s[k], target, tie));
                }
            }
            lemma_advance_base_on(s, target, tie, si + 1, shift + sop.len);
        }
    }
}

/// Placing an insert at `target` from index `t` on adds, for each range
/// anchored at or before it, exactly how far that range moves it, where no
/// delete from `t` on ends at or before `target`.
proof fn lemma_map_insert_on(s: Seq<Op>, target: int, tie: bool, t: int, m: int)
    requires
        ordered(s),
        0 <= t <= s.len(),
        forall|k: int| t <= k < s.len() && #[trigger] s[k].len < 0 ==> s[k].ins - s[k].len > target,
    ensures
        map_insert(s, target, tie, t, m) == m + tally(s, t, shift_on(target, tie)),
    decreases s.len() - t,
{
    let f = shift_on(target, tie);
    if t < s.len() {
        let sop = s[t];
        if sop.ins > target {
            assert forall|k: int| t <= k < s.len() implies #[trigger] s[k].ins > target by {
                assert(s[t].ins <= s[k].ins);
            }
            lemma_tally_tail_zero_on(s, t, target, tie);
        } else {
            let m2: int = if sop.len > 0 {
                if sop.ins == target && !tie { m } else { m + sop.len }
            } else if sop.ins <= target && target < sop.ins - sop.len {
                m - (target - sop.ins)
            } else {
                m
            };
            assert(m2 == m + f(sop));
            lemma_map_insert_on(s, target, tie, t + 1, m2);
        }
    }
}

/// After advancing over the base list, an insert at `target` is placed where
/// the base list places `target`.
proof fn lemma_map_insert_placed(s: Seq<Op>, target: int, tie: bool, a: int)
    requires
        deletes_disjoint(s),
        0 <= a <= s.len(),
        forall|k: int| 0 <= k < a ==> passed(#[trigger] s[k], target, tie),
        a < s.len() ==> {
            ||| s[a].ins > target
            ||| (s[a].len < 0 && s[a].ins <= target < s[a].ins - s[a].len)
            ||| (s[a].len >= 0 && !tie && s[a].ins == target)
        },
    ensures
        map_insert(s, target, tie, a, target + prefix_len(s, a)) == placed_at(s, target, tie),
{
    lemma_tally_prefix_on(s, 0, a, target, tie);
    assert forall|k: int| a <= k < s.len() && #[trigger] s[k].len < 0 implies s[k].ins - s[k].len > target by {
        assert(s[a].ins <= s[k].ins);
        if k > a && s[a].len < 0 {
            assert(s[k].ins >= s[a].ins - s[a].len);
        }
    }
    lemma_map_insert_on(s, target, tie, a, target + prefix_len(s, a));
}

/// Transforming the operations of `other` from index `i` inserts, at each
/// position, what they insert at anchors the base list places there.
proof fn lemma_transform_walk_landing(s: Seq<Op>, other: Seq<Op>, tie: bool, i: int, si: int, out: Seq<Op>, y: int)
    requires
        deletes_disjoint(s),
        ordered(other),
        0 <= i <= other.len(),
        0 <= si <= s.len(),
        i < other.len() ==> forall|k: int| 0 <= k < si ==> passed(#[trigger] s[k], other[i].ins as int, tie),
        transform_walk(s, other, tie, i, si, prefix_len(s, si), out) is Some,
    ensures
        tally(transform_walk(s, other, tie, i, si, prefix_len(s, si), out)->0, 0, inserted_len_at(y))
            == tally(out, 0, inserted_len_at(y)) + tally(other, i, landing_on(s, tie, y)),
    decreases other.len() - i,
{
    let sh = prefix_len(s, si);
    let f = inserted_len_at(y);
    lemma_counts_inserted_length();
    if i < other.len() {
        let op = other[i];
        let target = op.ins as int;
        lemma_advance_base_on(s, target, tie, si, sh);
        let adv = advance_base(s, target, tie, si, sh);
        let a = adv.0;
        lemma_tally_step(other, i, landing_on(s, tie, y));
        if i + 1 < other.len() {
            assert(other[i].ins <= other[i + 1].ins);
            assert forall|k: int| 0 <= k < a implies passed(#[trigger] s[k], other[i + 1].ins as int, tie) by {
                assert(passed(s[k], target, tie));
            }
        }
        let next: Option<Seq<Op>> = if op.len > 0 {
            let mapped = map_insert(s, target, tie, a, target + adv.1);
            spec_push_op(out, Op { ins: mapped as i32, len: op.len })
        } else {
            transform_delete(s, tie, target, target - op.len, a, adv.1, out)
        };
        if op.len > 0 {
            let mapped = map_insert(s, target, tie, a, target + adv.1);
            lemma_map_insert_placed(s, target, tie, a);
            lemma_push_op_total(out, Op { ins: mapped as i32, len: op.len }, f);
        } else {
            let del_end = target - op.len;
            if 0 <= a < s.len() && s[a].ins <= target && s[a].len < 0 {
                let sop = s[a];
                let sop_end = sop.ins - sop.len;
                let overlap = min_int(sop_end, del_end) - target;
                lemma_carry_delete_total(s, tie, del_end, target + overlap,
                    if sop_end <= del_end { a + 1 } else { a }, adv.1 - overlap, out, f);
            } else {
                lemma_carry_delete_total(s, tie, del_end, target, a, adv.1, out, f);
            }
        }
        lemma_transform_walk_landing(s, other, tie, i + 1, a, next->0, y);
    }
}

/// A transformed list inserts, at each position `y` of the text the base list
/// makes, exactly what the list transformed inserted at the anchors that the
/// base list places at `y`: after the base list's own inserts at the same
/// anchor when `tie`, before them otherwise, and after every insert of the
/// base list anchored before it, wherever that insert stands. The base list
/// is ordered with disjoint delete spans, and the list transformed is ordered.
pub proof fn law_transform_inserts_on(s: Seq<Op>, other: Seq<Op>, tie: bool, y: int)
    requires
        deletes_disjoint(s),
        ordered(other),
        spec_transform(s, other, tie) is Some,
    ensures
        insert_total_at(spec_transform(s, other, tie)->0, y) == landed_total_on(s, other, tie, y),
{
    assert(prefix_len(s, 0) == 0);
    lemma_transform_walk_landing(s, other, tie, 0, 0, Seq::empty(), y);
    assert(tally(Seq::<Op>::empty(), 0, inserted_len_at(y)) == 0);
}

/// A list transformed against a base list, the base list's inserts at the
/// same anchor coming first, inserts at each position `y` exactly what it
/// inserted at the anchors that the base list moves to `y`. The base list is
/// ordered with disjoint delete spans, and the list transformed is ordered.
pub proof fn law_transform_inserts(s: Seq<Op>, other: Seq<Op>, y: int)
    requires
        deletes_disjoint(s),
        ordered(other),
        spec_transform(s, other, true) is Some,
    ensures
        insert_total_at(spec_transform(s, other, true)->0, y) == landed_total_at(s, other, y),
{
    law_transform_inserts_on(s, other, true, y);
}

/// A tidy list is ordered with disjoint delete spans.
pub proof fn lemma_tidy_disjoint(s: Seq<Op>)
    requires
        tidy(s),
    ensures
        deletes_disjoint(s),
{
}

/// How many base characters of `a .. b` the range `op` deletes.
pub open spec fn removed_in(a: int, b: int) -> spec_fn(Op) -> int {
    |op: Op| if op.len < 0 { max_int(0, min_int(op.ins - op.len, b) - max_int(op.ins as int, a)) } else { 0 }
}

/// How many base characters of `a .. b` the ranges of `s` from index `t` on
/// leave.
pub open spec fn left_from(s: Seq<Op>, t: int, a: int, b: int) -> int {
    (b - a) - tally(s, t, removed_in(a, b))
}

/// The positions removed when the delete `op` is carried over `s` without the
/// ranges of `s` going first: one run, from where `s` places the start of the
/// span (before the inserts of `s` there) and as long as what `s` leaves of it.
pub open spec fn delete_run(s: Seq<Op>, op: Op) -> Set<int> {
    let start = placed_at(s, op.ins as int, false);
    span_set(start, start + left_from(s, 0, op.ins as int, op.ins - op.len))
}

/// The runs of the deletes of `other` from index `i` on.
pub open spec fn delete_runs_from(s: Seq<Op>, other: Seq<Op>, i: int) -> Set<int> {
    Set::new(|y: int| exists|k: int| i <= k < other.len() && 0 <= k && other[k].len < 0
        && #[trigger] delete_run(s, other[k]).contains(y))
}

/// Tallies agree where their functions agree.
proof fn lemma_tally_agree(s: Seq<Op>, t: int, f: spec_fn(Op) -> int, g: spec_fn(Op) -> int)
    requires
        0 <= t <= s.len(),
        forall|k: int| t <= k < s.len() ==> f(#[trigger] s[k]) == g(s[k]),
    ensures
        tally(s, t, f) == tally(s, t, g),
    decreases s.len() - t,
{
    if t < s.len() {
        assert(f(s[t]) == g(s[t]));
        lemma_tally_agree(s, t + 1, f, g);
    }
}

/// A tally of zeros is zero.
proof fn lemma_tally_zero(s: Seq<Op>, t: int, f: spec_fn(Op) -> int)
    requires
        0 <= t <= s.len(),
        forall|k: int| t <= k < s.len() ==> f(#[trigger] s[k]) == 0,
    ensures
        tally(s, t, f) == 0,
    decreases s.len() - t,
{
    if t < s.len() {
        assert(f(s[t]) == 0);
        lemma_tally_zero(s, t + 1, f);
    }
}

/// Deletes that start at or after `lo` and do not overlap remove at most
/// `b - lo` characters of `a .. b`, and never a negative number.
proof fn lemma_removed_bound(s: Seq<Op>, t: int, a: int, b: int, lo: int)
    requires
        clear_of_deletes(s),
        0 <= t <= s.len(),
        a <= lo,
        forall|k: int| t <= k < s.len() && #[trigger] s[k].len < 0 ==> s[k].ins >= lo,
    ensures
        0 <= tally(s, t, removed_in(a, b)) <= max_int(0, b - lo),
    decreases s.len() - t,
{
    if t < s.len() {
        let c = s[t];
        if c.len < 0 {
            let e = c.ins - c.len;
            assert forall|k: int| t + 1 <= k < s.len() && #[trigger] s[k].len < 0 implies s[k].ins >= e by {
                assert(s[k].ins >= s[t].ins - s[t].len);
            }
            lemma_removed_bound(s, t + 1, a, b, e);
        } else {
            lemma_removed_bound(s, t + 1, a, b, lo);
        }
    }
}

/// Two spans that meet make one.
proof fn lemma_span_join_at(a: int, b: int, c: int)
    requires
        a <= b <= c,
    ensures
        span_set(a, b).union(span_set(b, c)) == span_set(a, c),
{
    assert(span_set(a, b).union(span_set(b, c)) =~= span_set(a, c));
}

/// Carrying a delete of the base characters `curr .. del_end` across `s` from
/// index `t`, the ranges of `s` not going first, removes one run of positions
/// from `curr + tshift`, as long as what `s` leaves of the span.
proof fn lemma_carry_delete_run(s: Seq<Op>, del_end: int, curr: int, t: int, tshift: int, out: Seq<Op>)
    requires
        clear_of_deletes(s),
        0 <= t <= s.len(),
        forall|k: int| t <= k < s.len() && #[trigger] s[k].len <= 0 ==> s[k].ins >= curr,
        carry_delete(s, false, del_end, curr, t, tshift, out) is Some,
    ensures
        deleted_base(carry_delete(s, false, del_end, curr, t, tshift, out)->0)
            == deleted_base(out).union(span_set(curr + tshift, curr + tshift + left_from(s, t, curr, del_end))),
    decreases s.len() - t,
{
    let res = carry_delete(s, false, del_end, curr, t, tshift, out)->0;
    let rf = removed_in(curr, del_end);
    assert forall|k: int| t <= k < s.len() implies #[trigger] s[k].ins >= s[t].ins by {
        assert(s[t].ins <= s[k].ins);
    }
    if curr >= del_end {
        assert forall|k: int| t <= k < s.len() implies rf(#[trigger] s[k]) == 0 by {}
        lemma_tally_zero(s, t, rf);
        assert(span_set(curr + tshift, curr + tshift + left_from(s, t, curr, del_end)) =~= Set::<int>::empty());
        assert(deleted_base(out).union(Set::<int>::empty()) =~= deleted_base(out));
    } else if t >= s.len() || s[t].ins >= del_end {
        assert forall|k: int| t <= k < s.len() implies rf(#[trigger] s[k]) == 0 by {}
        lemma_tally_zero(s, t, rf);
        lemma_push_delete_span(out, curr, del_end, tshift);
    } else {
        let sop = s[t];
        let curr1: int = if sop.ins > curr { sop.ins as int } else { curr };
        let out1: Seq<Op> = if sop.ins > curr { push_delete(out, curr + tshift, sop.ins - curr)->0 } else { out };
        if sop.ins > curr {
            lemma_push_delete_span(out, curr, curr1, tshift);
        } else {
            assert(span_set(curr + tshift, curr1 + tshift) =~= Set::<int>::empty());
            assert(deleted_base(out).union(Set::<int>::empty()) =~= deleted_base(out));
        }
        assert(deleted_base(out1) == deleted_base(out).union(span_set(curr + tshift, curr1 + tshift)));
        lemma_tally_step(s, t, rf);
        if sop.len > 0 {
            assert forall|k: int| t + 1 <= k < s.len() && #[trigger] s[k].len <= 0 implies s[k].ins >= curr1 by {
                assert(s[t].ins <= s[k].ins);
            }
            assert forall|k: int| t + 1 <= k < s.len() implies rf(#[trigger] s[k]) == removed_in(curr1, del_end)(s[k]) by {
                assert(s[t].ins <= s[k].ins);
            }
            lemma_tally_agree(s, t + 1, rf, removed_in(curr1, del_end));
            lemma_removed_bound(s, t + 1, curr1, del_end, curr1);
            lemma_carry_delete_run(s, del_end, curr1, t + 1, tshift, out1);
            let k1 = left_from(s, t + 1, curr1, del_end);
            lemma_span_join_at(curr + tshift, curr1 + tshift, curr1 + tshift + k1);
            assert(deleted_base(res) =~= deleted_base(out).union(span_set(curr + tshift, curr + tshift + left_from(s, t, curr, del_end))));
        } else {
            let sop_end = sop.ins - sop.len;
            let overlap = min_int(sop_end, del_end) - curr1;
            assert(curr1 == sop.ins);
            assert forall|k: int| t + 1 <= k < s.len() && #[trigger] s[k].len <= 0 implies s[k].ins >= sop_end by {
                if sop.len < 0 {
                    assert(s[k].ins >= s[t].ins - s[t].len);
                } else {
                    assert(s[t].ins <= s[k].ins);
                }
            }
            assert forall|k: int| t + 1 <= k < s.len() implies rf(#[trigger] s[k]) == removed_in(sop_end, del_end)(s[k]) by {
                if s[k].len < 0 {
                    assert(s[k].ins >= sop_end);
                }
            }
            lemma_tally_agree(s, t + 1, rf, removed_in(sop_end, del_end));
            if sop_end <= del_end {
                lemma_removed_bound(s, t + 1, sop_end, del_end, sop_end);
                lemma_carry_delete_run(s, del_end, sop_end, t + 1, tshift - overlap, out1);
                let k1 = left_from(s, t + 1, sop_end, del_end);
                lemma_span_join_at(curr + tshift, curr1 + tshift, curr1 + tshift + k1);
                assert(deleted_base(res) =~= deleted_base(out).union(span_set(curr + tshift, curr + tshift + left_from(s, t, curr, del_end))));
            } else {
                assert forall|k: int| t + 1 <= k < s.len() implies rf(#[trigger] s[k]) == 0 by {
                    if s[k].len < 0 {
                        assert(s[k].ins >= sop_end);
                    }
                }
                lemma_tally_zero(s, t + 1, rf);
                assert(deleted_base(res) =~= deleted_base(out).union(span_set(curr + tshift, curr + tshift + left_from(s, t, curr, del_end))));
            }
        }
    }
}

/// Zero terms at the front of a tally can be skipped.
proof fn lemma_tally_skip_zero(s: Seq<Op>, i: int, a: int, f: spec_fn(Op) -> int)
    requires
        0 <= i <= a <= s.len(),
        forall|k: int| i <= k < a ==> f(#[trigger] s[k]) == 0,
    ensures
        tally(s, i, f) == tally(s, a, f),
    decreases a - i,
{
    if i < a {
        assert(f(s[i]) == 0);
        lemma_tally_skip_zero(s, i + 1, a, f);
    }
}

/// After advancing over the base list without its ranges going first, where
/// the stop is not inside a delete of the base list, the target is placed at
/// the target plus the lengths passed.
proof fn lemma_placed_after_advance(s: Seq<Op>, target: int, a: int)
    requires
        ordered(s),
        0 <= a <= s.len(),
        forall|k: int| 0 <= k < a ==> passed(#[trigger] s[k], target, false),
        a < s.len() ==> s[a].ins >= target,
    ensures
        placed_at(s, target, false) == target + prefix_len(s, a),
{
    lemma_tally_prefix_on(s, 0, a, target, false);
    assert forall|k: int| a <= k < s.len() implies shift_on(target, false)(#[trigger] s[k]) == 0 by {
        assert(s[a].ins <= s[k].ins);
    }
    lemma_tally_zero(s, a, shift_on(target, false));
}

/// Transforming the delete of the base characters `target .. del_end`, the
/// ranges of the base list not going first, removes one run from where the
/// base list places `target`, as long as what the base list leaves of the span.
proof fn lemma_transform_delete_run(s: Seq<Op>, target: int, del_end: int, a: int, out: Seq<Op>)
    requires
        clear_of_deletes(s),
        target < del_end,
        0 <= a <= s.len(),
        forall|k: int| 0 <= k < a ==> passed(#[trigger] s[k], target, false),
        a < s.len() ==> s[a].ins > target || (s[a].len < 0 && s[a].ins <= target < s[a].ins - s[a].len)
            || (s[a].len >= 0 && s[a].ins == target),
        transform_delete(s, false, target, del_end, a, prefix_len(s, a), out) is Some,
    ensures
        deleted_base(transform_delete(s, false, target, del_end, a, prefix_len(s, a), out)->0)
            == deleted_base(out).union(span_set(target + prefix_len(s, a), target + prefix_len(s, a) + left_from(s, 0, target, del_end))),
{
    let sh = prefix_len(s, a);
    let rf = removed_in(target, del_end);
    assert forall|k: int| 0 <= k < a implies rf(#[trigger] s[k]) == 0 by {
        assert(passed(s[k], target, false));
    }
    lemma_tally_skip_zero(s, 0, a, rf);
    assert forall|k: int| a <= k < s.len() implies #[trigger] s[k].ins >= s[a].ins by {
        assert(s[a].ins <= s[k].ins);
    }
    if 0 <= a < s.len() && s[a].ins <= target && s[a].len < 0 {
        let sop = s[a];
        let sop_end = sop.ins - sop.len;
        let overlap = min_int(sop_end, del_end) - target;
        lemma_tally_step(s, a, rf);
        assert forall|k: int| a + 1 <= k < s.len() && #[trigger] s[k].len <= 0 implies s[k].ins >= sop_end by {
            assert(s[k].ins >= s[a].ins - s[a].len);
        }
        assert forall|k: int| a + 1 <= k < s.len() implies rf(#[trigger] s[k]) == removed_in(sop_end, del_end)(s[k]) by {
            if s[k].len < 0 {
                assert(s[k].ins >= sop_end);
            }
        }
        lemma_tally_agree(s, a + 1, rf, removed_in(sop_end, del_end));
        if sop_end <= del_end {
            lemma_carry_delete_run(s, del_end, sop_end, a + 1, sh - overlap, out);
        } else {
            assert forall|k: int| a + 1 <= k < s.len() implies rf(#[trigger] s[k]) == 0 by {
                if s[k].len < 0 {
                    assert(s[k].ins >= sop_end);
                }
            }
            lemma_tally_zero(s, a + 1, rf);
            assert(span_set(target + sh, target + sh + left_from(s, 0, target, del_end)) =~= Set::<int>::empty());
            assert(deleted_base(out).union(Set::<int>::empty()) =~= deleted_base(out));
        }
    } else {
        lemma_carry_delete_run(s, del_end, target, a, sh, out);
    }
}

/// The runs from index `i` on are the run of the operation at `i`, if a
/// delete, and the runs after it.
proof fn lemma_delete_runs_step(s: Seq<Op>, other: Seq<Op>, i: int)
    requires
        0 <= i < other.len(),
    ensures
        delete_runs_from(s, other, i) == (if other[i].len < 0 { delete_run(s, other[i]) } else { Set::<int>::empty() })
            .union(delete_runs_from(s, other, i + 1)),
{
    let here = if other[i].len < 0 { delete_run(s, other[i]) } else { Set::<int>::empty() };
    assert forall|y: int| #[trigger] delete_runs_from(s, other, i).contains(y) <==> here.union(delete_runs_from(s, other, i + 1)).contains(y) by {
        if delete_runs_from(s, other, i).contains(y) {
            let k = choose|k: int| i <= k < other.len() && 0 <= k && other[k].len < 0 && #[trigger] delete_run(s, other[k]).contains(y);
            if k > i {
                assert(delete_runs_from(s, other, i + 1).contains(y));
            }
        }
        if delete_runs_from(s, other, i + 1).contains(y) {
            let k = choose|k: int| i + 1 <= k < other.len() && 0 <= k && other[k].len < 0 && #[trigger] delete_run(s, other[k]).contains(y);
            assert(delete_runs_from(s, other, i).contains(y));
        }
        if here.contains(y) {
            assert(delete_run(s, other[i]).contains(y));
            assert(delete_runs_from(s, other, i).contains(y));
        }
    }
    assert(delete_runs_from(s, other, i) =~= here.union(delete_runs_from(s, other, i + 1)));
}

/// Transforming the operations of `other` from index `i`, the ranges of the
/// base list not going first, removes their runs.
proof fn lemma_transform_walk_runs(s: Seq<Op>, other: Seq<Op>, i: int, si: int, out: Seq<Op>)
    requires
        clear_of_deletes(s),
        ordered(other),
        deletes_start_outside(s, other),
        0 <= i <= other.len(),
        0 <= si <= s.len(),
        i < other.len() ==> forall|k: int| 0 <= k < si ==> passed(#[trigger] s[k], other[i].ins as int, false),
        transform_walk(s, other, false, i, si, prefix_len(s, si), out) is Some,
    ensures
        deleted_base(transform_walk(s, other, false, i, si, prefix_len(s, si), out)->0)
            == deleted_base(out).union(delete_runs_from(s, other, i)),
    decreases other.len() - i,
{
    let sh = prefix_len(s, si);
    if i >= other.len() {
        assert(delete_runs_from(s, other, i) =~= Set::<int>::empty());
        assert(deleted_base(out).union(Set::<int>::empty()) =~= deleted_base(out));
    } else {
        let op = other[i];
        let target = op.ins as int;
        lemma_advance_base_on(s, target, false, si, sh);
        let adv = advance_base(s, target, false, si, sh);
        let a = adv.0;
        lemma_delete_runs_step(s, other, i);
        if i + 1 < other.len() {
            assert(other[i].ins <= other[i + 1].ins);
            assert forall|k: int| 0 <= k < a implies passed(#[trigger] s[k], other[i + 1].ins as int, false) by {
                assert(passed(s[k], target, false));
            }
        }
        let next: Option<Seq<Op>> = if op.len > 0 {
            let mapped = map_insert(s, target, false, a, target + adv.1);
            spec_push_op(out, Op { ins: mapped as i32, len: op.len })
        } else {
            transform_delete(s, false, target, target - op.len, a, adv.1, out)
        };
        if op.len > 0 {
            let mapped = map_insert(s, target, false, a, target + adv.1);
            lemma_push_op_deleted(out, Op { ins: mapped as i32, len: op.len });
        } else if op.len == 0 {
            assert(next == Some(out));
        } else {
            if a < s.len() && s[a].len < 0 && s[a].ins <= target {
                assert(!(s[a].ins < other[i].ins < s[a].ins - s[a].len));
            }
            lemma_transform_delete_run(s, target, target - op.len, a, out);
            lemma_placed_after_advance(s, target, a);
        }
        lemma_transform_walk_runs(s, other, i + 1, a, next->0);
        assert(deleted_base(out).union(Set::<int>::empty()) =~= deleted_base(out));
        assert(deleted_base(transform_walk(s, other, false, i, si, sh, out)->0)
            =~= deleted_base(out).union(delete_runs_from(s, other, i)));
    }
}

/// The runs of all the deletes of `other`.
pub open spec fn delete_runs(s: Seq<Op>, other: Seq<Op>) -> Set<int> {
    delete_runs_from(s, other, 0)
}

/// Without the ranges of the base list going first, each delete of the
/// transformed list becomes one run in the text the base list makes: it
/// starts where the base list places the start of its span (before the base
/// list's inserts there) and removes as many characters as the base list left
/// of the span, so that inserts of the base list inside the span are removed
/// with it and the run ends as many characters short. The base list is ordered
/// with no delete or empty range inside an earlier delete, the list
/// transformed is ordered, and none of its deletes starts strictly inside a
/// delete of the base list.
pub proof fn law_transform_delete_runs(s: Seq<Op>, other: Seq<Op>)
    requires
        clear_of_deletes(s),
        ordered(other),
        deletes_start_outside(s, other),
        spec_transform(s, other, false) is Some,
    ensures
        deleted_base(spec_transform(s, other, false)->0) == delete_runs(s, other),
{
    let e = Seq::<Op>::empty();
    assert(prefix_len(s, 0) == 0);
    lemma_transform_walk_runs(s, other, 0, 0, e);
    lemma_deleted_end(e, 0);
    assert(Set::<int>::empty().union(delete_runs(s, other)) =~= delete_runs(s, other));
}

} // verus!
