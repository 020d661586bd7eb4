//! Canonical order of a sequential list: the order in which the list
//! operations keep ranges, and under which the document view of a list
//! changes the way a document edit does.

use vstd::prelude::*;
use crate::ops::Op;
use crate::locate::{LocateBias, PositionRef, locate_walk, spec_locate, spec_apply_insert, spec_insert_positive, walkable};
use crate::doc_view::{gap_items, end_base, prefix_base, prefix_doc, lemma_items_single, lemma_prefix_step,
    lemma_prefix_base_le};

verus! {

/// The end of the visible base text after the ranges `s` (a gap before a range
/// makes the base text visible up to that range), starting at base cursor
/// `base` with visible end `vis`.
pub open spec fn vis_after(s: Seq<Op>, base: int, vis: int) -> int
    decreases s.len(),
{
    if s.len() == 0 {
        vis
    } else {
        let c = s[0];
        let b1: int = if c.ins > base { c.ins as int } else { base };
        let v1: int = if c.ins > base { c.ins as int } else { vis };
        vis_after(s.drop_first(), if c.len < 0 { b1 - c.len } else { b1 }, v1)
    }
}

/// A sequential list in canonical order from base cursor `base` and visible
/// end `vis`: every delete range starts at or after the base cursor, and every
/// other range is anchored at or after the end of the visible base text.
pub open spec fn canonical_from(s: Seq<Op>, base: int, vis: int) -> bool
    decreases s.len(),
{
    if s.len() == 0 {
        true
    } else {
        let c = s[0];
        let b1: int = if c.ins > base { c.ins as int } else { base };
        let v1: int = if c.ins > base { c.ins as int } else { vis };
        if c.len < 0 {
            c.ins >= base && canonical_from(s.drop_first(), b1 - c.len, v1)
        } else {
            c.ins >= v1 && canonical_from(s.drop_first(), b1, v1)
        }
    }
}

/// A sequential list in canonical order.
pub open spec fn canonical(r: Seq<Op>) -> bool {
    canonical_from(r, 0, 0)
}

pub proof fn lemma_canonical_concat(a: Seq<Op>, b: Seq<Op>, base: int, vis: int)
    ensures
        canonical_from(a + b, base, vis) == (canonical_from(a, base, vis)
            && canonical_from(b, end_base(a, base), vis_after(a, base, vis))),
        vis_after(a + b, base, vis) == vis_after(b, end_base(a, base), vis_after(a, base, vis)),
    decreases a.len(),
{
    if a.len() == 0 {
        assert(a + b == b);
    } else {
        let c = a[0];
        let b1: int = if c.ins > base { c.ins as int } else { base };
        let v1: int = if c.ins > base { c.ins as int } else { vis };
        assert((a + b)[0] == c);
        assert((a + b).drop_first() == a.drop_first() + b);
        lemma_canonical_concat(a.drop_first(), b, if c.len < 0 { b1 - c.len } else { b1 }, v1);
    }
}

pub proof fn lemma_vis_le_base(s: Seq<Op>, base: int, vis: int)
    requires
        vis <= base,
    ensures
        vis_after(s, base, vis) <= end_base(s, base),
    decreases s.len(),
{
    if s.len() > 0 {
        let c = s[0];
        let b1: int = if c.ins > base { c.ins as int } else { base };
        let v1: int = if c.ins > base { c.ins as int } else { vis };
        lemma_vis_le_base(s.drop_first(), if c.len < 0 { b1 - c.len } else { b1 }, v1);
    }
}


/// The order condition and visible end of a single range.
pub proof fn lemma_canonical_single(c: Op, base: int, vis: int)
    ensures
        canonical_from(seq![c], base, vis) == (if c.len < 0 {
            c.ins >= base
        } else {
            c.ins >= (if c.ins > base { c.ins as int } else { vis })
        }),
        vis_after(seq![c], base, vis) == (if c.ins > base { c.ins as int } else { vis }),
{
    let s = seq![c];
    assert(s[0] == c);
    assert(s.drop_first() =~= Seq::<Op>::empty());
    let b1: int = if c.ins > base { c.ins as int } else { base };
    let v1: int = if c.ins > base { c.ins as int } else { vis };
    assert(canonical_from(s.drop_first(), b1 - c.len, v1));
    assert(canonical_from(s.drop_first(), b1, v1));
    assert(vis_after(s.drop_first(), b1 - c.len, v1) == v1);
    assert(vis_after(s.drop_first(), b1, v1) == v1);
}

/// Of any two delete ranges of `r`, the earlier one ends before the later one
/// starts: delete spans neither overlap nor touch.
pub open spec fn deletes_apart(r: Seq<Op>) -> bool {
    forall|i: int, j: int| #![trigger r[i], r[j]]
        0 <= i < j < r.len() && r[i].len < 0 && r[j].len < 0 ==> r[i].ins - r[i].len < r[j].ins
}

/// `r` has no empty range, and its delete spans neither overlap nor touch.
pub open spec fn well_kept(r: Seq<Op>) -> bool {
    &&& forall|m: int| 0 <= m < r.len() ==> #[trigger] r[m].len != 0
    &&& deletes_apart(r)
}

/// The end of the visible base text after the first `j` ranges of `r`.
pub open spec fn vis_at(r: Seq<Op>, j: int) -> int {
    vis_after(r.take(j), 0, 0)
}

/// A canonical list splits at any index into a canonical prefix and a suffix
/// that is canonical from the state the prefix leaves.
pub proof fn lemma_canonical_split(r: Seq<Op>, j: int)
    requires
        0 <= j <= r.len(),
    ensures
        canonical(r) == (canonical_from(r.take(j), 0, 0) && canonical_from(r.skip(j), prefix_base(r, j), vis_at(r, j))),
        vis_at(r, j) <= prefix_base(r, j),
{
    assert(r == r.take(j) + r.skip(j));
    lemma_canonical_concat(r.take(j), r.skip(j), 0, 0);
    lemma_vis_le_base(r.take(j), 0, 0);
}

/// The visible end after one more range.
pub proof fn lemma_vis_step(r: Seq<Op>, j: int)
    requires
        0 <= j < r.len(),
    ensures
        vis_at(r, j + 1) == vis_after(seq![r[j]], prefix_base(r, j), vis_at(r, j)),
{
    assert(r.take(j + 1) == r.take(j) + seq![r[j]]);
    lemma_canonical_concat(r.take(j), seq![r[j]], 0, 0);
}

/// Replacing an insert range by another insert range with the same anchor
/// changes neither the order nor where the walk ends.
pub proof fn lemma_canonical_update_insert(s: Seq<Op>, j: int, x: Op, base: int, vis: int)
    requires
        0 <= j < s.len(),
        s[j].len >= 0,
        x.len >= 0,
        x.ins == s[j].ins,
    ensures
        canonical_from(s.update(j, x), base, vis) == canonical_from(s, base, vis),
        vis_after(s.update(j, x), base, vis) == vis_after(s, base, vis),
        end_base(s.update(j, x), base) == end_base(s, base),
    decreases s.len(),
{
    let c = s[0];
    let b1: int = if c.ins > base { c.ins as int } else { base };
    let v1: int = if c.ins > base { c.ins as int } else { vis };
    if j == 0 {
        assert(s.update(0, x).drop_first() == s.drop_first());
    } else {
        assert(s.update(j, x)[0] == c);
        assert(s.update(j, x).drop_first() == s.drop_first().update(j - 1, x));
        lemma_canonical_update_insert(s.drop_first(), j - 1, x, if c.len < 0 { b1 - c.len } else { b1 }, v1);
    }
}

/// A canonical suffix stays canonical when the base cursor moves up to an
/// anchor `a` not past its first range.
proof fn lemma_canonical_raise(s: Seq<Op>, base: int, vis: int, a: int)
    requires
        canonical_from(s, base, vis),
        vis <= base < a,
        s.len() > 0 ==> s[0].ins >= a,
    ensures
        canonical_from(s, a, a),
{
}

/// Inserting the insert range `x` at index `j` keeps a list canonical when
/// `x` is anchored within the visible base text at `j`, or past the base
/// cursor but not past the next range.
pub proof fn lemma_canonical_insert_new(r: Seq<Op>, j: int, x: Op)
    requires
        canonical(r),
        0 <= j <= r.len(),
        x.len >= 0,
        x.ins <= prefix_base(r, j) ==> x.ins >= vis_at(r, j),
        x.ins > prefix_base(r, j) && j < r.len() ==> r[j].ins >= x.ins,
    ensures
        canonical(r.insert(j, x)),
{
    let b = prefix_base(r, j);
    let v = vis_at(r, j);
    lemma_canonical_split(r, j);
    let s = r.skip(j);
    assert(r.insert(j, x) == r.take(j) + (seq![x] + s));
    lemma_canonical_concat(r.take(j), seq![x] + s, 0, 0);
    assert((seq![x] + s)[0] == x);
    assert((seq![x] + s).drop_first() == s);
    if x.ins > b {
        if j < r.len() {
            assert(s[0] == r[j]);
        }
        lemma_canonical_raise(s, b, v, x.ins as int);
    }
}

/// Growing an insert range keeps a list's shape.
proof fn lemma_kept_update_insert(r: Seq<Op>, j: int, x: Op)
    requires
        well_kept(r),
        0 <= j < r.len(),
        r[j].len >= 0,
        x.len > 0,
    ensures
        well_kept(r.update(j, x)),
{
    let r2 = r.update(j, x);
    assert forall|a: int, b: int| #![trigger r2[a], r2[b]]
        0 <= a < b < r2.len() && r2[a].len < 0 && r2[b].len < 0 implies r2[a].ins - r2[a].len < r2[b].ins by {
        assert(r2[a] == r[a] && r2[b] == r[b]);
    }
    assert forall|m: int| 0 <= m < r2.len() implies #[trigger] r2[m].len != 0 by {
        if m != j {
            assert(r2[m] == r[m]);
        }
    }
}

/// Adding an insert range keeps a list's shape.
proof fn lemma_kept_insert_new(r: Seq<Op>, j: int, x: Op)
    requires
        well_kept(r),
        0 <= j <= r.len(),
        x.len > 0,
    ensures
        well_kept(r.insert(j, x)),
{
    let r2 = r.insert(j, x);
    assert forall|a: int, b: int| #![trigger r2[a], r2[b]]
        0 <= a < b < r2.len() && r2[a].len < 0 && r2[b].len < 0 implies r2[a].ins - r2[a].len < r2[b].ins by {
        let a0 = if a < j { a } else { a - 1 };
        let b0 = if b < j { b } else { b - 1 };
        assert(r2[a] == r[a0] && r2[b] == r[b0]);
    }
    assert forall|m: int| 0 <= m < r2.len() implies #[trigger] r2[m].len != 0 by {
        if m < j {
            assert(r2[m] == r[m]);
        } else if m > j {
            assert(r2[m] == r[m - 1]);
        }
    }
}

/// `insert_positive` at index `j` with an anchor that may stand there keeps a list canonical.
proof fn lemma_insert_positive_canonical(r: Seq<Op>, j: int, base: i32, len: i32)
    requires
        canonical(r),
        0 <= j <= r.len(),
        len > 0,
        spec_insert_positive(r, j, base, len) is Some,
        base <= prefix_base(r, j) ==> base >= vis_at(r, j),
        base > prefix_base(r, j) && j < r.len() ==> r[j].ins >= base,
    ensures
        canonical(spec_insert_positive(r, j, base, len)->0),
        well_kept(r) ==> well_kept(spec_insert_positive(r, j, base, len)->0),
{
    let r2 = spec_insert_positive(r, j, base, len)->0;
    if j > 0 && r[j - 1].len > 0 && r[j - 1].ins == base {
        lemma_canonical_update_insert(r, j - 1, r2[j - 1], 0, 0);
        assert(r2 == r.update(j - 1, r2[j - 1]));
        if well_kept(r) {
            lemma_kept_update_insert(r, j - 1, r2[j - 1]);
        }
    } else if j < r.len() && r[j].len > 0 && r[j].ins == base {
        lemma_canonical_update_insert(r, j, r2[j], 0, 0);
        assert(r2 == r.update(j, r2[j]));
        if well_kept(r) {
            lemma_kept_update_insert(r, j, r2[j]);
        }
    } else {
        lemma_canonical_insert_new(r, j, Op { ins: base, len });
        if well_kept(r) {
            lemma_kept_insert_new(r, j, Op { ins: base, len });
        }
    }
}

/// The walk of `locate_position` from index `j` ends where an insert keeps
/// the list canonical.
proof fn lemma_insert_canonical_walk(r: Seq<Op>, t: int, len: i32, j: int)
    requires
        canonical(r),
        0 <= j <= r.len(),
        walkable(r),
        len > 0,
        0 <= t <= i32::MAX,
        end_base(r, 0) + t <= i32::MAX,
        t >= prefix_doc(r, j),
        locate_walk(r, t, LocateBias::PreferOutsideInsert, j, prefix_base(r, j), prefix_doc(r, j))
            == spec_locate(r, t, LocateBias::PreferOutsideInsert),
        spec_apply_insert(r, t as i32, len) is Some,
    ensures
        canonical(spec_apply_insert(r, t as i32, len)->0),
        well_kept(r) ==> well_kept(spec_apply_insert(r, t as i32, len)->0),
    decreases r.len() - j,
{
    let b = prefix_base(r, j);
    let d = prefix_doc(r, j);
    let v = vis_at(r, j);
    let n = r.len() as int;
    lemma_prefix_base_le(r, j);
    lemma_canonical_split(r, j);
    let loc = spec_locate(r, t, LocateBias::PreferOutsideInsert);
    assert((t as i32) as int == t);
    if j == n {
        let bb = b + (t - d);
        assert((bb as i32) as int == bb);
        assert(loc == (PositionRef::Base { base: bb as i32, index: n as usize }));
        lemma_insert_positive_canonical(r, n, bb as i32, len);
    } else {
        let c = r[j];
        assert(r.skip(j)[0] == c);
        lemma_prefix_step(r, j);
        lemma_items_single(c, b);
        if c.ins > b && t < d + (c.ins - b) {
            let bb = b + (t - d);
            assert((bb as i32) as int == bb);
            assert(loc == (PositionRef::Base { base: bb as i32, index: j as usize }));
            lemma_insert_positive_canonical(r, j, bb as i32, len);
        } else {
            let b1: int = if c.ins > b { c.ins as int } else { b };
            let d1: int = if c.ins > b { d + (c.ins - b) } else { d };
            assert(gap_items(b, c.ins as int).len() == d1 - d);
            if c.len < 0 {
                if t == d1 {
                    assert(loc == (PositionRef::Base { base: c.ins, index: j as usize }));
                    lemma_insert_positive_canonical(r, j, c.ins, len);
                } else {
                    assert(locate_walk(r, t, LocateBias::PreferOutsideInsert, j, b, d)
                        == locate_walk(r, t, LocateBias::PreferOutsideInsert, j + 1, b1 - c.len, d1));
                    lemma_insert_canonical_walk(r, t, len, j + 1);
                }
            } else if t == d1 {
                assert(loc == (PositionRef::Base { base: c.ins, index: j as usize }));
                lemma_insert_positive_canonical(r, j, c.ins, len);
            } else if (t == d1 + c.len) || (t < d1 + c.len && t > d1) {
                assert(loc matches PositionRef::Insert { index, .. } && index == j);
                let r2 = spec_apply_insert(r, t as i32, len)->0;
                lemma_canonical_update_insert(r, j, r2[j], 0, 0);
                assert(r2 == r.update(j, r2[j]));
                if well_kept(r) {
                    lemma_kept_update_insert(r, j, r2[j]);
                }
            } else {
                assert(locate_walk(r, t, LocateBias::PreferOutsideInsert, j, b, d)
                    == locate_walk(r, t, LocateBias::PreferOutsideInsert, j + 1, b1, d1 + c.len));
                lemma_insert_canonical_walk(r, t, len, j + 1);
            }
        }
    }
}

/// Inserting into a canonical list keeps it canonical, and keeps a list
/// with no empty range and with delete spans apart so.
pub proof fn lemma_apply_insert_keeps_canonical(r: Seq<Op>, pos: i32, len: i32)
    requires
        canonical(r),
        walkable(r),
        pos >= 0,
        end_base(r, 0) + pos <= i32::MAX,
        spec_apply_insert(r, pos, len) is Some,
    ensures
        canonical(spec_apply_insert(r, pos, len)->0),
        well_kept(r) ==> well_kept(spec_apply_insert(r, pos, len)->0),
{
    if len > 0 {
        assert(r.take(0) =~= Seq::<Op>::empty());
        assert(prefix_base(r, 0) == 0);
        assert(prefix_doc(r, 0) == 0);
        lemma_insert_canonical_walk(r, pos as int, len, 0);
    }
}

} // verus!
