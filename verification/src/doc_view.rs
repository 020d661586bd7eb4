//! The document that a sequential list stands for, and how the list
//! operations act on it.
//!
//! Walking a sequential list with a base cursor: before each range come the
//! untouched base characters from the cursor up to the range's `ins`; a delete
//! range then skips `-len` base characters, an insert range contributes `len`
//! inserted characters anchored at its `ins`. Past the last range the base
//! text continues from the cursor for ever.

use vstd::prelude::*;
use crate::ops::Op;
use crate::locate::{LocateBias, PositionRef, locate_walk, spec_locate, spec_apply_insert, spec_insert_positive, walkable};

verus! {

/// A character of the document: a base character by its base position, or an
/// inserted character by the base position it is anchored at.
pub enum DocItem {
    Base(int),
    Inserted(int),
}

/// The base characters `from .. to`.
pub open spec fn gap_items(from: int, to: int) -> Seq<DocItem> {
    Seq::new(if to > from { (to - from) as nat } else { 0 }, |k: int| DocItem::Base(from + k))
}

/// `n` characters inserted at anchor `a`.
pub open spec fn run_items(a: int, n: int) -> Seq<DocItem> {
    Seq::new(if n > 0 { n as nat } else { 0 }, |k: int| DocItem::Inserted(a))
}

/// The characters that the ranges `s` contribute, the base cursor starting at `base`.
pub open spec fn items(s: Seq<Op>, base: int) -> Seq<DocItem>
    decreases s.len(),
{
    if s.len() == 0 {
        Seq::empty()
    } else {
        let c = s[0];
        let b1: int = if c.ins > base { c.ins as int } else { base };
        if c.len < 0 {
            gap_items(base, c.ins as int) + items(s.drop_first(), b1 - c.len)
        } else {
            gap_items(base, c.ins as int) + run_items(c.ins as int, c.len as int) + items(s.drop_first(), b1)
        }
    }
}

/// The base cursor after the ranges `s`, starting at `base`.
pub open spec fn end_base(s: Seq<Op>, base: int) -> int
    decreases s.len(),
{
    if s.len() == 0 {
        base
    } else {
        let c = s[0];
        let b1: int = if c.ins > base { c.ins as int } else { base };
        end_base(s.drop_first(), if c.len < 0 { b1 - c.len } else { b1 })
    }
}

/// The character at document position `k` of the document that `s` stands for.
pub open spec fn item_at(s: Seq<Op>, k: int) -> DocItem {
    let p = items(s, 0);
    if k < p.len() {
        p[k]
    } else {
        DocItem::Base(end_base(s, 0) + (k - p.len()))
    }
}

pub proof fn lemma_end_base_monotone(s: Seq<Op>, base: int)
    ensures
        base <= end_base(s, base),
    decreases s.len(),
{
    if s.len() > 0 {
        let c = s[0];
        let b1: int = if c.ins > base { c.ins as int } else { base };
        lemma_end_base_monotone(s.drop_first(), if c.len < 0 { b1 - c.len } else { b1 });
    }
}

pub proof fn lemma_items_concat(a: Seq<Op>, b: Seq<Op>, base: int)
    ensures
        items(a + b, base) == items(a, base) + items(b, end_base(a, base)),
        end_base(a + b, base) == end_base(b, end_base(a, base)),
    decreases a.len(),
{
    if a.len() == 0 {
        assert(a + b == b);
        assert(Seq::<DocItem>::empty() + items(b, base) == items(b, base));
    } else {
        let c = a[0];
        let b1: int = if c.ins > base { c.ins as int } else { base };
        let nb: int = if c.len < 0 { b1 - c.len } else { b1 };
        assert((a + b)[0] == c);
        assert((a + b).drop_first() == a.drop_first() + b);
        lemma_items_concat(a.drop_first(), b, nb);
        if c.len < 0 {
            assert(items(a + b, base) == gap_items(base, c.ins as int) + items(a.drop_first() + b, nb));
        } else {
            assert(items(a + b, base) == gap_items(base, c.ins as int) + run_items(c.ins as int, c.len as int) + items(a.drop_first() + b, nb));
        }
    }
}

pub proof fn lemma_gap_split(from: int, mid: int, to: int)
    requires
        from <= mid <= to,
    ensures
        gap_items(from, to) == gap_items(from, mid) + gap_items(mid, to),
{
    assert(gap_items(from, to) =~= gap_items(from, mid) + gap_items(mid, to));
}

pub proof fn lemma_run_split(a: int, m: int, n: int)
    requires
        0 <= m,
        0 <= n,
    ensures
        run_items(a, m + n) == run_items(a, m) + run_items(a, n),
{
    assert(run_items(a, m + n) =~= run_items(a, m) + run_items(a, n));
}

/// The items of a nonempty list, with the gap before its first range split off.
pub proof fn lemma_items_lift(s: Seq<Op>, base: int, mid: int)
    requires
        s.len() > 0,
        base <= mid <= (if s[0].ins > base { s[0].ins as int } else { base }),
    ensures
        items(s, base) == gap_items(base, mid) + items(s, mid),
        end_base(s, base) == end_base(s, mid),
{
    let c = s[0];
    let b1: int = if c.ins > base { c.ins as int } else { base };
    let m1: int = if c.ins > mid { c.ins as int } else { mid };
    assert(b1 == m1);
    lemma_gap_split(base, mid, if c.ins > base { c.ins as int } else { base });
    if c.ins > base {
        assert(gap_items(base, c.ins as int) == gap_items(base, mid) + gap_items(mid, c.ins as int));
    } else {
        assert(gap_items(base, c.ins as int) =~= Seq::<DocItem>::empty());
        assert(gap_items(mid, c.ins as int) =~= Seq::<DocItem>::empty());
        assert(gap_items(base, mid) =~= Seq::<DocItem>::empty());
    }
    if c.len < 0 {
        assert(items(s, mid) == gap_items(mid, c.ins as int) + items(s.drop_first(), m1 - c.len));
        assert(items(s, base) == gap_items(base, c.ins as int) + items(s.drop_first(), b1 - c.len));
        assert(items(s, base) =~= gap_items(base, mid) + items(s, mid));
    } else {
        assert(items(s, mid) == gap_items(mid, c.ins as int) + run_items(c.ins as int, c.len as int) + items(s.drop_first(), m1));
        assert(items(s, base) == gap_items(base, c.ins as int) + run_items(c.ins as int, c.len as int) + items(s.drop_first(), b1));
        assert(items(s, base) =~= gap_items(base, mid) + items(s, mid));
    }
}

/// The items and end base of a single range.
pub proof fn lemma_items_single(c: Op, base: int)
    ensures
        items(seq![c], base) == (if c.len < 0 {
            gap_items(base, c.ins as int)
        } else {
            gap_items(base, c.ins as int) + run_items(c.ins as int, c.len as int)
        }),
        end_base(seq![c], base) == (if c.ins > base { c.ins as int } else { base }) - (if c.len < 0 { c.len as int } else { 0 }),
{
    let s = seq![c];
    assert(s[0] == c);
    assert(s.drop_first() =~= Seq::<Op>::empty());
    let b1: int = if c.ins > base { c.ins as int } else { base };
    assert(items(s.drop_first(), b1) == Seq::<DocItem>::empty());
    assert(items(s.drop_first(), b1 - c.len) == Seq::<DocItem>::empty());
    assert(end_base(s.drop_first(), b1) == b1);
    assert(end_base(s.drop_first(), b1 - c.len) == b1 - c.len);
    if c.len < 0 {
        assert(items(s, base) =~= gap_items(base, c.ins as int));
    } else {
        assert(items(s, base) =~= gap_items(base, c.ins as int) + run_items(c.ins as int, c.len as int));
    }
}

/// The items and end base of `a`, then `x`, then `c`.
pub proof fn lemma_items_three(a: Seq<Op>, x: Op, c: Seq<Op>, base: int)
    ensures
        items(a + seq![x] + c, base)
            == items(a, base) + items(seq![x], end_base(a, base)) + items(c, end_base(seq![x], end_base(a, base))),
        end_base(a + seq![x] + c, base) == end_base(c, end_base(seq![x], end_base(a, base))),
{
    lemma_items_concat(a + seq![x], c, base);
    lemma_items_concat(a, seq![x], base);
}

/// The document after inserting `len` characters anchored at `a` at position
/// `t` of the document of `r`: within the listed part of the document the run
/// goes in at `t`; past it, the base text runs on to `a` first.
pub open spec fn doc_inserted(r: Seq<Op>, r2: Seq<Op>, t: int, len: int, a: int) -> bool {
    let d = items(r, 0);
    let e = end_base(r, 0);
    if t <= d.len() {
        items(r2, 0) == d.take(t) + run_items(a, len) + d.skip(t) && end_base(r2, 0) == e
    } else {
        items(r2, 0) == d + gap_items(e, a) + run_items(a, len) && end_base(r2, 0) == a && a == e + (t - d.len())
    }
}

/// The anchor that an insert at document position `pos` of `r` gets.
pub open spec fn insert_anchor(r: Seq<Op>, pos: int) -> int {
    match spec_locate(r, pos, LocateBias::PreferOutsideInsert) {
        PositionRef::Base { base, .. } => base as int,
        PositionRef::Insert { index, .. } => r[index as int].ins as int,
    }
}

/// Base cursor after the first `j` ranges.
pub open spec fn prefix_base(r: Seq<Op>, j: int) -> int {
    end_base(r.take(j), 0)
}

/// Document cursor after the first `j` ranges.
pub open spec fn prefix_doc(r: Seq<Op>, j: int) -> int {
    items(r.take(j), 0).len() as int
}

pub proof fn lemma_prefix_step(r: Seq<Op>, j: int)
    requires
        0 <= j < r.len(),
    ensures
        items(r.take(j + 1), 0) == items(r.take(j), 0) + items(seq![r[j]], prefix_base(r, j)),
        prefix_base(r, j + 1) == end_base(seq![r[j]], prefix_base(r, j)),
{
    assert(r.take(j + 1) == r.take(j) + seq![r[j]]);
    lemma_items_concat(r.take(j), seq![r[j]], 0);
}

proof fn lemma_split_whole(r: Seq<Op>, j: int)
    requires
        0 <= j <= r.len(),
    ensures
        items(r, 0) == items(r.take(j), 0) + items(r.skip(j), prefix_base(r, j)),
        end_base(r, 0) == end_base(r.skip(j), prefix_base(r, j)),
{
    assert(r == r.take(j) + r.skip(j));
    lemma_items_concat(r.take(j), r.skip(j), 0);
}

/// `r` with a run of `len` more characters at its range `j`.
proof fn lemma_grow_items(r: Seq<Op>, j: int, len: int, r2: Seq<Op>)
    requires
        0 <= j < r.len(),
        r[j].len >= 0,
        len > 0,
        r2 == r.update(j, Op { ins: r[j].ins, len: (r[j].len + len) as i32 }),
        r[j].len + len <= i32::MAX,
    ensures
        items(r2, 0) == items(r.take(j), 0) + gap_items(prefix_base(r, j), r[j].ins as int)
            + run_items(r[j].ins as int, r[j].len + len) + items(r.skip(j + 1), end_base(seq![r[j]], prefix_base(r, j))),
        items(r, 0) == items(r.take(j), 0) + gap_items(prefix_base(r, j), r[j].ins as int)
            + run_items(r[j].ins as int, r[j].len as int) + items(r.skip(j + 1), end_base(seq![r[j]], prefix_base(r, j))),
        end_base(r2, 0) == end_base(r, 0),
{
    let g = Op { ins: r[j].ins, len: (r[j].len + len) as i32 };
    assert(r2 == r.take(j) + seq![g] + r.skip(j + 1));
    assert(r == r.take(j) + seq![r[j]] + r.skip(j + 1));
    let b = prefix_base(r, j);
    lemma_items_three(r.take(j), g, r.skip(j + 1), 0);
    lemma_items_three(r.take(j), r[j], r.skip(j + 1), 0);
    lemma_items_single(g, b);
    lemma_items_single(r[j], b);
}

/// Growing an insert run by `len` characters is inserting them at any point of the run.
proof fn lemma_run_insert(pre: Seq<DocItem>, a: int, m: int, len: int, post: Seq<DocItem>, p: int)
    requires
        0 <= p <= m,
        len > 0,
    ensures
        pre + run_items(a, m + len) + post
            == (pre + run_items(a, m) + post).take(pre.len() + p) + run_items(a, len) + (pre + run_items(a, m) + post).skip(pre.len() + p),
{
    let whole = pre + run_items(a, m) + post;
    assert(whole.take(pre.len() + p) =~= pre + run_items(a, p));
    assert(whole.skip(pre.len() + p) =~= run_items(a, m - p) + post);
    assert(pre + run_items(a, m + len) + post =~= pre + run_items(a, p) + run_items(a, len) + (run_items(a, m - p) + post));
}


/// Growing the insert range `j - 1` of `r` by `len` puts the new characters at
/// the end of the first `j` ranges' part of the document.
proof fn lemma_grow_prev(r: Seq<Op>, j: int, len: int)
    requires
        0 < j <= r.len(),
        r[j - 1].len > 0,
        len > 0,
        r[j - 1].len + len <= i32::MAX,
    ensures
        ({
            let r2 = r.update(j - 1, Op { ins: r[j - 1].ins, len: (r[j - 1].len + len) as i32 });
            let d = items(r, 0);
            let t = prefix_doc(r, j);
            items(r2, 0) == d.take(t) + run_items(r[j - 1].ins as int, len) + d.skip(t)
                && end_base(r2, 0) == end_base(r, 0)
        }),
{
    let r2 = r.update(j - 1, Op { ins: r[j - 1].ins, len: (r[j - 1].len + len) as i32 });
    lemma_grow_items(r, j - 1, len, r2);
    lemma_prefix_step(r, j - 1);
    lemma_items_single(r[j - 1], prefix_base(r, j - 1));
    assert(r.skip(j - 1 + 1) == r.skip(j));
    let pre = items(r.take(j - 1), 0) + gap_items(prefix_base(r, j - 1), r[j - 1].ins as int);
    let post = items(r.skip(j), end_base(seq![r[j - 1]], prefix_base(r, j - 1)));
    let m = r[j - 1].len as int;
    lemma_run_insert(pre, r[j - 1].ins as int, m, len, post, m);
    assert(items(r.take(j), 0) == pre + run_items(r[j - 1].ins as int, m));
    assert(pre.len() + m == prefix_doc(r, j));
}

/// The end base of a list is at least the base cursor after any prefix of it.
pub proof fn lemma_prefix_base_le(r: Seq<Op>, j: int)
    requires
        0 <= j <= r.len(),
    ensures
        0 <= prefix_base(r, j) <= end_base(r, 0),
{
    lemma_split_whole(r, j);
    lemma_end_base_monotone(r.skip(j), prefix_base(r, j));
    lemma_end_base_monotone(r.take(j), 0);
}

/// After an insert range the base cursor is at least its anchor.
proof fn lemma_prefix_base_after_insert(r: Seq<Op>, j: int)
    requires
        0 < j <= r.len(),
        r[j - 1].len >= 0,
    ensures
        prefix_base(r, j) >= r[j - 1].ins,
{
    lemma_prefix_step(r, j - 1);
    lemma_items_single(r[j - 1], prefix_base(r, j - 1));
}

/// Inserting a new range `x` at index `j`, where the document position of the
/// insert is the start of `x`'s run.
proof fn lemma_insert_new(r: Seq<Op>, j: int, x: Op, mid: int)
    requires
        0 <= j <= r.len(),
        x.len > 0,
        prefix_base(r, j) <= mid,
        mid == (if x.ins > prefix_base(r, j) { x.ins as int } else { prefix_base(r, j) }),
        j < r.len() ==> mid <= (if r[j].ins > prefix_base(r, j) { r[j].ins as int } else { prefix_base(r, j) }),
    ensures
        ({
            let r2 = r.insert(j, x);
            let d = items(r, 0);
            let b = prefix_base(r, j);
            let t = prefix_doc(r, j) + gap_items(b, x.ins as int).len();
            &&& j < r.len() ==> items(r2, 0) == d.take(t) + run_items(x.ins as int, x.len as int) + d.skip(t)
            &&& j < r.len() ==> end_base(r2, 0) == end_base(r, 0)
            &&& j == r.len() ==> items(r2, 0) == d + gap_items(b, x.ins as int) + run_items(x.ins as int, x.len as int)
            &&& j == r.len() ==> end_base(r2, 0) == mid
        }),
{
    let r2 = r.insert(j, x);
    let b = prefix_base(r, j);
    assert(r2 == r.take(j) + seq![x] + r.skip(j));
    lemma_items_three(r.take(j), x, r.skip(j), 0);
    lemma_items_single(x, b);
    lemma_split_whole(r, j);
    if j < r.len() {
        assert(r.skip(j)[0] == r[j]);
        lemma_items_lift(r.skip(j), b, mid);
        let pre = items(r.take(j), 0) + gap_items(b, x.ins as int);
        let post = items(r.skip(j), mid);
        assert(items(r, 0) == pre + post);
        assert((pre + post).take(pre.len() as int) =~= pre);
        assert((pre + post).skip(pre.len() as int) =~= post);
        assert(items(r2, 0) =~= pre + run_items(x.ins as int, x.len as int) + post);
    } else {
        assert(r.skip(j) =~= Seq::<Op>::empty());
        assert(r.take(j) =~= r);
        assert(items(r2, 0) =~= items(r, 0) + (gap_items(b, x.ins as int) + run_items(x.ins as int, x.len as int)));
    }
}


/// `insert_positive` at index `j` with anchor `base`, where the insert's
/// document position `t` is the end of the gap from the cursor to `base`.
proof fn lemma_case_positive(r: Seq<Op>, t: int, len: i32, j: int, base: i32)
    requires
        0 <= j <= r.len(),
        len > 0,
        spec_insert_positive(r, j, base, len) is Some,
        prefix_base(r, j) <= (if base > prefix_base(r, j) { base as int } else { prefix_base(r, j) }),
        t == prefix_doc(r, j) + gap_items(prefix_base(r, j), base as int).len(),
        j < r.len() ==> (if base > prefix_base(r, j) { base as int } else { prefix_base(r, j) })
            <= (if r[j].ins > prefix_base(r, j) { r[j].ins as int } else { prefix_base(r, j) }),
        j == r.len() ==> base >= prefix_base(r, j),
    ensures
        doc_inserted(r, spec_insert_positive(r, j, base, len)->0, t, len as int, base as int),
{
    let b = prefix_base(r, j);
    let n = r.len() as int;
    let r2 = spec_insert_positive(r, j, base, len)->0;
    let mid: int = if base > b { base as int } else { b };
    lemma_split_whole(r, j);
    if j > 0 && r[j - 1].len > 0 && r[j - 1].ins == base {
        lemma_prefix_base_after_insert(r, j);
        assert(gap_items(b, base as int) =~= Seq::<DocItem>::empty());
        assert(r2 == r.update(j - 1, Op { ins: r[j - 1].ins, len: (r[j - 1].len + len) as i32 }));
        lemma_grow_prev(r, j, len as int);
        if j == n {
            assert(r.take(n) == r);
            assert(r.skip(n) =~= Seq::<Op>::empty());
        } else {
            assert(items(r, 0).len() >= prefix_doc(r, j));
        }
    } else if j < n && r[j].len > 0 && r[j].ins == base {
        let c = r[j];
        assert(r2 == r.update(j, Op { ins: c.ins, len: (c.len + len) as i32 }));
        lemma_grow_items(r, j, len as int, r2);
        lemma_run_insert(items(r.take(j), 0) + gap_items(b, c.ins as int), c.ins as int, c.len as int, len as int,
            items(r.skip(j + 1), end_base(seq![c], b)), 0);
    } else {
        assert(r2 == r.insert(j, Op { ins: base, len }));
        lemma_insert_new(r, j, Op { ins: base, len }, mid);
        if j == n {
            assert(r.take(n) == r);
            assert(r.skip(n) =~= Seq::<Op>::empty());
            if t == items(r, 0).len() {
                assert(gap_items(b, base as int) =~= Seq::<DocItem>::empty());
                assert(items(r, 0).take(t) =~= items(r, 0));
                assert(items(r, 0).skip(t) =~= Seq::<DocItem>::empty());
            }
        }
    }
}

/// Growing the insert range `j` by `len` when the insert's document position
/// `t` lies within or at the end of its run.
proof fn lemma_case_grow(r: Seq<Op>, t: int, len: i32, j: int)
    requires
        0 <= j < r.len(),
        len > 0,
        r[j].len >= 0,
        r[j].len + len <= i32::MAX,
        prefix_doc(r, j) + gap_items(prefix_base(r, j), r[j].ins as int).len() <= t
            <= prefix_doc(r, j) + gap_items(prefix_base(r, j), r[j].ins as int).len() + r[j].len,
    ensures
        doc_inserted(r, r.update(j, Op { ins: r[j].ins, len: (r[j].len + len) as i32 }), t, len as int, r[j].ins as int),
{
    let c = r[j];
    let b = prefix_base(r, j);
    let r2 = r.update(j, Op { ins: c.ins, len: (c.len + len) as i32 });
    lemma_grow_items(r, j, len as int, r2);
    let pre = items(r.take(j), 0) + gap_items(b, c.ins as int);
    lemma_run_insert(pre, c.ins as int, c.len as int, len as int, items(r.skip(j + 1), end_base(seq![c], b)), t - pre.len());
}

/// The walk of `locate_position` from index `j` finds where the insert goes,
/// and `apply_insert` puts the run there in the document.
proof fn lemma_insert_walk(r: Seq<Op>, t: int, len: i32, j: int)
    requires
        0 <= j <= r.len(),
        walkable(r),
        len > 0,
        0 <= t <= i32::MAX,
        end_base(r, 0) + t <= i32::MAX,
        t >= prefix_doc(r, j),
        locate_walk(r, t, LocateBias::PreferOutsideInsert, j, prefix_base(r, j), prefix_doc(r, j))
            == spec_locate(r, t, LocateBias::PreferOutsideInsert),
        spec_apply_insert(r, t as i32, len) is Some,
    ensures
        doc_inserted(r, spec_apply_insert(r, t as i32, len)->0, t, len as int, insert_anchor(r, t)),
    decreases r.len() - j,
{
    let b = prefix_base(r, j);
    let d = prefix_doc(r, j);
    let n = r.len() as int;
    lemma_prefix_base_le(r, j);
    let loc = spec_locate(r, t, LocateBias::PreferOutsideInsert);
    assert((t as i32) as int == t);
    if j == n {
        let bb = b + (t - d);
        assert((bb as i32) as int == bb);
        assert(loc == (PositionRef::Base { base: bb as i32, index: n as usize }));
        lemma_case_positive(r, t, len, n, bb as i32);
    } else {
        let c = r[j];
        lemma_prefix_step(r, j);
        lemma_items_single(c, b);
        if c.ins > b && t < d + (c.ins - b) {
            let bb = b + (t - d);
            assert((bb as i32) as int == bb);
            assert(loc == (PositionRef::Base { base: bb as i32, index: j as usize }));
            lemma_case_positive(r, t, len, j, bb as i32);
        } else {
            let b1: int = if c.ins > b { c.ins as int } else { b };
            let d1: int = if c.ins > b { d + (c.ins - b) } else { d };
            assert(gap_items(b, c.ins as int).len() == d1 - d);
            if c.len < 0 {
                if t == d1 {
                    assert(loc == (PositionRef::Base { base: c.ins, index: j as usize }));
                    lemma_case_positive(r, t, len, j, c.ins);
                } else {
                    assert(locate_walk(r, t, LocateBias::PreferOutsideInsert, j, b, d)
                        == locate_walk(r, t, LocateBias::PreferOutsideInsert, j + 1, b1 - c.len, d1));
                    lemma_insert_walk(r, t, len, j + 1);
                }
            } else if t == d1 {
                assert(loc == (PositionRef::Base { base: c.ins, index: j as usize }));
                lemma_case_positive(r, t, len, j, c.ins);
            } else if (t == d1 + c.len) || (t < d1 + c.len && t > d1) {
                assert(loc matches PositionRef::Insert { index, .. } && index == j);
                lemma_case_grow(r, t, len, j);
            } else {
                assert(locate_walk(r, t, LocateBias::PreferOutsideInsert, j, b, d)
                    == locate_walk(r, t, LocateBias::PreferOutsideInsert, j + 1, b1, d1 + c.len));
                lemma_insert_walk(r, t, len, j + 1);
            }
        }
    }
}

/// A document with `len` characters anchored at `a` inserted at position `t`.
pub open spec fn inserted_at(r: Seq<Op>, t: int, len: int, a: int, k: int) -> DocItem {
    if k < t {
        item_at(r, k)
    } else if k < t + len {
        DocItem::Inserted(a)
    } else {
        item_at(r, k - len)
    }
}

/// Inserting `len` characters at document position `pos` of a sequential list
/// inserts them at that position of the document the list stands for: the
/// characters before `pos` stay, `len` characters anchored at the position
/// that `locate_position` finds follow, then come the characters that were at
/// `pos` and after.
pub proof fn law_apply_insert_document(r: Seq<Op>, pos: i32, len: i32)
    requires
        walkable(r),
        pos >= 0,
        len > 0,
        end_base(r, 0) + pos <= i32::MAX,
        spec_apply_insert(r, pos, len) is Some,
    ensures
        forall|k: int| 0 <= k ==> #[trigger] item_at(spec_apply_insert(r, pos, len)->0, k)
            == inserted_at(r, pos as int, len as int, insert_anchor(r, pos as int), k),
{
    assert(r.take(0) =~= Seq::<Op>::empty());
    assert(prefix_base(r, 0) == 0);
    assert(prefix_doc(r, 0) == 0);
    lemma_insert_walk(r, pos as int, len, 0);
    let r2 = spec_apply_insert(r, pos, len)->0;
    let t = pos as int;
    let a = insert_anchor(r, t);
    let d = items(r, 0);
    let e = end_base(r, 0);
    assert forall|k: int| 0 <= k implies #[trigger] item_at(r2, k) == inserted_at(r, t, len as int, a, k) by {
        if t <= d.len() {
            let p2 = d.take(t) + run_items(a, len as int) + d.skip(t);
            assert(items(r2, 0) == p2);
            assert(p2.len() == d.len() + len);
            if k < t {
                assert(p2[k] == d[k]);
            } else if k < t + len {
                assert(p2[k] == DocItem::Inserted(a));
            } else if k < p2.len() {
                assert(p2[k] == d[k - len]);
            }
        } else {
            let p2 = d + gap_items(e, a) + run_items(a, len as int);
            assert(items(r2, 0) == p2);
            if k < d.len() {
                assert(p2[k] == d[k]);
            } else if k < t {
                assert(p2[k] == DocItem::Base(e + (k - d.len())));
            } else if k < t + len {
                assert(p2[k] == DocItem::Inserted(a));
            }
        }
    }
}


} // verus!
