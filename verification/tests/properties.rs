use oplist::btree::BTree;
use oplist::discontinuous;
use oplist::document::{to_insert_pos, to_length, Document, Segment, SegmentKind, MAX_BASE_LEN};
use oplist::oplog::{OpId, OpLog};
use oplist::ops::{getOpList, getOpListbyVec, getOpListforTesting, Op, OpList};
use oplist::random_data::{
    generate_only_positive_random_test_data, generate_random_test_data,
    generate_random_test_data_with_config, keep_valid_draws, TestDataConfig,
};
use oplist::range_key::RangeKey;
use oplist::range_tree::{CRDTEdits, NodeLeaf, OpID};
use oplist::{baseops, delete::DeleteEmit};
use std::collections::HashMap;

/// The first `n` characters of the document a sequential list stands for:
/// `Ok(p)` for base position `p`, `Err(a)` for a character inserted at anchor `a`.
fn render(ops: &[Op], n: usize) -> Vec<Result<i64, i64>> {
    let mut out = Vec::new();
    let mut base: i64 = 0;
    for op in ops {
        let ins = op.ins as i64;
        if ins > base {
            for p in base..ins {
                out.push(Ok(p));
            }
            base = ins;
        }
        if op.len < 0 {
            base += -(op.len as i64);
        } else {
            for _ in 0..op.len {
                out.push(Err(ins));
            }
        }
    }
    while out.len() < n {
        out.push(Ok(base));
        base += 1;
    }
    out.truncate(n);
    out
}

#[test]
fn seeded_replay_equals_replay_of_concatenation() {
    let ops = [(5, -1), (3, -1), (6, 3), (2, -1)];
    let new_ops = [(4, 2), (9, -3), (1, 1)];
    let state = getOpList(ops).from_oplist_to_sequential_list();
    let pairs: Vec<(i32, i32)> = state.ops.iter().map(|o| (o.ins, o.len)).collect();
    let mut seeded = getOpListbyVec(new_ops.to_vec());
    seeded.test_op = Some(pairs);
    let mut all = ops.to_vec();
    all.extend_from_slice(&new_ops);
    assert_eq!(
        seeded.from_oplist_to_sequential_list(),
        getOpListbyVec(all).from_oplist_to_sequential_list()
    );
}

#[test]
fn replay_edits_the_document() {
    let cases: Vec<Vec<(i32, i32)>> = vec![
        vec![(5, -1), (3, -1), (6, 3), (2, -1)],
        vec![(4, 2), (9, -3), (1, 1), (0, 4), (12, -5)],
        vec![(10, 3), (11, -2), (3, 2), (4, 2), (8, -6), (2, 1)],
        vec![(0, 5), (5, -5), (7, -2), (1, 3)],
    ];
    for ops in cases {
        let mut doc: Vec<Option<i64>> = (0..80).map(Some).collect();
        for &(ins, len) in &ops {
            let at = ins as usize;
            if len > 0 {
                for _ in 0..len {
                    doc.insert(at, None);
                }
            } else {
                doc.drain(at - (-len) as usize..at);
            }
        }
        let state = getOpListbyVec(ops.clone()).from_oplist_to_sequential_list();
        let shown: Vec<Option<i64>> = render(&state.ops, 40)
            .into_iter()
            .map(|c| c.ok())
            .collect();
        assert_eq!(shown, doc[..40].to_vec(), "ops {:?}", ops);
    }
}

#[test]
fn backwards_onto_empty_keeps_the_document() {
    let states: Vec<Vec<(i32, i32)>> = vec![
        vec![(1, -2), (3, 4), (3, -1), (8, 2), (9, -3)],
        vec![(0, 3), (4, -1), (12, 5)],
        vec![(6, 2), (2, 1)],
    ];
    for state in states {
        let list = getOpListbyVec(state.clone());
        let res = list.backwards_apply(&getOpList([]));
        let plain = |ops: &[Op]| -> Vec<Option<i64>> { render(ops, 40).into_iter().map(|c| c.ok()).collect() };
        assert_eq!(plain(&res.ops), plain(&list.ops), "state {:?}", state);
    }
}

#[test]
fn round_trip_gives_simple_lists_back() {
    let states: Vec<Vec<(i32, i32)>> = vec![
        vec![(0, 3), (3, -2), (8, 1), (10, -1)],
        vec![(5, 2), (5, -3), (9, 1)],
        vec![(1, -1), (4, 2), (6, -3), (12, 4)],
    ];
    for state in states {
        let mut list = getOpListbyVec(state.clone());
        let expected = list.clone();
        list.from_sequential_list_to_oplist();
        assert_eq!(list.from_oplist_to_sequential_list(), expected, "state {:?}", state);
    }
}

#[test]
fn replayed_lists_keep_their_shape() {
    let cases: Vec<Vec<(i32, i32)>> = vec![
        vec![(5, -1), (6, -1), (3, 2), (9, -3), (4, -2)],
        vec![(6, -1), (5, -1), (7, -1), (2, 1), (3, -1)],
        vec![(4, 2), (9, -3), (1, 1), (0, 4), (12, -5)],
    ];
    for ops in cases {
        let state = getOpListbyVec(ops.clone()).from_oplist_to_sequential_list();
        assert!(state.ops.iter().all(|o| o.len != 0), "{:?}", state.ops);
        let deletes: Vec<&Op> = state.ops.iter().filter(|o| o.len < 0).collect();
        for w in deletes.windows(2) {
            assert!(w[0].ins as i64 - (w[0].len as i64) < w[1].ins as i64, "{:?}", state.ops);
        }
    }
}

#[test]
fn round_trip_keeps_the_document() {
    let states: Vec<Vec<(i32, i32)>> = vec![
        vec![(5, 2), (7, 1)],
        vec![(2, -4)],
        vec![(1, -2), (3, 4), (3, -1), (8, 2), (9, -3)],
        vec![(0, 3), (4, -1), (10, 0), (12, 5)],
        vec![(6, 2), (2, 1)],
    ];
    for state in states {
        let mut list = getOpListbyVec(state.clone());
        let before: Vec<Op> = list.ops.clone();
        list.from_sequential_list_to_oplist();
        let after = list.from_oplist_to_sequential_list();
        let plain = |ops: &[Op]| -> Vec<Option<i64>> { render(ops, 40).into_iter().map(|c| c.ok()).collect() };
        assert_eq!(plain(&after.ops), plain(&before), "state {:?}", state);
    }
}

#[test]
fn merge_keeps_lists_ordered() {
    let cases: Vec<(Vec<(i32, i32)>, Vec<(i32, i32)>)> = vec![
        (vec![(1, -5), (4, 2), (9, 1)], vec![(3, -2), (4, 1), (0, 3), (12, -4)]),
        (vec![(2, 1), (2, -3), (8, -1)], vec![(5, -4), (2, 2), (20, 1)]),
        (vec![], vec![(7, -3), (3, 1), (7, 2), (1, -1)]),
    ];
    for (state, other) in cases {
        let mut list = getOpListbyVec(state);
        list.merge_sequential_list(&getOpListbyVec(other));
        for w in list.ops.windows(2) {
            assert!(w[0].ins <= w[1].ins, "{:?}", list.ops);
        }
    }
}

#[test]
fn apply_insert_inserts_into_document() {
    let cases: Vec<(Vec<(i32, i32)>, i32, i32)> = vec![
        (vec![(5, -2), (6, 1), (7, 1)], 5, 2),
        (vec![(5, -2), (6, 1), (7, 1)], 6, 1),
        (vec![(1, 1), (2, 1), (3, -1), (5, 1)], 4, 3),
        (vec![(3, 2)], 4, 1),
        (vec![], 7, 2),
    ];
    for (state, pos, len) in cases {
        let before: Vec<Op> = state.iter().map(|&(ins, len)| Op { ins, len }).collect();
        let mut after = before.clone();
        OpList::apply_insert(&mut after, pos, len);
        let b = render(&before, 40);
        let a = render(&after, 40);
        let p = pos as usize;
        let l = len as usize;
        assert_eq!(a[..p], b[..p]);
        for k in p..p + l {
            assert!(matches!(a[k], Err(_)));
        }
        assert_eq!(a[p + l..], b[p..40 - l]);
    }
}

#[test]
fn apply_delete_removes_from_document() {
    let cases: Vec<(Vec<(i32, i32)>, i32, i32)> = vec![
        (vec![(5, -1), (7, -1)], 5, 1),
        (vec![(3, -3), (4, 1), (5, 1), (6, 1), (7, -1)], 6, 1),
        (vec![(5, 5)], 5, 2),
        (vec![(2, 1), (9, -2)], 1, 6),
        (vec![], 3, 4),
    ];
    for (state, pos, len) in cases {
        let before: Vec<Op> = state.iter().map(|&(ins, len)| Op { ins, len }).collect();
        let mut after = before.clone();
        OpList::apply_delete(&mut after, pos, len);
        let b = render(&before, 60);
        let a = render(&after, 40);
        let p = pos as usize;
        let l = len as usize;
        assert_eq!(a[..p], b[..p]);
        assert_eq!(a[p..], b[p + l..40 + l]);
    }
}

#[test]
fn empty_operations_change_nothing() {
    let mut r = vec![Op { ins: 5, len: -2 }, Op { ins: 6, len: 1 }];
    let before = r.clone();
    OpList::apply_insert(&mut r, 3, 0);
    OpList::apply_delete(&mut r, 3, 0);
    assert_eq!(r, before);
    assert_eq!(getOpList([(4, 0)]).from_oplist_to_sequential_list(), getOpList([]));
}

#[test]
fn helpers_compute_exact_values() {
    assert_eq!(OpList::segment_overlap(0, 5, 3, 10), (2, 3));
    assert_eq!(OpList::segment_overlap(4, 5, 0, 6), (2, 4));
    assert_eq!(OpList::segment_overlap(4, 5, 9, 12), (0, 0));
    assert_eq!(OpList::delete_end(&Op { ins: 3, len: -4 }), 7);
    assert_eq!(OpList::delete_span(2, 6), Op { ins: 2, len: -4 });
    let mut v = vec![Op { ins: 1, len: 1 }];
    OpList::write_op(&mut v, 0, Op { ins: 2, len: 2 });
    OpList::write_op(&mut v, 5, Op { ins: 3, len: 3 });
    assert_eq!(v, vec![Op { ins: 2, len: 2 }, Op { ins: 3, len: 3 }]);
    let mut p = Vec::new();
    OpList::push_op(&mut p, Op { ins: 4, len: 2 });
    OpList::push_op(&mut p, Op { ins: 4, len: 3 });
    OpList::push_op(&mut p, Op { ins: 6, len: -2 });
    OpList::push_op(&mut p, Op { ins: 8, len: -1 });
    OpList::push_op(&mut p, Op { ins: 1, len: 0 });
    assert_eq!(p, vec![Op { ins: 4, len: 5 }, Op { ins: 6, len: -3 }]);
}

#[test]
fn emit_delete_joins_adjacent_deletes() {
    let mut out = vec![Op { ins: 5, len: -1 }, Op { ins: 6, len: 1 }];
    let mut w: usize = 2;
    let mut last = Some(0);
    OpList::emit_delete_op(&mut out, &mut w, &mut last, DeleteEmit::DocSpan { base_start: 6, len: 2 });
    assert_eq!(out, vec![Op { ins: 5, len: -3 }, Op { ins: 6, len: 1 }]);
    OpList::emit_delete_op(&mut out, &mut w, &mut last, DeleteEmit::Existing(Op { ins: 10, len: -1 }));
    assert_eq!(out[2], Op { ins: 10, len: -1 });
    assert_eq!((w, last), (3, Some(2)));
}

#[test]
fn merge_insert_and_delete_place_ranges() {
    let mut r = vec![Op { ins: 2, len: -1 }, Op { ins: 5, len: -2 }];
    OpList::merge_insert(&mut r, Op { ins: 5, len: 4 });
    assert_eq!(r, vec![Op { ins: 2, len: -1 }, Op { ins: 5, len: -2 }, Op { ins: 5, len: 4 }]);
    OpList::merge_delete(&mut r, Op { ins: 3, len: -2 });
    assert_eq!(r, vec![Op { ins: 2, len: -5 }, Op { ins: 5, len: 4 }]);
    let mut apart = vec![Op { ins: 10, len: -1 }, Op { ins: 20, len: -1 }];
    OpList::merge_delete(&mut apart, Op { ins: 2, len: -1 });
    assert_eq!(apart, vec![Op { ins: 2, len: -1 }, Op { ins: 10, len: -1 }, Op { ins: 20, len: -1 }]);
}

#[test]
fn apply_transformation_agrees_with_transform_without_ties() {
    let t = getOpList([(2, 3), (10, -2)]);
    let other = getOpList([(5, 2), (7, -1), (12, 1)]);
    let mut o = other.clone();
    o.apply_transformation(&t);
    assert_eq!(o.ops, t.transform(&other).ops);
}

#[test]
fn transform_against_empty_list_keeps_operations() {
    let empty = getOpList([]);
    let other = getOpList([(3, 2), (7, -2)]);
    assert_eq!(empty.transform(&other), other);
}

#[test]
fn backwards_apply_onto_empty_prior() {
    let current = getOpList([(2, -3), (2, 2), (7, -1)]);
    let res = current.backwards_apply(&getOpList([]));
    assert_eq!(res.ops, vec![Op { ins: 2, len: 2 }, Op { ins: 2, len: -3 }, Op { ins: 7, len: -1 }]);
}

#[test]
fn sequential_list_to_oplist_drops_empty_ranges() {
    let mut s = getOpListforTesting([(1, 1)], [(3, 0), (4, 2)]);
    s.from_sequential_list_to_oplist();
    assert_eq!(s, getOpList([(4, 2)]));
}

#[test]
fn locate_position_biases() {
    let r = [Op { ins: 3, len: 2 }];
    assert_eq!(
        OpList::locate_position(&r, 3, oplist::locate::LocateBias::PreferOutsideInsert),
        oplist::locate::PositionRef::Base { base: 3, index: 0 }
    );
    assert_eq!(
        OpList::locate_position(&r, 3, oplist::locate::LocateBias::PreferInsideInsert),
        oplist::locate::PositionRef::Insert { index: 0, offset: 0 }
    );
    assert_eq!(
        OpList::locate_position(&r, 9, oplist::locate::LocateBias::PreferOutsideInsert),
        oplist::locate::PositionRef::Base { base: 7, index: 1 }
    );
}

#[test]
fn document_segments_split_and_merge() {
    let mut d = Document::new();
    assert_eq!(d.ensure_boundary(4), (1, 4));
    assert_eq!(d.segments.len(), 2);
    d.try_merge_pair(0);
    assert_eq!(d.segments, vec![Segment { kind: SegmentKind::Base { start: 0 }, len: MAX_BASE_LEN }]);
    d.insert_at_doc(3, 2);
    assert_eq!(d.doc_pos_for_base(3), 3);
    assert_eq!(d.doc_pos_for_base(4), 6);
    d.delete_doc_range(0, 1);
    assert_eq!(d.collect_delete_ops(), vec![Op { ins: 0, len: -1 }]);
    assert_eq!(d.collect_insert_ops(), vec![(Op { ins: 3, len: 2 }, 0)]);
    let l = d.into_oplist();
    assert_eq!(l.ops, vec![Op { ins: 0, len: -1 }, Op { ins: 3, len: 2 }]);
    assert_eq!(to_length(-7), -7);
    assert_eq!(to_insert_pos(12), 12);
}

#[test]
fn baseops_conversions() {
    let mut l = baseops::getOpList([(1, 2), (3, -1), (4, 5)]);
    l.from_sequential_list_to_oplist();
    assert_eq!(l.ops, vec![Op { ins: 1, len: 2 }, Op { ins: 5, len: -1 }, Op { ins: 3, len: 5 }]);
    let mut c = baseops::getOpList([(2, -1), (4, 3)]);
    c.clean_delete();
    assert_eq!(c.ops, vec![Op { ins: 1, len: -2 }, Op { ins: 4, len: 3 }]);
    let v = baseops::getOpListbyVec(vec![(5, -2)]);
    assert_eq!(v.from_oplist_to_sequential_list(), baseops::getOpList([(3, -2)]));
}

#[test]
fn random_data_respects_configuration() {
    let d = TestDataConfig::default();
    assert_eq!((d.num_tests, d.min_insert_pos, d.max_insert_pos, d.min_length, d.max_length), (10, 1, 10, -5, 5));
    let l = generate_random_test_data(50).expect("seeding");
    assert!(l.ops.len() <= 50);
    for op in &l.ops {
        assert!(1 <= op.ins && op.ins <= 10 && -5 <= op.len && op.len <= 5);
        assert!(op.len != 0 && op.len + op.ins >= 0);
    }
    let c = generate_random_test_data_with_config(TestDataConfig {
        num_tests: 30,
        min_insert_pos: 100,
        max_insert_pos: 100,
        min_length: 7,
        max_length: 7,
    })
    .expect("seeding");
    assert_eq!(c.ops, vec![Op { ins: 100, len: 7 }; 30]);
    let p = generate_only_positive_random_test_data(20).expect("seeding");
    assert_eq!(p.ops.len(), 20);
    assert!(p.ops.iter().all(|o| 1 <= o.ins && o.ins <= 10 && 1 <= o.len && o.len <= 10));
}

#[test]
fn keep_valid_draws_skips_empty_and_negative() {
    let kept = keep_valid_draws(&[(3, 2), (4, 0), (1, -2), (2, -2), (i32::MAX, 5), (0, -1)]);
    assert_eq!(kept, vec![Op { ins: 3, len: 2 }, Op { ins: 2, len: -2 }, Op { ins: i32::MAX, len: 5 }]);
    assert_eq!(keep_valid_draws(&[]), vec![]);
}

#[test]
fn btree_inserts_by_position() {
    let mut t: BTree<i32> = BTree { root: None };
    for (i, x) in [10, 20, 30, 40, 50, 60, 70].iter().enumerate() {
        t.insert(*x, i as i32);
    }
    t.insert(15, 1);
    t.insert(5, 0);
    let got: Vec<i32> = (0..9).map(|i| t.lookup_index(i).unwrap().0).collect();
    assert_eq!(got, vec![5, 10, 15, 20, 30, 40, 50, 60, 70]);
    assert_eq!(t.lookup_index(9), None);
    assert_eq!(t.lookup_index(-1), None);
}

#[test]
fn discontinuous_ranges_fold_operations() {
    let l = discontinuous::getOpList([(1, 1), (3, 1), (1, 1), (3, 1)]);
    let r = l.discontinues_range();
    let pairs: Vec<(u32, u32)> = r.ops.iter().map(|o| (o.ins, o.len)).collect();
    assert_eq!(pairs, vec![(1, 3), (0, 0), (1, 1)]);
    let mut d = discontinuous::OpList::default();
    d.add(discontinuous::Op { ins: 2, len: 2 });
    assert_eq!(d.ops.len(), 1);
}

#[test]
fn oplog_numbers_local_inserts() {
    let mut log = OpLog { log: HashMap::new(), frontiers: Vec::new(), first_ops: Vec::new() };
    log.local_insert_at_pos(3, 2, 7);
    log.local_insert_at_pos(5, 1, 7);
    log.local_insert_at_pos(0, 4, 9);
    let seven = &log.log[&7];
    assert_eq!((seven[0].OpId.Seq, seven[1].OpId.Seq), (0, 1));
    assert!(seven[1].child.is_frontier());
    assert_eq!(log.log[&9][0].OpId, OpId { UserID: 9, Seq: 0 });
    assert!(OpId::default().is_frontier());
    assert!(!OpId { UserID: 1, Seq: 2 }.is_frontier());
    assert_eq!(log.frontier().len(), 0);
}

#[test]
fn leaf_search_finds_run() {
    let id = OpID { UserID: 1, seq: 0 };
    let e = |n: i32| CRDTEdits { ID: id, LO: id, RLE_length: n, RO: id };
    let leaf: NodeLeaf<2, 3> = NodeLeaf { num_entries: 3, data: [e(2), e(3), e(4)] };
    let leaf2: NodeLeaf<2, 3> = NodeLeaf { num_entries: 3, data: [e(2), e(3), e(4)] };
    let leaf3: NodeLeaf<2, 3> = NodeLeaf { num_entries: 3, data: [e(2), e(3), e(4)] };
    assert_eq!(leaf.search(4, None), Some(e(3)));
    assert_eq!(leaf2.search(9, None), None);
    assert_eq!(leaf3.search(11, Some(10)), Some(e(2)));
}

#[test]
fn range_keys_compare_by_containment() {
    let outer = RangeKey { start: 1, end: 5 };
    let inner = RangeKey { start: 2, end: 3 };
    assert!(outer == inner);
    assert!(inner != outer);
    assert!(outer == outer);
    assert!(RangeKey { start: 0, end: 3 } == inner);
    assert!(RangeKey { start: 3, end: 9 } != inner);
}

/// The first `n` characters of a segment document: `Some(p)` for base
/// position `p`, `None` for an inserted character.
fn render_segments(segs: &[Segment], n: usize) -> Vec<Option<i64>> {
    let mut out = Vec::new();
    for seg in segs {
        for k in 0..seg.len {
            if out.len() >= n {
                return out;
            }
            match seg.kind {
                SegmentKind::Base { start } => out.push(Some(start + k)),
                SegmentKind::Insert { .. } => out.push(None),
            }
        }
    }
    out
}

#[test]
fn segment_document_edits_follow_positions() {
    let cases: Vec<Vec<(i32, i32)>> = vec![
        vec![(11, -2), (6, 2), (13, -3), (7, 3), (9, -2)],
        vec![(4, 2), (9, -3), (1, 1), (0, 4), (12, -5)],
        vec![(5, -1), (5, 1), (3, 2), (8, -4)],
    ];
    for ops in cases {
        let mut doc = Document::new();
        let mut model: Vec<Option<i64>> = (0..80).map(Some).collect();
        for &(ins, len) in &ops {
            let at = ins as usize;
            if len > 0 {
                doc.insert_at_doc(ins as i64, len as i64);
                for _ in 0..len {
                    model.insert(at, None);
                }
            } else {
                doc.delete_doc_range((ins + len) as i64, ins as i64);
                model.drain(at - (-len) as usize..at);
            }
        }
        assert_eq!(render_segments(&doc.segments, 40), model[..40].to_vec(), "ops {:?}", ops);
    }
}

/// The base positions removed by the delete ranges of `ops`.
fn removed(ops: &[Op]) -> std::collections::BTreeSet<i64> {
    let mut out = std::collections::BTreeSet::new();
    for op in ops {
        if op.len < 0 {
            for p in op.ins as i64..op.ins as i64 - op.len as i64 {
                out.insert(p);
            }
        }
    }
    out
}

/// The length inserted at each anchor by `ops`.
fn inserted(ops: &[Op]) -> std::collections::BTreeMap<i32, i64> {
    let mut out = std::collections::BTreeMap::new();
    for op in ops {
        if op.len > 0 {
            *out.entry(op.ins).or_insert(0) += op.len as i64;
        }
    }
    out
}

#[test]
fn merge_unites_deletes_and_adds_inserts() {
    let cases: Vec<(Vec<(i32, i32)>, Vec<(i32, i32)>)> = vec![
        (vec![(1, -5), (4, 2), (9, 1)], vec![(3, -2), (4, 1), (0, 3), (12, -4)]),
        (vec![(2, 1), (2, -3), (8, -1)], vec![(5, -4), (2, 2), (20, 1)]),
        (vec![], vec![(7, -3), (3, 1), (7, 2), (1, -1)]),
        (vec![(3, -1), (5, -1), (7, 2)], vec![(4, -1), (6, -1), (7, 3)]),
    ];
    for (state, other) in cases {
        let before = getOpListbyVec(state);
        let other = getOpListbyVec(other);
        let mut list = before.clone();
        list.merge_sequential_list(&other);
        let mut want = removed(&before.ops);
        want.extend(removed(&other.ops));
        assert_eq!(removed(&list.ops), want);
        let mut totals = inserted(&before.ops);
        for (a, n) in inserted(&other.ops) {
            *totals.entry(a).or_insert(0) += n;
        }
        assert_eq!(inserted(&list.ops), totals);
    }
    let mut r = vec![Op { ins: 3, len: -1 }, Op { ins: 5, len: -1 }, Op { ins: 7, len: 2 }];
    OpList::merge_delete(&mut r, Op { ins: 4, len: -1 });
    assert_eq!(r, vec![Op { ins: 3, len: -3 }, Op { ins: 7, len: 2 }]);
    assert_eq!(removed(&r), [3, 4, 5].into_iter().collect());
}

#[test]
fn merge_keeps_the_order_of_untouched_ranges() {
    let mut r = vec![Op { ins: 1, len: 2 }, Op { ins: 4, len: -2 }, Op { ins: 6, len: 1 }, Op { ins: 9, len: -1 }];
    OpList::merge_delete(&mut r, Op { ins: 5, len: -3 });
    let kept: Vec<Op> = r.iter().copied().filter(|o| o.len >= 0).collect();
    assert_eq!(kept, vec![Op { ins: 1, len: 2 }, Op { ins: 6, len: 1 }]);
    let mut d = vec![Op { ins: 1, len: -1 }, Op { ins: 4, len: 1 }, Op { ins: 8, len: -2 }];
    OpList::merge_insert(&mut d, Op { ins: 8, len: 3 });
    let deletes: Vec<Op> = d.iter().copied().filter(|o| o.len < 0).collect();
    assert_eq!(deletes, vec![Op { ins: 1, len: -1 }, Op { ins: 8, len: -2 }]);
    assert_eq!(inserted(&d).get(&8), Some(&3));
}

#[test]
fn transform_keeps_every_inserted_character() {
    let total = |ops: &[Op]| -> i64 { ops.iter().filter(|o| o.len > 0).map(|o| o.len as i64).sum() };
    let cases: Vec<(Vec<(i32, i32)>, Vec<(i32, i32)>)> = vec![
        (vec![(2, 3), (10, -2)], vec![(5, 2), (7, -1), (12, 1)]),
        (vec![(0, -4), (6, 1)], vec![(1, 2), (2, -3), (9, 4)]),
        (vec![(3, 1)], vec![(3, 2), (3, -1)]),
    ];
    for (s, other) in cases {
        let s = getOpListbyVec(s);
        let other = getOpListbyVec(other);
        let t = s.transform(&other);
        assert_eq!(total(&t.ops), total(&other.ops));
        let mut o = other.clone();
        o.apply_transformation(&s);
        assert_eq!(total(&o.ops), total(&other.ops));
    }
}

#[test]
fn apply_insert_keeps_every_delete_range() {
    let cases: Vec<(Vec<(i32, i32)>, i32, i32)> = vec![
        (vec![(5, -2), (6, 1), (7, 1)], 5, 2),
        (vec![(1, 1), (2, 1), (3, -1), (5, 1)], 4, 3),
        (vec![(2, -1), (4, -3)], 2, 1),
    ];
    for (state, pos, len) in cases {
        let before: Vec<Op> = state.iter().map(|&(ins, len)| Op { ins, len }).collect();
        let mut after = before.clone();
        OpList::apply_insert(&mut after, pos, len);
        assert!(after.len() <= before.len() + 1);
        let deletes = |ops: &[Op]| -> Vec<Op> { ops.iter().copied().filter(|o| o.len < 0).collect() };
        assert_eq!(deletes(&after), deletes(&before));
    }
}

/// Where the base character `p` lands once `s` is applied to the base text.
fn moved(s: &[Op], p: i64) -> i64 {
    let mut at = p;
    for op in s {
        let ins = op.ins as i64;
        if op.len > 0 && ins <= p {
            at += op.len as i64;
        } else if op.len < 0 {
            let end = ins - op.len as i64;
            at -= (end.min(p) - ins).max(0);
        }
    }
    at
}

#[test]
fn transform_deletes_the_kept_base_characters() {
    let cases: Vec<(Vec<(i32, i32)>, Vec<(i32, i32)>)> = vec![
        (vec![(2, 3), (10, -2)], vec![(5, 2), (7, -1), (12, 1)]),
        (vec![(0, -4), (6, 1)], vec![(1, 2), (4, -3), (9, 4)]),
        (vec![(5, -5)], vec![(3, -10)]),
        (vec![(5, 2)], vec![(5, -2)]),
        (vec![(3, 2), (6, -2), (9, 1)], vec![(1, -4), (6, -5), (12, -1)]),
    ];
    for (s, other) in cases {
        let s = getOpListbyVec(s);
        let other = getOpListbyVec(other);
        let t = s.transform(&other);
        let gone = removed(&s.ops);
        let want: std::collections::BTreeSet<i64> =
            removed(&other.ops).into_iter().filter(|p| !gone.contains(p)).map(|p| moved(&s.ops, p)).collect();
        assert_eq!(removed(&t.ops), want, "{:?} against {:?}", other.ops, s.ops);
    }
    // A delete that starts strictly inside a delete of the base list is
    // shifted by the overlap only.
    let t = getOpList([(2, -4)]).transform(&getOpList([(4, -4)]));
    assert_eq!(t, getOpList([(4, -2)]));
}

#[test]
fn transform_inserts_where_the_base_list_moves_the_anchor() {
    let cases: Vec<(Vec<(i32, i32)>, Vec<(i32, i32)>)> = vec![
        (vec![(2, 3), (10, -2)], vec![(5, 2), (7, -1), (12, 1)]),
        (vec![(0, -4), (6, 1)], vec![(1, 2), (4, -3), (9, 4)]),
        (vec![(5, 2)], vec![(5, 3), (8, 1)]),
        (vec![(3, 2), (6, -2), (9, 1)], vec![(1, 1), (7, 2), (9, 5)]),
    ];
    for (s, other) in cases {
        let s = getOpListbyVec(s);
        let other = getOpListbyVec(other);
        let t = s.transform(&other);
        let mut want = std::collections::BTreeMap::new();
        for op in &other.ops {
            if op.len > 0 {
                *want.entry(moved(&s.ops, op.ins as i64) as i32).or_insert(0) += op.len as i64;
            }
        }
        assert_eq!(inserted(&t.ops), want, "{:?} against {:?}", other.ops, s.ops);
    }
}
