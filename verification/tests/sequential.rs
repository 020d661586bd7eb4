use oplist::ops::{getOpList, getOpListforTesting, InsertPos, Length, Op, OpList};

/// Verifies merging sequential lists coalesce correctly for mixed insert/delete cases.
#[test]
fn merge_sequential_list_behaviors() {
    // Provided case: inserts combine and new positions are appended.
    let mut existing = getOpList([(5, 2), (10, 1)]);
    let additions = getOpList([(5, 3), (7, 1)]);
    existing.merge_sequential_list(&additions);
    let expected = getOpList([(5, 5), (7, 1), (10, 1)]);
    assert_eq!(existing, expected);

    // Provided case (also covers previous delete-span test): deletes union together.
    let mut existing = getOpList([(5, -1)]);
    let additions = getOpList([(6, -1)]);
    existing.merge_sequential_list(&additions);
    let expected = getOpList([(5, -2)]);
    assert_eq!(existing, expected);

    // Provided case: delete spans across multiple segments.
    let mut existing = getOpList([(3, -1), (3, 1), (6, -1)]);
    let additions = getOpList([(4, -2)]);
    existing.merge_sequential_list(&additions);
    let expected = getOpList([(3, -4), (3, 1)]);
    assert_eq!(existing, expected);

    // Provided case: delete must land before positive insert at same base.
    let mut existing = getOpList([(5, 1)]);
    let additions = getOpList([(5, -2)]);
    existing.merge_sequential_list(&additions);
    let expected = getOpList([(5, -2), (5, 1)]);
    assert_eq!(existing, expected);

    // Existing case: inserts at identical base sum their lengths.
    let mut existing = getOpList([(5, 2)]);
    let additions = getOpList([(5, 3)]);
    existing.merge_sequential_list(&additions);
    let expected = getOpList([(5, 5)]);
    assert_eq!(existing, expected);

    // Existing case: mixed operations keep final ordering and RLE.
    let mut existing = getOpList([(5, -2), (5, 1)]);
    let additions = getOpList([(5, 1), (6, -1)]);
    existing.merge_sequential_list(&additions);
    let expected = getOpList([(5, -2), (5, 2)]);
    assert_eq!(existing, expected);
}

#[test]
fn transform_behaviors() {
    let s = getOpList([(5, 2)]);
    let o = getOpList([(5, 3)]);
    let res = s.transform(&o);
    assert_eq!(res, getOpList([(7, 3)]));

    let s = getOpList([(5, -2), (6, 1)]);
    let o = getOpList([(6, 1)]);
    let res = s.transform(&o);
    assert_eq!(res, getOpList([(6, 1)]));

    let s = getOpList([(5, 3)]);
    let o = getOpList([(5, 2)]);
    let res = s.transform(&o);
    assert_eq!(res, getOpList([(8, 2)]));

    let s = getOpList([(5, -2)]);
    let o = getOpList([(6, 1)]);
    let res = s.transform(&o);
    assert_eq!(res, getOpList([(5, 1)]));

    let s = getOpList([(5, -5)]);
    let o = getOpList([(3, -10)]);
    let res = s.transform(&o);
    assert_eq!(res, getOpList([(3, -5)]));

    let s = getOpList([(5, 2)]);
    let o = getOpList([(5, -2)]);
    let res = s.transform(&o);
    assert_eq!(res, getOpList([(7, -2)]));

    let s = getOpList([(5, -2)]);
    let o = getOpList([(5, -2)]);
    let res = s.transform(&o);
    assert_eq!(res, getOpList([]));
}

#[test]
fn apply_transformation_behaviors() {
    let mut s = getOpList([(5, 3)]);
    let t = getOpList([(5, 2)]);
    s.apply_transformation(&t);
    // (5, 2) applied on (5, 3) -> (5, 3) because t inserts at 5, s inserts at 5.
    // s is transformed against t.
    // t.transform(s) with shift_on_tie=false.
    // s at 5. t at 5. t inserts 2. s is NOT shifted.
    // So s remains at 5.
    assert_eq!(s, getOpList([(5, 3)]));

    let mut s = getOpList([(5, 3), (6, 1)]);
    let t = getOpList([(5, 2)]);
    s.apply_transformation(&t);
    // s has (5, 3) and (6, 1).
    // (5, 3) -> (5, 3) (as above)
    // (6, 1) -> (8, 1) (shifted by t's insert of 2)
    assert_eq!(s, getOpList([(5, 3), (8, 1)]));
}

#[test]
fn apply_transformation_complex_cases() {
    // Case 1: Transformer deletes range where self inserts.
    // Self: Insert "ABC" at 5. (5, 3)
    // Trans: Delete 2 chars at 5. (5, -2)
    // Result: Self should still insert at 5, but since the context *before* it didn't change (it's at 5),
    // and the delete is *at* 5.
    // If T deletes (5, -2), it means chars 5 and 6 are gone.
    // S inserts at 5.
    // In the new document, 5 and 6 are gone. The insertion point 5 is now... 5.
    // Wait, if 5 and 6 are deleted, the index 5 still exists (it's the start of the deletion).
    // So S should still be (5, 3).
    let mut s = getOpList([(5, 3)]);
    let t = getOpList([(5, -2)]);
    s.apply_transformation(&t);
    assert_eq!(s, getOpList([(5, 3)]));

    // Case 2: Transformer inserts in middle of self's insert.
    // Self: Insert "ABCD" at 5. (5, 4)
    // Trans: Insert "XY" at 7. (7, 2)
    // This is tricky. Self is a single op (5, 4). It doesn't "contain" 7 in the base document.
    // It inserts at 5.
    // T inserts at 7.
    // 7 is AFTER 5.
    // So T's insert is at index 7 of the BASE document.
    // S inserts at 5 of the BASE document.
    // So S is unaffected by T's insert at 7.
    let mut s = getOpList([(5, 4)]);
    let t = getOpList([(7, 2)]);
    s.apply_transformation(&t);
    assert_eq!(s, getOpList([(5, 4)]));

    // Case 3: Transformer deletes a range that overlaps with self's delete.
    // Self: Delete (5, -3) -> deletes 5, 6, 7.
    // Trans: Delete (6, -3) -> deletes 6, 7, 8.
    // Overlap is 6, 7.
    // S deletes 5, 6, 7.
    // T deletes 6, 7, 8.
    // We want to transform S against T.
    // T has deleted 6, 7, 8.
    // S wants to delete 5, 6, 7.
    // 6 and 7 are already deleted by T.
    // So S only needs to delete 5.
    // 5 is before 6. So 5 is still at 5.
    // Result: S should become (5, -1).
    let mut s = getOpList([(5, -3)]);
    let t = getOpList([(6, -3)]);
    s.apply_transformation(&t);
    assert_eq!(s, getOpList([(5, -1)]));

    // Case 4: Transformer deletes a range that is a subset of self's delete.
    // Self: Delete (5, -5) -> 5, 6, 7, 8, 9.
    // Trans: Delete (6, -2) -> 6, 7.
    // T deletes 6, 7.
    // S wants to delete 5..10.
    // 6, 7 are gone.
    // S needs to delete 5, and 8, 9.
    // In the new document (after T), 6 and 7 are gone.
    // 5 is at 5.
    // 8 becomes 6 (shifted back by 2).
    // 9 becomes 7.
    // So S should delete 5, 6, 7 in the new document?
    // Wait.
    // Original: 0 1 2 3 4 5 6 7 8 9 10
    // T deletes 6, 7.
    // New: 0 1 2 3 4 5 8 9 10
    // Indices: 0 1 2 3 4 5 6 7 8
    // S wanted to delete 5, 6, 7, 8, 9.
    // In New, these correspond to:
    // 5 -> 5
    // 6 -> deleted
    // 7 -> deleted
    // 8 -> 6
    // 9 -> 7
    // So S should delete range [5, 8) in New? i.e. 5, 6, 7.
    // So S becomes (5, -3).
    let mut s = getOpList([(5, -5)]);
    let t = getOpList([(6, -2)]);
    s.apply_transformation(&t);
    assert_eq!(s, getOpList([(5, -3)]));

    // Case 5: Transformer deletes a range that is a superset of self's delete.
    // Self: Delete (6, -2) -> 6, 7.
    // Trans: Delete (5, -5) -> 5, 6, 7, 8, 9.
    // T deletes everything S wanted to delete.
    // S should become empty.
    let mut s = getOpList([(6, -2)]);
    let t = getOpList([(5, -5)]);
    s.apply_transformation(&t);
    assert_eq!(s, getOpList([]));

    // Case 6: Mixed operations.
    // Self: Insert (5, 2), Delete (8, -2).
    // Trans: Delete (4, -2) -> 4, 5. Insert (8, 1).
    //
    // T: Delete 4, 5. Insert 1 at 8.
    //
    // S op 1: Insert (5, 2).
    // T deletes 4, 5.
    // Insertion point 5 is at the end of the deletion range [4, 6).
    // So 5 maps to 4.
    // S op 1 becomes (4, 2).
    //
    // S op 2: Delete (8, -2) -> 8, 9.
    // T deletes 4, 5. Shift is -2.
    // T inserts at 8.
    // S delete starts at 8.
    // 8 in base maps to 8 - 2 = 6.
    // But wait, T inserts at 8 (base).
    // 8 (base) is after 4, 5 (deleted).
    // So 8 (base) becomes 6.
    // T inserts at 8 (base).
    // Since T inserts at 8, and S deletes at 8.
    // S delete is AT 8. T insert is AT 8.
    // Does T insert happen before or after S delete?
    // T is the transformer. We are transforming S against T.
    // T's insert at 8 means there is new content at 8.
    // S wanted to delete 8, 9 (original).
    // S should NOT delete the new content inserted by T.
    // So S should still delete the original 8, 9.
    // Original 8 maps to 6 (due to T's delete of 4,5).
    // T's insert is at 8 (original).
    // Wait, T's insert is at 8.
    // If T inserts at 8, it shifts subsequent characters.
    // But S's delete is AT 8.
    // Does S delete the inserted char? No.
    // Does S delete start before or after the inserted char?
    // Usually, if I delete at X, and you insert at X.
    // Your insert shifts my delete?
    // If I delete [8, 10), and you insert at 8.
    // The content I wanted to delete is now at [8+len, 10+len).
    // So S should be shifted by T's insert.
    // T inserts 1 at 8.
    // So S delete (originally at 8) should now be at 8 + 1 = 9?
    // Let's trace carefully.
    // Base: 0 1 2 3 4 5 6 7 8 9 10
    // T: Delete 4, 5. Insert 'X' at 8.
    // Step 1 (Delete 4, 5): 0 1 2 3 6 7 8 9 10. (Length reduced by 2).
    // Indices map: 0->0, ..., 3->3, 6->4, 7->5, 8->6, 9->7.
    // Step 2 (Insert 'X' at 8):
    // Wait, T is a list of ops. They are applied sequentially on Base.
    // T op 1: (4, -2).
    // T op 2: (8, 1).
    // Note: T op 2 position (8) is in the coordinate system AFTER T op 1.
    // After T op 1 (delete 4, 5), the doc is smaller.
    // If T op 2 is (8, 1), it means insert at index 8 of the INTERMEDIATE doc.
    // Intermediate doc: 0 1 2 3 6 7 8 9 10.
    // Index 8 corresponds to...
    // 0, 1, 2, 3, 4(was 6), 5(was 7), 6(was 8), 7(was 9), 8(was 10).
    // So T inserts at old 10?
    //
    // Let's assume the test setup implies T's ops are sequential.
    //
    // S op 1: Insert (5, 2).
    // Target 5.
    // T op 1 (4, -2): Deletes 4, 5. 5 is inside/at end of delete.
    // 5 maps to 4.
    // T op 2 (8, 1): Insert at 8 (intermediate).
    // S op 1 is at 4 (intermediate). 4 < 8.
    // So S op 1 remains at 4.
    // Result S op 1: (4, 2).
    //
    // S op 2: Delete (8, -2) -> 8, 9 (base).
    // Target 8.
    // T op 1 (4, -2): Deletes 4, 5.
    // 8 is > 5. Shift by -2.
    // 8 maps to 6.
    // T op 2 (8, 1): Insert at 8 (intermediate).
    // S op 2 is at 6 (intermediate).
    // 6 < 8.
    // So S op 2 is unaffected by T op 2.
    // Result S op 2: (6, -2).
    //
    // So expected: [(4, 2), (6, -2)].

    let mut s = getOpList([(5, 2), (8, -2)]);
    let t = getOpList([(4, -2), (8, 1)]);
    s.apply_transformation(&t);
    assert_eq!(s, getOpList([(4, 2), (6, -2)]));
}

/// Ensures sequential lists are converted back into op lists with expected coordinates.
#[test]
fn sequential_list_to_oplist_emits_expected_ops() {
    let mut sequential = getOpList([(5, -1), (5, 1)]);
    sequential.from_sequential_list_to_oplist();
    let expected = getOpList([(6, -1), (5, 1)]);
    assert_eq!(sequential, expected);

    let mut sequential = getOpList([(2, -4)]);
    sequential.from_sequential_list_to_oplist();
    let expected = getOpList([(6, -4)]);
    assert_eq!(sequential, expected);

    let mut sequential = getOpList([(2, -3), (2, 1)]);
    sequential.from_sequential_list_to_oplist();
    let expected = getOpList([(5, -3), (2, 1)]);
    assert_eq!(sequential, expected);

    let mut sequential = getOpList([(3, -1), (5, 2)]);
    sequential.from_sequential_list_to_oplist();
    let expected = getOpList([(4, -1), (4, 2)]);
    assert_eq!(sequential, expected);
}

/// Confirms round-trip conversions preserve simple states.
#[test]
fn sequential_list_preserves_simple_states() {
    let mut sequential = getOpList([(5, 2), (7, 1)]);
    let expected_state = sequential.clone();
    sequential.from_sequential_list_to_oplist();
    assert_eq!(sequential.from_oplist_to_sequential_list(), expected_state);

    let mut sequential = getOpList([(2, -4)]);
    let expected_state = sequential.clone();
    sequential.from_sequential_list_to_oplist();
    assert_eq!(sequential.from_oplist_to_sequential_list(), expected_state);
}

/// Helper: associates each op with its base anchor to simplify reference comparisons.
fn ops_with_base(seq: &OpList) -> Vec<(i64, Op)> {
    let mut result = Vec::new();
    let mut base_cursor: i64 = 0;
    let mut doc_cursor: i64 = 0;

    for range in &seq.ops {
        if range.len == 0 {
            continue;
        }

        let range_base = i64::from(range.ins);
        if range_base > base_cursor {
            doc_cursor += range_base - base_cursor;
            base_cursor = range_base;
        }

        if range.len > 0 {
            let ins: InsertPos = doc_cursor.try_into().expect("insert cursor overflow");
            result.push((
                range_base,
                Op {
                    ins,
                    len: range.len,
                },
            ));
            doc_cursor += i64::from(range.len);
        } else {
            let delete_len = -i64::from(range.len);
            let delete_start = doc_cursor;
            let ins: InsertPos = (delete_start + delete_len)
                .try_into()
                .expect("delete cursor overflow");
            let len: Length = delete_len.try_into().expect("delete len overflow");
            result.push((range_base, Op { ins, len: -len }));
            base_cursor += delete_len;
        }
    }

    result
}

/// Reference implementation used to validate `backwards_apply`.
fn backwards_apply_reference(current: &OpList, prior: &OpList) -> OpList {
    let mut baseline = prior.clone();
    let ops = ops_with_base(current);
    let mut shift_all: i64 = 0;
    let mut shift_deletes: i64 = 0;
    let mut prior_ops_iter = prior.ops.iter().peekable();

    for (base, mut op) in ops {
        // Process prior operations that affect this operation's base position
        while let Some(prior_op) = prior_ops_iter.peek() {
            let prior_base = i64::from(prior_op.ins);
            let effective_base = if prior_op.len > 0 {
                prior_base
            } else {
                // For deletes, the effective base is at the end of the deleted range
                prior_base + i64::from(-prior_op.len)
            };

            if effective_base <= base {
                let prior_op = *prior_ops_iter.next().unwrap();
                if prior_op.len > 0 {
                    shift_all += i64::from(prior_op.len);
                } else {
                    let delete_len = -i64::from(prior_op.len);
                    shift_all += -delete_len;
                    shift_deletes += -delete_len;
                }
            } else {
                break;
            }
        }

        if op.len == 0 {
            continue;
        } else if op.len > 0 {
            let adjusted = i64::from(op.ins) + shift_deletes;
            let ins: InsertPos = adjusted.try_into().expect("insert cursor overflow");
            OpList::apply_insert(&mut baseline.ops, ins, op.len);
        } else {
            let start = i64::from(op.ins + op.len) + shift_all;
            let start_pos: InsertPos = start.try_into().expect("delete start overflow");
            let len = -op.len;
            OpList::apply_delete(&mut baseline.ops, start_pos, len);
        }
    }

    baseline.test_op = None;
    baseline
}

/// Spot-checks simple backwards-apply scenarios against the reference version.
#[test]
fn backwards_apply_handles_simple_examples() {
    let current = getOpList([(3, -2)]);
    let prior = getOpList([(2, -1)]);
    let expected = getOpList([(2, -3)]);
    assert_eq!(current.backwards_apply(&prior), expected);
    assert_eq!(
        current.backwards_apply(&prior),
        backwards_apply_reference(&current, &prior)
    );

    let current = getOpList([(3, 1)]);
    let prior = getOpList([(2, 1)]);
    let expected = getOpList([(2, 2)]);
    assert_eq!(current.backwards_apply(&prior), expected);
    assert_eq!(
        current.backwards_apply(&prior),
        backwards_apply_reference(&current, &prior)
    );
}

/// Exhaustively compares several composed cases with the reference implementation.
#[test]
fn backwards_apply_matches_reference_implementation() {
    let cases = vec![
        (getOpList([(3, -2)]), getOpList([(2, -1)])),
        (getOpList([(3, 1)]), getOpList([(2, 1)])),
        (getOpList([(5, -1), (5, 1)]), getOpList([(4, 1)])),
        (
            getOpList([(2, -3), (2, 2), (7, -1)]),
            getOpList([(6, 2), (9, -2)]),
        ),
        (
            getOpList([(1, 2), (4, -1), (4, 1)]),
            getOpList([(3, -1), (5, 1), (7, -2)]),
        ),
    ];

    for (current, prior) in cases {
        let expected = backwards_apply_reference(&current, &prior);
        assert_eq!(current.backwards_apply(&prior), expected);
    }
}

/// Regression suite covering incremental state building and edge cases.
#[test]
fn main_test_whats_already_implemented() {
    // This suite seeds a sequential state and layers additional ops on top. When `seq_state`
    // comes from `getOpList(ops).from_oplist_to_sequential_list()`, we assert:
    //   getOpListforTesting(seq_state, new_ops).from_oplist_to_sequential_list()
    //   == getOpList(ops + new_ops).from_oplist_to_sequential_list()
    //
    // Representation rules for the seeded sequential state:
    //   - Coordinates are in base-document space [0, inf); we visualize it as the digit string 123456789...
    //   - Deletes are stored as negative spans over that base space (e.g. (5, -2) removes base positions 5 and 6).
    //   - Inserts are anchored to a base position even if that base was deleted; deletes at a base index are ordered before inserts.
    //   - Adjacent deletes run-length encode into a single span.
    // The scenarios below use short digit strings to show how ops rewrite the base-backed sequence.

    // Base = 1234567890...
    // Pre existing = 123457890...
    // After new applied (+) = 1234578+90...
    let test_vec: OpList = getOpListforTesting([(5, -1)], [(7, 1)]);
    let expected_result = getOpList([(5, -1), (8, 1)]);
    assert_eq!(test_vec.from_oplist_to_sequential_list(), expected_result);

    // Base = 1234567890...
    // Pre existing = 12345-67890...
    // After new applied (+) = 12345-6+7890...
    let test_vec: OpList = getOpListforTesting([(5, 1)], [(7, 1)]);
    let expected_result = getOpList([(5, 1), (6, 1)]);
    assert_eq!(test_vec.from_oplist_to_sequential_list(), expected_result);

    // Test cases for: 1234567 -> 123456-7= -> 12345-=

    // Base = 1234567890...
    // Pre existing = 12345-=890...
    // After new applied (+) = 12345+-=890...
    let test_vec: OpList = getOpListforTesting([(5, -2), (6, 1), (7, 1)], [(5, 1)]);
    let expected_result = getOpList([(5, 1), (5, -2), (6, 1), (7, 1)]);
    assert_eq!(test_vec.from_oplist_to_sequential_list(), expected_result);

    // Base = 1234567890...
    // Pre existing = 12345-=890...
    // After new applied (+) = 12345-+=890...
    let test_vec: OpList = getOpListforTesting([(5, -2), (6, 1), (7, 1)], [(6, 1)]);
    let expected_result = getOpList([(5, -2), (6, 2), (7, 1)]);
    assert_eq!(test_vec.from_oplist_to_sequential_list(), expected_result);

    // Base = 1234567890...
    // Pre existing = 12345-=890...
    // After new applied (+) = 12345-=8+90...
    let test_vec: OpList = getOpListforTesting([(5, -2), (6, 1), (7, 1)], [(8, 1)]);
    let expected_result = getOpList([(5, -2), (6, 1), (7, 1), (8, 1)]);
    assert_eq!(test_vec.from_oplist_to_sequential_list(), expected_result);

    // Test cases for 1-2-35-

    // Base = 1234567890...
    // Pre existing = 1-2-35-67890...
    // After new applied (+) = 1-2-+35-67890...
    let test_vec: OpList = getOpListforTesting([(1, 1), (2, 1), (3, -1), (5, 1)], [(4, 1)]);
    let expected_result = getOpList([(1, 1), (2, 2), (3, -1), (5, 1)]);
    assert_eq!(test_vec.from_oplist_to_sequential_list(), expected_result);

    // Base = 1234567890...
    // Pre existing = 1-2-35-67890...
    // After new applied (+) = 1-2-3+5-67890...
    let test_vec: OpList = getOpListforTesting([(1, 1), (2, 1), (3, -1), (5, 1)], [(5, 1)]);
    let expected_result = getOpList([(1, 1), (2, 1), (3, 1), (3, -1), (5, 1)]);
    assert_eq!(test_vec.from_oplist_to_sequential_list(), expected_result);

    // Base = 1234567890...
    // Pre existing = 1-2-35-67890...
    // After new applied (+) = 1-2-35+-67890...
    let test_vec: OpList = getOpListforTesting([(1, 1), (2, 1), (3, -1), (5, 1)], [(6, 1)]);
    let expected_result = getOpList([(1, 1), (2, 1), (3, -1), (5, 2)]);
    assert_eq!(test_vec.from_oplist_to_sequential_list(), expected_result);

    // Base = 1234567890...
    // Pre existing = 1-2-35-67890...
    // After new applied (+) = 1-2-35-6+7890...
    let test_vec: OpList = getOpListforTesting([(1, 1), (2, 1), (3, -1), (5, 1)], [(8, 1)]);
    let expected_result = getOpList([(1, 1), (2, 1), (3, -1), (5, 1), (6, 1)]);
    assert_eq!(test_vec.from_oplist_to_sequential_list(), expected_result);

    // Test for 4,-4 and stuff to check for first elements.

    // Test for delete RLE

    // Base = 1234567890...
    // Pre existing = 12345790...
    // After new applied = 1234590...
    let test_vec: OpList = getOpListforTesting([(5, -1), (7, -1)], [(6, -1)]);
    let expected_result = getOpList([(5, -3)]);
    assert_eq!(test_vec.from_oplist_to_sequential_list(), expected_result);

    // Base = 1234567890...
    // Pre existing = 123-=~790...
    // After new applied = 123-=~90...
    let mut test_vec: OpList =
        getOpListforTesting([(3, -3), (4, 1), (5, 1), (6, 1), (7, -1)], [(7, -1)]);
    let expected_result = getOpList([(3, -5), (4, 1), (5, 1), (6, 1)]);
    assert_eq!(test_vec.from_oplist_to_sequential_list(), expected_result);

    // Base = 1234567890...
    // Pre existing = 123-=~790...
    // After new applied = 123-90...
    let mut test_vec: OpList =
        getOpListforTesting([(3, -3), (4, 1), (5, 1), (6, 1), (7, -1)], [(7, -3)]);
    let expected_result = getOpList([(3, -5), (4, 1)]);
    assert_eq!(test_vec.from_oplist_to_sequential_list(), expected_result);

    // Base = 1234567890...
    // Pre existing = 1234567-90...
    // After new applied = 12345690...
    let mut test_vec: OpList = getOpListforTesting([(7, 1), (7, -1)], [(8, -2)]);
    let expected_result = getOpList([(6, -2)]);
    assert_eq!(test_vec.from_oplist_to_sequential_list(), expected_result);

    // Base = 1234567890...
    // Test = 14678-=~90...
    // Expected = 14678-=~90...
    let mut test_vec: OpList = getOpList([(5, -1), (3, -1), (6, 3), (2, -1)]); // hard to understand
    let expected_result = getOpList([(1, -2), (4, -1), (8, 3)]);
    assert_eq!(test_vec.from_oplist_to_sequential_list(), expected_result);

    // Base = 1234567890...
    // Test = 127890...
    // Expected = 127890...
    let mut test_vec: OpList = getOpList([(5, -2), (4, -2)]); // 1234567 -> 12367 -> 127; Testing for delete RLE within delete RLE
    let expected_result = getOpList([(2, -4)]);
    assert_eq!(test_vec.from_oplist_to_sequential_list(), expected_result);

    // Basic test
    let test_vec: OpList = getOpListforTesting([(5, 5)], [(7, -2)]);
    let expected_result = getOpList([(5, 3)]); // Should be "heo" at position 5
    assert_eq!(test_vec.from_oplist_to_sequential_list(), expected_result);

    // // Could be useful
    // // -11-2---
    // let test_vec: OpList = getOpListforTesting([(1,1),(1,1)], [(4,1)]);
    // let expected_result = getOpList([(1,1),(1,1),(2,1)]);
    // assert_eq!(test_vec.from_oplist_to_sequential_list(), expected_result);
}
