use oplist::baseops::{getOpList, getOpListforTesting, OpList};

#[test]
fn main_codex_rewrite_inluding_baseops_test_whats_already_implemented() {
	// Testing for inserting after all the ranges.

	// getOpListforTesting(getOpList(ops).from_oplist_to_sequential_list(), new_ops_to_add).from_oplist_to_sequential_list()
	//   -> equvalent to getOpList(ops + new_ops_to_add).from_oplist_to_sequential_list()

	// The state we get from_oplist_to_sequential_list is a special state
	//   -> we consider some base state, [0,inf) (we showcase this by 123456789...)
	//   -> deletes are special case here which represents deletes within [0,inf) 
	//      (e.g. [(5,-2)] would delete 6 & 7 in 123456789... always left to right)
	//   -> inserts are on top of base state, they are always in context of [0,inf),
	//      e.g. [(5,1)] would be a in 12345a6789, but note the context could also 
	//      been deleted, e.g. [(5,-1),(5,1)] would be a in 1234a6789, [(5,-2),(5,1),(6,1)] 
	//      would be a & b in 1234ab6789. By rule we take negative len first for the 
	//      same position, i.g. (5,-len) always comes before (5,+len)
	// The new_ops_to_add are added to state from_oplist_to_sequential_list by getOpListforTesting
	// getOpList also essentially creates the state by iterating over ops and changing the state one op at a time
	//   -> inserting an op to the state would require finding it's context in terms of [0,inf)
	//      e.g. for the state [(5,-1),(5,1)] would be a in 1234a6789, and if we insert [(5,1)]
	//      would be b in in 1234ab6789 and new state would be [(5,-1),(5,2)], and if we insert [(4,1)]
	//      would be b in in 1234ba6789 and new state would be [(4,1),(5,-1),(5,1)]. Note we find the 
	//      insertion position from the normal positioning, but store it in the context of [0,inf)
	//   -> deletes are similarly operated, they are found using the normal positing, i.g. 7,-1 means
	//      we are deleting the 7th position element, and we find the 7th position element in context of [0,inf)
	//      e.g. 5,-1 op onto the state of [(5,-1),(5,1)] would mean deleting a in 1234a6789, and the new
	//      state would be [(5,-1)], further if we delete again the 5,-1 op we'd get the new state of [(5,-2)]
	//   -> deletes & inserts RLE, i.g. the ops [(5,-1),(6,-1)] should always become the state [(5,-2)],
	//      a more complex example ops [(5,-2),(4,-2)] should always become the state [(2,-4)], as
	//      in 123456789 we delete 45 (as this is the normal op, left to right), then we delete
	//      36. Similerly for the state [(5,-1),(7,-1)], if we apply the op [(6,-1)], then the new state
	//      would be [(5,-3)]

        // Base = 1234567890...
        // Pre existing = 123457890...
        // After new applied (+) = 1234578+90...
	let test_vec: OpList = getOpListforTesting([(5,-1)], [(7,1)]);
	let expected_result = getOpList([(5, -1), (8, 1)]);
	assert_eq!(test_vec.from_oplist_to_sequential_list(), expected_result);

        // Base = 1234567890...
        // Pre existing = 12345-67890...
        // After new applied (+) = 12345-6+7890...
	let test_vec: OpList = getOpListforTesting([(5,1)], [(7,1)]);
	let expected_result = getOpList([(5, 1), (6, 1)]);
	assert_eq!(test_vec.from_oplist_to_sequential_list(), expected_result);

	// Test cases for: 1234567 -> 123456-7= -> 12345-=

        // Base = 1234567890...
        // Pre existing = 12345-=890...
        // After new applied (+) = 12345+-=890...
	let test_vec: OpList = getOpListforTesting([(5,-2),(6,1),(7,1)], [(5,1)]);
	let expected_result = getOpList([(5,1),(5,-2),(6,1),(7,1)]);
	assert_eq!(test_vec.from_oplist_to_sequential_list(), expected_result);

        // Base = 1234567890...
        // Pre existing = 12345-=890...
        // After new applied (+) = 12345-+=890...
	let test_vec: OpList = getOpListforTesting([(5,-2),(6,1),(7,1)], [(6,1)]);
	let expected_result = getOpList([(5,-2),(6,2),(7,1)]);
	assert_eq!(test_vec.from_oplist_to_sequential_list(), expected_result);

        // Base = 1234567890...
        // Pre existing = 12345-=890...
        // After new applied (+) = 12345-=8+90...
	let test_vec: OpList = getOpListforTesting([(5,-2),(6,1),(7,1)], [(8,1)]);
	let expected_result = getOpList([(5,-2),(6,1),(7,1),(8,1)]);
	assert_eq!(test_vec.from_oplist_to_sequential_list(), expected_result);
	
	// Test cases for 1-2-35-

        // Base = 1234567890...
        // Pre existing = 1-2-35-67890...
        // After new applied (+) = 1-2-+35-67890...
	let test_vec: OpList = getOpListforTesting([(1,1),(2,1),(3,-1),(5,1)], [(4,1)]);
	let expected_result = getOpList([(1,1),(2,2),(3,-1),(5,1)]);
	assert_eq!(test_vec.from_oplist_to_sequential_list(), expected_result);

        // Base = 1234567890...
        // Pre existing = 1-2-35-67890...
        // After new applied (+) = 1-2-3+5-67890...
	let test_vec: OpList = getOpListforTesting([(1,1),(2,1),(3,-1),(5,1)], [(5,1)]);
	let expected_result = getOpList([(1,1),(2,1),(3,1),(3,-1),(5,1)]);
	assert_eq!(test_vec.from_oplist_to_sequential_list(), expected_result);

        // Base = 1234567890...
        // Pre existing = 1-2-35-67890...
        // After new applied (+) = 1-2-35+-67890...
	let test_vec: OpList = getOpListforTesting([(1,1),(2,1),(3,-1),(5,1)], [(6,1)]);
	let expected_result = getOpList([(1,1),(2,1),(3,-1),(5,2)]);
	assert_eq!(test_vec.from_oplist_to_sequential_list(), expected_result);

        // Base = 1234567890...
        // Pre existing = 1-2-35-67890...
        // After new applied (+) = 1-2-35-6+7890...
	let test_vec: OpList = getOpListforTesting([(1,1),(2,1),(3,-1),(5,1)], [(8,1)]);
	let expected_result = getOpList([(1,1),(2,1),(3,-1),(5,1),(6,1)]);
	assert_eq!(test_vec.from_oplist_to_sequential_list(), expected_result);

	// Test for 4,-4 and stuff to check for first elements. 


	// Test for delete RLE

        // Base = 1234567890...
        // Pre existing = 12345790...
        // After new applied = 1234590...
	let test_vec: OpList = getOpListforTesting([(5,-1),(7,-1)], [(6,-1)]);
	let expected_result = getOpList([(5,-3)]);
	assert_eq!(test_vec.from_oplist_to_sequential_list(), expected_result);

        // Base = 1234567890...
        // Pre existing = 123-=~790...
        // After new applied = 123-=~90...
	let mut test_vec: OpList = getOpListforTesting([(3,-3),(4,1),(5,1),(6,1),(7,-1)], [(7,-1)]);
	let expected_result = getOpList([(3,-5),(4,1),(5,1),(6,1)]);
	assert_eq!(test_vec.from_oplist_to_sequential_list(), expected_result);

        // Base = 1234567890...
        // Pre existing = 123-=~790...
        // After new applied = 123-90...
	let mut test_vec: OpList = getOpListforTesting([(3,-3),(4,1),(5,1),(6,1),(7,-1)], [(7,-3)]);
	let expected_result = getOpList([(3,-5),(4,1)]);
	assert_eq!(test_vec.from_oplist_to_sequential_list(), expected_result);

        // Base = 1234567890...
        // Pre existing = 1234567-90...
        // After new applied = 12345690...
	let mut test_vec: OpList = getOpListforTesting([(7,1),(7,-1)], [(8,-2)]);
	let expected_result = getOpList([(6,-2)]);
	assert_eq!(test_vec.from_oplist_to_sequential_list(), expected_result);

        // Base = 1234567890...
        // Test = 14678-=~90...
        // Expected = 14678-=~90...
	let mut test_vec: OpList = getOpList([(5,-1),(3,-1),(6,3),(2,-1)]); // hard to understand
	let expected_result = getOpList([(1,-2),(4,-1),(8,3)]);
	assert_eq!(test_vec.from_oplist_to_sequential_list(), expected_result);

        // Base = 1234567890...
        // Test = 127890...
        // Expected = 127890...
	let mut test_vec: OpList = getOpList([(5,-2),(4,-2)]); // 1234567 -> 12367 -> 127; Testing for delete RLE within delete RLE
let expected_result = getOpList([(2,-4)]);
assert_eq!(test_vec.from_oplist_to_sequential_list(), expected_result);
}
