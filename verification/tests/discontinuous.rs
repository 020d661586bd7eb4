use oplist::discontinuous::{getOpList, OpList};

#[test]
fn test() {
    let test_vec: OpList = getOpList([(1, 1), (3, 1), (1, 1), (3, 1)]);
    println!("{:?}", test_vec.discontinues_range());
}
