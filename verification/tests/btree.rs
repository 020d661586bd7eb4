use oplist::btree::BTree;

fn create_sample_btree() -> BTree<String> {
    let mut btree = BTree { root: None };
    //inserting elements A-Z at indexes 0-25 in order into b-tree.
    for i in 0..26 as i32 {
        btree.insert(((i + 65) as u8 as char).to_string(), i);
    }
    return btree;
}

#[test]
fn test_lookup() {
    let btree = create_sample_btree();

    assert_eq!(btree.lookup_index(12), Some(("M".to_string(), 12)));
    assert_eq!(btree.lookup_index(4), Some(("E".to_string(), 4)));
    assert_eq!(btree.lookup_index(25), Some(("Z".to_string(), 25)));
}
