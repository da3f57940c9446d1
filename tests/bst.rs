use data_structures::bst::BST;

fn sample() -> BST {
    let mut tree = BST::new();
    tree.insert(100);
    tree.insert(1);
    tree.insert(600);
    tree.insert(300);
    tree.insert(20);
    tree.insert(5);
    tree
}

#[test]
fn insert_and_find_node() {
    let tree = sample();
    assert_eq!(tree.search(100), true);
    assert_eq!(tree.search(1), true);
    assert_eq!(tree.search(600), true);
    assert_eq!(tree.search(300), true);
    assert_eq!(tree.search(20), true);
    assert_eq!(tree.search(5), true);
    assert_eq!(tree.search(6), false);
}

#[test]
fn dfs() {
    let tree = sample();
    let in_order_data = vec![1, 5, 20, 100, 300, 600];
    let pre_order_data = vec![100, 1, 20, 5, 600, 300];
    let post_order_data = vec![5, 20, 1, 300, 600, 100];
    let bfs_data = vec![100, 1, 600, 20, 300, 5];
    println!("{:#?}", tree);
    for i in 0..in_order_data.len() {
        assert_eq!(tree.dfs_in_order()[i], in_order_data[i]);
        assert_eq!(tree.dfs_pre_order()[i], pre_order_data[i]);
        assert_eq!(tree.dfs_post_order()[i], post_order_data[i]);
        assert_eq!(tree.bfs()[i], bfs_data[i]);
    }
}

#[test]
fn validate() {
    let tree = sample();
    assert_eq!(tree.validate(), true);
}

#[test]
fn duplicate_insert_and_empty_tree() {
    let mut tree = BST::new();
    assert!(tree.dfs_in_order().is_empty());
    assert!(tree.bfs().is_empty());
    assert!(!tree.search(1));
    tree.insert(7);
    tree.insert(7);
    assert_eq!(tree.dfs_pre_order(), vec![7]);
    tree.insert(i64::MAX);
    assert_eq!(tree.validate(), false);
}
