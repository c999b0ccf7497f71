use h3tree::index::Index;
use h3tree::tree::{H3Tree, H3TreeErrorKind, TreeNode};

#[test]
fn tree_test_root_node_is_not_null() {
    let root_address = Index::unsafe_random(28, 0, 13);
    let tree = H3Tree::empty(0, 1, root_address, 5);

    assert!(&tree.root.children().is_some());
}

#[test]
fn test_nodes_have_7_children() {
    let root_address = Index::unsafe_random(28, 0, 13);
    let tree = H3Tree::empty(0, 1, root_address, 5);
    if let Some(children) = tree.root.children() {
        assert!(children.len() == 7);
    }
}

#[test]
fn test_leaves_have_no_children() {
    let root_address = Index::unsafe_random(28, 0, 13);
    let tree = H3Tree::empty(0, 0, root_address, 5);

    assert!(&tree.root.children().is_none());
}

#[test]
fn test_tree_contains_address_in_root_cell() {
    let root_data = vec![(7u8, 5u8), (9u8, 4u8), (10u8, 2u8), (11u8, 6u8)];
    let root_address = Index::from_address_map(28, 0, &root_data);
    let tree = H3Tree::empty(0, 3, root_address, 5);

    let tree_data = vec![
        (7u8, 5u8),
        (9u8, 4u8),
        (10u8, 2u8),
        (11u8, 6u8),
        (12u8, 4u8),
    ];
    let tree_index = Index::from_address_map(15, 28, &tree_data);

    assert!(!tree.contains(tree_index));
}

#[test]
fn test_tree_does_not_contain_address_outside_root_cell() {
    let root_data = vec![(7u8, 5u8), (9u8, 4u8), (10u8, 2u8), (11u8, 6u8)];
    let root_address = Index::from_address_map(28, 0, &root_data);
    let tree = H3Tree::empty(0, 3, root_address, 5);

    let not_tree_data = vec![(7u8, 5u8), (9u8, 4u8), (10u8, 2u8), (12u8, 6u8)];
    let no_tree_index = Index::from_address_map(15, 28, &not_tree_data);

    assert!(!tree.contains(no_tree_index));
}

#[test]
fn test_5_level_tree_has_5_levels() {
    let root_address = Index::unsafe_random(28, 0, 13);
    let tree = H3Tree::empty(0, 3, root_address, 5);

    if let Some(children) = tree.root.children() {
        if let Some(children) = children[0].children() {
            if let Some(children) = children[0].children() {
                assert!(children[0].children().is_none());
            }
        } else {
            assert!(false);
        }
    } else {
        assert!(false);
    }
}

#[test]
fn test_get_value() {
    let root_address = Index::unsafe_random(28, 0, 13);
    let tree = H3Tree::empty(0, 5, root_address, 5);
    let mut u8idxs: [u8; 15] = [0; 15];
    u8idxs[0] = 1;
    u8idxs[1] = 2;
    u8idxs[2] = 3;
    u8idxs[3] = 4;
    u8idxs[4] = 5;
    let u64idx = Index::from_u8_indices(&u8idxs);

    assert!(tree.get_u64(u64idx).is_some_and(|x| *x == 5));
}

#[test]
fn test_get_value_with_invalid_index_with_too_many_levels_returns_none() {
    let root_address = Index::unsafe_random(28, 0, 13);
    let tree = H3Tree::empty(0, 5, root_address, 5);
    let u8idxs: [u8; 15] = [4; 15]; // Indices past the tree depth are non-zero.
    let u64idx = Index::from_u8_indices(&u8idxs);

    assert!(tree.get_u64(u64idx).is_none());
}

#[test]
fn test_get_value_with_invalid_index_with_values_out_of_range_returns_none() {
    let root_address = Index::unsafe_random(28, 0, 13);
    let tree = H3Tree::empty(0, 5, root_address, 5);
    let mut u8idxs: [u8; 15] = [0; 15];
    u8idxs[3] = 7; // Index is too large.
    let u64idx = Index::from_u8_indices(&u8idxs);

    assert!(tree.get_u64(u64idx).is_none());
}

#[test]
fn test_set_get_value() {
    let root_address = Index::unsafe_random(28, 0, 13);
    let mut tree = H3Tree::empty(0, 5, root_address, 5);
    let u8idxs: [u8; 15] = [0; 15];
    let u64idx = Index::from_u8_indices(&u8idxs);
    println!("*** u64idx = {} ***", u64idx);

    assert!(tree.get_u64(u64idx).is_some());

    assert!(tree.get_u64(u64idx).is_some_and(|x| *x == 5));
    assert!(tree.set_u64(u64idx, 3).is_ok());
    assert!(tree.get_u64(u64idx).is_some_and(|x| *x == 3));
}

/// The key whose first digits are `path` and whose other digits are zero.
fn key_of(path: &[u8]) -> u64 {
    let mut digits: [u8; 15] = [0; 15];
    digits[..path.len()].copy_from_slice(path);
    Index::from_u8_indices(&digits)
}

/// Every path of `depth` child digits.
fn all_paths(depth: usize) -> Vec<Vec<u8>> {
    let mut paths: Vec<Vec<u8>> = vec![Vec::new()];
    for _ in 0..depth {
        let mut longer = Vec::new();
        for path in &paths {
            for digit in 0..7u8 {
                let mut next = path.clone();
                next.push(digit);
                longer.push(next);
            }
        }
        paths = longer;
    }
    paths
}

fn node_at<'a>(root: &'a TreeNode<u32>, path: &[u8]) -> &'a TreeNode<u32> {
    let mut node = root;
    for digit in path {
        node = &node.children().expect("an inner node")[*digit as usize];
    }
    node
}

#[test]
fn depth_three_tree_has_leaves_exactly_three_steps_down() {
    let tree = H3Tree::empty(4, 7, Index::unsafe_index(0), 9u32);
    assert_eq!(tree.depth(), 3);
    for steps in 0..3 {
        for path in all_paths(steps) {
            let node = node_at(&tree.root, &path);
            assert!(matches!(node, TreeNode::Node(9, _)));
            assert_eq!(node.children().unwrap().len(), 7);
        }
    }
    for path in all_paths(3) {
        let node = node_at(&tree.root, &path);
        assert!(matches!(node, TreeNode::Leaf(9)));
        assert!(node.children().is_none());
    }
}

#[test]
fn node_empty_builds_a_complete_tree() {
    let leaf = TreeNode::empty(0, 'x');
    assert!(matches!(leaf, TreeNode::Leaf('x')));
    let node = TreeNode::empty(2, 'x');
    for first in 0..7 {
        let child = &node.children().unwrap()[first];
        assert!(matches!(**child, TreeNode::Node('x', _)));
        for second in 0..7 {
            assert!(matches!(*child.children().unwrap()[second], TreeNode::Leaf('x')));
        }
    }
}

#[test]
fn empty_records_address_and_resolutions() {
    let tree = H3Tree::empty(2, 6, Index::unsafe_index(0x8e754e64992d6df), 0u8);
    assert_eq!(tree.address.index, 0x8e754e64992d6df);
    assert_eq!(tree.root_resolution, 2);
    assert_eq!(tree.leaf_resolution, 6);
    assert_eq!(tree.depth(), 4);
    assert_eq!(H3Tree::empty(15, 15, Index::unsafe_index(0), 0u8).depth(), 0);
}

#[test]
fn fresh_tree_of_depth_five_reads_the_default_everywhere() {
    let tree = H3Tree::empty(0, 5, Index::unsafe_index(0), 11u32);
    for path in all_paths(5) {
        assert_eq!(tree.get_u64(key_of(&path)), Some(&11));
    }
}

#[test]
fn set_changes_one_leaf_and_no_other() {
    let mut tree = H3Tree::empty(0, 5, Index::unsafe_index(0), 11u32);
    let written: [u8; 5] = [6, 0, 3, 3, 1];
    assert!(tree.set_u64(key_of(&written), 42).is_ok());
    for path in all_paths(5) {
        let expected = if path == written { 42 } else { 11 };
        assert_eq!(tree.get_u64(key_of(&path)), Some(&expected));
    }
    assert!(tree.set_u64(key_of(&written), 43).is_ok());
    assert_eq!(tree.get_u64(key_of(&written)), Some(&43));
    assert_eq!(tree.get_u64(key_of(&[6, 0, 3, 3, 2])), Some(&11));
}

#[test]
fn keys_are_read_by_their_digits_alone() {
    let mut tree = H3Tree::empty(0, 2, Index::unsafe_index(0), 0u32);
    let key = key_of(&[2, 5]);
    assert!(tree.set_u64(key | 0xffff_e000_0000_0000, 8).is_ok());
    assert_eq!(tree.get_u64(key), Some(&8));
    assert_eq!(tree.get_u64(Index::from_index_data(2, 33, key).index), Some(&8));
}

#[test]
fn tree_of_depth_zero_holds_one_value() {
    let mut tree = H3Tree::empty(3, 3, Index::unsafe_index(0), 1u32);
    assert_eq!(tree.get_u64(0), Some(&1));
    assert!(tree.set_u64(0, 2).is_ok());
    assert_eq!(tree.get_u64(0), Some(&2));
    assert_eq!(tree.get_u64(key_of(&[1])), None);
    assert!(tree.set_u64(key_of(&[1]), 3).is_err());
    assert_eq!(tree.get_u64(0), Some(&2));
}

#[test]
fn key_with_a_digit_past_the_depth_is_refused() {
    let mut tree = H3Tree::empty(0, 5, Index::unsafe_index(0), 11u32);
    for level in 5..15 {
        let mut digits: [u8; 15] = [0; 15];
        digits[level] = 1;
        let key = Index::from_u8_indices(&digits);
        assert!(tree.get_u64(key).is_none());
        assert_eq!(tree.set_u64(key, 1).unwrap_err().kind, H3TreeErrorKind::OutOfRange);
    }
    for path in all_paths(5) {
        assert_eq!(tree.get_u64(key_of(&path)), Some(&11));
    }
}

#[test]
fn key_with_a_digit_of_seven_is_refused() {
    let mut tree = H3Tree::empty(0, 5, Index::unsafe_index(0), 11u32);
    for level in 0..5 {
        let mut digits: [u8; 15] = [0; 15];
        digits[level] = 7;
        let key = Index::from_u8_indices(&digits);
        assert!(tree.get_u64(key).is_none());
        assert_eq!(tree.set_u64(key, 1).unwrap_err().kind, H3TreeErrorKind::OutOfRange);
    }
    for path in all_paths(5) {
        assert_eq!(tree.get_u64(key_of(&path)), Some(&11));
    }
}

#[test]
fn tree_contains_the_cells_below_its_root() {
    let cell = Index::unsafe_index(0x8f754e64992d6d8);
    let tree = H3Tree::empty(3, 5, cell, 0u8);
    assert!(tree.contains(cell));
    assert!(tree.contains(cell.truncate_to_resolution(3)));
    assert!(tree.contains(Index::unsafe_index(0x8f754e64992d6d8 ^ (1 << 33))));
    assert!(!tree.contains(Index::unsafe_index(0x8f754e64992d6d8 ^ (1 << 36))));
    assert!(!tree.contains(Index::unsafe_index(0x8f754e64992d6d8 ^ (1 << 45))));
    let whole = H3Tree::empty(0, 1, cell, 0u8);
    assert!(whole.contains(Index::unsafe_index(58 << 45)));
    assert!(!whole.contains(Index::unsafe_index(57 << 45)));
}

#[test]
fn tree_shallower_than_its_depth_has_no_leaves_to_find() {
    let mut tree = H3Tree {
        address: Index::unsafe_index(0),
        root: TreeNode::Leaf(1u32),
        root_resolution: 0,
        leaf_resolution: 2,
    };
    for path in all_paths(2) {
        assert_eq!(tree.get_u64(key_of(&path)), None);
        assert_eq!(
            tree.set_u64(key_of(&path), 9).unwrap_err().kind,
            H3TreeErrorKind::StructuralMismatch
        );
    }
    // the leaf is met before the seven is
    assert_eq!(
        tree.set_u64(key_of(&[7, 0]), 9).unwrap_err().kind,
        H3TreeErrorKind::StructuralMismatch
    );
    // a digit past the depth is looked at first
    assert_eq!(
        tree.set_u64(key_of(&[0, 0, 1]), 9).unwrap_err().kind,
        H3TreeErrorKind::OutOfRange
    );
    assert!(matches!(tree.root, TreeNode::Leaf(1)));
}

#[test]
fn tree_deeper_than_its_depth_has_no_leaves_to_find() {
    let mut tree = H3Tree {
        address: Index::unsafe_index(0),
        root: TreeNode::empty(3, 1u32),
        root_resolution: 0,
        leaf_resolution: 2,
    };
    for path in all_paths(2) {
        assert_eq!(tree.get_u64(key_of(&path)), None);
        assert_eq!(
            tree.set_u64(key_of(&path), 9).unwrap_err().kind,
            H3TreeErrorKind::StructuralMismatch
        );
    }
    // the seven is met before the inner node at the end is
    assert_eq!(
        tree.set_u64(key_of(&[3, 7]), 9).unwrap_err().kind,
        H3TreeErrorKind::OutOfRange
    );
    for path in all_paths(3) {
        assert!(matches!(node_at(&tree.root, &path), TreeNode::Leaf(1)));
    }
}
