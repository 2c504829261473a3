use arena_avl::binary_search::Tree;

fn drain(tree: Tree<i32>) -> Vec<i32> {
    let mut iter = tree.into_iter();
    let mut out = Vec::new();
    while let Some(v) = iter.next() {
        out.push(v);
    }
    out
}

fn filled(values: &[i32]) -> Tree<i32> {
    let mut tree = Tree::new();
    for v in values {
        tree.insert(*v);
    }
    tree
}

#[test]
fn new_tree_is_empty() {
    let tree: Tree<i32> = Tree::new();
    assert_eq!(tree.len(), 0);
    assert!(tree.is_empty());
    assert_eq!(tree.height(), -1);
    assert_eq!(tree.get(0), None);
    assert_eq!(tree.contains(1), None);
}

#[test]
fn insert_then_find() {
    let mut tree = Tree::default();
    for n in 0..100 {
        assert_eq!(tree.insert(n), Some(n as usize));
        assert_eq!(tree.len(), n as usize + 1);
    }
    for n in 0..100 {
        let slot = tree.contains(n).unwrap();
        assert_eq!(tree.get(slot), Some(&n));
    }
    assert_eq!(tree.contains(100), None);
    assert_eq!(tree.contains(-1), None);
}

#[test]
fn three_ascending_values_rotate_left() {
    let mut tree = Tree::new();
    assert_eq!(tree.insert(10), Some(0));
    assert_eq!(tree.insert(20), Some(1));
    assert_eq!(tree.insert(30), Some(2));
    assert_eq!(tree.height(), 1);
    assert_eq!(tree.contains(20), Some(1));
    assert_eq!(tree.contains(10), Some(0));
    assert_eq!(tree.contains(30), Some(2));
    assert_eq!(drain(tree), vec![20, 10, 30]);
}

#[test]
fn three_descending_values_rotate_right() {
    let tree = filled(&[30, 20, 10]);
    assert_eq!(tree.height(), 1);
    assert_eq!(drain(tree), vec![20, 10, 30]);
}

#[test]
fn inner_grandchild_alone_rotates_twice() {
    let tree = filled(&[30, 10, 20]);
    assert_eq!(tree.height(), 1);
    assert_eq!(drain(tree), vec![20, 10, 30]);
    let tree = filled(&[10, 30, 20]);
    assert_eq!(tree.height(), 1);
    assert_eq!(drain(tree), vec![20, 10, 30]);
}

#[test]
fn right_heavy_left_child_rotates_twice() {
    // The left child has a left child of its own, but leans to the right.
    let tree = filled(&[50, 20, 60, 10, 30, 25]);
    assert_eq!(tree.len(), 6);
    assert_eq!(tree.height(), 2);
    assert_eq!(tree.contains(30), Some(4));
    assert_eq!(drain(tree), vec![30, 20, 50, 10, 25, 60]);
}

#[test]
fn insertion_below_the_inner_grandchild_keeps_the_balance() {
    let mut tree = filled(&[50, 30, 60, 20, 40]);
    assert_eq!(tree.insert(35), Some(5));
    assert_eq!(tree.len(), 6);
    assert_eq!(tree.height(), 2);
    assert_eq!(drain(tree), vec![40, 30, 50, 20, 35, 60]);
}

#[test]
fn left_heavy_right_child_rotates_twice() {
    let tree = filled(&[20, 10, 50, 40, 60, 45]);
    assert_eq!(tree.height(), 2);
    assert_eq!(drain(tree), vec![40, 20, 50, 10, 45, 60]);
}

#[test]
fn removal_from_the_shorter_side_keeps_the_balance() {
    let mut tree = filled(&[20, 10, 40, 5, 30, 50, 25]);
    assert_eq!(tree.height(), 3);
    assert_eq!(tree.remove(5), Some(5));
    assert_eq!(tree.len(), 6);
    assert_eq!(tree.height(), 2);
    assert_eq!(drain(tree), vec![30, 20, 40, 10, 25, 50]);
}

#[test]
fn height_stays_logarithmic_under_mixed_use() {
    let mut tree = Tree::new();
    for k in 0..1000 {
        tree.insert((k * 389) % 1009);
    }
    assert!(tree.height() <= 13);
    for k in 0..900 {
        assert_eq!(tree.remove((k * 389) % 1009), Some((k * 389) % 1009));
    }
    assert_eq!(tree.len(), 100);
    assert!(tree.height() <= 8);
}

#[test]
fn heights_of_ascending_runs() {
    assert_eq!(filled(&[1]).height(), 0);
    assert_eq!(filled(&[1, 2]).height(), 1);
    assert_eq!(filled(&[1, 2, 3, 4, 5, 6, 7]).height(), 2);
    let mut tree = Tree::new();
    for n in 0..1000 {
        tree.insert(n);
    }
    assert_eq!(tree.height(), 9);
}

#[test]
fn duplicate_is_not_inserted() {
    let mut tree = filled(&[5, 3, 8]);
    assert_eq!(tree.insert(3), None);
    assert_eq!(tree.insert(5), None);
    assert_eq!(tree.len(), 3);
    assert_eq!(tree.contains(3), Some(1));
    assert_eq!(drain(tree), vec![5, 3, 8]);
}

#[test]
fn get_beyond_the_arena_is_absent() {
    let tree = filled(&[1, 2, 3]);
    assert_eq!(tree.get(2), Some(&3));
    assert_eq!(tree.get(3), None);
    assert_eq!(tree.get(usize::MAX), None);
}

#[test]
fn remove_absent_value_changes_nothing() {
    let mut tree = filled(&[5, 3, 8]);
    assert_eq!(tree.remove(4), None);
    assert_eq!(tree.len(), 3);
    assert_eq!(tree.contains(5), Some(0));
    assert_eq!(drain(tree), vec![5, 3, 8]);
    let mut empty: Tree<i32> = Tree::new();
    assert_eq!(empty.remove(1), None);
    assert_eq!(empty.len(), 0);
}

#[test]
fn remove_the_only_value() {
    let mut tree = filled(&[7]);
    assert_eq!(tree.remove(7), Some(7));
    assert_eq!(tree.len(), 0);
    assert!(tree.is_empty());
    assert_eq!(tree.get(0), None);
    assert_eq!(tree.contains(7), None);
    assert_eq!(tree.insert(8), Some(0));
}

#[test]
fn remove_root_with_one_child() {
    let mut tree = filled(&[1, 2]);
    assert_eq!(tree.remove(1), Some(1));
    assert_eq!(tree.len(), 1);
    assert_eq!(tree.height(), 0);
    assert_eq!(tree.contains(2), Some(1));
    assert_eq!(tree.get(0), None);
    assert_eq!(tree.remove(2), Some(2));
    assert_eq!(tree.len(), 0);
    assert_eq!(tree.get(1), None);
    assert_eq!(tree.insert(3), Some(0));
}

#[test]
fn remove_leaf_then_reuse_and_trim() {
    let mut tree = filled(&[10, 20, 30]);
    assert_eq!(tree.remove(10), Some(10));
    assert_eq!(tree.len(), 2);
    assert_eq!(tree.get(0), None);
    assert_eq!(tree.contains(10), None);
    // The vacated slot is used again.
    assert_eq!(tree.insert(5), Some(0));
    assert_eq!(tree.get(0), Some(&5));
    // A vacated slot at the end of the arena is cut off.
    assert_eq!(tree.remove(30), Some(30));
    assert_eq!(tree.get(2), None);
    assert_eq!(tree.insert(40), Some(2));
    assert_eq!(drain(tree), vec![20, 5, 40]);
}

#[test]
fn remove_root_with_two_children_of_one_height() {
    // The successor from the right subtree takes the root's place.
    let mut tree = filled(&[20, 10, 30]);
    assert_eq!(tree.remove(20), Some(20));
    assert_eq!(tree.len(), 2);
    assert_eq!(tree.height(), 1);
    assert_eq!(tree.contains(30), Some(0));
    assert_eq!(tree.contains(10), Some(1));
    assert_eq!(tree.contains(20), None);
    assert_eq!(tree.get(2), None);
    assert_eq!(drain(tree), vec![30, 10]);
}

#[test]
fn remove_takes_the_predecessor_from_the_taller_left_subtree() {
    // 50(30(20, 40(35)), 70(_, 80)): the predecessor 40 has a left child,
    // which moves into its slot.
    let mut tree = filled(&[50, 30, 70, 20, 40, 80, 35]);
    assert_eq!(tree.height(), 3);
    assert_eq!(tree.remove(50), Some(50));
    assert_eq!(tree.len(), 6);
    assert_eq!(tree.height(), 2);
    assert_eq!(tree.contains(50), None);
    assert_eq!(tree.contains(40), Some(0));
    assert_eq!(tree.contains(35), Some(4));
    assert_eq!(tree.get(6), None);
    let mut again = tree.clone();
    assert_eq!(again.insert(90), Some(6));
    assert_eq!(drain(tree), vec![40, 30, 70, 20, 35, 80]);
}

#[test]
fn remove_node_with_one_child_splices_and_rebalances() {
    let mut tree = filled(&[50, 30, 70, 20, 40, 80, 35]);
    assert_eq!(tree.remove(70), Some(70));
    assert_eq!(tree.len(), 6);
    assert_eq!(tree.contains(70), None);
    assert_eq!(tree.get(2), None);
    assert_eq!(tree.height(), 2);
    // The vacated slot inside the arena is the next to be used.
    assert_eq!(tree.contains(30), Some(1));
    let mut again = tree.clone();
    assert_eq!(again.insert(1), Some(2));
    assert_eq!(drain(tree), vec![40, 30, 50, 20, 35, 80]);
}

#[test]
fn free_slots_are_reused_last_first() {
    let mut tree = filled(&[1, 2, 3, 4, 5]);
    assert_eq!(tree.remove(1), Some(1));
    assert_eq!(tree.remove(3), Some(3));
    assert_eq!(tree.len(), 3);
    assert_eq!(tree.insert(10), Some(2));
    assert_eq!(tree.insert(11), Some(0));
    assert_eq!(tree.insert(12), Some(5));
    assert_eq!(tree.len(), 6);
}

#[test]
fn removed_value_is_gone_and_len_drops_by_one() {
    let mut tree = Tree::new();
    for n in 0..200 {
        tree.insert(n);
    }
    for n in (0..200).step_by(3) {
        let before = tree.len();
        assert_eq!(tree.remove(n), Some(n));
        assert_eq!(tree.contains(n), None);
        assert_eq!(tree.len(), before - 1);
    }
    for n in 0..200 {
        match tree.contains(n) {
            Some(slot) => {
                assert!(n % 3 != 0);
                assert_eq!(tree.get(slot), Some(&n));
            }
            None => assert!(n % 3 == 0),
        }
    }
}

#[test]
fn round_trip_leaves_an_empty_arena() {
    let mut tree = Tree::new();
    for n in 0..101 {
        tree.insert(n);
    }
    assert_eq!(tree.len(), 101);
    for k in 0..101 {
        let n = (k * 7) % 101;
        assert_eq!(tree.remove(n), Some(n));
    }
    assert_eq!(tree.len(), 0);
    assert!(tree.is_empty());
    assert_eq!(tree.height(), -1);
    for slot in 0..101 {
        assert_eq!(tree.get(slot), None);
    }
    assert_eq!(tree.insert(5), Some(0));
}

#[test]
fn drains_breadth_first() {
    let tree = filled(&[10, 20, 30, 5, 25]);
    let mut iter = tree.into_iter();
    assert_eq!(iter.next(), Some(20));
    assert_eq!(iter.next(), Some(10));
    assert_eq!(iter.next(), Some(30));
    assert_eq!(iter.next(), Some(5));
    assert_eq!(iter.next(), Some(25));
    assert_eq!(iter.next(), None);
    assert_eq!(iter.next(), None);
}

#[test]
fn draining_an_empty_tree_gives_nothing() {
    let tree: Tree<i32> = Tree::new();
    let mut iter = tree.into_iter();
    assert_eq!(iter.next(), None);
}

#[test]
fn drain_gives_every_value_once() {
    let mut tree = Tree::new();
    for n in 0..64 {
        tree.insert((n * 37) % 64);
    }
    tree.remove(17);
    let mut out = drain(tree);
    out.sort();
    let expected: Vec<i32> = (0..64).filter(|n| *n != 17).collect();
    assert_eq!(out, expected);
}

#[test]
fn works_on_other_ordered_types() {
    let mut tree = Tree::new();
    assert_eq!(tree.insert((2u8, 'b')), Some(0));
    assert_eq!(tree.insert((1u8, 'z')), Some(1));
    assert_eq!(tree.insert((2u8, 'a')), Some(2));
    assert_eq!(tree.insert((1u8, 'z')), None);
    assert_eq!(tree.contains((2u8, 'a')), Some(2));
    assert_eq!(tree.remove((2u8, 'b')), Some((2u8, 'b')));
    assert_eq!(tree.len(), 2);
}
