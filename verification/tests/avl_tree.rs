use rand::seq::{IteratorRandom, SliceRandom};
use rand::Rng;
use rust_orderbook::avl_tree::{AVLTree, Branch, LinkLocation};
use rust_orderbook::order::{Order, Side};

fn show(tree: &AVLTree) {
    for line in tree.display() {
        println!("{}", line);
    }
}

fn keys_of(tree: &AVLTree) -> Vec<u32> {
    let mut keys = Vec::new();
    let mut walk = tree.iter();
    while let Some(node) = walk.next() {
        keys.push(node.key);
    }
    keys
}

fn keys_backwards(tree: &AVLTree) -> Vec<u32> {
    let mut keys = Vec::new();
    let mut walk = tree.iter();
    while let Some(node) = walk.next_back() {
        keys.push(node.key);
    }
    keys
}

fn get_disjoint_elements<R: Rng + ?Sized>(rng: &mut R, vector: &Vec<u32>, amount: usize) -> Vec<u32> {
    let max = vector.iter().fold(&vector[0], |a, b| a.max(b)).clone();
    let min = vector.iter().fold(&vector[0], |a, b| a.min(b)).clone();
    let elements: Vec<u32> = (0..amount)
        .map(|_| rng.gen_range(min..max))
        .filter(|x| !vector.contains(x))
        .collect();
    elements
}

/// Every link of the tree checked by hand: heights, balance, parents, order.
fn audit(tree: &AVLTree) {
    let keys = keys_of(tree);
    assert_eq!(keys.len(), tree.len());
    for pair in keys.windows(2) {
        assert!(pair[0] < pair[1]);
    }
    let mut reversed = keys_backwards(tree);
    reversed.reverse();
    assert_eq!(reversed, keys);
    let mut walk = tree.iter();
    let mut roots = 0;
    while let Some(node) = walk.next() {
        let slot = tree.find_link(&node.key).unwrap();
        let left = match node.left {
            Some(child) => tree.height(Some(child)),
            None => 0,
        };
        let right = match node.right {
            Some(child) => tree.height(Some(child)),
            None => 0,
        };
        assert!(left <= right + 1 && right <= left + 1);
        assert_eq!(tree.height(Some(slot)), 1 + left.max(right));
        match tree.get_parentage(slot) {
            Branch::Root => {
                assert!(node.parent.is_none());
                roots += 1;
            }
            Branch::Left | Branch::Right => assert!(node.parent.is_some()),
        }
        assert!(tree.is_balanced());
    }
    assert_eq!(roots, if tree.len() == 0 { 0 } else { 1 });
    assert!(tree.check_pointer_validity(Vec::new()).is_empty());
    let given = vec!["kept".to_string(), "as given".to_string()];
    assert_eq!(tree.check_pointer_validity(given.clone()), given);
}

#[test]
fn test_balancing() {
    println!("\n-----------TESTING TREE BALANCING-----------\n");
    let mut avl_tree = AVLTree::new();
    let mut rng = rand::thread_rng();
    let mut keys: Vec<u32> = (0..20).map(|_| rng.gen_range(0..100)).collect();
    println!("Filling tree with {:?}", keys);
    for key in &keys {
        avl_tree.insert(key.clone(), None);
    }
    show(&avl_tree);
    keys.sort();
    keys.dedup();
    let mut expected_tree_length = keys.len();
    assert_eq!(avl_tree.len(), expected_tree_length);

    let sample: Vec<u32> = keys.iter().map(|&k| k).choose_multiple(&mut rng, 5);
    let mut unsampled = vec![];
    for key in &keys {
        if !sample.contains(key) {
            unsampled.push(*key);
        }
    }

    println!("\nRemoving keys {:?}\n", &sample);
    println!(
        "After removal, tree should contain {} keys {:?}\n",
        expected_tree_length - sample.len(),
        &unsampled
    );
    println!("Starting tree size = {}", avl_tree.len());
    for key in &sample {
        println!("Removing {}", &key);
        let _removed = avl_tree.remove(&key);
        expected_tree_length -= 1;
        show(&avl_tree);
        assert!(avl_tree.is_balanced());
        assert_eq!(avl_tree.len(), expected_tree_length);
    }
    show(&avl_tree);
    println!("Tree size = {}, expected = {}", avl_tree.len(), expected_tree_length);
    println!("Remaining keys = {:?}", keys_of(&avl_tree));
    assert_eq!(keys_of(&avl_tree), unsampled);
    audit(&avl_tree);
}

#[test]
fn test_insertion_and_link_finding() {
    println!("\n-----TESTING INSERTION AND LINK FINDING-----\n");
    let mut avl_tree = AVLTree::new();
    let mut rng = rand::thread_rng();
    let mut keys: Vec<u32> = (0..10).map(|_| rng.gen_range(0..100)).collect();
    println!("Filling tree with {:?}", keys);
    for key in &keys {
        avl_tree.insert(key.clone(), None);
    }
    show(&avl_tree);
    for key in &keys {
        let link = avl_tree.find_link(&key);
        assert!(link.is_some());
    }

    let disjoint: Vec<u32> = get_disjoint_elements(&mut rng, &keys, 5);
    println!("Testing disjoint elements: {:?}", disjoint);
    for key in disjoint {
        let link = avl_tree.find_link(&key);
        assert!(link.is_none());
    }
    println!();

    keys.sort();
    keys.dedup();
    assert_eq!(avl_tree.len(), keys.len());
}

#[test]
fn test_traversal() {
    println!("\n---------TESTING TREE TRAVERSAL---------\n");
    let mut avl_tree = AVLTree::new();
    let mut rng = rand::thread_rng();
    let mut keys: Vec<u32> = (0..20).map(|_| rng.gen_range(0..10000)).collect();
    println!("Filling tree with {:?}", keys);
    for key in &keys {
        avl_tree.insert(key.clone(), None);
    }
    show(&avl_tree);
    keys.sort();
    keys.dedup();

    let inorder: Vec<u32> = keys_of(&avl_tree);
    let reverse: Vec<u32> = keys_backwards(&avl_tree);
    let mut reverse_keys: Vec<u32> = keys.clone();
    reverse_keys.reverse();
    println!("In-order traversal (len {}): {:?}", inorder.len(), inorder);
    for i in 0..keys.len() {
        assert_eq!(keys[i], inorder[i]);
        assert_eq!(reverse_keys[i], reverse[i]);
    }
}

#[test]
fn test_removals() {
    println!("\n---------TESTING NODE REMOVALS---------\n");
    let mut avl_tree = AVLTree::new();
    let mut rng = rand::thread_rng();
    let mut keys: Vec<u32> = (0..10).map(|_| rng.gen_range(0..10000)).collect();
    println!("Filling tree with {:?}", keys);
    for key in &keys {
        avl_tree.insert(key.clone(), None);
    }
    show(&avl_tree);
    keys.sort();
    keys.dedup();

    let remove_keys = keys.iter().map(|&k| k).choose_multiple(&mut rng, 15);
    let remove_keys_str: Vec<String> = remove_keys.iter().map(|x| format!("{}", x)).collect();
    println!("\nRemoving {}\n", remove_keys_str.join(", "));
    for key in &remove_keys {
        let node_option = avl_tree.remove(&key);
        match node_option {
            None => println!("No node to remove."),
            Some(node) => println!("Removed {:?}", node.key),
        };
        show(&avl_tree);
    }
    let expected_node_count = keys.len() - remove_keys.len();
    assert_eq!(avl_tree.len(), expected_node_count);

    println!("Calling 2 removals on empty tree...");
    for key in &remove_keys[..2] {
        let node_option = avl_tree.remove(&key);
        match node_option {
            None => println!("No node to remove."),
            Some(node) => println!("Removed {:?}", node.key),
        };
    }

    keys.shuffle(&mut rng);
    println!("keys shuffled, inserting again and then removing: {:?}", keys);
    for key in &keys {
        avl_tree.insert(key.clone(), None);
    }
    assert_eq!(avl_tree.len(), keys.len());
    for key in &keys {
        avl_tree.remove(&key);
    }
    assert_eq!(avl_tree.len(), 0);
}

#[test]
fn every_step_keeps_the_tree_sound() {
    let mut tree = AVLTree::new();
    let mut rng = rand::thread_rng();
    let mut present: Vec<u32> = Vec::new();
    for _ in 0..400 {
        let key: u32 = rng.gen_range(0..60);
        if rng.gen_bool(0.6) {
            tree.insert(key, None);
            if !present.contains(&key) {
                present.push(key);
            }
        } else {
            let removed = tree.remove(&key);
            assert_eq!(removed.is_some(), present.contains(&key));
            present.retain(|k| *k != key);
        }
        audit(&tree);
        present.sort();
        assert_eq!(keys_of(&tree), present);
    }
}

#[test]
fn rising_keys_force_left_rotations() {
    let mut tree = AVLTree::new();
    for key in 1..=7u32 {
        tree.insert(key, None);
    }
    let root = tree.find_link(&4).unwrap();
    assert_eq!(tree.get_parentage(root), Branch::Root);
    assert_eq!(tree.height(Some(root)), 3);
    assert_eq!(tree.distance(Some(tree.find_link(&1).unwrap())), 3);
    assert_eq!(tree.distance(Some(root)), 1);
    assert_eq!(tree.distance(None), 0);
    audit(&tree);
}

#[test]
fn falling_keys_force_right_rotations() {
    let mut tree = AVLTree::new();
    for key in (1..=7u32).rev() {
        tree.insert(key, None);
    }
    let root = tree.find_link(&4).unwrap();
    assert_eq!(tree.get_parentage(root), Branch::Root);
    assert_eq!(keys_of(&tree), vec![1, 2, 3, 4, 5, 6, 7]);
    audit(&tree);
}

#[test]
fn zigzag_keys_force_double_rotations() {
    let mut tree = AVLTree::new();
    for key in [30u32, 10, 20] {
        tree.insert(key, None);
    }
    let root = tree.find_link(&20).unwrap();
    assert_eq!(tree.get_parentage(root), Branch::Root);
    assert_eq!(tree.get_parentage(tree.find_link(&10).unwrap()), Branch::Left);
    assert_eq!(tree.get_parentage(tree.find_link(&30).unwrap()), Branch::Right);
    let mut tree = AVLTree::new();
    for key in [10u32, 30, 20] {
        tree.insert(key, None);
    }
    let root = tree.find_link(&20).unwrap();
    assert_eq!(tree.get_parentage(root), Branch::Root);
    audit(&tree);
}

#[test]
fn removing_a_root_with_two_children_promotes_its_successor() {
    let mut tree = AVLTree::new();
    for key in [50u32, 30, 70, 60, 80, 65] {
        tree.insert(key, None);
    }
    audit(&tree);
    let removed = tree.remove(&50).unwrap();
    assert_eq!(removed.key, 50);
    assert!(removed.parent.is_none() && removed.left.is_none() && removed.right.is_none());
    assert_eq!(tree.len(), 5);
    assert_eq!(keys_of(&tree), vec![30, 60, 65, 70, 80]);
    audit(&tree);
}

#[test]
fn insert_appends_to_the_queue_of_a_present_key() {
    let mut tree = AVLTree::new();
    let first = Order::new("a".to_string(), Some(Side::Asks), Some(5), Some(1), "t".to_string());
    let second = Order::new("b".to_string(), Some(Side::Asks), Some(5), Some(2), "t".to_string());
    tree.insert(5, Some(first.clone()));
    tree.insert(5, Some(second.clone()));
    tree.insert(6, None);
    assert_eq!(tree.len(), 2);
    let stack = tree.get(&5).unwrap();
    assert_eq!(stack.len(), 2);
    assert_eq!(stack.get(0), Some(&first));
    assert_eq!(stack.get(1), Some(&second));
    assert_eq!(tree.get(&6).unwrap().get(0), Some(&Order::default()));
    assert!(tree.has(&5) && tree.has(&6) && !tree.has(&7));
    assert!(tree.get(&7).is_none());
    assert!(tree.get_mut(&7).is_none());
    tree.get_mut(&5).unwrap().pop_front();
    assert_eq!(tree.get(&5).unwrap().get(0), Some(&second));
}

#[test]
fn locating_a_key_names_its_parent_and_branch() {
    let mut tree = AVLTree::new();
    assert_eq!(
        tree.find_link_location(&1),
        LinkLocation::Vacant { parent: None, branch: Branch::Root }
    );
    for key in [20u32, 10, 30] {
        tree.insert(key, None);
    }
    let root = tree.find_link(&20).unwrap();
    let left = tree.find_link(&10).unwrap();
    let right = tree.find_link(&30).unwrap();
    assert_eq!(
        tree.find_link_location(&20),
        LinkLocation::Occupied { parent: None, link: root }
    );
    assert_eq!(
        tree.find_link_location(&10),
        LinkLocation::Occupied { parent: Some(root), link: left }
    );
    assert_eq!(
        tree.find_link_location(&5),
        LinkLocation::Vacant { parent: Some(left), branch: Branch::Left }
    );
    assert_eq!(
        tree.find_link_location(&15),
        LinkLocation::Vacant { parent: Some(left), branch: Branch::Right }
    );
    assert_eq!(
        tree.find_link_location(&35),
        LinkLocation::Vacant { parent: Some(right), branch: Branch::Right }
    );
    assert_eq!(tree.trace_parentage(Some(left)), vec![left, root]);
}

#[test]
fn removed_slots_are_used_again() {
    let mut tree = AVLTree::new();
    for key in 0..8u32 {
        tree.insert(key, None);
    }
    let slot = tree.find_link(&3).unwrap();
    tree.remove(&3);
    tree.insert(100, None);
    assert_eq!(tree.find_link(&100), Some(slot));
    audit(&tree);
}

#[test]
fn a_walk_that_has_run_off_an_end_stays_there() {
    let mut tree = AVLTree::new();
    for key in [2u32, 1, 3] {
        tree.insert(key, None);
    }
    let mut walk = tree.iter();
    assert_eq!(walk.next().map(|n| n.key), Some(1));
    assert_eq!(walk.next().map(|n| n.key), Some(2));
    assert_eq!(walk.next_back().map(|n| n.key), Some(1));
    assert_eq!(walk.next_back().map(|n| n.key), None);
    assert_eq!(walk.next().map(|n| n.key), None);
    assert_eq!(walk.next_back().map(|n| n.key), None);
    let empty = AVLTree::new();
    let mut walk = empty.iter();
    assert!(walk.next().is_none());
    assert!(walk.next_back().is_none());
}

#[test]
fn the_picture_of_a_small_tree() {
    let mut tree = AVLTree::new();
    assert!(tree.display().is_empty());
    tree.insert(20, Some(Order::new("a".into(), None, Some(20), Some(7), "t".into())));
    assert_eq!(tree.display(), vec!["20x7/1".to_string()]);
    tree.insert(10, Some(Order::new("b".into(), None, Some(10), Some(1), "t".into())));
    assert_eq!(
        tree.display(),
        vec![
            "    __20x7/1".to_string(),
            "   /        ".to_string(),
            "10x1/1      ".to_string(),
        ]
    );
    tree.insert(30, Some(Order::new("c".into(), None, Some(30), Some(2), "t".into())));
    tree.insert(30, Some(Order::new("d".into(), None, Some(30), Some(40), "t".into())));
    assert_eq!(
        tree.display(),
        vec![
            "    __20x7/1___    ".to_string(),
            "   /           \\   ".to_string(),
            "10x1/1      30x42/2".to_string(),
        ]
    );
}

#[test]
fn a_successor_from_deep_down_or_from_next_door_takes_the_place() {
    let mut tree = AVLTree::new();
    for key in [4u32, 2, 6, 1, 3, 5, 7] {
        tree.insert(key, None);
    }
    let old_root = tree.find_link(&4).unwrap();
    assert_eq!(tree.get_parentage(old_root), Branch::Root);
    let removed = tree.remove(&4).unwrap();
    assert_eq!(removed.key, 4);
    let root = tree.find_link(&5).unwrap();
    assert_eq!(tree.get_parentage(root), Branch::Root);
    assert_eq!(
        tree.find_link_location(&6),
        LinkLocation::Occupied { parent: Some(root), link: tree.find_link(&6).unwrap() }
    );
    assert_eq!(
        tree.find_link_location(&2),
        LinkLocation::Occupied { parent: Some(root), link: tree.find_link(&2).unwrap() }
    );
    assert_eq!(tree.get_parentage(tree.find_link(&7).unwrap()), Branch::Right);
    assert_eq!(keys_of(&tree), vec![1, 2, 3, 5, 6, 7]);
    audit(&tree);
    tree.remove(&5);
    let root = tree.find_link(&6).unwrap();
    assert_eq!(tree.get_parentage(root), Branch::Root);
    assert_eq!(tree.height(Some(root)), 3);
    assert_eq!(keys_of(&tree), vec![1, 2, 3, 6, 7]);
    audit(&tree);
    tree.remove(&7);
    let root = tree.find_link(&2).unwrap();
    assert_eq!(tree.get_parentage(root), Branch::Root);
    assert_eq!(keys_of(&tree), vec![1, 2, 3, 6]);
    audit(&tree);
}

#[test]
fn removals_rebalance_all_the_way_up() {
    let mut tree = AVLTree::new();
    for key in [8u32, 5, 11, 3, 7, 10, 12, 2, 4, 6, 9, 1] {
        tree.insert(key, None);
    }
    audit(&tree);
    tree.remove(&12);
    audit(&tree);
    assert_eq!(keys_of(&tree), vec![1, 2, 3, 4, 5, 6, 7, 8, 9, 10, 11]);
    let root = tree.find_link(&5).unwrap();
    assert_eq!(tree.get_parentage(root), Branch::Root);
    assert_eq!(tree.height(Some(root)), 4);
}

#[test]
fn an_audit_of_a_sound_tree_finds_nothing() {
    let mut tree = AVLTree::new();
    assert!(tree.is_balanced());
    assert!(tree.check_pointer_validity(Vec::new()).is_empty());
    for key in [9u32, 4, 12, 2, 6, 10, 14, 1, 3, 5, 7] {
        tree.insert(key, None);
        assert!(tree.is_balanced());
        assert_eq!(tree.check_pointer_validity(vec!["before".to_string()]), vec!["before".to_string()]);
    }
    for key in [12u32, 9, 1, 7, 4] {
        tree.remove(&key);
        assert!(tree.is_balanced());
        assert!(tree.check_pointer_validity(Vec::new()).is_empty());
    }
}
