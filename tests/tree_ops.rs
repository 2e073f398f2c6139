use treenode::{Tree, TreeError, TreeNodeRef};

fn names(tree: &Tree<String>, n: &TreeNodeRef) -> Vec<String> {
    n.children(tree).iter().map(|c| c.val(tree)).collect()
}

#[test]
fn family_tree_move_and_rename() {
    let mut tree: Tree<String> = Tree::new();
    let root = TreeNodeRef::new(&mut tree, "Richard Stark".to_string());
    let ned = root.push(&mut tree, "Ned Stark".to_string());
    root.push(&mut tree, "Brandon Stark".to_string());
    root.push(&mut tree, "Benjen Stark".to_string());
    root.push(&mut tree, "Lyanna Stark".to_string());
    assert_eq!(root.len(&tree), 4);
    let kids: Vec<String> = vec!["Robb Stark", "Jon Snow", "Sansa Stark", "Arya Stark", "Bran Stark", "Rickon Stark"]
        .iter()
        .map(|s| s.to_string())
        .collect();
    let last = ned.push_children(&mut tree, &kids).unwrap();
    assert_eq!(last.val(&tree), "Rickon Stark");
    assert_eq!(ned.len(&tree), 6);

    let jon = ned.find(&tree, "Jon Snow".to_string()).unwrap();
    let lyanna = root.find(&tree, "Lyanna Stark".to_string()).unwrap();
    assert_eq!(jon.move_to(&mut tree, &lyanna), Ok(()));
    jon.set_val(&mut tree, "Jon Targaryen".to_string());

    assert_eq!(ned.len(&tree), 5);
    assert!(!names(&tree, &ned).contains(&"Jon Snow".to_string()));
    assert_eq!(names(&tree, &lyanna), vec!["Jon Targaryen".to_string()]);
    assert_eq!(root.len(&tree), 4);
    assert_eq!(jon.parent(&tree).unwrap().val(&tree), "Lyanna Stark");
}

#[test]
fn push_then_find_returns_new_node() {
    let mut tree: Tree<u32> = Tree::new();
    let root = TreeNodeRef::new(&mut tree, 0);
    root.push(&mut tree, 1);
    let c = root.push(&mut tree, 7);
    assert_eq!(root.find(&tree, 7), Some(c));
    assert_eq!(root.find(&tree, 99), None);
}

#[test]
fn find_returns_first_equal_child() {
    let mut tree: Tree<u32> = Tree::new();
    let root = TreeNodeRef::new(&mut tree, 0);
    let first = root.push(&mut tree, 5);
    root.push(&mut tree, 5);
    assert_eq!(root.find(&tree, 5), Some(first));
}

#[test]
fn find_searches_only_immediate_children() {
    let mut tree: Tree<u32> = Tree::new();
    let root = TreeNodeRef::new(&mut tree, 0);
    let a = root.push(&mut tree, 1);
    a.push(&mut tree, 2);
    assert_eq!(root.find(&tree, 2), None);
}

#[test]
fn move_detaches_and_attaches_once() {
    let mut tree: Tree<&str> = Tree::new();
    let root = TreeNodeRef::new(&mut tree, "root");
    let ned = root.push(&mut tree, "ned");
    let lyanna = root.push(&mut tree, "lyanna");
    let jon = ned.push(&mut tree, "jon");
    assert_eq!(jon.move_to(&mut tree, &lyanna), Ok(()));
    assert_eq!(jon.parent(&tree).unwrap().val(&tree), lyanna.val(&tree));
    assert!(!ned.children(&tree).contains(&jon));
    assert_eq!(lyanna.children(&tree).iter().filter(|c| **c == jon).count(), 1);
    assert_eq!(jon.depth(&tree), 2);
}

#[test]
fn move_within_same_parent_goes_last() {
    let mut tree: Tree<u8> = Tree::new();
    let root = TreeNodeRef::new(&mut tree, 0);
    let a = root.push(&mut tree, 1);
    let b = root.push(&mut tree, 2);
    assert_eq!(a.move_to(&mut tree, &root), Ok(()));
    assert_eq!(root.children(&tree), vec![b, a]);
}

#[test]
fn move_of_a_root_attaches_it() {
    let mut tree: Tree<u8> = Tree::new();
    let r1 = TreeNodeRef::new(&mut tree, 1);
    let r2 = TreeNodeRef::new(&mut tree, 2);
    assert!(r2.is_root(&tree));
    assert_eq!(r2.move_to(&mut tree, &r1), Ok(()));
    assert!(!r2.is_root(&tree));
    assert_eq!(r2.parent(&tree), Some(r1));
    assert_eq!(r1.children(&tree), vec![r2]);
}

#[test]
fn move_under_own_descendant_is_refused() {
    let mut tree: Tree<u8> = Tree::new();
    let root = TreeNodeRef::new(&mut tree, 0);
    let a = root.push(&mut tree, 1);
    let b = a.push(&mut tree, 2);
    assert_eq!(a.move_to(&mut tree, &b), Err(TreeError::WouldCreateCycle));
    assert_eq!(a.move_to(&mut tree, &a), Err(TreeError::WouldCreateCycle));
    assert_eq!(a.parent(&tree), Some(root));
    assert_eq!(a.children(&tree), vec![b]);
}

#[test]
fn depth_law_holds() {
    let mut tree: Tree<u8> = Tree::new();
    let root = TreeNodeRef::new(&mut tree, 0);
    assert_eq!(root.depth(&tree), 0);
    let a = root.push(&mut tree, 1);
    let b = a.push(&mut tree, 2);
    assert_eq!(a.depth(&tree), root.depth(&tree) + 1);
    assert_eq!(b.depth(&tree), a.depth(&tree) + 1);
}

#[test]
fn vertical_vec_excludes_root_value() {
    let mut tree: Tree<u8> = Tree::new();
    let root = TreeNodeRef::new(&mut tree, 0);
    let v: Vec<u8> = vec![1, 2, 3];
    let deepest = root.push_vertical(&mut tree, &v);
    assert_eq!(deepest.val(&tree), 3);
    assert_eq!(deepest.to_vertical_vec(&tree), vec![3, 2, 1]);
    assert_eq!(deepest.to_vertical_vec(&tree).len(), deepest.depth(&tree));
    assert_eq!(root.to_vertical_vec(&tree), Vec::<u8>::new());
}

#[test]
fn push_vertical_builds_a_chain() {
    let mut tree: Tree<u8> = Tree::new();
    let root = TreeNodeRef::new(&mut tree, 0);
    let v: Vec<u8> = vec![1, 2];
    let deepest = root.push_vertical(&mut tree, &v);
    assert_eq!(root.len(&tree), 1);
    let mid = root.children(&tree)[0];
    assert_eq!(mid.val(&tree), 1);
    assert_eq!(mid.children(&tree), vec![deepest]);
    assert!(!deepest.has_children(&tree));
}

#[test]
fn push_vertical_empty_returns_self() {
    let mut tree: Tree<u8> = Tree::new();
    let root = TreeNodeRef::new(&mut tree, 0);
    assert_eq!(root.push_vertical(&mut tree, &Vec::new()), root);
    assert_eq!(tree.node_count(), 1);
}

#[test]
fn push_children_empty_is_an_error() {
    let mut tree: Tree<u8> = Tree::new();
    let root = TreeNodeRef::new(&mut tree, 0);
    assert_eq!(root.push_children(&mut tree, &Vec::new()), Err(TreeError::EmptyInput));
    assert!(!root.has_children(&tree));
}

#[test]
fn push_children_are_siblings() {
    let mut tree: Tree<u8> = Tree::new();
    let root = TreeNodeRef::new(&mut tree, 0);
    let v: Vec<u8> = vec![4, 5, 6];
    let last = root.push_children(&mut tree, &v).unwrap();
    assert_eq!(last.val(&tree), 6);
    assert_eq!(root.len(&tree), 3);
    for c in root.children(&tree) {
        assert_eq!(c.depth(&tree), 1);
        assert_eq!(c.parent(&tree), Some(root));
    }
}

#[test]
fn push_ref_reattaches_with_parent_link() {
    let mut tree: Tree<u8> = Tree::new();
    let root = TreeNodeRef::new(&mut tree, 0);
    let a = root.push(&mut tree, 1);
    let b = root.push(&mut tree, 2);
    assert_eq!(b.push_ref(&mut tree, a), Ok(a));
    assert_eq!(a.parent(&tree), Some(b));
    assert_eq!(root.children(&tree), vec![b]);
    assert_eq!(b.push_ref(&mut tree, root), Err(TreeError::WouldCreateCycle));
}

#[test]
fn every_node_has_one_listing_after_moves() {
    let mut tree: Tree<u32> = Tree::new();
    let root = TreeNodeRef::new(&mut tree, 0);
    let mut nodes = vec![root];
    for i in 1..20u32 {
        let p = nodes[(i as usize * 7) % nodes.len()];
        nodes.push(p.push(&mut tree, i));
    }
    for i in 1..20usize {
        let dest = nodes[(i * 3) % 20];
        let _ = nodes[i].move_to(&mut tree, &dest);
    }
    for n in nodes.iter().skip(1) {
        let listed: usize = nodes
            .iter()
            .map(|p| p.children(&tree).iter().filter(|c| *c == n).count())
            .sum();
        if n.is_root(&tree) {
            assert_eq!(listed, 0);
        } else {
            assert_eq!(listed, 1);
            assert!(n.parent(&tree).unwrap().children(&tree).contains(n));
        }
    }
}

#[test]
fn many_pushes_each_counted_once() {
    let mut tree: Tree<u32> = Tree::new();
    let root = TreeNodeRef::new(&mut tree, 0);
    for i in 0..50u32 {
        root.push(&mut tree, i);
    }
    assert_eq!(root.len(&tree), 50);
    let mut vals: Vec<u32> = root.children(&tree).iter().map(|c| c.val(&tree)).collect();
    vals.sort();
    assert_eq!(vals, (0..50u32).collect::<Vec<u32>>());
}

#[test]
fn root_accessors_and_handles() {
    let mut tree: Tree<u8> = Tree::new();
    let root = TreeNodeRef::new(&mut tree, 9);
    assert!(root.is_root(&tree));
    assert_eq!(root.parent(&tree), None);
    assert!(!root.has_children(&tree));
    assert_eq!(root.len(&tree), 0);
    assert_eq!(root.downgrade().upgrade(), root);
    root.set_val(&mut tree, 3);
    assert_eq!(root.val(&tree), 3);
}
