use merk::link::Link;
use merk::tree::Tree;

#[test]
fn from_modified_tree() {
    let tree = Tree::new(vec![0], vec![1]);
    let link = Link::from_modified_tree(tree);
    assert!(link.is_modified());
    assert_eq!(link.height(), 1);
    assert_eq!(link.tree().expect("expected tree").key(), &[0]);
    if let Link::Modified { pending_writes, .. } = link {
        assert_eq!(pending_writes, 1);
    } else {
        panic!("Expected Link::Modified");
    }
}

#[test]
fn maybe_from_modified_tree() {
    let link = Link::maybe_from_modified_tree(None);
    assert!(link.is_none());

    let tree = Tree::new(vec![0], vec![1]);
    let link = Link::maybe_from_modified_tree(Some(tree));
    assert!(link.expect("expected link").is_modified());
}

#[test]
fn types() {
    let hash = merk::hash::null_hash();
    let height = 1;
    let pending_writes = 1;
    let key = vec![0];
    let tree = || Tree::new(vec![0], vec![1]);

    let pruned = Link::Pruned { hash, height, key };
    let modified = Link::Modified { pending_writes, height, tree: tree() };
    let stored = Link::Stored { hash, height, tree: tree() };

    assert!(pruned.is_pruned());
    assert!(!pruned.is_modified());
    assert!(!pruned.is_stored());
    assert!(pruned.tree().is_none());
    assert_eq!(pruned.hash(), &[0; 20]);
    assert_eq!(pruned.height(), 1);
    assert!(pruned.to_pruned().is_pruned());

    assert!(!modified.is_pruned());
    assert!(modified.is_modified());
    assert!(!modified.is_stored());
    assert!(modified.tree().is_some());
    assert_eq!(modified.height(), 1);

    assert!(!stored.is_pruned());
    assert!(!stored.is_modified());
    assert!(stored.is_stored());
    assert!(stored.tree().is_some());
    assert_eq!(stored.hash(), &[0; 20]);
    assert_eq!(stored.height(), 1);
    assert!(stored.to_pruned().is_pruned());
}

#[test]
#[should_panic]
fn modified_hash() {
    Link::Modified {
        pending_writes: 1,
        height: 1,
        tree: Tree::new(vec![0], vec![1]),
    }
    .hash();
}

#[test]
#[should_panic]
fn modified_to_pruned() {
    Link::Modified {
        pending_writes: 1,
        height: 1,
        tree: Tree::new(vec![0], vec![1]),
    }
    .to_pruned();
}

#[test]
fn stored_to_pruned_keeps_hash_height_and_key() {
    let tree = Tree::new(vec![7, 8], vec![9]);
    let hash = tree.hash();
    let stored = Link::Stored { hash, height: 1, tree };
    match stored.to_pruned() {
        Link::Pruned { hash: h, height, key } => {
            assert_eq!(h, hash);
            assert_eq!(height, 1);
            assert_eq!(key, vec![7, 8]);
        }
        _ => panic!("expected a pruned link"),
    }
}

#[test]
fn pending_writes_add_up_over_children() {
    let left = Link::from_modified_tree(Tree::new(vec![1], vec![1]));
    let right = Link::from_modified_tree(Tree::new(vec![3], vec![3]));
    let tree = Tree::with_links(vec![2], vec![2], Some(left), Some(right));
    assert_eq!(tree.child_pending_writes(true), 1);
    assert_eq!(tree.child_pending_writes(false), 1);
    let link = Link::from_modified_tree(tree);
    assert_eq!(link.height(), 2);
    match link {
        Link::Modified { pending_writes, .. } => assert_eq!(pending_writes, 3),
        _ => panic!("expected a modified link"),
    }
}
