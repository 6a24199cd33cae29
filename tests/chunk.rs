use merk::chunk::{verify_leaf, verify_trunk};
use merk::hash::{kv_hash, node_hash, null_hash};
use merk::leaf::{get_next_chunk, NodeCursor, StoredNode};
use merk::link::Link;
use merk::tree::Tree;
use merk::vm::{execute, Error, Node, Op, ProofTree};

#[derive(Default, Debug, PartialEq)]
struct NodeCounts {
    hash: usize,
    kvhash: usize,
    kv: usize,
}

fn count_into(tree: &ProofTree, counts: &mut NodeCounts) {
    match &tree.node {
        Node::Hash(_) => counts.hash += 1,
        Node::KVHash(_) => counts.kvhash += 1,
        Node::KV(_, _) => counts.kv += 1,
    }
    if let Some(l) = &tree.left {
        count_into(l, counts);
    }
    if let Some(r) = &tree.right {
        count_into(r, counts);
    }
}

fn count_node_types(tree: &ProofTree) -> NodeCounts {
    let mut counts = NodeCounts::default();
    count_into(tree, &mut counts);
    counts
}

fn seq_key(n: u64) -> Vec<u8> {
    n.to_be_bytes().to_vec()
}

fn stored(tree: Tree) -> Link {
    Link::Stored { hash: tree.hash(), height: tree.height(), tree }
}

// A balanced tree over the keys lo..hi, every link stored.
fn build(lo: u64, hi: u64) -> Option<Tree> {
    if lo >= hi {
        return None;
    }
    let mid = lo + (hi - lo) / 2;
    let left = build(lo, mid).map(stored);
    let right = build(mid + 1, hi).map(stored);
    Some(Tree::with_links(seq_key(mid), vec![123; 60], left, right))
}

fn make_tree_seq(n: u64) -> Tree {
    build(0, n).unwrap()
}

// The nodes of a tree in key order, as storage holds them.
fn persist(tree: &Tree, out: &mut Vec<StoredNode>) {
    let child = |left: bool| tree.link(left).map(|l| l.tree().unwrap());
    if let Some(l) = child(true) {
        persist(l, out);
    }
    out.push(StoredNode {
        key: tree.key().to_vec(),
        value: tree.value().to_vec(),
        left_key: child(true).map(|t| t.key().to_vec()),
        right_key: child(false).map(|t| t.key().to_vec()),
    });
    if let Some(r) = child(false) {
        persist(r, out);
    }
}

fn cursor_over(tree: &Tree) -> NodeCursor {
    let mut nodes = Vec::new();
    persist(tree, &mut nodes);
    NodeCursor::new(nodes)
}

#[test]
fn trunk_roundtrip() {
    let tree = make_tree_seq(31);
    let proof = tree.create_trunk_proof().unwrap();
    let trunk = verify_trunk(proof).unwrap();

    let counts = count_node_types(&trunk);
    assert_eq!(counts.hash, 9);
    assert_eq!(counts.kv, 7);
    assert_eq!(counts.kvhash, 3);
}

#[test]
fn leaf_chunk_roundtrip_whole_tree() {
    let tree = make_tree_seq(31);
    let mut iter = cursor_over(&tree);
    iter.seek_to_first();
    let chunk = get_next_chunk(&mut iter, None);
    let chunk = verify_leaf(chunk, tree.hash()).unwrap();
    assert_eq!(count_node_types(&chunk), NodeCounts { kv: 31, hash: 0, kvhash: 0 });
    assert!(!iter.valid());
}

#[test]
fn leaf_chunks_split_at_root() {
    let tree = make_tree_seq(31);
    let root_key = tree.key().to_vec();
    let left_hash = *tree.link(true).unwrap().hash();
    let right_hash = *tree.link(false).unwrap().hash();

    let mut iter = cursor_over(&tree);
    iter.seek_to_first();

    let chunk = get_next_chunk(&mut iter, Some(root_key.as_slice()));
    let chunk = verify_leaf(chunk, left_hash).unwrap();
    assert_eq!(count_node_types(&chunk), NodeCounts { kv: 15, hash: 0, kvhash: 0 });
    assert_eq!(iter.key(), Some(root_key.as_slice()));

    // skip root node because that was our end key
    iter.next();

    let chunk = get_next_chunk(&mut iter, None);
    let chunk = verify_leaf(chunk, right_hash).unwrap();
    assert_eq!(count_node_types(&chunk), NodeCounts { kv: 15, hash: 0, kvhash: 0 });
}

#[test]
fn leaf_chunk_roundtrip() {
    let tree = make_tree_seq(31);
    let root_key = tree.key().to_vec();

    let mut iter = cursor_over(&tree);
    iter.seek_to_first();
    let chunk = get_next_chunk(&mut iter, None);
    let chunk = verify_leaf(chunk, tree.hash()).unwrap();
    let counts = count_node_types(&chunk);
    assert_eq!(counts.kv, 31);
    assert_eq!(counts.hash, 0);
    assert_eq!(counts.kvhash, 0);

    let mut iter = cursor_over(&tree);
    iter.seek_to_first();

    // left leaf
    let chunk = get_next_chunk(&mut iter, Some(root_key.as_slice()));
    let chunk = verify_leaf(
        chunk,
        [
            10, 147, 175, 167, 145, 38, 181, 73, 116, 253, 95, 138, 110, 222, 254, 197, 189, 68,
            11, 151,
        ],
    )
    .unwrap();
    let counts = count_node_types(&chunk);
    assert_eq!(counts.kv, 15);
    assert_eq!(counts.hash, 0);
    assert_eq!(counts.kvhash, 0);

    // skip root node because that was our end key
    iter.next();

    // right leaf
    let chunk = get_next_chunk(&mut iter, None);
    let chunk = verify_leaf(
        chunk,
        [
            128, 166, 214, 176, 167, 251, 11, 84, 228, 2, 97, 239, 253, 75, 184, 16, 137, 134, 72,
            154,
        ],
    )
    .unwrap();
    let counts = count_node_types(&chunk);
    assert_eq!(counts.kv, 15);
    assert_eq!(counts.hash, 0);
    assert_eq!(counts.kvhash, 0);
}

#[test]
fn trunk_with_last_op_replaced_is_malformed() {
    let tree = make_tree_seq(31);
    let mut proof = tree.create_trunk_proof().unwrap();
    let last = proof.len() - 1;
    proof[last] = Op::Parent;
    assert_eq!(verify_trunk(proof).err(), Some(Error::MalformedProof));
}

#[test]
fn trunk_proof_is_deterministic() {
    let a = make_tree_seq(31).create_trunk_proof().unwrap();
    let b = make_tree_seq(31).create_trunk_proof().unwrap();
    assert_eq!(a, b);
}

#[test]
fn trunk_shape_of_verified_proof() {
    let tree = make_tree_seq(31);
    let trunk = verify_trunk(tree.create_trunk_proof().unwrap()).unwrap();
    // left spine: every node below the root is KV or KVHash
    let mut node = &trunk;
    let mut height = 1;
    while let Some(l) = &node.left {
        assert!(!matches!(l.node, Node::Hash(_)));
        node = l;
        height += 1;
    }
    assert!(matches!(node.node, Node::KVHash(_)));
    assert_eq!(height, 6);
}

#[test]
fn tampered_leaf_chunk_is_rejected() {
    let tree = make_tree_seq(31);
    let mut iter = cursor_over(&tree);
    let mut chunk = get_next_chunk(&mut iter, None);
    if let Op::Push(Node::KV(_, value)) = &mut chunk[3] {
        value[0] ^= 1;
    } else {
        panic!("expected a key/value push");
    }
    assert_eq!(verify_leaf(chunk, tree.hash()).err(), Some(Error::HashMismatch));
}

#[test]
fn leaf_chunk_with_hash_node_is_malformed_leaf() {
    let ops = vec![Op::Push(Node::Hash(null_hash()))];
    assert_eq!(verify_leaf(ops, null_hash()).err(), Some(Error::MalformedLeaf));
}

#[test]
fn empty_chunk_at_end_key() {
    let tree = make_tree_seq(3);
    let mut iter = cursor_over(&tree);
    let first = iter.key().unwrap().to_vec();
    let chunk = get_next_chunk(&mut iter, Some(first.as_slice()));
    assert!(chunk.is_empty());
    assert_eq!(verify_leaf(chunk, null_hash()).err(), Some(Error::MalformedProof));
}

#[test]
fn single_kv_is_not_a_trunk() {
    let ops = vec![Op::Push(Node::KV(vec![1], vec![2]))];
    assert_eq!(verify_trunk(ops).err(), Some(Error::MalformedTrunk));
}

#[test]
fn vm_underflow_and_double_child() {
    assert_eq!(execute(vec![Op::Parent], false).err(), Some(Error::MalformedProof));
    let ops = vec![
        Op::Push(Node::KV(vec![1], vec![1])),
        Op::Push(Node::KV(vec![2], vec![2])),
        Op::Child,
        Op::Push(Node::KV(vec![3], vec![3])),
        Op::Child,
    ];
    assert_eq!(execute(ops, false).err(), Some(Error::MalformedProof));
    let two = vec![Op::Push(Node::KV(vec![1], vec![1])), Op::Push(Node::KV(vec![2], vec![2]))];
    assert_eq!(execute(two, false).err(), Some(Error::MalformedProof));
}

#[test]
fn vm_attaches_left_and_right() {
    let ops = vec![
        Op::Push(Node::KV(vec![1], vec![1])),
        Op::Push(Node::KV(vec![2], vec![2])),
        Op::Parent,
        Op::Push(Node::KV(vec![3], vec![3])),
        Op::Child,
    ];
    let t = execute(ops, true).unwrap();
    assert!(matches!(&t.node, Node::KV(k, _) if k == &vec![2]));
    assert!(matches!(&t.left.as_ref().unwrap().node, Node::KV(k, _) if k == &vec![1]));
    assert!(matches!(&t.right.as_ref().unwrap().node, Node::KV(k, _) if k == &vec![3]));
    let kv1 = kv_hash(&[1], &[1]);
    let kv3 = kv_hash(&[3], &[3]);
    let l = node_hash(&kv1, &null_hash(), &null_hash());
    let r = node_hash(&kv3, &null_hash(), &null_hash());
    assert_eq!(t.hash(), node_hash(&kv_hash(&[2], &[2]), &l, &r));
}

#[test]
fn proof_tree_hash_matches_tree_hash() {
    let tree = make_tree_seq(7);
    let mut iter = cursor_over(&tree);
    let t = execute(get_next_chunk(&mut iter, None), true).unwrap();
    assert_eq!(t.hash(), tree.hash());
}

#[test]
fn digests_depend_on_content() {
    let a = kv_hash(&[1], &[2]);
    let b = kv_hash(&[1], &[3]);
    assert_ne!(a, b);
    assert_ne!(a, null_hash());
    let n = node_hash(&a, &null_hash(), &null_hash());
    assert_ne!(n, a);
    assert_ne!(n, node_hash(&b, &null_hash(), &null_hash()));
    assert_eq!(n, node_hash(&a, &null_hash(), &null_hash()));
}

#[test]
fn trunk_errors() {
    // a modified link under a trunk leaf has no digest yet
    let leaf = |k: u8| Tree::new(vec![k], vec![k]);
    let two = Tree::with_links(vec![2], vec![2], Some(stored(leaf(1))), Some(stored(leaf(3))));
    let five = Link::from_modified_tree(leaf(5));
    let six = Tree::with_links(vec![6], vec![6], Some(five), Some(stored(leaf(7))));
    let t = Tree::with_links(vec![4], vec![4], Some(stored(two)), Some(Link::Stored {
        hash: null_hash(),
        height: 2,
        tree: six,
    }));
    assert_eq!(t.create_trunk_proof().err(), Some(Error::InvalidLinkOperation));

    // the left spine must be loaded
    let pruned = Link::Pruned { hash: null_hash(), height: 1, key: vec![1] };
    let t = Tree::with_links(vec![2], vec![2], Some(pruned), None);
    assert_eq!(t.create_trunk_proof().err(), Some(Error::UnloadedLink));

    // spine of three with no right child at the top
    let c = stored(Tree::new(vec![1], vec![1]));
    let b = stored(Tree::with_links(vec![2], vec![2], Some(c), None));
    let t = Tree::with_links(vec![3], vec![3], Some(b), None);
    assert_eq!(t.create_trunk_proof().err(), Some(Error::IncompleteTree));
}

#[test]
fn trunk_roundtrip_three_levels() {
    let tree = make_tree_seq(7);
    let trunk = verify_trunk(tree.create_trunk_proof().unwrap()).unwrap();
    let counts = count_node_types(&trunk);
    assert_eq!(counts, NodeCounts { hash: 4, kv: 3, kvhash: 2 });
}

fn keys_in_order(tree: &ProofTree, out: &mut Vec<Vec<u8>>) {
    if let Some(l) = &tree.left {
        keys_in_order(l, out);
    }
    if let Node::KV(k, _) = &tree.node {
        out.push(k.clone());
    }
    if let Some(r) = &tree.right {
        keys_in_order(r, out);
    }
}

#[test]
fn leaf_chunk_spans_keys_in_order() {
    let tree = make_tree_seq(31);
    let root_key = tree.key().to_vec();
    let left_hash = *tree.link(true).unwrap().hash();
    let mut iter = cursor_over(&tree);
    let chunk = verify_leaf(get_next_chunk(&mut iter, Some(root_key.as_slice())), left_hash).unwrap();
    let mut keys = Vec::new();
    keys_in_order(&chunk, &mut keys);
    let expected: Vec<Vec<u8>> = (0..15).map(seq_key).collect();
    assert_eq!(keys, expected);
}
