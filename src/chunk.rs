use vstd::prelude::*;

use crate::hash::hash_eq;
use crate::link::Link;
use crate::tree::Tree;
use crate::vm::{execute, execute_spec, ops_view, push_op, Error, Node, NodeV, Op, OpV, ProofTree};

verus! {

/// Digest carried by a link; a modified link has none yet.
pub open spec fn link_hash_result(l: Link) -> Result<Seq<u8>, Error> {
    match l {
        Link::Pruned { hash, .. } => Ok(hash@),
        Link::Stored { hash, .. } => Ok(hash@),
        Link::Modified { .. } => Err(Error::InvalidLinkOperation),
    }
}

/// Number of nodes on the left spine of an in-memory tree, as far as it is
/// loaded.
pub open spec fn left_spine_len(t: Tree) -> nat
    decreases t,
{
    match t.left {
        Some(b) => match *b {
            Link::Modified { tree, .. } => 1 + left_spine_len(tree),
            Link::Stored { tree, .. } => 1 + left_spine_len(tree),
            Link::Pruned { .. } => 1,
        },
        None => 1,
    }
}

/// `ops` followed by the pushes of a right sibling's digest and its
/// attachment, where there is a right link.
pub open spec fn with_right_hash(ops: Seq<OpV>, right: Option<Box<Link>>) -> Result<Seq<OpV>, Error> {
    match right {
        None => Ok(ops),
        Some(b) => match link_hash_result(*b) {
            Ok(h) => Ok(ops.push(OpV::Push(NodeV::Hash(h))).push(OpV::Child)),
            Err(e) => Err(e),
        },
    }
}

/// The height proof of the subtree `t` found at `depth` on the left spine,
/// and the trunk height: half the spine's length, rounded down. Unwinding
/// from the bottom, each node deeper than the trunk height adds its
/// key/value digest, attaches what lies below it on the left, and attaches
/// its right sibling's digest.
pub open spec fn height_proof_spec(t: Tree, depth: nat) -> Result<(Seq<OpV>, nat), Error>
    decreases t,
{
    let below = match t.left {
        None => Ok((Seq::<OpV>::empty(), depth / 2)),
        Some(b) => match *b {
            Link::Pruned { .. } => Err(Error::UnloadedLink),
            Link::Modified { tree, .. } => height_proof_spec(tree, depth + 1),
            Link::Stored { tree, .. } => height_proof_spec(tree, depth + 1),
        },
    };
    match below {
        Err(e) => Err(e),
        Ok((ops, th)) => if depth > th {
            let own = ops.push(OpV::Push(NodeV::KVHash(t.kv_hash@)));
            let own = if t.left is Some {
                own.push(OpV::Parent)
            } else {
                own
            };
            match with_right_hash(own, t.right) {
                Ok(ops) => Ok((ops, th)),
                Err(e) => Err(e),
            }
        } else {
            Ok((ops, th))
        },
    }
}

/// The bottom of the trunk at `t`: the left sibling's digest (but for the
/// leftmost node, whose left side the height proof gave), the node's key and
/// value, and its right sibling's digest.
pub open spec fn trunk_leaf_spec(t: Tree, leftmost: bool) -> Result<Seq<OpV>, Error> {
    let pre = match t.left {
        Some(b) => if leftmost {
            Ok(Seq::<OpV>::empty())
        } else {
            match link_hash_result(*b) {
                Ok(h) => Ok(seq![OpV::Push(NodeV::Hash(h))]),
                Err(e) => Err(e),
            }
        },
        None => Ok(Seq::<OpV>::empty()),
    };
    match pre {
        Err(e) => Err(e),
        Ok(ops) => {
            let ops = ops.push(OpV::Push(NodeV::KV(t.key@, t.value@)));
            let ops = if t.left is Some {
                ops.push(OpV::Parent)
            } else {
                ops
            };
            with_right_hash(ops, t.right)
        },
    }
}

/// The subtree under a link that the trunk must descend into.
pub open spec fn descend(l: Option<Box<Link>>) -> Result<Tree, Error> {
    match l {
        None => Err(Error::IncompleteTree),
        Some(b) => match *b {
            Link::Pruned { .. } => Err(Error::UnloadedLink),
            Link::Modified { tree, .. } => Ok(tree),
            Link::Stored { tree, .. } => Ok(tree),
        },
    }
}

/// The trunk body below `t`, `remaining` levels deep: the left half, the
/// node's key and value attached over it, then the right half attached on
/// the right.
pub open spec fn trunk_body_spec(t: Tree, remaining: nat, leftmost: bool) -> Result<Seq<OpV>, Error>
    decreases t,
{
    if remaining == 0 {
        trunk_leaf_spec(t, leftmost)
    } else {
        let left = match t.left {
            None => Err(Error::IncompleteTree),
            Some(b) => match *b {
                Link::Pruned { .. } => Err(Error::UnloadedLink),
                Link::Modified { tree, .. } => trunk_body_spec(tree, (remaining - 1) as nat, leftmost),
                Link::Stored { tree, .. } => trunk_body_spec(tree, (remaining - 1) as nat, leftmost),
            },
        };
        match left {
            Err(e) => Err(e),
            Ok(lops) => {
                let mid = lops.push(OpV::Push(NodeV::KV(t.key@, t.value@))).push(OpV::Parent);
                let right = match t.right {
                    None => Err(Error::IncompleteTree),
                    Some(b) => match *b {
                        Link::Pruned { .. } => Err(Error::UnloadedLink),
                        Link::Modified { tree, .. } => trunk_body_spec(tree, (remaining - 1) as nat, false),
                        Link::Stored { tree, .. } => trunk_body_spec(tree, (remaining - 1) as nat, false),
                    },
                };
                match right {
                    Err(e) => Err(e),
                    Ok(rops) => Ok((mid + rops).push(OpV::Child)),
                }
            },
        }
    }
}

/// The trunk proof of a tree: its height proof, then its trunk body.
pub open spec fn trunk_proof_spec(t: Tree) -> Result<Seq<OpV>, Error> {
    match height_proof_spec(t, 1) {
        Err(e) => Err(e),
        Ok((hops, th)) => match trunk_body_spec(t, th, true) {
            Err(e) => Err(e),
            Ok(bops) => Ok(hops + bops),
        },
    }
}

/// Length of the left spine of a trunk proof, counting the root; `None` where
/// a node below the root on that spine is a `Hash` node.
pub open spec fn spine_height(t: ProofTree) -> Option<nat>
    decreases t,
{
    match t.left {
        Some(c) => if c.node is Hash {
            None
        } else {
            match spine_height(*c) {
                Some(h) => Some(h + 1),
                None => None,
            }
        },
        None => Some(1),
    }
}

/// Down to `depth` levels, every node holds a key/value pair and has both
/// children; at that depth the leftmost node is `KVHash` and every other node
/// is `Hash`.
pub open spec fn complete(t: ProofTree, depth: nat, leftmost: bool) -> bool
    decreases depth,
{
    if depth > 0 {
        &&& t.node is KV
        &&& t.left matches Some(l) && complete(*l, (depth - 1) as nat, leftmost)
        &&& t.right matches Some(r) && complete(*r, (depth - 1) as nat, false)
    } else if leftmost {
        t.node is KVHash
    } else {
        t.node is Hash
    }
}

/// The shape a trunk proof must have: an authenticated left spine whose
/// length gives the height, and a complete top half.
pub open spec fn trunk_shape(t: ProofTree) -> bool {
    match spine_height(t) {
        Some(h) => complete(t, h / 2, true),
        None => false,
    }
}

/// Outcome of checking a trunk proof.
pub open spec fn verify_trunk_spec(ops: Seq<Op>) -> Result<ProofTree, Error> {
    match execute_spec(ops, false) {
        Err(e) => Err(e),
        Ok(t) => if trunk_shape(t) {
            Ok(t)
        } else {
            Err(Error::MalformedTrunk)
        },
    }
}

/// Outcome of checking a leaf chunk against the digest it must have.
pub open spec fn verify_leaf_spec(ops: Seq<Op>, expected: Seq<u8>) -> Result<ProofTree, Error> {
    match execute_spec(ops, true) {
        Err(e) => Err(e),
        Ok(t) => if t.hash_spec() == expected {
            Ok(t)
        } else {
            Err(Error::HashMismatch)
        },
    }
}

fn verify_height_proof(t: &ProofTree) -> (r: Result<usize, Error>)
    requires
        t.size() <= usize::MAX,
    ensures
        match spine_height(*t) {
            Some(h) => r == Ok::<usize, Error>(h as usize) && h <= t.size(),
            None => r == Err::<usize, Error>(Error::MalformedTrunk),
        },
    decreases t,
{
    match &t.left {
        Some(c) => {
            if let Node::Hash(_) = &c.node {
                return Err(Error::MalformedTrunk);
            }
            let h = verify_height_proof(c)?;
            Ok(h + 1)
        },
        None => Ok(1),
    }
}

fn verify_completeness(t: &ProofTree, remaining_depth: usize, leftmost: bool) -> (r: Result<(), Error>)
    ensures
        r is Ok <==> complete(*t, remaining_depth as nat, leftmost),
        r is Err ==> r == Err::<(), Error>(Error::MalformedTrunk),
    decreases remaining_depth,
{
    if remaining_depth > 0 {
        match &t.node {
            Node::KV(_, _) => {},
            _ => {
                return Err(Error::MalformedTrunk);
            },
        }
        match &t.left {
            Some(l) => verify_completeness(l, remaining_depth - 1, leftmost)?,
            None => {
                return Err(Error::MalformedTrunk);
            },
        }
        match &t.right {
            Some(r) => verify_completeness(r, remaining_depth - 1, false)?,
            None => {
                return Err(Error::MalformedTrunk);
            },
        }
        Ok(())
    } else if !leftmost {
        match &t.node {
            Node::Hash(_) => Ok(()),
            _ => Err(Error::MalformedTrunk),
        }
    } else {
        match &t.node {
            Node::KVHash(_) => Ok(()),
            _ => Err(Error::MalformedTrunk),
        }
    }
}

/// Checks a trunk proof: executes it, then requires the left spine to hold
/// no `Hash` node and the top `height / 2` levels to be complete. The root
/// digest is left for the caller to compare with a trusted one.
pub fn verify_trunk(ops: Vec<Op>) -> (r: Result<ProofTree, Error>)
    ensures
        r == verify_trunk_spec(ops@),
        r matches Ok(t) ==> spine_height(t) matches Some(h) && complete(t, h / 2, true),
{
    let n = ops.len();
    let tree = execute(ops, false)?;
    assert(tree.size() <= n);
    let height = verify_height_proof(&tree)?;
    let expected_depth = height / 2;
    match verify_completeness(&tree, expected_depth, true) {
        Ok(()) => Ok(tree),
        Err(e) => Err(e),
    }
}

/// Checks a leaf chunk: executes it, refusing any node but a key/value pair,
/// and compares the rebuilt tree's digest with `expected_hash`.
pub fn verify_leaf(ops: Vec<Op>, expected_hash: crate::hash::Hash) -> (r: Result<ProofTree, Error>)
    ensures
        r == verify_leaf_spec(ops@, expected_hash@),
        r matches Ok(t) ==> t.all_kv() && t.hash_spec() == expected_hash@,
{
    let tree = execute(ops, true)?;
    let h = tree.hash();
    if !hash_eq(&h, &expected_hash) {
        return Err(Error::HashMismatch);
    }
    Ok(tree)
}

/// Two links hold the same bytes: same variant, digests, heights, pending
/// counts and keys, and subtrees holding the same bytes.
pub open spec fn same_link(a: Link, b: Link) -> bool
    decreases a,
{
    match a {
        Link::Pruned { hash, height, key } => b matches Link::Pruned { hash: h, height: x, key: k }
            && hash@ == h@ && height == x && key@ == k@,
        Link::Modified { pending_writes, height, tree } => b matches Link::Modified {
            pending_writes: p,
            height: x,
            tree: t,
        } && pending_writes == p && height == x && same_tree(tree, t),
        Link::Stored { hash, height, tree } => b matches Link::Stored { hash: h, height: x, tree: t }
            && hash@ == h@ && height == x && same_tree(tree, t),
    }
}

pub open spec fn same_child(a: Option<Box<Link>>, b: Option<Box<Link>>) -> bool
    decreases a,
{
    match a {
        Some(la) => b matches Some(lb) && same_link(*la, *lb),
        None => b is None,
    }
}

/// Two in-memory trees hold the same bytes, node for node.
pub open spec fn same_tree(a: Tree, b: Tree) -> bool
    decreases a,
{
    &&& a.key@ == b.key@
    &&& a.value@ == b.value@
    &&& a.kv_hash@ == b.kv_hash@
    &&& same_child(a.left, b.left)
    &&& same_child(a.right, b.right)
}

proof fn lemma_link_hash_same(a: Option<Box<Link>>, b: Option<Box<Link>>, ops: Seq<OpV>)
    requires
        same_child(a, b),
    ensures
        with_right_hash(ops, a) == with_right_hash(ops, b),
        a matches Some(la) ==> (b matches Some(lb) && link_hash_result(*la) == link_hash_result(*lb)),
{
}

proof fn lemma_height_proof_same(a: Tree, b: Tree, depth: nat)
    requires
        same_tree(a, b),
    ensures
        height_proof_spec(a, depth) == height_proof_spec(b, depth),
    decreases a,
{
    match a.left {
        Some(la) => match *la {
            Link::Modified { tree, .. } => {
                let lb = b.left.unwrap();
                lemma_height_proof_same(tree, lb->Modified_tree, depth + 1);
            },
            Link::Stored { tree, .. } => {
                let lb = b.left.unwrap();
                lemma_height_proof_same(tree, lb->Stored_tree, depth + 1);
            },
            Link::Pruned { .. } => {},
        },
        None => {},
    }
    assert forall|ops: Seq<OpV>| with_right_hash(ops, a.right) == with_right_hash(ops, b.right) by {
        lemma_link_hash_same(a.right, b.right, ops);
    }
}

proof fn lemma_trunk_body_same(a: Tree, b: Tree, remaining: nat, leftmost: bool)
    requires
        same_tree(a, b),
    ensures
        trunk_body_spec(a, remaining, leftmost) == trunk_body_spec(b, remaining, leftmost),
    decreases a,
{
    assert forall|ops: Seq<OpV>| with_right_hash(ops, a.right) == with_right_hash(ops, b.right) by {
        lemma_link_hash_same(a.right, b.right, ops);
    }
    lemma_link_hash_same(a.left, b.left, Seq::empty());
    if remaining > 0 {
        match a.left {
            Some(la) => match *la {
                Link::Modified { tree, .. } => {
                    lemma_trunk_body_same(tree, b.left.unwrap()->Modified_tree, (remaining - 1) as nat, leftmost);
                },
                Link::Stored { tree, .. } => {
                    lemma_trunk_body_same(tree, b.left.unwrap()->Stored_tree, (remaining - 1) as nat, leftmost);
                },
                Link::Pruned { .. } => {},
            },
            None => {},
        }
        match a.right {
            Some(ra) => match *ra {
                Link::Modified { tree, .. } => {
                    lemma_trunk_body_same(tree, b.right.unwrap()->Modified_tree, (remaining - 1) as nat, false);
                },
                Link::Stored { tree, .. } => {
                    lemma_trunk_body_same(tree, b.right.unwrap()->Stored_tree, (remaining - 1) as nat, false);
                },
                Link::Pruned { .. } => {},
            },
            None => {},
        }
    }
}

/// Building the trunk proof of two trees that hold the same bytes gives the
/// same instructions, byte for byte, or the same failure.
pub proof fn lemma_trunk_proof_deterministic(a: Tree, b: Tree)
    requires
        same_tree(a, b),
    ensures
        trunk_proof_spec(a) == trunk_proof_spec(b),
{
    lemma_height_proof_same(a, b, 1);
    if let Ok((hops, th)) = height_proof_spec(a, 1) {
        lemma_trunk_body_same(a, b, th, true);
    }
}

fn link_hash(l: &Link) -> (r: Result<crate::hash::Hash, Error>)
    ensures
        match link_hash_result(*l) {
            Ok(h) => r matches Ok(x) && x@ == h,
            Err(e) => r == Err::<crate::hash::Hash, Error>(e),
        },
{
    match l {
        Link::Pruned { hash, .. } => Ok(*hash),
        Link::Stored { hash, .. } => Ok(*hash),
        Link::Modified { .. } => Err(Error::InvalidLinkOperation),
    }
}

fn push_right_hash(t: &Tree, proof: &mut Vec<Op>) -> (r: Result<(), Error>)
    ensures
        match with_right_hash(ops_view(old(proof)@), t.right) {
            Ok(ops) => r is Ok && ops_view(final(proof)@) == ops,
            Err(e) => r == Err::<(), Error>(e),
        },
{
    match &t.right {
        None => Ok(()),
        Some(b) => {
            let h = link_hash(b)?;
            push_op(proof, Op::Push(Node::Hash(h)));
            push_op(proof, Op::Child);
            Ok(())
        },
    }
}

impl Tree {
    /// Builds the trunk proof of the tree: a proof of its left spine, whose
    /// length gives the height, followed by every node down to half that
    /// height, with the digests of the subtrees below them. Fails where a
    /// digest is asked of a modified link, where a subtree that must be
    /// walked is not loaded, or where the top half is not dense.
    pub fn create_trunk_proof(&self) -> (r: Result<Vec<Op>, Error>)
        requires
            left_spine_len(*self) < usize::MAX,
        ensures
            match trunk_proof_spec(*self) {
                Ok(ops) => r matches Ok(p) && ops_view(p@) == ops,
                Err(e) => r == Err::<Vec<Op>, Error>(e),
            },
    {
        let mut proof: Vec<Op> = Vec::new();
        assert(ops_view(proof@) =~= Seq::<OpV>::empty());
        let trunk_height = self.traverse_for_height_proof(&mut proof, 1)?;
        self.traverse_for_trunk(&mut proof, trunk_height, true)?;
        Ok(proof)
    }

    /// Emits the height proof below this node, found at `depth` on the left
    /// spine, and returns the trunk height.
    fn traverse_for_height_proof(&self, proof: &mut Vec<Op>, depth: usize) -> (r: Result<usize, Error>)
        requires
            depth + left_spine_len(*self) <= usize::MAX,
        ensures
            match height_proof_spec(*self, depth as nat) {
                Ok((ops, th)) => r == Ok::<usize, Error>(th as usize) && th <= depth + left_spine_len(*self)
                    && ops_view(final(proof)@) == ops_view(old(proof)@) + ops,
                Err(e) => r == Err::<usize, Error>(e),
            },
        decreases *self,
    {
        let ghost start = ops_view(proof@);
        let trunk_height = match &self.left {
            None => {
                assert(start + Seq::<OpV>::empty() == start);
                depth / 2
            },
            Some(b) => match &**b {
                Link::Pruned { .. } => {
                    return Err(Error::UnloadedLink);
                },
                Link::Modified { tree, .. } => tree.traverse_for_height_proof(proof, depth + 1)?,
                Link::Stored { tree, .. } => tree.traverse_for_height_proof(proof, depth + 1)?,
            },
        };
        if depth > trunk_height {
            let ghost below = ops_view(proof@);
            push_op(proof, Op::Push(Node::KVHash(self.kv_hash)));
            if self.left.is_some() {
                push_op(proof, Op::Parent);
            }
            let ghost own = ops_view(proof@);
            push_right_hash(self, proof)?;
            proof {
                assert(ops_view(proof@) =~= start + (ops_view(proof@).subrange(start.len() as int, ops_view(proof@).len() as int)));
            }
        }
        Ok(trunk_height)
    }

    /// Emits the trunk body below this node, `remaining_depth` levels deep.
    #[verifier::rlimit(40)]
    fn traverse_for_trunk(&self, proof: &mut Vec<Op>, remaining_depth: usize, is_leftmost: bool) -> (r: Result<(), Error>)
        ensures
            match trunk_body_spec(*self, remaining_depth as nat, is_leftmost) {
                Ok(ops) => r is Ok && ops_view(final(proof)@) == ops_view(old(proof)@) + ops,
                Err(e) => r == Err::<(), Error>(e),
            },
        decreases *self,
    {
        let ghost start = ops_view(proof@);
        if remaining_depth == 0 {
            if !is_leftmost {
                if let Some(b) = &self.left {
                    let h = link_hash(b)?;
                    push_op(proof, Op::Push(Node::Hash(h)));
                }
            }
            let (k, v) = self.kv_copy();
            push_op(proof, Op::Push(Node::KV(k, v)));
            if self.left.is_some() {
                push_op(proof, Op::Parent);
            }
            push_right_hash(self, proof)?;
            proof {
                assert(ops_view(proof@) =~= start + (ops_view(proof@).subrange(start.len() as int, ops_view(proof@).len() as int)));
            }
            return Ok(());
        }
        match &self.left {
            None => {
                return Err(Error::IncompleteTree);
            },
            Some(b) => match &**b {
                Link::Pruned { .. } => {
                    return Err(Error::UnloadedLink);
                },
                Link::Modified { tree, .. } => tree.traverse_for_trunk(proof, remaining_depth - 1, is_leftmost)?,
                Link::Stored { tree, .. } => tree.traverse_for_trunk(proof, remaining_depth - 1, is_leftmost)?,
            },
        }
        let (k, v) = self.kv_copy();
        push_op(proof, Op::Push(Node::KV(k, v)));
        push_op(proof, Op::Parent);
        let ghost mid = ops_view(proof@);
        match &self.right {
            None => {
                return Err(Error::IncompleteTree);
            },
            Some(b) => match &**b {
                Link::Pruned { .. } => {
                    return Err(Error::UnloadedLink);
                },
                Link::Modified { tree, .. } => tree.traverse_for_trunk(proof, remaining_depth - 1, false)?,
                Link::Stored { tree, .. } => tree.traverse_for_trunk(proof, remaining_depth - 1, false)?,
            },
        }
        push_op(proof, Op::Child);
        proof {
            assert(ops_view(proof@) =~= start + (ops_view(proof@).subrange(start.len() as int, ops_view(proof@).len() as int)));
        }
        Ok(())
    }
}

} // verus!
