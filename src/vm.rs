use vstd::prelude::*;

use crate::hash::{kv_hash, kv_hash_spec, node_hash, node_hash_spec, null_hash, null_hash_spec};

verus! {

/// Ways in which building or checking a proof fails.
#[derive(Debug, Clone, Copy, PartialEq, Eq, Structural)]
pub enum Error {
    /// Stack underflow, a child slot filled twice, or not exactly one tree left.
    MalformedProof,
    /// A leaf chunk held a node other than a key/value pair.
    MalformedLeaf,
    /// A trunk proof did not have the trunk's shape.
    MalformedTrunk,
    /// A leaf chunk did not hash to the expected digest.
    HashMismatch,
    /// A digest was needed from a link with uncommitted writes.
    InvalidLinkOperation,
    /// A subtree that had to be walked is not loaded.
    UnloadedLink,
    /// The tree is not dense down to the levels the trunk covers.
    IncompleteTree,
}

/// Payload of a proof node.
#[derive(Debug, Clone, PartialEq, Eq)]
pub enum Node {
    /// Key and value in full.
    KV(Vec<u8>, Vec<u8>),
    /// Digest of the key/value pair only.
    KVHash(crate::hash::Hash),
    /// Digest of a whole subtree.
    Hash(crate::hash::Hash),
}

/// An instruction of the proof stack machine.
#[derive(Debug, Clone, PartialEq, Eq)]
pub enum Op {
    /// Push a childless tree holding the node.
    Push(Node),
    /// Pop a parent, then a child; attach the child on the parent's left;
    /// push the parent.
    Parent,
    /// Pop a child, then a parent; attach the child on the parent's right;
    /// push the parent.
    Child,
}

/// A proof node as bytes.
pub enum NodeV {
    KV(Seq<u8>, Seq<u8>),
    KVHash(Seq<u8>),
    Hash(Seq<u8>),
}

/// A proof instruction as bytes.
pub enum OpV {
    Push(NodeV),
    Parent,
    Child,
}

impl View for Node {
    type V = NodeV;

    open spec fn view(&self) -> NodeV {
        match self {
            Node::KV(k, v) => NodeV::KV(k@, v@),
            Node::KVHash(h) => NodeV::KVHash(h@),
            Node::Hash(h) => NodeV::Hash(h@),
        }
    }
}

impl View for Op {
    type V = OpV;

    open spec fn view(&self) -> OpV {
        match self {
            Op::Push(n) => OpV::Push(n@),
            Op::Parent => OpV::Parent,
            Op::Child => OpV::Child,
        }
    }
}

/// A sequence of instructions as bytes.
pub open spec fn ops_view(s: Seq<Op>) -> Seq<OpV> {
    s.map_values(|o: Op| o@)
}

/// Appends one instruction to a proof.
pub fn push_op(proof: &mut Vec<Op>, op: Op)
    ensures
        final(proof)@ == old(proof)@.push(op),
        ops_view(final(proof)@) == ops_view(old(proof)@).push(op@),
{
    proof.push(op);
    assert(ops_view(proof@) =~= ops_view(old(proof)@).push(op@));
}

/// A tree rebuilt from a proof.
pub struct ProofTree {
    pub node: Node,
    pub left: Option<Box<ProofTree>>,
    pub right: Option<Box<ProofTree>>,
}

pub open spec fn opt_hash_spec(t: Option<Box<ProofTree>>) -> Seq<u8>
    decreases t,
{
    match t {
        Some(b) => b.hash_spec(),
        None => null_hash_spec(),
    }
}

pub open spec fn opt_size(t: Option<Box<ProofTree>>) -> nat
    decreases t,
{
    match t {
        Some(b) => b.size(),
        None => 0,
    }
}

pub open spec fn opt_all_kv(t: Option<Box<ProofTree>>) -> bool
    decreases t,
{
    match t {
        Some(b) => b.all_kv(),
        None => true,
    }
}

impl ProofTree {
    /// Digest of the rebuilt tree: a `Hash` node stands for its subtree; any
    /// other node combines its key/value digest with its children's.
    pub open spec fn hash_spec(&self) -> Seq<u8>
        decreases self,
    {
        match self.node {
            Node::Hash(h) => h@,
            Node::KVHash(h) => node_hash_spec(h@, opt_hash_spec(self.left), opt_hash_spec(self.right)),
            Node::KV(k, v) => node_hash_spec(
                kv_hash_spec(k@, v@),
                opt_hash_spec(self.left),
                opt_hash_spec(self.right),
            ),
        }
    }

    /// Number of nodes.
    pub open spec fn size(&self) -> nat
        decreases self,
    {
        1 + opt_size(self.left) + opt_size(self.right)
    }

    /// Every node holds a key/value pair.
    pub open spec fn all_kv(&self) -> bool
        decreases self,
    {
        &&& self.node is KV
        &&& opt_all_kv(self.left)
        &&& opt_all_kv(self.right)
    }

    pub open spec fn side(&self, left: bool) -> Option<Box<ProofTree>> {
        if left { self.left } else { self.right }
    }

    /// The child on the given side.
    pub fn child(&self, left: bool) -> (r: Option<&ProofTree>)
        ensures
            match self.side(left) {
                Some(b) => r == Some(&*b),
                None => r is None,
            },
    {
        let side = if left { &self.left } else { &self.right };
        match side {
            Some(b) => Some(&**b),
            None => None,
        }
    }

    /// Digest of the rebuilt tree.
    pub fn hash(&self) -> (r: crate::hash::Hash)
        ensures
            r@ == self.hash_spec(),
        decreases self,
    {
        let l = match &self.left {
            Some(b) => b.hash(),
            None => null_hash(),
        };
        let r = match &self.right {
            Some(b) => b.hash(),
            None => null_hash(),
        };
        match &self.node {
            Node::Hash(h) => *h,
            Node::KVHash(h) => node_hash(h, &l, &r),
            Node::KV(k, v) => {
                let kv = kv_hash(k.as_slice(), v.as_slice());
                node_hash(&kv, &l, &r)
            },
        }
    }
}

/// A tree of one node.
pub open spec fn single(n: Node) -> ProofTree {
    ProofTree { node: n, left: None, right: None }
}

/// Attaches `child` on the given side of `parent`.
pub open spec fn attach(parent: ProofTree, child: ProofTree, left: bool) -> ProofTree {
    if left {
        ProofTree { left: Some(Box::new(child)), ..parent }
    } else {
        ProofTree { right: Some(Box::new(child)), ..parent }
    }
}

/// One instruction on a stack. With `kv_only`, pushing anything but a
/// key/value node fails.
pub open spec fn step(stack: Seq<ProofTree>, op: Op, kv_only: bool) -> Result<Seq<ProofTree>, Error> {
    match op {
        Op::Push(n) => if kv_only && !(n is KV) {
            Err(Error::MalformedLeaf)
        } else {
            Ok(stack.push(single(n)))
        },
        Op::Parent => combine(stack, true),
        Op::Child => combine(stack, false),
    }
}

/// Joins the top two trees. For a left attachment the top is the parent and
/// the tree below it the child; for a right one, the reverse.
pub open spec fn combine(stack: Seq<ProofTree>, left: bool) -> Result<Seq<ProofTree>, Error> {
    let n = stack.len();
    let (parent, child) = if left {
        (stack[n - 1], stack[n - 2])
    } else {
        (stack[n - 2], stack[n - 1])
    };
    if n >= 2 && parent.side(left) is None {
        Ok(stack.subrange(0, n - 2).push(attach(parent, child, left)))
    } else {
        Err(Error::MalformedProof)
    }
}

/// Runs instructions in order from a given stack.
pub open spec fn run(stack: Seq<ProofTree>, ops: Seq<Op>, kv_only: bool) -> Result<Seq<ProofTree>, Error>
    decreases ops.len(),
{
    if ops.len() == 0 {
        Ok(stack)
    } else {
        match step(stack, ops[0], kv_only) {
            Ok(s) => run(s, ops.drop_first(), kv_only),
            Err(e) => Err(e),
        }
    }
}

/// What executing a proof yields: the one tree left on the stack.
pub open spec fn execute_spec(ops: Seq<Op>, kv_only: bool) -> Result<ProofTree, Error> {
    match run(Seq::empty(), ops, kv_only) {
        Ok(s) => if s.len() == 1 {
            Ok(s[0])
        } else {
            Err(Error::MalformedProof)
        },
        Err(e) => Err(e),
    }
}

pub open spec fn stack_size(s: Seq<ProofTree>) -> nat
    decreases s.len(),
{
    if s.len() == 0 {
        0
    } else {
        stack_size(s.drop_last()) + s.last().size()
    }
}

pub open spec fn stack_all_kv(s: Seq<ProofTree>) -> bool {
    forall|i: int| 0 <= i < s.len() ==> (#[trigger] s[i]).all_kv()
}

proof fn lemma_stack_size_push(s: Seq<ProofTree>, t: ProofTree)
    ensures
        stack_size(s.push(t)) == stack_size(s) + t.size(),
{
    assert(s.push(t).drop_last() == s);
}

/// Combining the top two trees keeps the total number of nodes, and keeps a
/// stack of key/value trees such.
proof fn lemma_combine(s: Seq<ProofTree>, left: bool)
    requires
        combine(s, left) is Ok,
    ensures
        stack_size(combine(s, left)->Ok_0) == stack_size(s),
        stack_all_kv(s) ==> stack_all_kv(combine(s, left)->Ok_0),
{
    let n = s.len();
    let rest = s.subrange(0, n - 2);
    let t = if left {
        attach(s[n - 1], s[n - 2], left)
    } else {
        attach(s[n - 2], s[n - 1], left)
    };
    assert(s.drop_last().drop_last() == rest);
    assert(s.drop_last().last() == s[n - 2]);
    lemma_stack_size_push(rest, t);
    assert(stack_size(s.drop_last()) == stack_size(rest) + s[n - 2].size());
    assert(stack_size(s) == stack_size(s.drop_last()) + s[n - 1].size());
    assert(t.size() == s[n - 2].size() + s[n - 1].size());
    if stack_all_kv(s) {
        assert(s[n - 2].all_kv() && s[n - 1].all_kv());
        assert(t.all_kv());
        assert forall|i: int| 0 <= i < n - 1 implies (#[trigger] rest.push(t)[i]).all_kv() by {
            if i < n - 2 {
                assert(rest.push(t)[i] == s[i]);
            }
        }
    }
}

/// Executes a proof: runs its instructions on an empty stack and returns the
/// one tree left. With `kv_only`, any node but a key/value pair is refused.
pub fn execute(ops: Vec<Op>, kv_only: bool) -> (r: Result<ProofTree, Error>)
    ensures
        r == execute_spec(ops@, kv_only),
        r is Ok ==> r->Ok_0.size() <= ops@.len(),
        r is Ok && kv_only ==> r->Ok_0.all_kv(),
{
    let mut pending = ops;
    drain(&mut pending, kv_only)
}

fn drain(ops: &mut Vec<Op>, kv_only: bool) -> (r: Result<ProofTree, Error>)
    ensures
        r == execute_spec(old(ops)@, kv_only),
        r is Ok ==> r->Ok_0.size() <= old(ops)@.len(),
        r is Ok && kv_only ==> r->Ok_0.all_kv(),
{
    let ghost all = ops@;
    let mut stack: Vec<ProofTree> = Vec::new();
    while ops.len() > 0
        invariant
            all == old(ops)@,
            run(stack@, ops@, kv_only) == run(Seq::empty(), all, kv_only),
            stack_size(stack@) + ops@.len() <= all.len(),
            kv_only ==> stack_all_kv(stack@),
        decreases ops@.len(),
    {
        let ghost before = stack@;
        let ghost rest = ops@;
        let op = ops.remove(0);
        assert(rest.drop_first() == ops@);
        assert(run(before, rest, kv_only) == match step(before, op, kv_only) {
            Ok(s) => run(s, ops@, kv_only),
            Err(e) => Err(e),
        });
        match op {
            Op::Push(n) => {
                if kv_only {
                    match &n {
                        Node::KV(_, _) => {},
                        _ => {
                            assert(step(before, op, kv_only) == Err::<Seq<ProofTree>, Error>(
                                Error::MalformedLeaf,
                            ));
                            assert(run(Seq::empty(), all, kv_only) == Err::<Seq<ProofTree>, Error>(
                                Error::MalformedLeaf,
                            ));
                            return Err(Error::MalformedLeaf);
                        },
                    }
                }
                stack.push(ProofTree { node: n, left: None, right: None });
                proof {
                    lemma_stack_size_push(before, stack@.last());
                    assert(stack@ == before.push(stack@.last()));
                }
            },
            Op::Parent | Op::Child => {
                let left = match op {
                    Op::Parent => true,
                    _ => false,
                };
                if stack.len() < 2 {
                    return Err(Error::MalformedProof);
                }
                let top = stack.pop().unwrap();
                let below = stack.pop().unwrap();
                assert(before.drop_last().drop_last() == stack@);
                assert(before[before.len() - 2] == below);
                assert(before[before.len() - 1] == top);
                let (mut parent, child) = if left {
                    (top, below)
                } else {
                    (below, top)
                };
                assert(step(before, op, kv_only) == combine(before, left));
                if left {
                    if parent.left.is_some() {
                        return Err(Error::MalformedProof);
                    }
                    parent.left = Some(Box::new(child));
                } else {
                    if parent.right.is_some() {
                        return Err(Error::MalformedProof);
                    }
                    parent.right = Some(Box::new(child));
                }
                stack.push(parent);
                proof {
                    assert(step(before, rest[0], kv_only) == combine(before, left));
                    assert(stack@ == combine(before, left)->Ok_0);
                    lemma_combine(before, left);
                }
            },
        }
    }
    if stack.len() != 1 {
        return Err(Error::MalformedProof);
    }
    proof {
        assert(stack@.drop_last().len() == 0);
    }
    Ok(stack.pop().unwrap())
}

} // verus!
