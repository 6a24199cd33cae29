use vstd::prelude::*;

use crate::hash::copy_bytes;
use crate::vm::{ops_view, push_op, Node, NodeV, Op, OpV};

verus! {

/// A persisted node as the storage iterator yields it: its key, its value,
/// and the root keys of its children.
pub struct StoredNode {
    pub key: Vec<u8>,
    pub value: Vec<u8>,
    pub left_key: Option<Vec<u8>>,
    pub right_key: Option<Vec<u8>>,
}

/// A position in persisted nodes held in ascending key order.
pub struct NodeCursor {
    pub nodes: Vec<StoredNode>,
    pub pos: usize,
}

impl NodeCursor {
    /// A cursor at the first node.
    pub fn new(nodes: Vec<StoredNode>) -> (r: NodeCursor)
        ensures
            r.nodes == nodes,
            r.pos == 0,
    {
        NodeCursor { nodes, pos: 0 }
    }

    pub fn seek_to_first(&mut self)
        ensures
            final(self).nodes == old(self).nodes,
            final(self).pos == 0,
    {
        self.pos = 0;
    }

    /// The cursor stands on a node.
    pub fn valid(&self) -> (r: bool)
        ensures
            r == (self.pos < self.nodes@.len()),
    {
        self.pos < self.nodes.len()
    }

    /// Moves to the following node; past the last one the cursor is no
    /// longer valid.
    pub fn next(&mut self)
        ensures
            final(self).nodes == old(self).nodes,
            final(self).pos == if old(self).pos < old(self).nodes@.len() {
                old(self).pos + 1
            } else {
                old(self).pos as int
            },
    {
        if self.pos < self.nodes.len() {
            self.pos = self.pos + 1;
        }
    }

    /// Key of the node under the cursor.
    pub fn key(&self) -> (r: Option<&[u8]>)
        ensures
            self.pos < self.nodes@.len() ==> (r matches Some(k) && k@ == self.nodes@[self.pos as int].key@),
            self.pos >= self.nodes@.len() ==> r is None,
    {
        if self.pos < self.nodes.len() {
            Some(self.nodes[self.pos].key.as_slice())
        } else {
            None
        }
    }
}

/// `a` orders before `b` from index `i` on, the bytes before `i` being equal.
pub open spec fn lex_lt_from(a: Seq<u8>, b: Seq<u8>, i: nat) -> bool
    decreases a.len() - i,
{
    if i >= a.len() {
        i < b.len()
    } else if i >= b.len() {
        false
    } else if a[i as int] != b[i as int] {
        a[i as int] < b[i as int]
    } else {
        lex_lt_from(a, b, i + 1)
    }
}

/// Lexicographic order on byte strings.
pub open spec fn lex_lt(a: Seq<u8>, b: Seq<u8>) -> bool {
    lex_lt_from(a, b, 0)
}

fn bytes_lt(a: &[u8], b: &[u8]) -> (r: bool)
    ensures
        r == lex_lt(a@, b@),
{
    let mut i: usize = 0;
    while i < a.len() && i < b.len() && a[i] == b[i]
        invariant
            i <= a@.len(),
            i <= b@.len(),
            lex_lt_from(a@, b@, i as nat) == lex_lt(a@, b@),
        decreases a@.len() - i,
    {
        i = i + 1;
    }
    if i >= a.len() {
        i < b.len()
    } else if i >= b.len() {
        false
    } else {
        a[i] < b[i]
    }
}

fn bytes_eq(a: &[u8], b: &[u8]) -> (r: bool)
    ensures
        r == (a@ == b@),
{
    if a.len() != b.len() {
        return false;
    }
    let mut i: usize = 0;
    while i < a.len()
        invariant
            i <= a@.len(),
            a@.len() == b@.len(),
            forall|j: int| 0 <= j < i ==> a@[j] == b@[j],
        decreases a@.len() - i,
    {
        if a[i] != b[i] {
            return false;
        }
        i = i + 1;
    }
    assert(a@ =~= b@);
    true
}

/// Keys of pending right subtrees, as bytes.
pub open spec fn keys_view(s: Seq<Vec<u8>>) -> Seq<Seq<u8>> {
    s.map_values(|k: Vec<u8>| k@)
}

/// How many pending right keys the node with `key` closes: those on top of
/// the stack that `key` does not order before.
pub open spec fn pop_count(key: Seq<u8>, stack: Seq<Seq<u8>>) -> nat
    decreases stack.len(),
{
    if stack.len() > 0 && !lex_lt(key, stack.last()) {
        1 + pop_count(key, stack.drop_last())
    } else {
        0
    }
}

/// Instructions for one node, and the stack of pending right keys after it:
/// push the pair, attach the left subtree just emitted, then either wait for
/// the right subtree or close the right subtrees that this node ends.
pub open spec fn node_step(n: StoredNode, stack: Seq<Seq<u8>>) -> (Seq<OpV>, Seq<Seq<u8>>) {
    let ops = seq![OpV::Push(NodeV::KV(n.key@, n.value@))];
    let ops = if n.left_key is Some {
        ops.push(OpV::Parent)
    } else {
        ops
    };
    match n.right_key {
        Some(rk) => (ops, stack.push(rk@)),
        None => {
            let c = pop_count(n.key@, stack);
            (ops + Seq::new(c, |i: int| OpV::Child), stack.subrange(0, stack.len() - c))
        },
    }
}

/// The chunk read from position `pos` with a given stack: the instructions
/// and the position at which reading stops, at `end_key` or at the end.
pub open spec fn chunk_from(
    nodes: Seq<StoredNode>,
    pos: int,
    end_key: Option<Seq<u8>>,
    stack: Seq<Seq<u8>>,
) -> (Seq<OpV>, int)
    decreases nodes.len() - pos,
{
    if pos < 0 || pos >= nodes.len() || (end_key matches Some(e) && nodes[pos].key@ == e) {
        (Seq::empty(), pos)
    } else {
        let (ops, s) = node_step(nodes[pos], stack);
        let (rest, stop) = chunk_from(nodes, pos + 1, end_key, s);
        (ops + rest, stop)
    }
}

/// Reads the next leaf chunk from the cursor: every node from the cursor's
/// position up to `end_key` (not included) or to the end, as instructions
/// that rebuild their subtree from key/value nodes. The cursor is left on
/// `end_key`, or past the end.
pub fn get_next_chunk(iter: &mut NodeCursor, end_key: Option<&[u8]>) -> (r: Vec<Op>)
    ensures
        final(iter).nodes == old(iter).nodes,
        ({
            let end = match end_key {
                Some(e) => Some(e@),
                None => None,
            };
            let (ops, stop) = chunk_from(old(iter).nodes@, old(iter).pos as int, end, Seq::empty());
            ops_view(r@) == ops && final(iter).pos == stop
        }),
{
    let ghost end = match end_key {
        Some(e) => Some(e@),
        None => None::<Seq<u8>>,
    };
    let ghost start = iter.pos as int;
    let ghost nodes0 = iter.nodes;
    let mut chunk: Vec<Op> = Vec::new();
    let mut stack: Vec<Vec<u8>> = Vec::new();
    assert(ops_view(chunk@) =~= Seq::<OpV>::empty());
    assert(keys_view(stack@) =~= Seq::<Seq<u8>>::empty());
    while iter.valid()
        invariant
            iter.nodes == nodes0,
            end == (match end_key {
                Some(e) => Some(e@),
                None => None::<Seq<u8>>,
            }),
            ({
                let (ops, stop) = chunk_from(iter.nodes@, iter.pos as int, end, keys_view(stack@));
                let (all, stop0) = chunk_from(nodes0@, start, end, Seq::empty());
                ops_view(chunk@) + ops == all && stop == stop0
            }),
        ensures
            iter.nodes == nodes0,
            ({
                let (ops, stop) = chunk_from(iter.nodes@, iter.pos as int, end, keys_view(stack@));
                let (all, stop0) = chunk_from(nodes0@, start, end, Seq::empty());
                ops_view(chunk@) + ops == all && stop == stop0 && ops.len() == 0 && stop == iter.pos
            }),
        decreases iter.nodes@.len() - iter.pos,
    {
        let pos = iter.pos;
        let ghost s0 = keys_view(stack@);
        let ghost c0 = ops_view(chunk@);
        if let Some(e) = end_key {
            if bytes_eq(iter.nodes[pos].key.as_slice(), e) {
                assert(ops_view(chunk@) + Seq::<OpV>::empty() == ops_view(chunk@));
                break;
            }
        }
        let n = &iter.nodes[pos];
        let key = copy_bytes(n.key.as_slice());
        let value = copy_bytes(n.value.as_slice());
        push_op(&mut chunk, Op::Push(Node::KV(key, value)));
        if n.left_key.is_some() {
            push_op(&mut chunk, Op::Parent);
        }
        match &n.right_key {
            Some(rk) => {
                let k = copy_bytes(rk.as_slice());
                stack.push(k);
                assert(keys_view(stack@) =~= s0.push(rk@));
            },
            None => {
                let ghost mid = ops_view(chunk@);
                let ghost popped: nat = 0;
                while stack.len() > 0
                    invariant
                        popped + pop_count(n.key@, keys_view(stack@)) == pop_count(n.key@, s0),
                        popped <= s0.len(),
                        keys_view(stack@) == s0.subrange(0, s0.len() - popped),
                        ops_view(chunk@) == mid + Seq::new(popped, |i: int| OpV::Child),
                    ensures
                        popped + pop_count(n.key@, keys_view(stack@)) == pop_count(n.key@, s0),
                        popped <= s0.len(),
                        keys_view(stack@) == s0.subrange(0, s0.len() - popped),
                        ops_view(chunk@) == mid + Seq::new(popped, |i: int| OpV::Child),
                        pop_count(n.key@, keys_view(stack@)) == 0,
                    decreases stack@.len(),
                {
                    let top = stack.len() - 1;
                    assert(keys_view(stack@).last() == stack@[top as int]@);
                    if bytes_lt(n.key.as_slice(), stack[top].as_slice()) {
                        break;
                    }
                    let ghost sv = keys_view(stack@);
                    assert(sv.last() == stack@[top as int]@);
                    stack.pop();
                    assert(keys_view(stack@) =~= sv.drop_last());
                    push_op(&mut chunk, Op::Child);
                    proof {
                        popped = popped + 1;
                        assert(keys_view(stack@) =~= s0.subrange(0, s0.len() - popped));
                        assert(ops_view(chunk@) =~= mid + Seq::new(popped, |i: int| OpV::Child));
                    }
                }
            },
        }
        iter.next();
        proof {
            let (ops, s) = node_step(iter.nodes@[pos as int], s0);
            assert(keys_view(stack@) == s);
            assert(ops_view(chunk@) == c0 + ops);
            let (rest, stop) = chunk_from(iter.nodes@, iter.pos as int, end, s);
            assert(chunk_from(iter.nodes@, pos as int, end, s0) == (ops + rest, stop));
            assert(c0 + (ops + rest) == ops_view(chunk@) + rest);
        }
    }
    assert(ops_view(chunk@) + Seq::<OpV>::empty() == ops_view(chunk@));
    chunk
}

} // verus!
