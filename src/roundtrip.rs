use vstd::prelude::*;

use crate::chunk::{
    complete, height_proof_spec, left_spine_len, spine_height, trunk_body_spec, trunk_proof_spec,
    trunk_shape, verify_trunk_spec,
};
use crate::link::Link;
use crate::tree::Tree;
use crate::chunk::{link_hash_result, verify_leaf_spec};
use crate::leaf::{chunk_from, lex_lt, lex_lt_from, node_step, pop_count, StoredNode};
use crate::vm::{attach, combine, execute_spec, ops_view, run, single, step, Error, Node, NodeV, Op, OpV, ProofTree};

verus! {

/// The loaded subtree under a link.
pub open spec fn loaded(l: Option<Box<Link>>) -> Option<Tree> {
    match l {
        Some(b) => match *b {
            Link::Modified { tree, .. } => Some(tree),
            Link::Stored { tree, .. } => Some(tree),
            Link::Pruned { .. } => None,
        },
        None => None,
    }
}

/// The node `k` steps down the left spine, as far as it is loaded.
pub open spec fn spine_node(t: Tree, k: nat) -> Tree
    decreases k,
{
    if k == 0 {
        t
    } else {
        match loaded(t.left) {
            Some(c) => spine_node(c, (k - 1) as nat),
            None => t,
        }
    }
}

/// Every node `r` levels below `t` has both children, and the levels above
/// them are loaded.
pub open spec fn leaves_full(t: Tree, r: nat) -> bool
    decreases r,
{
    if r == 0 {
        t.left is Some && t.right is Some
    } else {
        match (loaded(t.left), loaded(t.right)) {
            (Some(a), Some(b)) => leaves_full(a, (r - 1) as nat) && leaves_full(b, (r - 1) as nat),
            _ => false,
        }
    }
}

/// `x` is a rebuilt height proof of the left spine from `t` down: a chain
/// of key/value digests, one per spine node.
pub open spec fn is_spine(x: ProofTree, t: Tree) -> bool
    decreases t,
{
    &&& x.node is KVHash
    &&& match t.left {
        Some(b) => match *b {
            Link::Modified { tree, .. } => x.left matches Some(xl) && is_spine(*xl, tree),
            Link::Stored { tree, .. } => x.left matches Some(xl) && is_spine(*xl, tree),
            Link::Pruned { .. } => false,
        },
        None => x.left is None,
    }
}

proof fn lemma_spine_height(x: ProofTree, t: Tree)
    requires
        is_spine(x, t),
    ensures
        spine_height(x) == Some(left_spine_len(t)),
    decreases t,
{
    match t.left {
        Some(b) => match *b {
            Link::Modified { tree, .. } => {
                let xl = *x.left.unwrap();
                assert(is_spine(xl, tree));
                assert(xl.node is KVHash);
                lemma_spine_height(xl, tree);
            },
            Link::Stored { tree, .. } => {
                let xl = *x.left.unwrap();
                assert(is_spine(xl, tree));
                assert(xl.node is KVHash);
                lemma_spine_height(xl, tree);
            },
            Link::Pruned { .. } => {},
        },
        None => {},
    }
}

proof fn lemma_spine_node_len(t: Tree, k: nat)
    requires
        k < left_spine_len(t),
    ensures
        left_spine_len(t) == k + left_spine_len(spine_node(t, k)),
    decreases k,
{
    if k > 0 {
        let c = loaded(t.left).unwrap();
        lemma_spine_node_len(c, (k - 1) as nat);
    }
}

proof fn lemma_run_concat(s: Seq<ProofTree>, a: Seq<Op>, b: Seq<Op>, kv: bool)
    ensures
        run(s, a + b, kv) == match run(s, a, kv) {
            Ok(s2) => run(s2, b, kv),
            Err(e) => Err(e),
        },
    decreases a.len(),
{
    if a.len() == 0 {
        assert(a + b == b);
    } else {
        assert((a + b)[0] == a[0]);
        assert((a + b).drop_first() == a.drop_first() + b);
        match crate::vm::step(s, a[0], kv) {
            Ok(s2) => lemma_run_concat(s2, a.drop_first(), b, kv),
            Err(_) => {},
        }
    }
}

proof fn lemma_split(ops: Seq<Op>, a: Seq<OpV>, b: Seq<OpV>)
    requires
        ops_view(ops) == a + b,
    ensures
        ops == ops.subrange(0, a.len() as int) + ops.subrange(a.len() as int, ops.len() as int),
        ops_view(ops.subrange(0, a.len() as int)) == a,
        ops_view(ops.subrange(a.len() as int, ops.len() as int)) == b,
{
    assert(ops_view(ops).len() == ops.len());
    assert(ops.len() == a.len() + b.len());
    assert(ops =~= ops.subrange(0, a.len() as int) + ops.subrange(a.len() as int, ops.len() as int));
    assert(ops_view(ops.subrange(0, a.len() as int)) =~= a) by {
        assert forall|i: int| 0 <= i < a.len() implies ops_view(ops.subrange(0, a.len() as int))[i] == a[i] by {
            assert(ops_view(ops)[i] == (a + b)[i]);
        }
    }
    assert(ops_view(ops.subrange(a.len() as int, ops.len() as int)) =~= b) by {
        assert forall|i: int| 0 <= i < b.len() implies ops_view(
            ops.subrange(a.len() as int, ops.len() as int),
        )[i] == b[i] by {
            assert(ops_view(ops)[a.len() + i] == (a + b)[a.len() + i]);
        }
    }
}

proof fn lemma_run_one(s: Seq<ProofTree>, op: Op, kv: bool)
    ensures
        run(s, seq![op], kv) == crate::vm::step(s, op, kv),
{
    reveal_with_fuel(run, 2);
    assert(seq![op][0] == op);
    assert(seq![op].drop_first() == Seq::<Op>::empty());
}

/// Runs a node push, an optional left attachment of the tree below it, and
/// an optional right attachment of a pushed sibling.
proof fn lemma_own(s: Seq<ProofTree>, o: Seq<Op>, has_left: bool, has_right: bool, below: ProofTree, kv: bool) -> (x: ProofTree)
    requires
        kv ==> o[0]->Push_0 is KV && !has_right,
        o.len() == 1 + (if has_left { 1int } else { 0int }) + (if has_right { 2int } else { 0int }),
        o[0] is Push,
        has_left ==> o[1] is Parent,
        has_right ==> o[o.len() - 2] is Push && o[o.len() - 1] is Child,
    ensures
        run(if has_left { s.push(below) } else { s }, o, kv) == Ok::<Seq<ProofTree>, Error>(s.push(x)),
        x.node == o[0]->Push_0,
        x.left == (if has_left { Some(Box::new(below)) } else { None }),
        has_right ==> x.right == Some(Box::new(single(o[o.len() - 2]->Push_0))),
        !has_right ==> x.right is None,
{
    let s0 = if has_left { s.push(below) } else { s };
    let n = o[0]->Push_0;
    let s1 = s0.push(single(n));
    assert(step(s0, o[0], kv) == Ok::<Seq<ProofTree>, Error>(s1));
    let o1 = o.drop_first();
    assert(run(s0, o, kv) == run(s1, o1, kv));
    let p = if has_left { attach(single(n), below, true) } else { single(n) };
    let o2 = if has_left { o1.drop_first() } else { o1 };
    if has_left {
        assert(o1[0] == o[1]);
        assert(s1.subrange(0, s1.len() - 2) == s);
        assert(combine(s1, true) == Ok::<Seq<ProofTree>, Error>(s.push(p)));
        assert(run(s1, o1, kv) == run(s.push(p), o2, kv));
    }
    assert(run(s0, o, kv) == run(s.push(p), o2, kv));
    if has_right {
        let hn = o[o.len() - 2]->Push_0;
        assert(o2[0] == o[o.len() - 2]);
        let s3 = s.push(p).push(single(hn));
        assert(run(s.push(p), o2, kv) == run(s3, o2.drop_first(), kv));
        let o3 = o2.drop_first();
        assert(o3[0] == o[o.len() - 1]);
        assert(s3.subrange(0, s3.len() - 2) == s);
        let x = attach(p, single(hn), false);
        assert(combine(s3, false) == Ok::<Seq<ProofTree>, Error>(s.push(x)));
        assert(o3.drop_first().len() == 0);
        assert(run(s3, o3, kv) == run(s.push(x), o3.drop_first(), kv));
        x
    } else {
        assert(o2.len() == 0);
        p
    }
}

/// Running the height proof of the subtree `t` at `depth` leaves one tree:
/// the rebuilt spine from the first node below the trunk height down.
proof fn lemma_height_run(t: Tree, d: nat, ops: Seq<Op>, s: Seq<ProofTree>) -> (x: ProofTree)
    requires
        d >= 1,
        height_proof_spec(t, d) is Ok,
        ops_view(ops) == height_proof_spec(t, d)->Ok_0.0,
    ensures
        ({
            let th = height_proof_spec(t, d)->Ok_0.1;
            &&& th == (d - 1 + left_spine_len(t)) / 2
            &&& run(s, ops, false) == Ok::<Seq<ProofTree>, Error>(s.push(x))
            &&& is_spine(x, spine_node(t, if d > th { 0 } else { (th + 1 - d) as nat }))
        }),
    decreases left_spine_len(t),
{
    let (v, th) = height_proof_spec(t, d)->Ok_0;
    let has_left = t.left is Some;
    let has_right = t.right is Some;
    let w0 = seq![OpV::Push(NodeV::KVHash(t.kv_hash@))];
    let w1 = if has_left { w0.push(OpV::Parent) } else { w0 };
    let w = match t.right {
        Some(b) => w1.push(OpV::Push(NodeV::Hash(link_hash_result(*b)->Ok_0))).push(OpV::Child),
        None => w1,
    };
    if !has_left {
        assert(th == d / 2);
        assert(v =~= w);
        assert(ops_view(ops)[0] == ops[0]@);
        if has_right {
            assert(ops_view(ops)[ops.len() - 2] == ops[ops.len() - 2]@);
            assert(ops_view(ops)[ops.len() - 1] == ops[ops.len() - 1]@);
        }
        let x = lemma_own(s, ops, false, has_right, single(ops[0]->Push_0), false);
        assert(is_spine(x, t));
        x
    } else {
        let c = loaded(t.left).unwrap();
        assert(height_proof_spec(c, d + 1) is Ok);
        let (vc, thc) = height_proof_spec(c, d + 1)->Ok_0;
        assert(thc == th);
        if d > th {
            assert(v =~= vc + w);
            lemma_split(ops, vc, w);
            let oc = ops.subrange(0, vc.len() as int);
            let ow = ops.subrange(vc.len() as int, ops.len() as int);
            let xc = lemma_height_run(c, d + 1, oc, s);
            lemma_run_concat(s, oc, ow, false);
            assert(ops_view(ow)[0] == ow[0]@);
            assert(ops_view(ow)[1] == ow[1]@);
            if has_right {
                assert(ops_view(ow)[ow.len() - 2] == ow[ow.len() - 2]@);
                assert(ops_view(ow)[ow.len() - 1] == ow[ow.len() - 1]@);
            }
            let x = lemma_own(s, ow, true, has_right, xc, false);
            assert(is_spine(x, t));
            x
        } else {
            assert(v == vc);
            let xc = lemma_height_run(c, d + 1, ops, s);
            assert(spine_node(t, (th + 1 - d) as nat) == spine_node(c, (th - d) as nat));
            xc
        }
    }
}

/// Running the trunk body of `t`, `r` levels deep, pushes one tree whose
/// top `r + 1` levels are complete. Leftmost, it takes the rebuilt spine
/// from the stack as the left side of its bottom-left node.
proof fn lemma_body_run(t: Tree, r: nat, lm: bool, ops: Seq<Op>, s: Seq<ProofTree>, sp: ProofTree) -> (x: ProofTree)
    requires
        trunk_body_spec(t, r, lm) is Ok,
        ops_view(ops) == trunk_body_spec(t, r, lm)->Ok_0,
        leaves_full(t, r),
        lm ==> is_spine(sp, spine_node(t, r)) && spine_node(t, r).left is Some,
    ensures
        run(if lm { s.push(sp) } else { s }, ops, false) == Ok::<Seq<ProofTree>, Error>(s.push(x)),
        x.node is KV,
        complete(x, r + 1, lm),
        lm ==> spine_height(x) == Some(r + 1 + left_spine_len(spine_node(t, r))),
    decreases r,
{
    let v = trunk_body_spec(t, r, lm)->Ok_0;
    let kv = OpV::Push(NodeV::KV(t.key@, t.value@));
    if r == 0 {
        let rh = link_hash_result(*t.right.unwrap())->Ok_0;
        let tail = seq![kv, OpV::Parent, OpV::Push(NodeV::Hash(rh)), OpV::Child];
        if lm {
            assert(v =~= tail);
            assert forall|i: int| 0 <= i < 4 implies ops_view(ops)[i] == #[trigger] ops[i]@ by {}
            let x = lemma_own(s, ops, true, true, sp, false);
            assert(complete(sp, 0, true));
            assert(complete(single(ops[2]->Push_0), 0, false));
            lemma_spine_height(sp, t);
            assert(!(sp.node is Hash));
            x
        } else {
            let lh = link_hash_result(*t.left.unwrap())->Ok_0;
            let head = seq![OpV::Push(NodeV::Hash(lh))];
            assert(v =~= head + tail);
            lemma_split(ops, head, tail);
            let oh = ops.subrange(0, 1);
            let ot = ops.subrange(1, ops.len() as int);
            assert(ops_view(oh)[0] == oh[0]@);
            assert forall|i: int| 0 <= i < 4 implies ops_view(ot)[i] == #[trigger] ot[i]@ by {}
            lemma_run_one(s, oh[0], false);
            assert(oh == seq![oh[0]]);
            let hn = single(oh[0]->Push_0);
            lemma_run_concat(s, oh, ot, false);
            let x = lemma_own(s, ot, true, true, hn, false);
            assert(complete(hn, 0, false));
            assert(complete(single(ot[2]->Push_0), 0, false));
            x
        }
    } else {
        let c = loaded(t.left).unwrap();
        let rc = loaded(t.right).unwrap();
        let r1 = (r - 1) as nat;
        let lops = trunk_body_spec(c, r1, lm)->Ok_0;
        let rops = trunk_body_spec(rc, r1, false)->Ok_0;
        let m = seq![kv, OpV::Parent];
        let rest = rops + seq![OpV::Child];
        assert(v =~= lops + (m + rest));
        lemma_split(ops, lops, m + rest);
        let ol = ops.subrange(0, lops.len() as int);
        let omr = ops.subrange(lops.len() as int, ops.len() as int);
        lemma_split(omr, m, rest);
        let om = omr.subrange(0, 2);
        let orest = omr.subrange(2, omr.len() as int);
        assert(rest =~= rops + seq![OpV::Child]);
        lemma_split(orest, rops, seq![OpV::Child]);
        let orr = orest.subrange(0, rops.len() as int);
        let oc = orest.subrange(rops.len() as int, orest.len() as int);
        if lm {
            assert(spine_node(t, r) == spine_node(c, r1));
        }
        let xl = lemma_body_run(c, r1, lm, ol, s, sp);
        assert(ops_view(om)[0] == om[0]@);
        assert(ops_view(om)[1] == om[1]@);
        let p = lemma_own(s, om, true, false, xl, false);
        let xr = lemma_body_run(rc, r1, false, orr, s.push(p), sp);
        assert(ops_view(oc)[0] == oc[0]@);
        lemma_run_one(s.push(p).push(xr), oc[0], false);
        assert(oc == seq![oc[0]]);
        let x = attach(p, xr, false);
        let s3 = s.push(p).push(xr);
        assert(s3.subrange(0, s3.len() - 2) == s);
        assert(combine(s3, false) == Ok::<Seq<ProofTree>, Error>(s.push(x)));
        let s0 = if lm { s.push(sp) } else { s };
        lemma_run_concat(s0, ol, omr, false);
        lemma_run_concat(s.push(xl), om, orest, false);
        lemma_run_concat(s.push(p), orr, oc, false);
        assert(!(xl.node is Hash));
        x
    }
}

/// A trunk proof built from a tree passes the trunk check, where the build
/// succeeds, the tree's left spine has an odd number of nodes, at least
/// three, and every node at the trunk's bottom level has two children. (For
/// an even spine the check expects a level the proof does not have.)
pub proof fn lemma_trunk_round_trip(t: Tree, ops: Seq<Op>)
    requires
        trunk_proof_spec(t) is Ok,
        ops_view(ops) == trunk_proof_spec(t)->Ok_0,
        left_spine_len(t) % 2 == 1,
        left_spine_len(t) >= 3,
        leaves_full(t, left_spine_len(t) / 2),
    ensures
        verify_trunk_spec(ops) is Ok,
{
    let (hops, th) = height_proof_spec(t, 1)->Ok_0;
    let bops = trunk_body_spec(t, th, true)->Ok_0;
    lemma_split(ops, hops, bops);
    let oh = ops.subrange(0, hops.len() as int);
    let ob = ops.subrange(hops.len() as int, ops.len() as int);
    let sp = lemma_height_run(t, 1, oh, Seq::empty());
    let d = left_spine_len(t);
    assert(th == d / 2);
    assert(th >= 1);
    let l = spine_node(t, th);
    lemma_spine_node_len(t, th);
    assert(left_spine_len(l) == th + 1);
    assert(l.left is Some);
    let x = lemma_body_run(t, th, true, ob, Seq::empty(), sp);
    assert(Seq::<ProofTree>::empty().push(sp) == seq![sp]);
    lemma_run_concat(Seq::empty(), oh, ob, false);
    assert(run(Seq::empty(), ops, false) == Ok::<Seq<ProofTree>, Error>(seq![x]));
    assert(execute_spec(ops, false) == Ok::<ProofTree, Error>(x));
    assert(spine_height(x) == Some(d + 1));
    assert((d + 1) / 2 == th + 1);
    assert(trunk_shape(x));
}

/// The subtree under a stored link.
pub open spec fn stored_child(l: Option<Box<Link>>) -> Option<Tree> {
    match l {
        Some(b) => match *b {
            Link::Stored { tree, .. } => Some(tree),
            _ => None,
        },
        None => None,
    }
}

/// Number of nodes reached through stored links.
pub open spec fn tree_size(t: Tree) -> nat
    decreases t,
{
    let l = match t.left {
        Some(b) => match *b {
            Link::Stored { tree, .. } => tree_size(tree),
            _ => 0,
        },
        None => 0,
    };
    let r = match t.right {
        Some(b) => match *b {
            Link::Stored { tree, .. } => tree_size(tree),
            _ => 0,
        },
        None => 0,
    };
    1 + l + r
}

/// Every link is stored with its subtree's digest, and every cached
/// key/value digest matches its pair.
pub open spec fn committed(t: Tree) -> bool
    decreases t,
{
    &&& t.wf()
    &&& match t.left {
        Some(b) => match *b {
            Link::Stored { hash, tree, .. } => hash@ == tree.hash_spec() && committed(tree),
            _ => false,
        },
        None => true,
    }
    &&& match t.right {
        Some(b) => match *b {
            Link::Stored { hash, tree, .. } => hash@ == tree.hash_spec() && committed(tree),
            _ => false,
        },
        None => true,
    }
}

/// Largest key of a subtree.
pub open spec fn max_key(t: Tree) -> Seq<u8>
    decreases t,
{
    match t.right {
        Some(b) => match *b {
            Link::Stored { tree, .. } => max_key(tree),
            _ => t.key@,
        },
        None => t.key@,
    }
}

/// Smallest key of a subtree.
pub open spec fn min_key(t: Tree) -> Seq<u8>
    decreases t,
{
    match t.left {
        Some(b) => match *b {
            Link::Stored { tree, .. } => min_key(tree),
            _ => t.key@,
        },
        None => t.key@,
    }
}

/// Keys increase in order: every key on the left is smaller than the
/// node's, every key on the right larger.
pub open spec fn bst(t: Tree) -> bool
    decreases t,
{
    &&& match t.left {
        Some(b) => match *b {
            Link::Stored { tree, .. } => bst(tree) && lex_lt(max_key(tree), t.key@),
            _ => true,
        },
        None => true,
    }
    &&& match t.right {
        Some(b) => match *b {
            Link::Stored { tree, .. } => bst(tree) && lex_lt(t.key@, min_key(tree)),
            _ => true,
        },
        None => true,
    }
}

/// From `pos` on, `nodes` holds the nodes of `t` in key order, each with
/// the root keys of its children.
pub open spec fn lists(nodes: Seq<StoredNode>, pos: int, t: Tree) -> bool
    decreases t,
{
    let nl = match stored_child(t.left) {
        Some(c) => tree_size(c) as int,
        None => 0,
    };
    let n = nodes[pos + nl];
    &&& 0 <= pos
    &&& pos + tree_size(t) <= nodes.len()
    &&& n.key@ == t.key@
    &&& n.value@ == t.value@
    &&& (n.left_key is Some <==> t.left is Some)
    &&& match t.left {
        Some(b) => match *b {
            Link::Stored { tree, .. } => lists(nodes, pos, tree),
            _ => false,
        },
        None => true,
    }
    &&& match t.right {
        Some(b) => match *b {
            Link::Stored { tree, .. } => (n.right_key matches Some(rk) && rk@ == tree.key@) && lists(
                nodes,
                pos + nl + 1,
                tree,
            ),
            _ => false,
        },
        None => n.right_key is None,
    }
}

/// Keys of the key/value nodes of a rebuilt tree, in order.
pub open spec fn kv_keys(x: ProofTree) -> Seq<Seq<u8>>
    decreases x,
{
    let l = match x.left {
        Some(b) => kv_keys(*b),
        None => Seq::empty(),
    };
    let r = match x.right {
        Some(b) => kv_keys(*b),
        None => Seq::empty(),
    };
    let k = match x.node {
        Node::KV(k, _) => seq![k@],
        _ => Seq::empty(),
    };
    l + k + r
}

/// Keys of a subtree in order.
pub open spec fn tree_keys(t: Tree) -> Seq<Seq<u8>>
    decreases t,
{
    let l = match t.left {
        Some(b) => match *b {
            Link::Stored { tree, .. } => tree_keys(tree),
            _ => Seq::empty(),
        },
        None => Seq::empty(),
    };
    let r = match t.right {
        Some(b) => match *b {
            Link::Stored { tree, .. } => tree_keys(tree),
            _ => Seq::empty(),
        },
        None => Seq::empty(),
    };
    l + seq![t.key@] + r
}

/// Instructions that rebuild `t` from its key/value pairs in key order.
pub open spec fn leaf_ops(t: Tree) -> Seq<OpV>
    decreases t,
{
    let kv = OpV::Push(NodeV::KV(t.key@, t.value@));
    let lo = match t.left {
        Some(b) => match *b {
            Link::Stored { tree, .. } => leaf_ops(tree).push(kv).push(OpV::Parent),
            _ => seq![kv],
        },
        None => seq![kv],
    };
    match t.right {
        Some(b) => match *b {
            Link::Stored { tree, .. } => lo + leaf_ops(tree).push(OpV::Child),
            _ => lo,
        },
        None => lo,
    }
}

#[verifier::rlimit(60)]
proof fn lemma_run_leaf(t: Tree, ops: Seq<Op>, s: Seq<ProofTree>) -> (x: ProofTree)
    requires
        committed(t),
        ops_view(ops) == leaf_ops(t),
    ensures
        run(s, ops, true) == Ok::<Seq<ProofTree>, Error>(s.push(x)),
        x.all_kv(),
        x.hash_spec() == t.hash_spec(),
        kv_keys(x) == tree_keys(t),
    decreases tree_size(t),
{
    let kv = OpV::Push(NodeV::KV(t.key@, t.value@));
    let v = leaf_ops(t);
    let has_left = t.left is Some;
    let m = if has_left { seq![kv, OpV::Parent] } else { seq![kv] };
    let lops = match stored_child(t.left) {
        Some(c) => leaf_ops(c),
        None => Seq::empty(),
    };
    let rest = match stored_child(t.right) {
        Some(c) => leaf_ops(c).push(OpV::Child),
        None => Seq::empty(),
    };
    assert(v =~= lops + (m + rest));
    lemma_split(ops, lops, m + rest);
    let ol = ops.subrange(0, lops.len() as int);
    let omr = ops.subrange(lops.len() as int, ops.len() as int);
    lemma_split(omr, m, rest);
    let om = omr.subrange(0, m.len() as int);
    let orest = omr.subrange(m.len() as int, omr.len() as int);
    assert(ops_view(om)[0] == om[0]@);
    if has_left {
        assert(ops_view(om)[1] == om[1]@);
    }
    let xl = if has_left {
        lemma_run_leaf(stored_child(t.left).unwrap(), ol, s)
    } else {
        single(om[0]->Push_0)
    };
    if !has_left {
        assert(ol.len() == 0);
        assert(ops == ol + omr);
        assert(ol + omr == omr);
    }
    lemma_run_concat(s, ol, omr, true);
    lemma_run_concat(if has_left { s.push(xl) } else { s }, om, orest, true);
    let p = lemma_own(s, om, has_left, false, xl, true);
    if t.right is Some {
        let rc = stored_child(t.right).unwrap();
        let rops = leaf_ops(rc);
        assert(rest =~= rops + seq![OpV::Child]);
        lemma_split(orest, rops, seq![OpV::Child]);
        let orr = orest.subrange(0, rops.len() as int);
        let oc = orest.subrange(rops.len() as int, orest.len() as int);
        let xr = lemma_run_leaf(rc, orr, s.push(p));
        assert(ops_view(oc)[0] == oc[0]@);
        lemma_run_one(s.push(p).push(xr), oc[0], true);
        assert(oc == seq![oc[0]]);
        let x = attach(p, xr, false);
        let s3 = s.push(p).push(xr);
        assert(s3.subrange(0, s3.len() - 2) == s);
        assert(combine(s3, false) == Ok::<Seq<ProofTree>, Error>(s.push(x)));
        lemma_run_concat(s.push(p), orr, oc, true);
        assert(kv_keys(x) =~= tree_keys(t));
        x
    } else {
        assert(kv_keys(p) =~= tree_keys(t));
        assert(orest.len() == 0);
        assert(run(s.push(p), orest, true) == Ok::<Seq<ProofTree>, Error>(s.push(p)));
        p
    }
}

proof fn lemma_lex_irrefl(a: Seq<u8>, i: nat)
    ensures
        !lex_lt_from(a, a, i),
    decreases a.len() - i,
{
    if i < a.len() {
        lemma_lex_irrefl(a, i + 1);
    }
}

proof fn lemma_lex_trans(a: Seq<u8>, b: Seq<u8>, c: Seq<u8>, i: nat)
    requires
        lex_lt_from(a, b, i),
        lex_lt_from(b, c, i),
    ensures
        lex_lt_from(a, c, i),
    decreases a.len() - i,
{
    if i < a.len() && i < b.len() && i < c.len() && a[i as int] == b[i as int] && b[i as int] == c[i as int] {
        lemma_lex_trans(a, b, c, i + 1);
    }
}

proof fn lemma_lex_asym(a: Seq<u8>, b: Seq<u8>)
    requires
        lex_lt(a, b),
    ensures
        !lex_lt(b, a),
{
    if lex_lt(b, a) {
        lemma_lex_trans(a, b, a, 0);
        lemma_lex_irrefl(a, 0);
    }
}

/// The node's key lies between the smallest and the largest key.
proof fn lemma_key_bounds(t: Tree)
    requires
        bst(t),
    ensures
        min_key(t) == t.key@ || lex_lt(min_key(t), t.key@),
        max_key(t) == t.key@ || lex_lt(t.key@, max_key(t)),
    decreases tree_size(t),
{
    if let Some(c) = stored_child(t.left) {
        lemma_key_bounds(c);
        lemma_min_le_max(c);
        if min_key(c) != max_key(c) {
            lemma_lex_trans(min_key(c), max_key(c), t.key@, 0);
        }
    }
    if let Some(c) = stored_child(t.right) {
        lemma_key_bounds(c);
        lemma_min_le_max(c);
        if min_key(c) != max_key(c) {
            lemma_lex_trans(t.key@, min_key(c), max_key(c), 0);
        }
    }
}

proof fn lemma_min_le_max(c: Tree)
    requires
        min_key(c) == c.key@ || lex_lt(min_key(c), c.key@),
        max_key(c) == c.key@ || lex_lt(c.key@, max_key(c)),
    ensures
        min_key(c) == max_key(c) || lex_lt(min_key(c), max_key(c)),
{
    if min_key(c) != c.key@ && max_key(c) != c.key@ {
        lemma_lex_trans(min_key(c), c.key@, max_key(c), 0);
    }
}

proof fn lemma_pop_count_le(key: Seq<u8>, st: Seq<Seq<u8>>)
    ensures
        pop_count(key, st) <= st.len(),
    decreases st.len(),
{
    if st.len() > 0 {
        lemma_pop_count_le(key, st.drop_last());
    }
}

/// No key in `nodes[pos..pos + n]` is the end key.
pub open spec fn before_end(nodes: Seq<StoredNode>, pos: int, n: nat, end: Option<Seq<u8>>) -> bool {
    forall|i: int| pos <= i < pos + n ==> end != Some(#[trigger] nodes[i].key@)
}

/// Reading the nodes of `t` in order emits the instructions that rebuild
/// `t`, then one `Child` for each enclosing right subtree that ends with
/// `t`: its own, where `t` is a right child whose key tops the stack, and
/// those of the pending keys that its largest key closes.
#[verifier::rlimit(80)]
proof fn lemma_stream(nodes: Seq<StoredNode>, pos: int, end: Option<Seq<u8>>, t: Tree, st: Seq<Seq<u8>>, is_right: bool)
    requires
        lists(nodes, pos, t),
        bst(t),
        before_end(nodes, pos, tree_size(t), end),
        is_right ==> st.len() > 0 && st.last() == t.key@,
        !is_right ==> st.len() == 0 || lex_lt(max_key(t), st.last()),
    ensures
        ({
            let s1 = if is_right { st.drop_last() } else { st };
            let c = pop_count(max_key(t), s1);
            let s2 = s1.subrange(0, s1.len() - c);
            let k = c + if is_right { 1nat } else { 0nat };
            let after = chunk_from(nodes, pos + tree_size(t), end, s2);
            chunk_from(nodes, pos, end, st) == (leaf_ops(t) + Seq::new(k, |i: int| OpV::Child) + after.0, after.1)
        }),
    decreases tree_size(t),
{
    let s1 = if is_right { st.drop_last() } else { st };
    let c = pop_count(max_key(t), s1);
    let s2 = s1.subrange(0, s1.len() - c);
    let k = c + if is_right { 1nat } else { 0nat };
    let kv = OpV::Push(NodeV::KV(t.key@, t.value@));
    lemma_key_bounds(t);
    let nl: int = match stored_child(t.left) {
        Some(cl) => tree_size(cl) as int,
        None => 0,
    };
    let q = pos + nl;
    let lops = match stored_child(t.left) {
        Some(cl) => leaf_ops(cl),
        None => Seq::empty(),
    };
    // the left subtree closes nothing
    if let Some(cl) = stored_child(t.left) {
        if !is_right && st.len() > 0 {
            if max_key(t) != t.key@ {
                lemma_lex_trans(max_key(cl), t.key@, max_key(t), 0);
                lemma_lex_trans(max_key(cl), max_key(t), st.last(), 0);
            } else {
                lemma_lex_trans(max_key(cl), t.key@, st.last(), 0);
            }
        }
        assert(before_end(nodes, pos, tree_size(cl), end));
        lemma_stream(nodes, pos, end, cl, st, false);
        assert(pop_count(max_key(cl), st) == 0);
        assert(st.subrange(0, st.len() - 0) == st);
        assert(Seq::new(0, |i: int| OpV::Child) + chunk_from(nodes, q, end, st).0 == chunk_from(nodes, q, end, st).0);
    } else {
        assert(lops + chunk_from(nodes, q, end, st).0 == chunk_from(nodes, q, end, st).0);
    }
    assert(chunk_from(nodes, pos, end, st).0 == lops + chunk_from(nodes, q, end, st).0);
    assert(chunk_from(nodes, pos, end, st).1 == chunk_from(nodes, q, end, st).1);
    // the node itself
    let n = nodes[q];
    assert(end != Some(nodes[q].key@));
    let (nops, sq) = node_step(n, st);
    assert(chunk_from(nodes, q, end, st) == (nops + chunk_from(nodes, q + 1, end, sq).0, chunk_from(nodes, q + 1, end, sq).1));
    let m = if t.left is Some { seq![kv, OpV::Parent] } else { seq![kv] };
    if let Some(cr) = stored_child(t.right) {
        assert(nops =~= m);
        assert(sq == st.push(cr.key@));
        assert(before_end(nodes, q + 1, tree_size(cr), end));
        assert(max_key(t) == max_key(cr));
        if is_right {
            lemma_key_bounds(cr);
            lemma_min_le_max(cr);
            if min_key(cr) != max_key(cr) {
                lemma_lex_trans(t.key@, min_key(cr), max_key(cr), 0);
            }
            lemma_lex_asym(t.key@, max_key(t));
            lemma_pop_count_le(max_key(t), s1);
            assert(st.drop_last() == s1);
            assert(pop_count(max_key(cr), st) == 1 + c);
            assert(st.subrange(0, st.len() - (1 + c)) =~= s2);
        } else {
            assert(pop_count(max_key(cr), st) == 0);
            assert(st.subrange(0, st.len() - 0) =~= s2);
        }
        lemma_stream(nodes, q + 1, end, cr, sq, true);
        assert(sq.drop_last() == st);
        let after = chunk_from(nodes, pos + tree_size(t), end, s2);
        assert(Seq::new(k + 1, |i: int| OpV::Child) =~= seq![OpV::Child] + Seq::new(k, |i: int| OpV::Child));
        assert(leaf_ops(t) =~= lops + m + leaf_ops(cr).push(OpV::Child));
        assert(lops + (m + (leaf_ops(cr) + Seq::new(k + 1, |i: int| OpV::Child) + after.0)) =~= leaf_ops(t)
            + Seq::new(k, |i: int| OpV::Child) + after.0);
    } else {
        assert(max_key(t) == t.key@);
        if is_right {
            lemma_lex_irrefl(t.key@, 0);
            lemma_pop_count_le(max_key(t), s1);
            assert(st.drop_last() == s1);
            assert(pop_count(t.key@, st) == 1 + c);
            assert(st.subrange(0, st.len() - (1 + c)) =~= s2);
        } else {
            assert(pop_count(t.key@, st) == 0);
            assert(st.subrange(0, st.len() - 0) =~= s2);
        }
        assert(nops =~= m + Seq::new(k, |i: int| OpV::Child));
        assert(sq == s2);
        assert(q + 1 == pos + tree_size(t));
        assert(leaf_ops(t) =~= lops + m);
        let after = chunk_from(nodes, pos + tree_size(t), end, s2);
        assert(lops + (m + Seq::new(k, |i: int| OpV::Child) + after.0) =~= leaf_ops(t) + Seq::new(k, |i: int| OpV::Child)
            + after.0);
    }
}

/// Reading a full subtree's nodes as one leaf chunk and checking it
/// against the subtree's digest succeeds, and gives back a tree of
/// key/value nodes only, holding the subtree's keys in order: where the nodes of a committed, ordered subtree
/// stand in key order from `pos`, with the end key, if any, the key right
/// after them. Reading stops right after the subtree.
pub proof fn lemma_leaf_round_trip(t: Tree, nodes: Seq<StoredNode>, pos: int, end: Option<Seq<u8>>, ops: Seq<Op>)
    requires
        committed(t),
        bst(t),
        lists(nodes, pos, t),
        before_end(nodes, pos, tree_size(t), end),
        pos + tree_size(t) == nodes.len() || end == Some(nodes[pos + tree_size(t)].key@),
        ops_view(ops) == chunk_from(nodes, pos, end, Seq::empty()).0,
    ensures
        verify_leaf_spec(ops, t.hash_spec()) matches Ok(x) && x.all_kv() && x.hash_spec() == t.hash_spec()
            && kv_keys(x) == tree_keys(t),
        chunk_from(nodes, pos, end, Seq::empty()).1 == pos + tree_size(t),
{
    let e = Seq::<Seq<u8>>::empty();
    lemma_stream(nodes, pos, end, t, e, false);
    assert(e.subrange(0, 0) == e);
    let after = chunk_from(nodes, pos + tree_size(t), end, e);
    assert(after == (Seq::<OpV>::empty(), pos + tree_size(t)));
    assert(ops_view(ops) =~= leaf_ops(t));
    let none = Seq::<ProofTree>::empty();
    let x = lemma_run_leaf(t, ops, none);
    assert(none.push(x) == seq![x]);
    assert(execute_spec(ops, true) == Ok::<ProofTree, Error>(x));
}

/// The most trees the stack holds while instructions run from `st`, up to
/// the first failure.
pub open spec fn max_depth(st: Seq<ProofTree>, ops: Seq<Op>, kv: bool) -> nat
    decreases ops.len(),
{
    if ops.len() == 0 {
        st.len()
    } else {
        match step(st, ops[0], kv) {
            Ok(s2) => {
                let rest = max_depth(s2, ops.drop_first(), kv);
                if rest >= st.len() {
                    rest
                } else {
                    st.len()
                }
            },
            Err(_) => st.len(),
        }
    }
}

/// Height of a subtree through its stored links.
pub open spec fn tree_height(t: Tree) -> nat
    decreases t,
{
    let l = match t.left {
        Some(b) => match *b {
            Link::Stored { tree, .. } => tree_height(tree),
            _ => 0,
        },
        None => 0,
    };
    let r = match t.right {
        Some(b) => match *b {
            Link::Stored { tree, .. } => tree_height(tree),
            _ => 0,
        },
        None => 0,
    };
    1 + if l >= r { l } else { r }
}

proof fn lemma_depth_concat(st: Seq<ProofTree>, a: Seq<Op>, b: Seq<Op>, kv: bool)
    requires
        run(st, a, kv) is Ok,
    ensures
        max_depth(st, a + b, kv) <= if max_depth(st, a, kv) >= max_depth(run(st, a, kv)->Ok_0, b, kv) {
            max_depth(st, a, kv)
        } else {
            max_depth(run(st, a, kv)->Ok_0, b, kv)
        },
    decreases a.len(),
{
    if a.len() == 0 {
        assert(a + b == b);
    } else {
        assert((a + b)[0] == a[0]);
        assert((a + b).drop_first() == a.drop_first() + b);
        let s2 = step(st, a[0], kv)->Ok_0;
        lemma_depth_concat(s2, a.drop_first(), b, kv);
    }
}

proof fn lemma_depth_short(st: Seq<ProofTree>, o: Seq<Op>, kv: bool)
    requires
        1 <= o.len() <= 2,
        o.len() == 2 ==> !(o[1] is Push),
        run(st, o, kv) is Ok,
    ensures
        max_depth(st, o, kv) <= st.len() + if o[0] is Push { 1nat } else { 0nat },
{
    reveal_with_fuel(max_depth, 3);
    reveal_with_fuel(run, 3);
    if o.len() == 2 {
        assert(o.drop_first().drop_first().len() == 0);
    } else if o.len() == 1 {
        assert(o.drop_first().len() == 0);
    }
}

proof fn lemma_leaf_depth(t: Tree, ops: Seq<Op>, s: Seq<ProofTree>)
    requires
        committed(t),
        ops_view(ops) == leaf_ops(t),
    ensures
        max_depth(s, ops, true) <= s.len() + tree_height(t),
    decreases tree_size(t),
{
    let kv = OpV::Push(NodeV::KV(t.key@, t.value@));
    let has_left = t.left is Some;
    let m = if has_left { seq![kv, OpV::Parent] } else { seq![kv] };
    let lops = match stored_child(t.left) {
        Some(c) => leaf_ops(c),
        None => Seq::empty(),
    };
    let rest = match stored_child(t.right) {
        Some(c) => leaf_ops(c).push(OpV::Child),
        None => Seq::empty(),
    };
    assert(leaf_ops(t) =~= lops + (m + rest));
    lemma_split(ops, lops, m + rest);
    let ol = ops.subrange(0, lops.len() as int);
    let omr = ops.subrange(lops.len() as int, ops.len() as int);
    lemma_split(omr, m, rest);
    let om = omr.subrange(0, m.len() as int);
    let orest = omr.subrange(m.len() as int, omr.len() as int);
    assert(ops_view(om)[0] == om[0]@);
    if has_left {
        assert(ops_view(om)[1] == om[1]@);
    }
    let xl = if has_left {
        let c = stored_child(t.left).unwrap();
        lemma_leaf_depth(c, ol, s);
        lemma_run_leaf(c, ol, s)
    } else {
        assert(ol.len() == 0);
        single(om[0]->Push_0)
    };
    let s1 = if has_left { s.push(xl) } else { s };
    if !has_left {
        assert(ops == ol + omr);
        assert(ol + omr == omr);
    }
    let p = lemma_own(s, om, has_left, false, xl, true);
    lemma_depth_short(s1, om, true);
    lemma_depth_concat(s, ol, omr, true);
    lemma_depth_concat(s1, om, orest, true);
    assert(run(s, ol, true) == Ok::<Seq<ProofTree>, Error>(s1));
    assert(max_depth(s, ol, true) <= s.len() + tree_height(t));
    assert(max_depth(s1, om, true) <= s.len() + tree_height(t));
    if t.right is Some {
        let rc = stored_child(t.right).unwrap();
        let rops = leaf_ops(rc);
        assert(rest =~= rops + seq![OpV::Child]);
        lemma_split(orest, rops, seq![OpV::Child]);
        let orr = orest.subrange(0, rops.len() as int);
        let oc = orest.subrange(rops.len() as int, orest.len() as int);
        lemma_leaf_depth(rc, orr, s.push(p));
        let xr = lemma_run_leaf(rc, orr, s.push(p));
        assert(ops_view(oc)[0] == oc[0]@);
        lemma_run_one(s.push(p).push(xr), oc[0], true);
        assert(oc == seq![oc[0]]);
        let s3 = s.push(p).push(xr);
        assert(s3.subrange(0, s3.len() - 2) == s);
        lemma_depth_short(s3, oc, true);
        lemma_depth_concat(s.push(p), orr, oc, true);
        assert(max_depth(s.push(p), orest, true) <= s.len() + tree_height(t));
    } else {
        assert(orest.len() == 0);
        assert(max_depth(s.push(p), orest, true) == s.len() + 1);
    }
}

/// While the leaf chunk of a committed, ordered subtree runs, the stack
/// never holds more trees than the subtree is high.
pub proof fn lemma_leaf_stack_bound(t: Tree, nodes: Seq<StoredNode>, pos: int, end: Option<Seq<u8>>, ops: Seq<Op>)
    requires
        committed(t),
        bst(t),
        lists(nodes, pos, t),
        before_end(nodes, pos, tree_size(t), end),
        pos + tree_size(t) == nodes.len() || end == Some(nodes[pos + tree_size(t)].key@),
        ops_view(ops) == chunk_from(nodes, pos, end, Seq::empty()).0,
    ensures
        max_depth(Seq::empty(), ops, true) <= tree_height(t),
{
    let e = Seq::<Seq<u8>>::empty();
    lemma_stream(nodes, pos, end, t, e, false);
    assert(e.subrange(0, 0) == e);
    assert(ops_view(ops) =~= leaf_ops(t));
    lemma_leaf_depth(t, ops, Seq::empty());
}

/// Height of a tree through its loaded links.
pub open spec fn loaded_height(t: Tree) -> nat
    decreases t,
{
    let l = match t.left {
        Some(b) => match *b {
            Link::Stored { tree, .. } => loaded_height(tree),
            Link::Modified { tree, .. } => loaded_height(tree),
            _ => 0,
        },
        None => 0,
    };
    let r = match t.right {
        Some(b) => match *b {
            Link::Stored { tree, .. } => loaded_height(tree),
            Link::Modified { tree, .. } => loaded_height(tree),
            _ => 0,
        },
        None => 0,
    };
    1 + if l >= r { l } else { r }
}

proof fn lemma_spine_le_height(t: Tree)
    ensures
        left_spine_len(t) <= loaded_height(t),
    decreases t,
{
    match t.left {
        Some(b) => match *b {
            Link::Stored { tree, .. } => lemma_spine_le_height(tree),
            Link::Modified { tree, .. } => lemma_spine_le_height(tree),
            _ => {},
        },
        None => {},
    }
}

proof fn lemma_height_depth(t: Tree, d: nat, ops: Seq<Op>, s: Seq<ProofTree>)
    requires
        d >= 1,
        height_proof_spec(t, d) is Ok,
        ops_view(ops) == height_proof_spec(t, d)->Ok_0.0,
    ensures
        max_depth(s, ops, false) <= s.len() + 2,
    decreases left_spine_len(t),
{
    let (v, th) = height_proof_spec(t, d)->Ok_0;
    let has_left = t.left is Some;
    let has_right = t.right is Some;
    let w0 = if has_left { seq![OpV::Push(NodeV::KVHash(t.kv_hash@)), OpV::Parent] } else { seq![
        OpV::Push(NodeV::KVHash(t.kv_hash@)),
    ] };
    let w2 = match t.right {
        Some(b) => seq![OpV::Push(NodeV::Hash(link_hash_result(*b)->Ok_0)), OpV::Child],
        None => Seq::empty(),
    };
    if !has_left {
        assert(v =~= w0 + w2);
        lemma_split(ops, w0, w2);
        let o0 = ops.subrange(0, w0.len() as int);
        let o2 = ops.subrange(w0.len() as int, ops.len() as int);
        assert(ops_view(o0)[0] == o0[0]@);
        lemma_run_one(s, o0[0], false);
        assert(o0 == seq![o0[0]]);
        lemma_depth_short(s, o0, false);
        lemma_depth_concat(s, o0, o2, false);
        if has_right {
            assert(ops_view(o2)[0] == o2[0]@);
            assert(ops_view(o2)[1] == o2[1]@);
            lemma_tail_depth(s, single(o0[0]->Push_0), o2);
        }
    } else {
        let c = loaded(t.left).unwrap();
        let (vc, thc) = height_proof_spec(c, d + 1)->Ok_0;
        if d > th {
            assert(v =~= vc + (w0 + w2));
            lemma_split(ops, vc, w0 + w2);
            let oc = ops.subrange(0, vc.len() as int);
            let ow = ops.subrange(vc.len() as int, ops.len() as int);
            lemma_height_depth(c, d + 1, oc, s);
            let xc = lemma_height_run(c, d + 1, oc, s);
            lemma_split(ow, w0, w2);
            let o0 = ow.subrange(0, 2);
            let o2 = ow.subrange(2, ow.len() as int);
            assert(ops_view(o0)[0] == o0[0]@);
            assert(ops_view(o0)[1] == o0[1]@);
            let p = lemma_own(s, o0, true, false, xc, false);
            lemma_depth_short(s.push(xc), o0, false);
            lemma_depth_concat(s, oc, ow, false);
            lemma_depth_concat(s.push(xc), o0, o2, false);
            if has_right {
                assert(ops_view(o2)[0] == o2[0]@);
                assert(ops_view(o2)[1] == o2[1]@);
                lemma_tail_depth(s, p, o2);
            } else {
                assert(o2.len() == 0);
            }
        } else {
            lemma_height_depth(c, d + 1, ops, s);
        }
    }
}

proof fn lemma_tail_depth(s: Seq<ProofTree>, p: ProofTree, o2: Seq<Op>)
    requires
        o2.len() == 2,
        o2[0] is Push,
        o2[1] is Child,
        p.right is None,
    ensures
        run(s.push(p), o2, false) is Ok,
        max_depth(s.push(p), o2, false) <= s.len() + 2,
{
    lemma_run_one(s.push(p), o2[0], false);
    let s3 = s.push(p).push(single(o2[0]->Push_0));
    lemma_run_one(s3, o2[1], false);
    assert(s3[s3.len() - 2] == p);
    assert(combine(s3, false) is Ok);
    lemma_run_concat(s.push(p), seq![o2[0]], seq![o2[1]], false);
    assert(o2 == seq![o2[0]] + seq![o2[1]]);
    lemma_depth_short(s.push(p), o2, false);
}

#[verifier::rlimit(60)]
proof fn lemma_body_depth(t: Tree, r: nat, lm: bool, ops: Seq<Op>, s: Seq<ProofTree>, sp: ProofTree)
    requires
        trunk_body_spec(t, r, lm) is Ok,
        ops_view(ops) == trunk_body_spec(t, r, lm)->Ok_0,
        leaves_full(t, r),
        lm ==> is_spine(sp, spine_node(t, r)) && spine_node(t, r).left is Some,
    ensures
        max_depth(if lm { s.push(sp) } else { s }, ops, false) <= s.len() + r + 2,
    decreases r,
{
    let v = trunk_body_spec(t, r, lm)->Ok_0;
    let kv = OpV::Push(NodeV::KV(t.key@, t.value@));
    let s0 = if lm { s.push(sp) } else { s };
    if r == 0 {
        let rh = link_hash_result(*t.right.unwrap())->Ok_0;
        let m = seq![kv, OpV::Parent];
        let tail = seq![OpV::Push(NodeV::Hash(rh)), OpV::Child];
        let head = if lm { Seq::<OpV>::empty() } else { seq![OpV::Push(NodeV::Hash(link_hash_result(*t.left.unwrap())->Ok_0))] };
        assert(v =~= head + (m + tail));
        lemma_split(ops, head, m + tail);
        let oh = ops.subrange(0, head.len() as int);
        let omt = ops.subrange(head.len() as int, ops.len() as int);
        lemma_split(omt, m, tail);
        let om = omt.subrange(0, 2);
        let ot = omt.subrange(2, omt.len() as int);
        assert(ops_view(om)[0] == om[0]@);
        assert(ops_view(om)[1] == om[1]@);
        assert(ops_view(ot)[0] == ot[0]@);
        assert(ops_view(ot)[1] == ot[1]@);
        let below = if lm { sp } else { single(oh[0]->Push_0) };
        if !lm {
            assert(ops_view(oh)[0] == oh[0]@);
            lemma_run_one(s, oh[0], false);
            assert(oh == seq![oh[0]]);
            lemma_depth_short(s, oh, false);
        } else {
            assert(oh.len() == 0);
            assert(ops == omt);
        }
        lemma_depth_concat(s0, oh, omt, false);
        let p = lemma_own(s, om, true, false, below, false);
        lemma_depth_short(s.push(below), om, false);
        lemma_depth_concat(s.push(below), om, ot, false);
        lemma_tail_depth(s, p, ot);
    } else {
        let c = loaded(t.left).unwrap();
        let rc = loaded(t.right).unwrap();
        let r1 = (r - 1) as nat;
        let lops = trunk_body_spec(c, r1, lm)->Ok_0;
        let rops = trunk_body_spec(rc, r1, false)->Ok_0;
        let m = seq![kv, OpV::Parent];
        let rest = rops + seq![OpV::Child];
        assert(v =~= lops + (m + rest));
        lemma_split(ops, lops, m + rest);
        let ol = ops.subrange(0, lops.len() as int);
        let omr = ops.subrange(lops.len() as int, ops.len() as int);
        lemma_split(omr, m, rest);
        let om = omr.subrange(0, 2);
        let orest = omr.subrange(2, omr.len() as int);
        lemma_split(orest, rops, seq![OpV::Child]);
        let orr = orest.subrange(0, rops.len() as int);
        let oc = orest.subrange(rops.len() as int, orest.len() as int);
        if lm {
            assert(spine_node(t, r) == spine_node(c, r1));
        }
        lemma_body_depth(c, r1, lm, ol, s, sp);
        let xl = lemma_body_run(c, r1, lm, ol, s, sp);
        assert(ops_view(om)[0] == om[0]@);
        assert(ops_view(om)[1] == om[1]@);
        let p = lemma_own(s, om, true, false, xl, false);
        lemma_depth_short(s.push(xl), om, false);
        lemma_body_depth(rc, r1, false, orr, s.push(p), sp);
        let xr = lemma_body_run(rc, r1, false, orr, s.push(p), sp);
        assert(ops_view(oc)[0] == oc[0]@);
        lemma_run_one(s.push(p).push(xr), oc[0], false);
        assert(oc == seq![oc[0]]);
        let s3 = s.push(p).push(xr);
        assert(s3.subrange(0, s3.len() - 2) == s);
        assert(combine(s3, false) is Ok);
        lemma_depth_short(s3, oc, false);
        lemma_depth_concat(s0, ol, omr, false);
        lemma_depth_concat(s.push(xl), om, orest, false);
        lemma_depth_concat(s.push(p), orr, oc, false);
    }
}

/// While a trunk proof runs, the stack never holds more trees than the
/// tree is high: for the trees on which the trunk check passes (see
/// `lemma_trunk_round_trip`).
pub proof fn lemma_trunk_stack_bound(t: Tree, ops: Seq<Op>)
    requires
        trunk_proof_spec(t) is Ok,
        ops_view(ops) == trunk_proof_spec(t)->Ok_0,
        left_spine_len(t) % 2 == 1,
        left_spine_len(t) >= 3,
        leaves_full(t, left_spine_len(t) / 2),
    ensures
        max_depth(Seq::empty(), ops, false) <= loaded_height(t),
{
    let (hops, th) = height_proof_spec(t, 1)->Ok_0;
    let bops = trunk_body_spec(t, th, true)->Ok_0;
    lemma_split(ops, hops, bops);
    let oh = ops.subrange(0, hops.len() as int);
    let ob = ops.subrange(hops.len() as int, ops.len() as int);
    let e = Seq::<ProofTree>::empty();
    let sp = lemma_height_run(t, 1, oh, e);
    lemma_height_depth(t, 1, oh, e);
    lemma_spine_node_len(t, th);
    lemma_body_depth(t, th, true, ob, e, sp);
    lemma_depth_concat(e, oh, ob, false);
    lemma_spine_le_height(t);
}

} // verus!
