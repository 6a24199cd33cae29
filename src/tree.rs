use vstd::prelude::*;

use crate::hash::{copy_bytes, kv_hash, kv_hash_spec, node_hash, node_hash_spec, null_hash, null_hash_spec};
use crate::link::Link;

verus! {

/// A node of the in-memory authenticated tree: its key, its value, the
/// cached digest of the pair, and an optional link on each side.
pub struct Tree {
    pub key: Vec<u8>,
    pub value: Vec<u8>,
    pub kv_hash: crate::hash::Hash,
    pub left: Option<Box<Link>>,
    pub right: Option<Box<Link>>,
}

/// Digest that a parent sees for an optional child link: the link's digest,
/// or the all-zero digest where there is no child.
pub open spec fn child_hash_spec(l: Option<Box<Link>>) -> Seq<u8> {
    match l {
        Some(b) => b.hash_spec(),
        None => null_hash_spec(),
    }
}

/// Height recorded on an optional child link, 0 where there is no child.
pub open spec fn child_height_spec(l: Option<Box<Link>>) -> nat {
    match l {
        Some(b) => b.height_spec(),
        None => 0,
    }
}

/// Writes pending under an optional child link.
pub open spec fn child_pending_spec(l: Option<Box<Link>>) -> nat {
    match l {
        Some(b) => match *b {
            Link::Modified { pending_writes, .. } => pending_writes as nat,
            _ => 0,
        },
        None => 0,
    }
}

/// A link whose digest is known: present and not modified.
pub open spec fn child_hash_known(l: Option<Box<Link>>) -> bool {
    match l {
        Some(b) => !(*b is Modified),
        None => true,
    }
}

impl Tree {
    /// The cached key/value digest matches the key and value.
    pub open spec fn wf(&self) -> bool {
        self.kv_hash@ == kv_hash_spec(self.key@, self.value@)
    }

    pub open spec fn side(&self, left: bool) -> Option<Box<Link>> {
        if left { self.left } else { self.right }
    }

    pub open spec fn height_spec(&self) -> nat {
        let l = child_height_spec(self.left);
        let r = child_height_spec(self.right);
        1 + if l >= r { l } else { r }
    }

    /// Both child heights leave room for one more level in a `u8`.
    pub open spec fn height_fits(&self) -> bool {
        child_height_spec(self.left) < 255 && child_height_spec(self.right) < 255
    }

    /// Neither child link is modified, so the node's digest is defined.
    pub open spec fn hash_known(&self) -> bool {
        child_hash_known(self.left) && child_hash_known(self.right)
    }

    pub open spec fn hash_spec(&self) -> Seq<u8> {
        node_hash_spec(self.kv_hash@, child_hash_spec(self.left), child_hash_spec(self.right))
    }

    /// A node with no children.
    pub fn new(key: Vec<u8>, value: Vec<u8>) -> (r: Tree)
        ensures
            r.wf(),
            r.key@ == key@,
            r.value@ == value@,
            r.left is None,
            r.right is None,
    {
        let kv = kv_hash(key.as_slice(), value.as_slice());
        Tree { key, value, kv_hash: kv, left: None, right: None }
    }

    /// A node with the given child links.
    pub fn with_links(key: Vec<u8>, value: Vec<u8>, left: Option<Link>, right: Option<Link>) -> (r: Tree)
        ensures
            r.wf(),
            r.key@ == key@,
            r.value@ == value@,
            r.left == (match left { Some(l) => Some(Box::new(l)), None => None::<Box<Link>> }),
            r.right == (match right { Some(l) => Some(Box::new(l)), None => None::<Box<Link>> }),
    {
        let kv = kv_hash(key.as_slice(), value.as_slice());
        let l = match left {
            Some(l) => Some(Box::new(l)),
            None => None,
        };
        let r = match right {
            Some(l) => Some(Box::new(l)),
            None => None,
        };
        Tree { key, value, kv_hash: kv, left: l, right: r }
    }

    pub fn key(&self) -> (r: &[u8])
        ensures
            r@ == self.key@,
    {
        self.key.as_slice()
    }

    pub fn value(&self) -> (r: &[u8])
        ensures
            r@ == self.value@,
    {
        self.value.as_slice()
    }

    /// Gives up the node, keeping its key.
    pub fn take_key(self) -> (r: Vec<u8>)
        ensures
            r@ == self.key@,
    {
        self.key
    }

    /// The link on the given side, if any.
    pub fn link(&self, left: bool) -> (r: Option<&Link>)
        ensures
            match self.side(left) {
                Some(b) => r == Some(&*b),
                None => r is None,
            },
    {
        let side = if left { &self.left } else { &self.right };
        match side {
            Some(b) => Some(&**b),
            None => None,
        }
    }

    /// Height of the node: one more than its taller child.
    pub fn height(&self) -> (r: u8)
        requires
            self.height_fits(),
        ensures
            r as nat == self.height_spec(),
    {
        let l: u8 = match &self.left {
            Some(b) => b.height(),
            None => 0,
        };
        let r: u8 = match &self.right {
            Some(b) => b.height(),
            None => 0,
        };
        if l >= r { 1 + l } else { 1 + r }
    }

    /// Writes pending under the child on the given side: those of a modified
    /// link, 0 otherwise.
    pub fn child_pending_writes(&self, left: bool) -> (r: usize)
        ensures
            r as nat == child_pending_spec(self.side(left)),
    {
        match self.link(left) {
            Some(Link::Modified { pending_writes, .. }) => *pending_writes,
            _ => 0,
        }
    }

    /// Digest of the child on the given side, or the all-zero digest.
    pub fn child_hash(&self, left: bool) -> (r: crate::hash::Hash)
        requires
            child_hash_known(self.side(left)),
        ensures
            r@ == child_hash_spec(self.side(left)),
    {
        match self.link(left) {
            Some(l) => *l.hash(),
            None => null_hash(),
        }
    }

    /// Digest of the node from its key/value digest and its children's.
    pub fn hash(&self) -> (r: crate::hash::Hash)
        requires
            self.hash_known(),
        ensures
            r@ == self.hash_spec(),
    {
        let l = self.child_hash(true);
        let r = self.child_hash(false);
        node_hash(&self.kv_hash, &l, &r)
    }

    /// Copies of the key and the value.
    pub fn kv_copy(&self) -> (r: (Vec<u8>, Vec<u8>))
        ensures
            r.0@ == self.key@,
            r.1@ == self.value@,
    {
        (copy_bytes(self.key.as_slice()), copy_bytes(self.value.as_slice()))
    }
}

} // verus!
