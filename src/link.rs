use vstd::prelude::*;


use crate::tree::{child_pending_spec, Tree};

verus! {

/// An edge of the in-memory tree.
pub enum Link {
    /// The subtree is not loaded: its digest, height and root key are known.
    Pruned { hash: crate::hash::Hash, height: u8, key: Vec<u8> },
    /// The subtree is loaded and has writes not yet committed.
    Modified { pending_writes: usize, height: u8, tree: Tree },
    /// The subtree is loaded and committed: its digest is known.
    Stored { hash: crate::hash::Hash, height: u8, tree: Tree },
}

impl Link {
    pub open spec fn height_spec(&self) -> nat {
        match self {
            Link::Pruned { height, .. } => *height as nat,
            Link::Modified { height, .. } => *height as nat,
            Link::Stored { height, .. } => *height as nat,
        }
    }

    /// The digest of a pruned or stored link; not defined for a modified one.
    pub open spec fn hash_spec(&self) -> Seq<u8> {
        match self {
            Link::Pruned { hash, .. } => hash@,
            Link::Stored { hash, .. } => hash@,
            Link::Modified { .. } => Seq::empty(),
        }
    }

    pub open spec fn tree_spec(&self) -> Option<Tree> {
        match self {
            Link::Pruned { .. } => None,
            Link::Modified { tree, .. } => Some(*tree),
            Link::Stored { tree, .. } => Some(*tree),
        }
    }

    /// A modified link over `tree`, counting the node itself and the writes
    /// pending under its children.
    pub fn from_modified_tree(tree: Tree) -> (r: Link)
        requires
            tree.height_fits(),
            1 + child_pending_spec(tree.left) + child_pending_spec(tree.right) <= usize::MAX,
        ensures
            r == (Link::Modified {
                pending_writes: (1 + child_pending_spec(tree.left) + child_pending_spec(tree.right)) as usize,
                height: tree.height_spec() as u8,
                tree,
            }),
    {
        let pending_writes = 1 + tree.child_pending_writes(true) + tree.child_pending_writes(false);
        let height = tree.height();
        Link::Modified { pending_writes, height, tree }
    }

    /// `from_modified_tree` applied to a tree, where there is one.
    pub fn maybe_from_modified_tree(maybe_tree: Option<Tree>) -> (r: Option<Link>)
        requires
            maybe_tree matches Some(t) ==> t.height_fits() && 1 + child_pending_spec(t.left)
                + child_pending_spec(t.right) <= usize::MAX,
        ensures
            match maybe_tree {
                None => r is None,
                Some(tree) => r == Some(Link::Modified {
                    pending_writes: (1 + child_pending_spec(tree.left) + child_pending_spec(tree.right)) as usize,
                    height: tree.height_spec() as u8,
                    tree,
                }),
            },
    {
        match maybe_tree {
            Some(tree) => Some(Link::from_modified_tree(tree)),
            None => None,
        }
    }

    pub fn is_pruned(&self) -> (r: bool)
        ensures
            r == (*self is Pruned),
    {
        match self {
            Link::Pruned { .. } => true,
            _ => false,
        }
    }

    pub fn is_modified(&self) -> (r: bool)
        ensures
            r == (*self is Modified),
    {
        match self {
            Link::Modified { .. } => true,
            _ => false,
        }
    }

    pub fn is_stored(&self) -> (r: bool)
        ensures
            r == (*self is Stored),
    {
        match self {
            Link::Stored { .. } => true,
            _ => false,
        }
    }

    /// The loaded subtree; a pruned link has none.
    pub fn tree(&self) -> (r: Option<&Tree>)
        ensures
            match self.tree_spec() {
                Some(t) => r == Some(&t),
                None => r is None,
            },
    {
        match self {
            Link::Pruned { .. } => None,
            Link::Modified { tree, .. } => Some(tree),
            Link::Stored { tree, .. } => Some(tree),
        }
    }

    /// The digest of the subtree. A modified link has none yet: asking for it
    /// is a programming error.
    pub fn hash(&self) -> (r: &crate::hash::Hash)
        requires
            !(*self is Modified),
        ensures
            r@ == self.hash_spec(),
    {
        match self {
            Link::Modified { .. } => vstd::pervasive::unreached(),
            Link::Pruned { hash, .. } => hash,
            Link::Stored { hash, .. } => hash,
        }
    }

    pub fn height(&self) -> (r: u8)
        ensures
            r as nat == self.height_spec(),
    {
        match self {
            Link::Pruned { height, .. } => *height,
            Link::Modified { height, .. } => *height,
            Link::Stored { height, .. } => *height,
        }
    }

    /// The same link with its subtree dropped, keeping digest, height and root
    /// key. A modified link cannot be pruned: asking for it is a programming
    /// error.
    pub fn to_pruned(self) -> (r: Link)
        requires
            !(self is Modified),
        ensures
            self is Pruned ==> r == self,
            self matches Link::Stored { hash, height, tree } ==> (r matches Link::Pruned {
                hash: h,
                height: ht,
                key: k,
            } && h == hash && ht == height && k@ == tree.key@),
    {
        match self {
            Link::Pruned { .. } => self,
            Link::Modified { .. } => vstd::pervasive::unreached(),
            Link::Stored { hash, height, tree } => Link::Pruned { hash, height, key: tree.take_key() },
        }
    }
}

} // verus!
