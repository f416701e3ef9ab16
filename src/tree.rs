//! Huffman code trees.

use vstd::prelude::*;
use crate::bitwise::byte_bits;

verus! {

/// A node of a code tree: a leaf carries a symbol, an internal node has two
/// children. `weight` is the number of occurrences below the node.
pub struct Node {
    pub left: Option<Box<Node>>,
    pub right: Option<Box<Node>>,
    pub plain_symbol: u8,
    pub weight: u64,
}

/// A code tree and the number of its leaves.
pub struct Tree {
    pub root: Box<Node>,
    pub symbol_count: u32,
}

impl Node {
    pub open spec fn leaf_spec(&self) -> bool {
        self.left is None && self.right is None
    }

    /// Every node is a leaf or has both children.
    pub open spec fn wf(&self) -> bool
        decreases self,
    {
        match self.left {
            Some(l) => match self.right {
                Some(r) => l.wf() && r.wf(),
                None => false,
            },
            None => self.right is None,
        }
    }

    /// Every internal node weighs what its children weigh together.
    pub open spec fn weights_ok(&self) -> bool
        decreases self,
    {
        match self.left {
            Some(l) => match self.right {
                Some(r) => l.weights_ok() && r.weights_ok() && self.weight == l.weight + r.weight,
                None => true,
            },
            None => true,
        }
    }

    pub open spec fn leaf_count(&self) -> nat
        decreases self,
    {
        match self.left {
            Some(l) => match self.right {
                Some(r) => l.leaf_count() + r.leaf_count(),
                None => 1,
            },
            None => 1,
        }
    }

    /// The length of the longest path from the node to a leaf.
    pub open spec fn depth(&self) -> nat
        decreases self,
    {
        match self.left {
            Some(l) => match self.right {
                Some(r) => 1 + if l.depth() >= r.depth() {
                    l.depth()
                } else {
                    r.depth()
                },
                None => 0,
            },
            None => 0,
        }
    }

    /// Whether some leaf below the node carries `b`.
    pub open spec fn has_symbol(&self, b: u8) -> bool
        decreases self,
    {
        match self.left {
            Some(l) => match self.right {
                Some(r) => l.has_symbol(b) || r.has_symbol(b),
                None => false,
            },
            None => self.plain_symbol == b,
        }
    }

    /// The symbol of the leaf reached by following `path` (false: left,
    /// true: right), if the path ends exactly at a leaf.
    pub open spec fn leaf_at(&self, path: Seq<bool>) -> Option<u8>
        decreases path.len(),
    {
        if path.len() == 0 {
            if self.leaf_spec() {
                Some(self.plain_symbol)
            } else {
                None
            }
        } else {
            let child = if path[0] {
                self.right
            } else {
                self.left
            };
            match child {
                Some(c) => c.leaf_at(path.drop_first()),
                None => None,
            }
        }
    }

    /// The pre-order serialisation: a leaf is bit 1 and its symbol's eight
    /// bits, an internal node is bit 0 and its two children.
    pub open spec fn tree_bits(&self) -> Seq<bool>
        decreases self,
    {
        match self.left {
            Some(l) => match self.right {
                Some(r) => seq![false] + l.tree_bits() + r.tree_bits(),
                None => seq![true] + byte_bits(self.plain_symbol),
            },
            None => seq![true] + byte_bits(self.plain_symbol),
        }
    }

    /// The same tree with every weight zero and no symbol on internal nodes:
    /// what the serialisation keeps.
    pub open spec fn stripped(&self) -> Node
        decreases self,
    {
        match self.left {
            Some(l) => match self.right {
                Some(r) => Node {
                    left: Some(Box::new(l.stripped())),
                    right: Some(Box::new(r.stripped())),
                    plain_symbol: 0,
                    weight: 0,
                },
                None => Node { left: None, right: None, plain_symbol: self.plain_symbol, weight: 0 },
            },
            None => Node { left: None, right: None, plain_symbol: self.plain_symbol, weight: 0 },
        }
    }

    /// A leaf.
    pub fn leaf(symbol: u8, weight: u64) -> (r: Node)
        ensures
            r == (Node { left: None, right: None, plain_symbol: symbol, weight }),
            r.leaf_spec(),
            r.wf(),
            r.weights_ok(),
    {
        Node { left: None, right: None, plain_symbol: symbol, weight }
    }

    /// An internal node over two subtrees.
    pub fn internal(left: Box<Node>, right: Box<Node>, symbol: u8, weight: u64) -> (r: Node)
        ensures
            r == (Node { left: Some(left), right: Some(right), plain_symbol: symbol, weight }),
    {
        Node { left: Some(left), right: Some(right), plain_symbol: symbol, weight }
    }

    /// Whether the node has no children.
    pub fn is_leaf(&self) -> (r: bool)
        ensures
            r == self.leaf_spec(),
    {
        self.left.is_none() && self.right.is_none()
    }
}

/// A tree with `k` leaves serialises to exactly `10 * k - 1` bits.
pub proof fn lemma_tree_bits_len(n: Node)
    requires
        n.wf(),
    ensures
        n.tree_bits().len() == 10 * n.leaf_count() - 1,
        n.leaf_count() >= 1,
    decreases n,
{
    match n.left {
        Some(l) => match n.right {
            Some(r) => {
                lemma_tree_bits_len(*l);
                lemma_tree_bits_len(*r);
            },
            None => {},
        },
        None => {},
    }
}

/// Stripping weights keeps the shape, the leaves and the serialisation.
pub proof fn lemma_stripped(n: Node)
    requires
        n.wf(),
    ensures
        n.stripped().wf(),
        n.stripped().leaf_spec() == n.leaf_spec(),
        n.stripped().tree_bits() == n.tree_bits(),
        n.stripped().leaf_count() == n.leaf_count(),
        n.stripped().stripped() == n.stripped(),
        forall|p: Seq<bool>| #[trigger] n.stripped().leaf_at(p) == n.leaf_at(p),
    decreases n,
{
    match n.left {
        Some(l) => match n.right {
            Some(r) => {
                lemma_stripped(*l);
                lemma_stripped(*r);
                assert forall|p: Seq<bool>| #[trigger] n.stripped().leaf_at(p) == n.leaf_at(p) by {
                    if p.len() > 0 {
                        assert(l.stripped().leaf_at(p.drop_first()) == l.leaf_at(p.drop_first()));
                        assert(r.stripped().leaf_at(p.drop_first()) == r.leaf_at(p.drop_first()));
                    }
                }
            },
            None => {},
        },
        None => {},
    }
}

} // verus!
