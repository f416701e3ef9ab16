//! Huffman coding: frequency tables, code trees and symbol tables.

use vstd::prelude::*;
use crate::bitwise::{byte_bits, byte_from_bits, lemma_byte_from_bits, SymbolCode};
use crate::error::ArchiveError;
use crate::read::FileReader;
use crate::tree::{Node, Tree};
use crate::write::FileWriter;

verus! {

/// The number of byte values.
pub const TABLE_SIZE: usize = 256;

/// How many times `b` occurs in `s`.
pub open spec fn count_of(s: Seq<u8>, b: u8) -> nat
    decreases s.len(),
{
    if s.len() == 0 {
        0
    } else {
        count_of(s.drop_last(), b) + if s.last() == b {
            1nat
        } else {
            0
        }
    }
}

/// The number of entries among the first `n` of `f` that are not zero.
pub open spec fn nonzero_count(f: Seq<u64>, n: int) -> nat
    decreases n,
{
    if n <= 0 {
        0
    } else {
        nonzero_count(f, n - 1) + if f[n - 1] > 0 {
            1nat
        } else {
            0
        }
    }
}

/// The sum of the first `n` entries of `f`.
pub open spec fn freq_sum(f: Seq<u64>, n: int) -> nat
    decreases n,
{
    if n <= 0 {
        0
    } else {
        freq_sum(f, n - 1) + f[n - 1] as nat
    }
}

pub open spec fn total(s: Seq<nat>) -> nat
    decreases s.len(),
{
    if s.len() == 0 {
        0
    } else {
        total(s.drop_last()) + s.last()
    }
}

pub open spec fn queue_leaves(q: Seq<Box<Node>>) -> nat {
    total(q.map_values(|n: Box<Node>| n.leaf_count()))
}

pub open spec fn queue_weight(q: Seq<Box<Node>>) -> nat {
    total(q.map_values(|n: Box<Node>| n.weight as nat))
}

pub open spec fn queue_has(q: Seq<Box<Node>>, b: u8) -> bool {
    exists|j: int| 0 <= j < q.len() && #[trigger] q[j].has_symbol(b)
}

proof fn lemma_total_remove(s: Seq<nat>, i: int)
    requires
        0 <= i < s.len(),
    ensures
        total(s.remove(i)) + s[i] == total(s),
    decreases s.len(),
{
    if i < s.len() - 1 {
        lemma_total_remove(s.drop_last(), i);
        assert(s.remove(i).drop_last() =~= s.drop_last().remove(i));
    } else {
        assert(s.remove(i) =~= s.drop_last());
    }
}

proof fn lemma_queue_remove(q: Seq<Box<Node>>, i: int)
    requires
        0 <= i < q.len(),
    ensures
        queue_leaves(q.remove(i)) + q[i].leaf_count() == queue_leaves(q),
        queue_weight(q.remove(i)) + q[i].weight == queue_weight(q),
{
    let fl = |n: Box<Node>| n.leaf_count();
    let fw = |n: Box<Node>| n.weight as nat;
    lemma_total_remove(q.map_values(fl), i);
    lemma_total_remove(q.map_values(fw), i);
    assert(q.remove(i).map_values(fl) =~= q.map_values(fl).remove(i));
    assert(q.remove(i).map_values(fw) =~= q.map_values(fw).remove(i));
}

proof fn lemma_queue_push(q: Seq<Box<Node>>, n: Box<Node>)
    ensures
        queue_leaves(q.push(n)) == queue_leaves(q) + n.leaf_count(),
        queue_weight(q.push(n)) == queue_weight(q) + n.weight,
{
    let fl = |n: Box<Node>| n.leaf_count();
    let fw = |n: Box<Node>| n.weight as nat;
    assert(q.push(n).map_values(fl).drop_last() =~= q.map_values(fl));
    assert(q.push(n).map_values(fw).drop_last() =~= q.map_values(fw));
}

/// Counts each byte value of `data`.
pub fn create_freq_table(data: &Vec<u8>) -> (r: Vec<u64>)
    ensures
        r@.len() == TABLE_SIZE,
        forall|b: u8| #[trigger] r@[b as int] == count_of(data@, b),
{
    let mut freq_table: Vec<u64> = vec![0u64; TABLE_SIZE];
    let mut i: usize = 0;
    while i < data.len()
        invariant
            i <= data@.len(),
            freq_table@.len() == TABLE_SIZE,
            forall|b: u8| #[trigger] freq_table@[b as int] == count_of(data@.take(i as int), b),
            forall|b: u8| #[trigger] freq_table@[b as int] <= i,
        decreases data@.len() - i,
    {
        let byte = data[i];
        let ghost prev = freq_table@;
        freq_table.set(byte as usize, freq_table[byte as usize] + 1);
        proof {
            assert(data@.take(i + 1).drop_last() =~= data@.take(i as int));
            assert forall|b: u8| #[trigger] freq_table@[b as int] == count_of(
                data@.take(i + 1),
                b,
            ) by {
                assert(prev[b as int] == count_of(data@.take(i as int), b));
            }
            assert forall|b: u8| #[trigger] freq_table@[b as int] <= i + 1 by {
                assert(prev[b as int] <= i);
            }
        }
        i = i + 1;
    }
    assert(data@.take(i as int) =~= data@);
    freq_table
}

/// The position of the first node of least weight in `q`.
pub open spec fn first_min(q: Seq<Box<Node>>) -> int
    decreases q.len(),
{
    if q.len() <= 1 {
        0
    } else {
        let j = first_min(q.drop_last());
        if q.last().weight < q[j].weight {
            q.len() - 1
        } else {
            j
        }
    }
}

/// The first node of least weight is in the queue, and no node is lighter.
pub proof fn lemma_first_min(q: Seq<Box<Node>>)
    requires
        q.len() > 0,
    ensures
        0 <= first_min(q) < q.len(),
        forall|j: int| 0 <= j < q.len() ==> q[first_min(q)].weight <= #[trigger] q[j].weight,
    decreases q.len(),
{
    if q.len() > 1 {
        lemma_first_min(q.drop_last());
        assert forall|j: int| 0 <= j < q.len() implies q[first_min(q)].weight
            <= #[trigger] q[j].weight by {
            if j < q.len() - 1 {
                assert(q.drop_last()[j] == q[j]);
            }
        }
    }
}

/// The index of the first node of least weight.
fn min_index(queue: &Vec<Box<Node>>) -> (r: usize)
    requires
        queue@.len() > 0,
    ensures
        r == first_min(queue@),
{
    let mut best: usize = 0;
    let mut i: usize = 1;
    assert(queue@.take(1).len() == 1);
    while i < queue.len()
        invariant
            best < i <= queue@.len(),
            best == first_min(queue@.take(i as int)),
        decreases queue@.len() - i,
    {
        proof {
            lemma_first_min(queue@.take(i as int));
            assert(queue@.take(i + 1).drop_last() =~= queue@.take(i as int));
            assert(queue@.take(i as int)[best as int] == queue@[best as int]);
        }
        if queue[i].weight < queue[best].weight {
            best = i;
        }
        i = i + 1;
    }
    assert(queue@.take(i as int) =~= queue@);
    best
}

/// The internal node over two subtrees, weighing what they weigh together.
pub open spec fn merged(a: Box<Node>, b: Box<Node>) -> Box<Node> {
    Box::new(
        Node { left: Some(a), right: Some(b), plain_symbol: 0, weight: (a.weight + b.weight) as u64 },
    )
}

/// Huffman's merging: while more than one node is left, the first lightest
/// node and the first lightest of the rest make a new node at the end.
pub open spec fn huffman_queue(q: Seq<Box<Node>>) -> Seq<Box<Node>>
    decreases q.len(),
{
    if q.len() <= 1 {
        q
    } else {
        let i = first_min(q);
        let q1 = q.remove(i);
        let j = first_min(q1);
        if 0 <= i < q.len() && 0 <= j < q1.len() {
            huffman_queue(q1.remove(j).push(merged(q[i], q1[j])))
        } else {
            q
        }
    }
}

/// A leaf for each of the first `n` byte values that occur, in byte order.
pub open spec fn leaf_queue(f: Seq<u64>, n: int) -> Seq<Box<Node>>
    decreases n,
{
    if n <= 0 {
        Seq::empty()
    } else if f[n - 1] > 0 {
        leaf_queue(f, n - 1).push(
            Box::new(Node { left: None, right: None, plain_symbol: (n - 1) as u8, weight: f[n - 1] }),
        )
    } else {
        leaf_queue(f, n - 1)
    }
}

/// The Huffman tree of a frequency table: the node Huffman's merging leaves
/// of its leaves, a lone leaf being given a weightless copy as a sibling.
pub open spec fn huffman_tree(f: Seq<u64>) -> Node {
    let root = *huffman_queue(leaf_queue(f, 256))[0];
    if root.leaf_spec() {
        Node {
            left: Some(Box::new(root)),
            right: Some(
                Box::new(Node { left: None, right: None, plain_symbol: root.plain_symbol, weight: 0 }),
            ),
            plain_symbol: 0,
            weight: root.weight,
        }
    } else {
        root
    }
}

pub open spec fn queue_ok(q: Seq<Box<Node>>) -> bool {
    forall|j: int| 0 <= j < q.len() ==> (#[trigger] q[j]).wf() && q[j].weights_ok()
}

/// Takes a node of least weight out of the queue.
fn pop_min(queue: &mut Vec<Box<Node>>) -> (r: Box<Node>)
    requires
        old(queue)@.len() > 0,
        queue_ok(old(queue)@),
    ensures
        final(queue)@ == old(queue)@.remove(first_min(old(queue)@)),
        r == old(queue)@[first_min(old(queue)@)],
        queue_ok(final(queue)@),
        final(queue)@.len() == old(queue)@.len() - 1,
        r.wf(),
        r.weights_ok(),
        queue_leaves(final(queue)@) + r.leaf_count() == queue_leaves(old(queue)@),
        queue_weight(final(queue)@) + r.weight == queue_weight(old(queue)@),
        forall|j: int| 0 <= j < final(queue)@.len() ==> r.weight <= #[trigger] final(queue)@[j].weight,
        forall|b: u8|
            #![trigger queue_has(old(queue)@, b)]
            #![trigger queue_has(final(queue)@, b)]
            queue_has(old(queue)@, b) <==> (r.has_symbol(b) || queue_has(final(queue)@, b)),
{
    let i = min_index(queue);
    let ghost q = queue@;
    proof {
        lemma_first_min(q);
    }
    let r = queue.remove(i);
    proof {
        lemma_queue_remove(q, i as int);
        assert forall|j: int| 0 <= j < queue@.len() implies r.weight <= #[trigger] queue@[j].weight by {
            if j < i {
                assert(queue@[j] == q[j]);
            } else {
                assert(queue@[j] == q[j + 1]);
            }
        }
        assert forall|b: u8| queue_has(q, b) <==> (r.has_symbol(b) || queue_has(queue@, b)) by {
            if queue_has(q, b) {
                let j = choose|j: int| 0 <= j < q.len() && #[trigger] q[j].has_symbol(b);
                if j < i {
                    assert(queue@[j] == q[j]);
                } else if j > i {
                    assert(queue@[j - 1] == q[j]);
                }
            }
            if queue_has(queue@, b) {
                let j = choose|j: int| 0 <= j < queue@.len() && #[trigger] queue@[j].has_symbol(b);
                if j < i {
                    assert(queue@[j] == q[j]);
                } else {
                    assert(queue@[j] == q[j + 1]);
                }
            }
            if r.has_symbol(b) {
                assert(q[i as int].has_symbol(b));
            }
        }
    }
    r
}

/// Builds the Huffman tree of a frequency table by merging the two lightest
/// nodes until one is left. A table with a single symbol gets a root over
/// that leaf and a weightless copy of it, so that its code is one bit long.
/// `None` when every entry is zero.
pub fn create_code_tree(freq_table: &Vec<u64>) -> (r: Option<Tree>)
    requires
        freq_table@.len() == TABLE_SIZE,
        freq_sum(freq_table@, 256) <= u64::MAX,
    ensures
        r is None <==> nonzero_count(freq_table@, 256) == 0,
        r matches Some(t) ==> {
            &&& *t.root == huffman_tree(freq_table@)
            &&& t.root.wf()
            &&& t.root.weights_ok()
            &&& !t.root.leaf_spec()
            &&& t.root.weight == freq_sum(freq_table@, 256)
            &&& forall|b: u8| #[trigger] t.root.has_symbol(b) <==> freq_table@[b as int] > 0
            &&& t.symbol_count == t.root.leaf_count()
            &&& t.root.leaf_count() == if nonzero_count(freq_table@, 256) == 1 {
                2
            } else {
                nonzero_count(freq_table@, 256)
            }
        },
{
    let mut heap: Vec<Box<Node>> = Vec::new();
    let mut symbol_count: u32 = 0;
    let mut i: usize = 0;
    while i < TABLE_SIZE
        invariant
            i <= TABLE_SIZE,
            freq_table@.len() == TABLE_SIZE,
            freq_sum(freq_table@, 256) <= u64::MAX,
            heap@.len() <= i,
            heap@ == leaf_queue(freq_table@, i as int),
            symbol_count == nonzero_count(freq_table@, i as int) <= i,
            queue_ok(heap@),
            queue_leaves(heap@) == nonzero_count(freq_table@, i as int),
            queue_weight(heap@) == freq_sum(freq_table@, i as int),
            forall|b: u8| queue_has(heap@, b) <==> (b < i && freq_table@[b as int] > 0),
        decreases TABLE_SIZE - i,
    {
        let freq = freq_table[i];
        if freq != 0 {
            let ghost q = heap@;
            let leaf = Box::new(Node::leaf(i as u8, freq));
            heap.push(leaf);
            symbol_count = symbol_count + 1;
            proof {
                lemma_queue_push(q, leaf);
                assert forall|b: u8| queue_has(heap@, b) <==> (b < i + 1 && freq_table@[b as int]
                    > 0) by {
                    if queue_has(q, b) {
                        let j = choose|j: int| 0 <= j < q.len() && #[trigger] q[j].has_symbol(b);
                        assert(heap@[j] == q[j]);
                    }
                    if queue_has(heap@, b) {
                        let j = choose|j: int|
                            0 <= j < heap@.len() && #[trigger] heap@[j].has_symbol(b);
                        if j < q.len() {
                            assert(heap@[j] == q[j]);
                        }
                    }
                    if b == i {
                        assert(heap@[q.len() as int].has_symbol(b));
                    }
                }
            }
        } else {
            proof {
                assert forall|b: u8| queue_has(heap@, b) <==> (b < i + 1 && freq_table@[b as int]
                    > 0) by {
                    if b == i {
                        assert(!queue_has(heap@, b));
                    }
                }
            }
        }
        i = i + 1;
    }
    let ghost k = nonzero_count(freq_table@, 256);
    if heap.len() == 0 {
        proof {
            if k > 0 {
                assert(queue_leaves(heap@) == 0) by {
                    assert(heap@.map_values(|n: Box<Node>| n.leaf_count()) =~= Seq::<nat>::empty());
                }
            }
        }
        return None;
    }
    while heap.len() > 1
        invariant
            freq_table@.len() == TABLE_SIZE,
            heap@.len() >= 1,
            queue_ok(heap@),
            queue_leaves(heap@) == k,
            queue_weight(heap@) == freq_sum(freq_table@, 256) <= u64::MAX,
            forall|b: u8| queue_has(heap@, b) <==> freq_table@[b as int] > 0,
            huffman_queue(heap@) == huffman_queue(leaf_queue(freq_table@, 256)),
        decreases heap@.len(),
    {
        let ghost q0 = heap@;
        let first_node = pop_min(&mut heap);
        let ghost q1 = heap@;
        let second_node = pop_min(&mut heap);
        let ghost q2 = heap@;
        let ghost f = *first_node;
        let ghost g = *second_node;
        let w = first_node.weight + second_node.weight;
        let node = Box::new(Node::internal(first_node, second_node, 0, w));
        heap.push(node);
        proof {
            lemma_first_min(q0);
            lemma_first_min(q1);
            assert(node == merged(q0[first_min(q0)], q1[first_min(q1)]));
            assert(heap@ == q1.remove(first_min(q1)).push(merged(q0[first_min(q0)], q1[first_min(q1)])));
            assert(huffman_queue(q0) == huffman_queue(heap@));
            lemma_queue_push(q2, node);
            assert forall|b: u8| queue_has(heap@, b) <==> freq_table@[b as int] > 0 by {
                assert(queue_has(q0, b) <==> (f.has_symbol(b) || queue_has(q1, b)));
                assert(queue_has(q1, b) <==> (g.has_symbol(b) || queue_has(q2, b)));
                assert(node.has_symbol(b) <==> (f.has_symbol(b) || g.has_symbol(b)));
                if queue_has(q2, b) {
                    let j = choose|j: int| 0 <= j < q2.len() && #[trigger] q2[j].has_symbol(b);
                    assert(heap@[j] == q2[j]);
                }
                if queue_has(heap@, b) {
                    let j = choose|j: int| 0 <= j < heap@.len() && #[trigger] heap@[j].has_symbol(b);
                    if j < q2.len() {
                        assert(heap@[j] == q2[j]);
                    }
                }
                if node.has_symbol(b) {
                    assert(heap@[q2.len() as int].has_symbol(b));
                }
            }
        }
    }
    let ghost last = heap@[0];
    proof {
        assert(heap@ =~= seq![last]);
        assert(huffman_queue(leaf_queue(freq_table@, 256))[0] == last);
        lemma_queue_single(heap@);
        assert forall|b: u8| #[trigger] last.has_symbol(b) <==> freq_table@[b as int] > 0 by {
            if last.has_symbol(b) {
                assert(queue_has(heap@, b));
            }
            if queue_has(heap@, b) {
                let j = choose|j: int| 0 <= j < heap@.len() && #[trigger] heap@[j].has_symbol(b);
                assert(j == 0);
            }
        }
    }
    let root = heap.pop().unwrap();
    if root.is_leaf() {
        let symbol = root.plain_symbol;
        let w = root.weight;
        let copy = Box::new(Node::leaf(symbol, 0));
        let ghost root_v = *root;
        let ghost copy_v = *copy;
        assert(root_v == *last);
        let wrapped = Box::new(Node::internal(root, copy, 0, w));
        proof {
            assert(root_v.leaf_count() == 1);
            assert(copy_v.leaf_count() == 1);
            assert(wrapped.leaf_count() == 2);
            assert(k == 1);
            assert(wrapped.weights_ok());
            assert(wrapped.wf());
            assert forall|b: u8| #[trigger] wrapped.has_symbol(b) <==> freq_table@[b as int] > 0 by {
                assert(root_v.has_symbol(b) == (symbol == b));
                assert(copy_v.has_symbol(b) == (symbol == b));
                assert(wrapped.has_symbol(b) == (root_v.has_symbol(b) || copy_v.has_symbol(b)));
            }
        }
        Some(Tree { root: wrapped, symbol_count: 2 })
    } else {
        assert(root.leaf_count() >= 2) by {
            lemma_leaf_count_internal(*root);
        }
        assert(root.leaf_count() == k);
        Some(Tree { root, symbol_count })
    }
}

proof fn lemma_queue_single(q: Seq<Box<Node>>)
    requires
        q.len() == 1,
    ensures
        queue_leaves(q) == q[0].leaf_count(),
        queue_weight(q) == q[0].weight,
{
    lemma_queue_push(Seq::empty(), q[0]);
    assert(Seq::<Box<Node>>::empty().push(q[0]) =~= q);
    assert(Seq::<Box<Node>>::empty().map_values(|n: Box<Node>| n.leaf_count()) =~= Seq::<nat>::empty());
    assert(Seq::<Box<Node>>::empty().map_values(|n: Box<Node>| n.weight as nat) =~= Seq::<nat>::empty());
}

proof fn lemma_leaf_count_internal(n: Node)
    requires
        n.wf(),
        !n.leaf_spec(),
    ensures
        n.leaf_count() >= 2,
{
    crate::tree::lemma_tree_bits_len(*n.left.unwrap());
    crate::tree::lemma_tree_bits_len(*n.right.unwrap());
}

pub proof fn lemma_nonzero_count_bound(f: Seq<u64>, n: int)
    requires
        n >= 0,
    ensures
        nonzero_count(f, n) <= n,
    decreases n,
{
    if n > 0 {
        lemma_nonzero_count_bound(f, n - 1);
    }
}

/// Whether no path from `node` to a leaf is longer than `limit`.
fn depth_within(node: &Node, limit: u8) -> (r: bool)
    requires
        node.wf(),
    ensures
        r == (node.depth() <= limit),
    decreases node,
{
    match (&node.left, &node.right) {
        (Some(left), Some(right)) => {
            if limit == 0 {
                false
            } else {
                depth_within(left, limit - 1) && depth_within(right, limit - 1)
            }
        },
        _ => true,
    }
}

/// What the walk of a subtree leaves in the entry of a symbol `b` below it:
/// the code so far, then a path from the subtree to a leaf carrying `b`.
pub open spec fn entry_reaches(e: SymbolCode, prefix: Seq<bool>, node: Node, b: u8) -> bool {
    &&& e.wf()
    &&& e.plain_symbol == b
    &&& prefix.len() <= e.bits().len()
    &&& e.bits().take(prefix.len() as int) == prefix
    &&& node.leaf_at(e.bits().skip(prefix.len() as int)) == Some(b)
}

/// Stores in `symbol_table` the code of every leaf below `node`, each code
/// being `symbol_code` followed by the path to the leaf.
pub fn walk_code_tree(node: &Node, symbol_code: SymbolCode, symbol_table: &mut Vec<SymbolCode>)
    requires
        node.wf(),
        symbol_code.wf(),
        symbol_code.bit_len + node.depth() <= 32,
        old(symbol_table)@.len() == TABLE_SIZE,
    ensures
        final(symbol_table)@.len() == TABLE_SIZE,
        forall|b: u8|
            #[trigger] final(symbol_table)@[b as int] == old(symbol_table)@[b as int] || node.has_symbol(b),
        forall|b: u8|
            #[trigger] node.has_symbol(b) ==> entry_reaches(
                final(symbol_table)@[b as int],
                symbol_code.bits(),
                *node,
                b,
            ),
    decreases node,
{
    match (&node.left, &node.right) {
        (Some(left), Some(right)) => {
            let ghost t0 = symbol_table@;
            let lc = symbol_code.append_bit(0);
            walk_code_tree(left, lc, symbol_table);
            let ghost t1 = symbol_table@;
            let rc = symbol_code.append_bit(1);
            walk_code_tree(right, rc, symbol_table);
            proof {
                let p = symbol_code.bits();
                assert forall|b: u8| #[trigger] node.has_symbol(b) implies entry_reaches(
                    symbol_table@[b as int],
                    p,
                    *node,
                    b,
                ) by {
                    let e = symbol_table@[b as int];
                    let c = if right.has_symbol(b) {
                        **right
                    } else {
                        **left
                    };
                    let q = if right.has_symbol(b) {
                        rc.bits()
                    } else {
                        lc.bits()
                    };
                    if right.has_symbol(b) {
                        assert(entry_reaches(e, rc.bits(), **right, b));
                    } else {
                        assert(left.has_symbol(b));
                        assert(symbol_table@[b as int] == t1[b as int]);
                        assert(entry_reaches(t1[b as int], lc.bits(), **left, b));
                    }
                    let eb = e.bits();
                    assert(eb.take(p.len() as int) =~= q.take(p.len() as int));
                    assert(q.take(p.len() as int) =~= p);
                    assert(eb.skip(p.len() as int).drop_first() =~= eb.skip(q.len() as int));
                    assert(eb.skip(p.len() as int)[0] == q[p.len() as int]);
                }
            }
        },
        _ => {
            let mut code = symbol_code;
            code.plain_symbol = node.plain_symbol;
            symbol_table.set(node.plain_symbol as usize, code);
            proof {
                assert(code.bits() =~= symbol_code.bits());
                assert(code.bits().skip(symbol_code.bits().len() as int) =~= Seq::<bool>::empty());
                assert(code.bits().take(symbol_code.bits().len() as int) =~= symbol_code.bits());
            }
        },
    }
}

/// Codes that reach, in `root`, leaves carrying their symbols.
pub open spec fn table_for(root: Node, table: Seq<SymbolCode>) -> bool {
    &&& table.len() == TABLE_SIZE
    &&& forall|b: u8| #[trigger] table[b as int].wf()
    &&& forall|b: u8|
        #[trigger] root.has_symbol(b) ==> root.leaf_at(table[b as int].bits()) == Some(b)
            && table[b as int].plain_symbol == b
}

/// The symbol table of a code tree: for each symbol, the path from the root
/// to its leaf. Fails when a path is longer than 32 bits.
pub fn create_code_table(tree: &Tree) -> (r: Result<Vec<SymbolCode>, ArchiveError>)
    requires
        tree.root.wf(),
    ensures
        r is Err <==> tree.root.depth() > 32,
        r matches Err(e) ==> e == ArchiveError::CodeTooLong,
        r matches Ok(table) ==> table_for(*tree.root, table@),
{
    if !depth_within(&tree.root, 32) {
        return Err(ArchiveError::CodeTooLong);
    }
    let symbol_code = SymbolCode::new();
    let mut symbol_table: Vec<SymbolCode> = Vec::new();
    let mut i: usize = 0;
    while i < TABLE_SIZE
        invariant
            i <= TABLE_SIZE,
            symbol_table@.len() == i,
            symbol_code.wf(),
            forall|j: int| 0 <= j < i ==> #[trigger] symbol_table@[j] == symbol_code,
        decreases TABLE_SIZE - i,
    {
        symbol_table.push(symbol_code);
        i = i + 1;
    }
    walk_code_tree(&tree.root, symbol_code, &mut symbol_table);
    proof {
        assert forall|b: u8| #[trigger] symbol_table@[b as int].wf() by {
            if tree.root.has_symbol(b) {
                assert(entry_reaches(symbol_table@[b as int], symbol_code.bits(), *tree.root, b));
            }
        }
        assert forall|b: u8| #[trigger] tree.root.has_symbol(b) implies tree.root.leaf_at(
            symbol_table@[b as int].bits(),
        ) == Some(b) && symbol_table@[b as int].plain_symbol == b by {
            let e = symbol_table@[b as int];
            assert(entry_reaches(e, symbol_code.bits(), *tree.root, b));
            assert(e.bits().skip(0) =~= e.bits());
        }
    }
    Ok(symbol_table)
}

/// Writes the pre-order serialisation of a tree.
pub fn write_node(writer: &mut FileWriter, node: &Node)
    requires
        old(writer).wf(),
        node.wf(),
        old(writer).bits().len() + node.tree_bits().len() <= usize::MAX,
    ensures
        final(writer).wf(),
        final(writer).bits() == old(writer).bits() + node.tree_bits(),
    decreases node,
{
    match (&node.left, &node.right) {
        (Some(left), Some(right)) => {
            writer.write_bit(0);
            write_node(writer, left);
            write_node(writer, right);
            assert(writer.bits() =~= old(writer).bits() + node.tree_bits());
        },
        _ => {
            writer.write_bit(1);
            writer.write_bits(node.plain_symbol, 8);
            assert(byte_bits(node.plain_symbol).take(8) =~= byte_bits(node.plain_symbol));
            assert(writer.bits() =~= old(writer).bits() + node.tree_bits());
        },
    }
}

/// The tree serialised at the start of `bits` and the number of bits it
/// takes, if they hold a whole one.
pub open spec fn parse_tree(bits: Seq<bool>) -> Option<(Node, nat)>
    decreases bits.len(),
{
    if bits.len() == 0 {
        None
    } else if bits[0] {
        if bits.len() >= 9 {
            Some(
                (
                    Node {
                        left: None,
                        right: None,
                        plain_symbol: byte_from_bits(bits.subrange(1, 9)),
                        weight: 0,
                    },
                    9nat,
                ),
            )
        } else {
            None
        }
    } else {
        match parse_tree(bits.drop_first()) {
            None => None,
            Some((l, nl)) => if nl <= bits.len() - 1 {
                match parse_tree(bits.skip(1 + nl as int)) {
                    None => None,
                    Some((r, nr)) => Some(
                        (
                            Node {
                                left: Some(Box::new(l)),
                                right: Some(Box::new(r)),
                                plain_symbol: 0,
                                weight: 0,
                            },
                            1 + nl + nr,
                        ),
                    ),
                }
            } else {
                None
            },
        }
    }
}

/// A parsed tree is well formed, stripped, and no longer than its input.
pub proof fn lemma_parse_tree(bits: Seq<bool>)
    ensures
        parse_tree(bits) matches Some((n, k)) ==> n.wf() && 1 <= k <= bits.len() && n.stripped()
            == n,
    decreases bits.len(),
{
    if bits.len() > 0 && !bits[0] {
        lemma_parse_tree(bits.drop_first());
        if let Some((l, nl)) = parse_tree(bits.drop_first()) {
            if nl <= bits.len() - 1 {
                lemma_parse_tree(bits.skip(1 + nl as int));
            }
        }
    }
}

/// Parsing a serialised tree gives the tree back, without its weights.
pub proof fn lemma_parse_tree_bits(n: Node, rest: Seq<bool>)
    requires
        n.wf(),
    ensures
        parse_tree(n.tree_bits() + rest) == Some((n.stripped(), n.tree_bits().len())),
    decreases n,
{
    let bits = n.tree_bits() + rest;
    match (n.left, n.right) {
        (Some(l), Some(r)) => {
            lemma_parse_tree_bits(*l, r.tree_bits() + rest);
            assert(bits.drop_first() =~= l.tree_bits() + (r.tree_bits() + rest));
            let nl = l.tree_bits().len();
            lemma_parse_tree_bits(*r, rest);
            assert(bits.skip(1 + nl as int) =~= r.tree_bits() + rest);
        },
        _ => {
            assert(bits.subrange(1, 9) =~= byte_bits(n.plain_symbol));
            lemma_byte_from_bits(n.plain_symbol);
        },
    }
}

/// Reads a serialised tree.
pub fn read_node(reader: &mut FileReader) -> (r: Result<Box<Node>, ArchiveError>)
    requires
        old(reader).wf(),
    ensures
        final(reader).wf(),
        final(reader).data() == old(reader).data(),
        final(reader).start() == old(reader).start(),
        r is Ok ==> old(reader).pos() < final(reader).pos(),
        match parse_tree(old(reader).bits().skip(old(reader).pos())) {
            None => r == Err::<Box<Node>, ArchiveError>(ArchiveError::MalformedTree),
            Some((n, k)) => r == Ok::<Box<Node>, ArchiveError>(Box::new(n)) && final(reader).pos()
                == old(reader).pos() + k,
        },
    decreases old(reader).bits().len() - old(reader).pos(),
{
    let ghost bits = reader.bits().skip(reader.pos());
    proof {
        reader.lemma_wf();
        lemma_parse_tree(bits);
    }
    if reader.eof() {
        return Err(ArchiveError::MalformedTree);
    }
    let bit = reader.read_bit();
    assert(bits[0] == (bit == 1));
    if bit == 1 {
        if reader.bit_count() - reader.position() < 8 {
            return Err(ArchiveError::MalformedTree);
        }
        let ghost p = reader.pos();
        let symbol = reader.read_bits(8);
        proof {
            assert forall|i: int| 0 <= i < 8 implies #[trigger] byte_bits(symbol)[i]
                == bits.subrange(1, 9)[i] by {
                assert(crate::bitwise::bit_of(symbol, i) == reader.bits()[p + i]);
            }
            assert(byte_bits(symbol) =~= bits.subrange(1, 9));
            lemma_byte_from_bits(symbol);
        }
        let leaf = Node::leaf(symbol, 0);
        Ok(Box::new(leaf))
    } else {
        assert(reader.bits().skip(reader.pos()) =~= bits.drop_first());
        proof {
            lemma_parse_tree(bits.drop_first());
        }
        let left = match read_node(reader) {
            Ok(left) => left,
            Err(e) => {
                return Err(e);
            },
        };
        let ghost nl = reader.pos() - old(reader).pos() - 1;
        assert(parse_tree(bits.drop_first()) matches Some((l, k)) && k == nl);
        assert(reader.bits().skip(reader.pos()) =~= bits.skip(1 + nl as int));
        proof {
            lemma_parse_tree(bits.skip(1 + nl as int));
        }
        let right = match read_node(reader) {
            Ok(right) => right,
            Err(e) => {
                return Err(e);
            },
        };
        Ok(Box::new(Node::internal(left, right, 0, 0)))
    }
}

/// The codes of the bytes of `data`, one after the other.
pub open spec fn payload_bits(table: Seq<SymbolCode>, data: Seq<u8>) -> Seq<bool>
    decreases data.len(),
{
    if data.len() == 0 {
        Seq::empty()
    } else {
        payload_bits(table, data.drop_last()) + table[data.last() as int].bits()
    }
}

pub proof fn lemma_payload_front(table: Seq<SymbolCode>, data: Seq<u8>)
    requires
        data.len() > 0,
    ensures
        payload_bits(table, data) == table[data[0] as int].bits() + payload_bits(
            table,
            data.drop_first(),
        ),
    decreases data.len(),
{
    if data.len() == 1 {
        assert(data.drop_last() =~= Seq::<u8>::empty());
        assert(data.drop_first() =~= Seq::<u8>::empty());
        assert(payload_bits(table, data.drop_last()) == Seq::<bool>::empty());
        assert(payload_bits(table, data.drop_first()) == Seq::<bool>::empty());
        assert(payload_bits(table, data) =~= table[data[0] as int].bits());
    } else {
        lemma_payload_front(table, data.drop_last());
        assert(data.drop_last().drop_first() =~= data.drop_first().drop_last());
        assert(payload_bits(table, data) =~= table[data[0] as int].bits() + payload_bits(
            table,
            data.drop_first(),
        ));
    }
}

proof fn lemma_payload_prefix(table: Seq<SymbolCode>, s: Seq<u8>, i: int)
    requires
        0 <= i <= s.len(),
    ensures
        payload_bits(table, s.take(i)).len() <= payload_bits(table, s).len(),
    decreases s.len(),
{
    if i < s.len() {
        lemma_payload_prefix(table, s.drop_last(), i);
        assert(s.drop_last().take(i) =~= s.take(i));
    } else {
        assert(s.take(i) =~= s);
    }
}

/// Writes the code of each byte of `data`.
pub fn compress_file(data: &Vec<u8>, writer: &mut FileWriter, symbol_table: &Vec<SymbolCode>)
    requires
        old(writer).wf(),
        symbol_table@.len() == TABLE_SIZE,
        forall|b: u8| #[trigger] symbol_table@[b as int].wf(),
        old(writer).bits().len() + payload_bits(symbol_table@, data@).len() <= usize::MAX,
    ensures
        final(writer).wf(),
        final(writer).bits() == old(writer).bits() + payload_bits(symbol_table@, data@),
{
    let ghost start = writer.bits();
    let mut i: usize = 0;
    while i < data.len()
        invariant
            writer.wf(),
            i <= data@.len(),
            symbol_table@.len() == TABLE_SIZE,
            forall|b: u8| #[trigger] symbol_table@[b as int].wf(),
            start.len() + payload_bits(symbol_table@, data@).len() <= usize::MAX,
            writer.bits() == start + payload_bits(symbol_table@, data@.take(i as int)),
        decreases data@.len() - i,
    {
        proof {
            lemma_payload_prefix(symbol_table@, data@, i + 1);
        }
        let byte = data[i];
        assert(data@.take(i + 1).drop_last() =~= data@.take(i as int));
        assert(symbol_table@[byte as int].wf());
        writer.write_symbol(&symbol_table[byte as usize]);
        assert(data@.take(i + 1).drop_last() =~= data@.take(i as int));
        i = i + 1;
    }
    assert(data@.take(i as int) =~= data@);
}

/// The symbol of the leaf that the first bits lead to from `n`, and the
/// number of bits taken; `None` if the bits end first.
pub open spec fn decode_symbol(n: Node, bits: Seq<bool>) -> Option<(u8, nat)>
    decreases n,
{
    match n.left {
        Some(l) => match n.right {
            Some(r) => if bits.len() == 0 {
                None
            } else if bits[0] {
                match decode_symbol(*r, bits.drop_first()) {
                    Some((s, k)) => Some((s, k + 1)),
                    None => None,
                }
            } else {
                match decode_symbol(*l, bits.drop_first()) {
                    Some((s, k)) => Some((s, k + 1)),
                    None => None,
                }
            },
            None => Some((n.plain_symbol, 0)),
        },
        None => Some((n.plain_symbol, 0)),
    }
}

/// The symbols that `bits` encode with the tree `root`, if they end exactly
/// at the end of a code.
pub open spec fn decode_all(root: Node, bits: Seq<bool>) -> Option<Seq<u8>>
    decreases bits.len(),
{
    if bits.len() == 0 {
        Some(Seq::empty())
    } else {
        match decode_symbol(root, bits) {
            Some((s, k)) => if 1 <= k <= bits.len() {
                match decode_all(root, bits.skip(k as int)) {
                    Some(rest) => Some(seq![s] + rest),
                    None => None,
                }
            } else {
                None
            },
            None => None,
        }
    }
}

pub proof fn lemma_decode_symbol_len(n: Node, bits: Seq<bool>)
    requires
        n.wf(),
    ensures
        decode_symbol(n, bits) matches Some((s, k)) ==> k <= bits.len() && (!n.leaf_spec() ==> k
            >= 1),
    decreases n,
{
    match (n.left, n.right) {
        (Some(l), Some(r)) => {
            if bits.len() > 0 {
                lemma_decode_symbol_len(*l, bits.drop_first());
                lemma_decode_symbol_len(*r, bits.drop_first());
            }
        },
        _ => {},
    }
}

/// A code that leads to a leaf decodes to that leaf's symbol, whatever follows.
pub proof fn lemma_decode_code(n: Node, code: Seq<bool>, rest: Seq<bool>)
    requires
        n.wf(),
        n.leaf_at(code) is Some,
    ensures
        decode_symbol(n, code + rest) == Some((n.leaf_at(code)->0, code.len())),
    decreases code.len(),
{
    if code.len() > 0 {
        assert((code + rest).drop_first() =~= code.drop_first() + rest);
        match (n.left, n.right) {
            (Some(l), Some(r)) => {
                if code[0] {
                    lemma_decode_code(*r, code.drop_first(), rest);
                } else {
                    lemma_decode_code(*l, code.drop_first(), rest);
                }
            },
            _ => {},
        }
    }
}

/// Decoding the codes of some bytes gives the bytes back.
pub proof fn lemma_decode_payload(root: Node, table: Seq<SymbolCode>, data: Seq<u8>)
    requires
        root.wf(),
        !root.leaf_spec(),
        forall|i: int|
            0 <= i < data.len() ==> root.leaf_at(table[#[trigger] data[i] as int].bits()) == Some(
                data[i],
            ),
    ensures
        decode_all(root, payload_bits(table, data)) == Some(data),
    decreases data.len(),
{
    if data.len() == 0 {
        assert(data =~= Seq::<u8>::empty());
    } else {
        let code = table[data[0] as int].bits();
        let rest = payload_bits(table, data.drop_first());
        lemma_payload_front(table, data);
        assert(root.leaf_at(code) == Some(data[0]));
        lemma_decode_code(root, code, rest);
        assert(code.len() >= 1);
        assert((code + rest).skip(code.len() as int) =~= rest);
        assert forall|i: int| 0 <= i < data.drop_first().len() implies root.leaf_at(
            table[#[trigger] data.drop_first()[i] as int].bits(),
        ) == Some(data.drop_first()[i]) by {
            assert(data.drop_first()[i] == data[i + 1]);
        }
        lemma_decode_payload(root, table, data.drop_first());
        assert(seq![data[0]] + data.drop_first() =~= data);
    }
}

/// Reads the next symbol with the tree `node`, not reading at or past the
/// bit position `end`.
pub fn decompress_next_symbol(reader: &mut FileReader, node: &Node, end: usize) -> (r: Result<
    u8,
    ArchiveError,
>)
    requires
        old(reader).wf(),
        node.wf(),
        old(reader).pos() <= end <= old(reader).bits().len(),
    ensures
        final(reader).wf(),
        final(reader).data() == old(reader).data(),
        final(reader).start() == old(reader).start(),
        match decode_symbol(*node, old(reader).bits().subrange(old(reader).pos(), end as int)) {
            None => r == Err::<u8, ArchiveError>(ArchiveError::DecodeOverrun),
            Some((s, k)) => r == Ok::<u8, ArchiveError>(s) && final(reader).pos() == old(
                reader,
            ).pos() + k,
        },
    decreases node,
{
    let ghost bits = reader.bits().subrange(reader.pos(), end as int);
    match (&node.left, &node.right) {
        (Some(left), Some(right)) => {
            if reader.position() >= end {
                return Err(ArchiveError::DecodeOverrun);
            }
            let bit = reader.read_bit();
            assert(reader.bits().subrange(reader.pos(), end as int) =~= bits.drop_first());
            if bit == 1 {
                decompress_next_symbol(reader, right, end)
            } else {
                decompress_next_symbol(reader, left, end)
            }
        },
        _ => Ok(node.plain_symbol),
    }
}

/// Decodes exactly `data_bit_size` bits from the reader's position with the
/// tree `root`.
pub fn decompress_symbols(reader: &mut FileReader, root: &Node, data_bit_size: u64) -> (r: Result<
    Vec<u8>,
    ArchiveError,
>)
    requires
        old(reader).wf(),
        root.wf(),
    ensures
        final(reader).wf(),
        final(reader).data() == old(reader).data(),
        final(reader).start() == old(reader).start(),
        if old(reader).pos() + data_bit_size > old(reader).bits().len() {
            r == Err::<Vec<u8>, ArchiveError>(ArchiveError::IoError)
        } else {
            match decode_all(
                *root,
                old(reader).bits().subrange(old(reader).pos(), old(reader).pos() + data_bit_size),
            ) {
                None => r == Err::<Vec<u8>, ArchiveError>(ArchiveError::DecodeOverrun),
                Some(out) => r matches Ok(v) && v@ == out,
            }
        },
{
    proof {
        reader.lemma_wf();
    }
    let p0 = reader.position();
    let available = reader.bit_count() - p0;
    if data_bit_size > available as u64 {
        return Err(ArchiveError::IoError);
    }
    let end = p0 + data_bit_size as usize;
    let ghost all = reader.bits().subrange(p0 as int, end as int);
    let mut out: Vec<u8> = Vec::new();
    if root.is_leaf() {
        if data_bit_size == 0 {
            assert(all.len() == 0);
            return Ok(out);
        }
        return Err(ArchiveError::DecodeOverrun);
    }
    while reader.position() < end
        invariant
            reader.wf(),
            root.wf(),
            !root.leaf_spec(),
            reader.data() == old(reader).data(),
            reader.start() == old(reader).start(),
            p0 <= reader.pos() <= end <= reader.bits().len(),
            p0 == old(reader).pos(),
            end == p0 + data_bit_size,
            all == reader.bits().subrange(p0 as int, end as int),
            decode_all(*root, all) == match decode_all(
                *root,
                reader.bits().subrange(reader.pos(), end as int),
            ) {
                Some(rest) => Some(out@ + rest),
                None => None::<Seq<u8>>,
            },
        decreases end - reader.pos(),
    {
        let ghost p = reader.pos();
        let ghost here = reader.bits().subrange(p, end as int);
        proof {
            lemma_decode_symbol_len(*root, here);
        }
        match decompress_next_symbol(reader, root, end) {
            Ok(s) => {
                let ghost k = reader.pos() - p;
                assert(here.skip(k) =~= reader.bits().subrange(reader.pos(), end as int));
                let ghost prev = out@;
                out.push(s);
                proof {
                    match decode_all(*root, here.skip(k)) {
                        Some(rest) => {
                            assert(prev + (seq![s] + rest) =~= out@ + rest);
                        },
                        None => {},
                    }
                }
            },
            Err(e) => {
                assert(decode_symbol(*root, here) is None);
                assert(decode_all(*root, here) is None);
                assert(decode_all(*root, all) is None);
                assert(e == ArchiveError::DecodeOverrun);
                return Err(e);
            },
        }
    }
    assert(reader.bits().subrange(reader.pos(), end as int) =~= Seq::<bool>::empty());
    assert(out@ + Seq::<u8>::empty() =~= out@);
    Ok(out)
}

/// The sum over the byte values `i < n` of `count_of(s, i) * w(i)`.
pub open spec fn weighted_count(s: Seq<u8>, w: spec_fn(int) -> nat, n: int) -> nat
    decreases n,
{
    if n <= 0 {
        0
    } else {
        weighted_count(s, w, n - 1) + count_of(s, (n - 1) as u8) * w(n - 1)
    }
}

/// The sum of `w` over the bytes of `s`.
pub open spec fn sum_over(s: Seq<u8>, w: spec_fn(int) -> nat) -> nat
    decreases s.len(),
{
    if s.len() == 0 {
        0
    } else {
        sum_over(s.drop_last(), w) + w(s.last() as int)
    }
}

/// The number of bits the codes of a frequency table's symbols take:
/// the sum of `freq[i] * table[i].bit_len`.
pub open spec fn coded_bits(freq: Seq<u64>, table: Seq<SymbolCode>, n: int) -> nat
    decreases n,
{
    if n <= 0 {
        0
    } else {
        coded_bits(freq, table, n - 1) + freq[n - 1] as nat * table[n - 1].bit_len as nat
    }
}

proof fn lemma_weighted_count_push(s: Seq<u8>, x: u8, w: spec_fn(int) -> nat, n: int)
    requires
        0 <= n <= 256,
    ensures
        weighted_count(s.push(x), w, n) == weighted_count(s, w, n) + if x < n {
            w(x as int)
        } else {
            0
        },
    decreases n,
{
    if n > 0 {
        lemma_weighted_count_push(s, x, w, n - 1);
        assert(s.push(x).drop_last() =~= s);
        let b = (n - 1) as u8;
        let c = count_of(s, b);
        let wb = w(n - 1);
        if x == b {
            assert(count_of(s.push(x), b) == c + 1);
            assert((c + 1) * wb == c * wb + wb) by (nonlinear_arith);
        } else {
            assert(count_of(s.push(x), b) == c);
        }
    }
}

proof fn lemma_weighted_count(s: Seq<u8>, w: spec_fn(int) -> nat)
    ensures
        weighted_count(s, w, 256) == sum_over(s, w),
    decreases s.len(),
{
    if s.len() == 0 {
        lemma_weighted_count_empty(s, w, 256);
    } else {
        lemma_weighted_count(s.drop_last(), w);
        lemma_weighted_count_push(s.drop_last(), s.last(), w, 256);
        assert(s.drop_last().push(s.last()) =~= s);
    }
}

proof fn lemma_weighted_count_empty(s: Seq<u8>, w: spec_fn(int) -> nat, n: int)
    requires
        s.len() == 0,
    ensures
        weighted_count(s, w, n) == 0,
    decreases n,
{
    if n > 0 {
        lemma_weighted_count_empty(s, w, n - 1);
        assert(count_of(s, (n - 1) as u8) == 0);
    }
}

proof fn lemma_freq_sum(f: Seq<u64>, s: Seq<u8>, n: int)
    requires
        0 <= n <= 256,
        f.len() == 256,
        forall|b: u8| #[trigger] f[b as int] == count_of(s, b),
    ensures
        freq_sum(f, n) == weighted_count(s, |i: int| 1nat, n),
    decreases n,
{
    if n > 0 {
        lemma_freq_sum(f, s, n - 1);
        assert(((n - 1) as u8) as int == n - 1);
        assert(f[((n - 1) as u8) as int] == count_of(s, (n - 1) as u8));
        let c = count_of(s, (n - 1) as u8);
        assert(c * 1nat == c);
    }
}

proof fn lemma_coded_bits(f: Seq<u64>, table: Seq<SymbolCode>, s: Seq<u8>, n: int)
    requires
        0 <= n <= 256,
        f.len() == 256,
        forall|b: u8| #[trigger] f[b as int] == count_of(s, b),
    ensures
        coded_bits(f, table, n) == weighted_count(s, |i: int| table[i].bit_len as nat, n),
    decreases n,
{
    if n > 0 {
        lemma_coded_bits(f, table, s, n - 1);
        assert(((n - 1) as u8) as int == n - 1);
        assert(f[((n - 1) as u8) as int] == count_of(s, (n - 1) as u8));
    }
}

proof fn lemma_sum_len(s: Seq<u8>)
    ensures
        sum_over(s, |i: int| 1nat) == s.len(),
    decreases s.len(),
{
    if s.len() > 0 {
        lemma_sum_len(s.drop_last());
    }
}

proof fn lemma_sum_payload(table: Seq<SymbolCode>, s: Seq<u8>)
    requires
        table.len() == TABLE_SIZE,
        forall|b: u8| #[trigger] table[b as int].wf(),
    ensures
        sum_over(s, |i: int| table[i].bit_len as nat) == payload_bits(table, s).len(),
        payload_bits(table, s).len() <= 32 * s.len(),
    decreases s.len(),
{
    if s.len() > 0 {
        lemma_sum_payload(table, s.drop_last());
        assert(table[s.last() as int].wf());
    }
}

/// Codes of at most 32 bits give at most 32 bits per byte.
pub proof fn lemma_payload_bound(table: Seq<SymbolCode>, data: Seq<u8>)
    requires
        table.len() == TABLE_SIZE,
        forall|b: u8| #[trigger] table[b as int].wf(),
    ensures
        payload_bits(table, data).len() <= 32 * data.len(),
{
    lemma_sum_payload(table, data);
}

/// A frequency table of `data` sums to its length.
pub proof fn lemma_freq_table_sum(f: Seq<u64>, data: Seq<u8>)
    requires
        f.len() == 256,
        forall|b: u8| #[trigger] f[b as int] == count_of(data, b),
    ensures
        freq_sum(f, 256) == data.len(),
{
    lemma_freq_sum(f, data, 256);
    lemma_weighted_count(data, |i: int| 1nat);
    lemma_sum_len(data);
}

/// The encoded data of `data` is as long as the frequency-weighted sum of the
/// code lengths.
pub proof fn lemma_payload_len(f: Seq<u64>, table: Seq<SymbolCode>, data: Seq<u8>)
    requires
        f.len() == 256,
        forall|b: u8| #[trigger] f[b as int] == count_of(data, b),
        table.len() == TABLE_SIZE,
        forall|b: u8| #[trigger] table[b as int].wf(),
    ensures
        coded_bits(f, table, 256) == payload_bits(table, data).len(),
        payload_bits(table, data).len() <= 32 * data.len(),
{
    lemma_coded_bits(f, table, data, 256);
    lemma_weighted_count(data, |i: int| table[i].bit_len as nat);
    lemma_sum_payload(table, data);
}

pub proof fn lemma_coded_bits_mono(f: Seq<u64>, table: Seq<SymbolCode>, n: int, m: int)
    requires
        0 <= n <= m,
    ensures
        coded_bits(f, table, n) <= coded_bits(f, table, m),
    decreases m - n,
{
    if n < m {
        lemma_coded_bits_mono(f, table, n, m - 1);
    }
}

/// Every byte of `s` is counted.
pub proof fn lemma_count_pos(s: Seq<u8>, i: int)
    requires
        0 <= i < s.len(),
    ensures
        count_of(s, s[i]) > 0,
    decreases s.len(),
{
    if i < s.len() - 1 {
        lemma_count_pos(s.drop_last(), i);
    }
}

pub proof fn lemma_nonzero_count_pos(f: Seq<u64>, b: int, n: int)
    requires
        0 <= b < n,
        f[b] > 0,
    ensures
        nonzero_count(f, n) > 0,
    decreases n,
{
    if b < n - 1 {
        lemma_nonzero_count_pos(f, b, n - 1);
    }
}

/// A code book made for `data`: a tree whose leaves carry exactly the bytes
/// of `data`, and a table with the path to each of them.
pub open spec fn book_for(root: Node, table: Seq<SymbolCode>, data: Seq<u8>) -> bool {
    &&& root.wf()
    &&& !root.leaf_spec()
    &&& table_for(root, table)
    &&& forall|b: u8| #[trigger] root.has_symbol(b) <==> count_of(data, b) > 0
}

/// What decoding a member gives: the tree serialised at bit `start`, then
/// exactly `data_bit_size` bits of codes.
pub open spec fn decode_member(bits: Seq<bool>, start: int, data_bit_size: int) -> Result<
    Seq<u8>,
    ArchiveError,
> {
    match parse_tree(bits.skip(start)) {
        None => Err(ArchiveError::MalformedTree),
        Some((root, k)) => if start + k + data_bit_size > bits.len() {
            Err(ArchiveError::IoError)
        } else {
            match decode_all(root, bits.subrange(start + k, start + k + data_bit_size)) {
                None => Err(ArchiveError::DecodeOverrun),
                Some(out) => Ok(out),
            }
        },
    }
}

/// Decoding what was encoded gives the data back: a member made of the
/// serialised tree of a code book for `data` and the codes of `data`, at any
/// position and followed by anything, decodes to `data`.
pub proof fn lemma_round_trip(
    root: Node,
    table: Seq<SymbolCode>,
    data: Seq<u8>,
    pre: Seq<bool>,
    rest: Seq<bool>,
)
    requires
        book_for(root, table, data),
    ensures
        decode_member(
            pre + root.tree_bits() + payload_bits(table, data) + rest,
            pre.len() as int,
            payload_bits(table, data).len() as int,
        ) == Ok::<Seq<u8>, ArchiveError>(data),
{
    let payload = payload_bits(table, data);
    let bits = pre + root.tree_bits() + payload + rest;
    let p = pre.len() as int;
    let t = root.tree_bits().len() as int;
    assert(bits.skip(p) =~= root.tree_bits() + (payload + rest));
    lemma_parse_tree_bits(root, payload + rest);
    assert(bits.subrange(p + t, p + t + payload.len()) =~= payload);
    crate::tree::lemma_stripped(root);
    let s = root.stripped();
    assert forall|i: int| 0 <= i < data.len() implies s.leaf_at(
        table[#[trigger] data[i] as int].bits(),
    ) == Some(data[i]) by {
        lemma_count_pos(data, i);
        assert(root.has_symbol(data[i]));
        assert(s.leaf_at(table[data[i] as int].bits()) == root.leaf_at(
            table[data[i] as int].bits(),
        ));
    }
    lemma_decode_payload(s, table, data);
}

proof fn lemma_leaf_at_extend(n: Node, p: Seq<bool>, q: Seq<bool>)
    requires
        n.leaf_at(p) is Some,
        p.len() <= q.len(),
        q.take(p.len() as int) == p,
        n.leaf_at(q) is Some,
    ensures
        q == p,
    decreases p.len(),
{
    if p.len() == 0 {
        if q.len() > 0 {
            assert(n.leaf_spec());
        }
        assert(q =~= p);
    } else {
        assert(q[0] == p[0]);
        assert(q.drop_first().take(p.drop_first().len() as int) =~= p.drop_first());
        let child = if p[0] {
            n.right
        } else {
            n.left
        };
        match child {
            Some(c) => {
                lemma_leaf_at_extend(*c, p.drop_first(), q.drop_first());
                assert(q =~= seq![q[0]] + q.drop_first());
                assert(p =~= seq![p[0]] + p.drop_first());
            },
            None => {},
        }
    }
}

/// The codes of a symbol table are prefix free: the code of one symbol of
/// the tree never starts the code of another.
pub proof fn lemma_prefix_free(root: Node, table: Seq<SymbolCode>, a: u8, b: u8)
    requires
        table_for(root, table),
        root.has_symbol(a),
        root.has_symbol(b),
        a != b,
    ensures
        !(table[a as int].bits().len() <= table[b as int].bits().len() && table[b as int].bits().take(
            table[a as int].bits().len() as int,
        ) == table[a as int].bits()),
{
    let pa = table[a as int].bits();
    let pb = table[b as int].bits();
    if pa.len() <= pb.len() && pb.take(pa.len() as int) == pa {
        lemma_leaf_at_extend(root, pa, pb);
    }
}

/// Every code of a code book takes at least one bit, so the encoded data is
/// at least one bit per byte, a single repeated symbol included.
pub proof fn lemma_codes_not_empty(root: Node, table: Seq<SymbolCode>, data: Seq<u8>)
    requires
        book_for(root, table, data),
    ensures
        forall|i: int| 0 <= i < data.len() ==> table[#[trigger] data[i] as int].bit_len >= 1,
        payload_bits(table, data).len() >= data.len(),
{
    assert forall|i: int| 0 <= i < data.len() implies table[#[trigger] data[i] as int].bit_len
        >= 1 by {
        lemma_count_pos(data, i);
        assert(root.has_symbol(data[i]));
        assert(root.leaf_at(table[data[i] as int].bits()) == Some(data[i]));
        if table[data[i] as int].bit_len == 0 {
            assert(table[data[i] as int].bits().len() == 0);
        }
    }
    lemma_payload_min(table, data);
}

proof fn lemma_payload_min(table: Seq<SymbolCode>, data: Seq<u8>)
    requires
        forall|i: int| 0 <= i < data.len() ==> table[#[trigger] data[i] as int].bit_len >= 1,
    ensures
        payload_bits(table, data).len() >= data.len(),
    decreases data.len(),
{
    if data.len() > 0 {
        let d = data.drop_last();
        assert forall|i: int| 0 <= i < d.len() implies table[#[trigger] d[i] as int].bit_len >= 1 by {
            assert(d[i] == data[i]);
        }
        lemma_payload_min(table, d);
        assert(table[data[data.len() - 1] as int].bit_len >= 1);
    }
}

} // verus!
