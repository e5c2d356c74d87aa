//! Navigable handles into a dissection tree, and the three traversal
//! strategies over them: depth-first (pre-order with a boundary-aware
//! upward walk), breadth-first, and direct-children-only.

use vstd::prelude::*;

use crate::fvalue::FValue;
use crate::tree::ProtoTree;
use crate::tree::chain;
use crate::tree::depth_of;
use crate::tree::lemma_depth_le_idx;
use crate::tree::lemma_nwp_char;
use crate::tree::preorder;
use crate::tree::after;
use crate::tree::in_subtree;
use crate::tree::subtree_set;
use crate::tree::cover;
use crate::tree::covers_disjoint;
use vstd::string::StrSliceExecFns;
use vstd::string::StringExecFns;

verus! {

/// The first entry of `order`, from position `from` on, whose node's
/// abbreviation equals `target`.
pub open spec fn first_match_at(
    nodes: Seq<crate::tree::ProtoNodeData>,
    order: Seq<usize>,
    target: Seq<char>,
    from: int,
) -> Option<usize>
    decreases order.len() - from,
    when 0 <= from
{
    if from >= order.len() {
        None
    } else if nodes[order[from] as int].abbrev@ == target {
        Some(order[from])
    } else {
        first_match_at(nodes, order, target, from + 1)
    }
}

/// The first node of the sibling chain at `link` whose abbreviation equals
/// `target`.
pub open spec fn find_in_chain(
    nodes: Seq<crate::tree::ProtoNodeData>,
    link: Option<usize>,
    target: Seq<char>,
) -> Option<usize>
    decreases (match link {
        Some(j) => nodes.len() - j,
        None => 0,
    }),
    when crate::tree::links_ascend(nodes) && (link matches Some(j) ==> j < nodes.len())
{
    match link {
        None => None,
        Some(c) => if nodes[c as int].abbrev@ == target {
            Some(c)
        } else {
            find_in_chain(nodes, nodes[c as int].next, target)
        },
    }
}

/// Dotted hierarchical lookup over the path's characters: at each dot at
/// position `from`, descend into the direct child whose abbreviation is
/// the whole path prefix before that dot; the segment after the last dot
/// is never matched.
pub open spec fn hier_lookup(
    nodes: Seq<crate::tree::ProtoNodeData>,
    at: int,
    path: Seq<char>,
    from: int,
) -> Option<int>
    decreases path.len() - from,
    when 0 <= from && crate::tree::links_ascend(nodes) && 0 <= at < nodes.len()
{
    if from >= path.len() {
        Some(at)
    } else if path[from] == '.' {
        match find_in_chain(nodes, nodes[at].first_child, path.take(from)) {
            Some(c) => hier_lookup(nodes, c as int, path, from + 1),
            None => None,
        }
    } else {
        hier_lookup(nodes, at, path, from + 1)
    }
}

/// Observable equality of two optional links.
fn opt_idx_eq(a: Option<usize>, b: Option<usize>) -> (r: bool)
    ensures
        r == (a == b),
{
    match (a, b) {
        (None, None) => true,
        (Some(x), Some(y)) => x == y,
        _ => false,
    }
}

/// Observable equality of two field values.
fn fvalue_eq(a: &FValue, b: &FValue) -> (r: bool)
    ensures
        r == a.eqv(b),
{
    a.repr == b.repr && opt_idx_eq(a.length, b.length) && a.ftype.id == b.ftype.id
        && a.ftype.wire_size == b.ftype.wire_size && a.ftype.name == b.ftype.name
}

/// Observable equality of two arena entries.
fn node_data_eq(a: &crate::tree::ProtoNodeData, b: &crate::tree::ProtoNodeData) -> (r: bool)
    ensures
        r == crate::tree::node_data_eqv(*a, *b),
{
    opt_idx_eq(a.parent, b.parent) && opt_idx_eq(a.first_child, b.first_child) && opt_idx_eq(
        a.last_child,
        b.last_child,
    ) && opt_idx_eq(a.next, b.next) && a.abbrev == b.abbrev && (match (&a.fvalue, &b.fvalue) {
        (None, None) => true,
        (Some(x), Some(y)) => fvalue_eq(x, y),
        _ => false,
    })
}

/// Observable equality of two trees, node for node.
fn trees_eq(a: &ProtoTree, b: &ProtoTree) -> (r: bool)
    ensures
        r == crate::tree::trees_eqv(a.nodes@, b.nodes@),
{
    if a.nodes.len() != b.nodes.len() {
        return false;
    }
    let mut i: usize = 0;
    while i < a.nodes.len()
        invariant
            i <= a.nodes@.len(),
            a.nodes@.len() == b.nodes@.len(),
            forall|m: int|
                0 <= m < i ==> crate::tree::node_data_eqv(#[trigger] a.nodes@[m], b.nodes@[m]),
        decreases a.nodes@.len() - i,
    {
        if !node_data_eq(&a.nodes[i], &b.nodes[i]) {
            return false;
        }
        i = i + 1;
    }
    true
}

/// A handle into one node of a dissection tree: a shared reference to the
/// tree plus the node's stable arena index. Two handles are equal exactly
/// when they reference the identical underlying tree node: the same index
/// into the same tree. Trees are values here, with no address of their
/// own, so "the same tree" means arenas that hold the same nodes; handles
/// into trees that differ anywhere never compare equal.
#[derive(Clone, Copy, Debug)]
pub struct ProtoNode<'a> {
    pub tree: &'a ProtoTree,
    pub idx: usize,
    pub depth: i16,
}

impl<'a> PartialEq for ProtoNode<'a> {
    fn eq(&self, other: &Self) -> (r: bool)
        ensures
            r == (self.idx == other.idx && crate::tree::trees_eqv(
                self.tree.nodes@,
                other.tree.nodes@,
            )),
    {
        self.idx == other.idx && trees_eq(self.tree, other.tree)
    }
}

impl<'a> vstd::std_specs::cmp::PartialEqSpecImpl for ProtoNode<'a> {
    open spec fn obeys_eq_spec() -> bool {
        true
    }

    open spec fn eq_spec(&self, other: &Self) -> bool {
        self.idx == other.idx && crate::tree::trees_eqv(self.tree.nodes@, other.tree.nodes@)
    }
}

impl<'a> ProtoNode<'a> {
    /// The arena the handle points into.
    pub open spec fn nodes(&self) -> Seq<crate::tree::ProtoNodeData> {
        self.tree.nodes@
    }

    /// The entry the handle points at.
    pub open spec fn data(&self) -> crate::tree::ProtoNodeData {
        self.tree.nodes@[self.idx as int]
    }

    /// A valid handle: well-formed tree, index inside it, recorded depth
    /// equal to the node's distance from the tree root.
    pub open spec fn wf(&self) -> bool {
        &&& self.tree.wf()
        &&& (self.idx as int) < self.tree.nodes@.len()
        &&& self.depth as int == depth_of(self.tree.nodes@, self.idx as int)
    }

    /// A handle to node `idx` of `tree`.
    pub fn new(tree: &'a ProtoTree, idx: usize, depth: i16) -> (r: ProtoNode<'a>)
        requires
            tree.wf(),
            idx < tree.nodes@.len(),
            depth as int == depth_of(tree.nodes@, idx as int),
        ensures
            r.tree == tree,
            r.idx == idx,
            r.depth == depth,
            r.wf(),
    {
        ProtoNode { tree, idx, depth }
    }

    /// The node's dotted abbreviation name, e.g. `ip.src`.
    pub fn get_abbrev(&self) -> (r: String)
        requires
            self.wf(),
        ensures
            r == self.data().abbrev,
    {
        self.tree.nodes[self.idx].abbrev.clone()
    }

    /// The node's decoded field value; absent on a pure grouping node.
    pub fn get_fvalue(&self) -> (r: Option<FValue>)
        requires
            self.wf(),
        ensures
            r == self.data().fvalue,
    {
        match &self.tree.nodes[self.idx].fvalue {
            None => None,
            Some(v) => Some(v.clone()),
        }
    }

    /// The parent node; absent at the tree root.
    pub fn get_parent(&self) -> (r: Option<ProtoNode<'a>>)
        requires
            self.wf(),
        ensures
            r is Some <==> self.data().parent is Some,
            r matches Some(n) ==> {
                &&& self.data().parent == Some(n.idx)
                &&& n.tree == self.tree
                &&& n.depth == self.depth - 1
                &&& n.wf()
            },
    {
        match self.tree.nodes[self.idx].parent {
            None => None,
            Some(p) => {
                proof {
                    assert(depth_of(self.tree.nodes@, self.idx as int) == 1 + depth_of(
                        self.tree.nodes@,
                        p as int,
                    ));
                }
                Some(ProtoNode { tree: self.tree, idx: p, depth: self.depth - 1 })
            },
        }
    }

    /// The first child; absent on a leaf.
    pub fn get_first_child(&self) -> (r: Option<ProtoNode<'a>>)
        requires
            self.wf(),
        ensures
            r is Some <==> self.data().first_child is Some,
            r matches Some(n) ==> {
                &&& self.data().first_child == Some(n.idx)
                &&& n.tree == self.tree
                &&& n.depth == self.depth + 1
                &&& n.wf()
            },
    {
        match self.tree.nodes[self.idx].first_child {
            None => None,
            Some(c) => {
                proof {
                    let nodes = self.tree.nodes@;
                    lemma_nwp_char(nodes, Some(self.idx), self.idx as int + 1);
                    assert(nodes[c as int].parent == Some(self.idx));
                    assert(depth_of(nodes, c as int) == 1 + depth_of(nodes, self.idx as int));
                    lemma_depth_le_idx(nodes, c as int);
                }
                Some(ProtoNode { tree: self.tree, idx: c, depth: self.depth + 1 })
            },
        }
    }

    /// The last child; absent on a leaf.
    pub fn get_last_child(&self) -> (r: Option<ProtoNode<'a>>)
        requires
            self.wf(),
        ensures
            r is Some <==> self.data().last_child is Some,
            r matches Some(n) ==> {
                &&& self.data().last_child == Some(n.idx)
                &&& n.tree == self.tree
                &&& n.depth == self.depth + 1
                &&& n.wf()
            },
    {
        match self.tree.nodes[self.idx].last_child {
            None => None,
            Some(c) => {
                proof {
                    let nodes = self.tree.nodes@;
                    assert(nodes[c as int].parent == Some(self.idx));
                    assert(depth_of(nodes, c as int) == 1 + depth_of(nodes, self.idx as int));
                    lemma_depth_le_idx(nodes, c as int);
                }
                Some(ProtoNode { tree: self.tree, idx: c, depth: self.depth + 1 })
            },
        }
    }

    /// The next sibling; absent on the last child of a parent, and on the
    /// tree root (there is no previous-sibling operation).
    pub fn get_next(&self) -> (r: Option<ProtoNode<'a>>)
        requires
            self.wf(),
        ensures
            r is Some <==> self.data().next is Some,
            r matches Some(n) ==> {
                &&& self.data().next == Some(n.idx)
                &&& n.tree == self.tree
                &&& n.depth == self.depth
                &&& n.wf()
            },
    {
        match self.tree.nodes[self.idx].next {
            None => None,
            Some(s) => {
                proof {
                    let nodes = self.tree.nodes@;
                    assert(nodes[0].next is None);
                    assert(self.idx != 0);
                    let p = nodes[self.idx as int].parent;
                    lemma_nwp_char(nodes, p, self.idx as int + 1);
                    assert(nodes[s as int].parent == p);
                    assert(depth_of(nodes, s as int) == 1 + depth_of(nodes, p->0 as int));
                    assert(depth_of(nodes, self.idx as int) == 1 + depth_of(nodes, p->0 as int));
                }
                Some(ProtoNode { tree: self.tree, idx: s, depth: self.depth })
            },
        }
    }

    /// The node's depth; the handle a dissection result hands out for the
    /// tree root has depth 0.
    pub fn get_depth(&self) -> (r: i16)
        ensures
            r == self.depth,
    {
        self.depth
    }

    /// Whether the node has no children.
    pub fn is_leaf(&self) -> (r: bool)
        requires
            self.wf(),
        ensures
            r == (self.data().first_child is None),
    {
        self.tree.nodes[self.idx].first_child.is_none()
    }

    /// The full sibling chain starting at the first child: exactly the
    /// sequence first-child, first-child's next, and so on until the link
    /// is absent.
    pub fn get_children(&self) -> (r: Vec<ProtoNode<'a>>)
        requires
            self.wf(),
        ensures
            r@.len() == chain(self.nodes(), self.data().first_child).len(),
            forall|k: int|
                0 <= k < r@.len() ==> {
                    &&& (#[trigger] r@[k]).idx == chain(self.nodes(), self.data().first_child)[k]
                    &&& r@[k].tree == self.tree
                    &&& r@[k].depth == self.depth + 1
                    &&& r@[k].wf()
                },
    {
        let ghost nodes = self.nodes();
        let ghost full = chain(nodes, self.data().first_child);
        let mut children: Vec<ProtoNode<'a>> = Vec::new();
        let mut current: Option<ProtoNode<'a>> = self.get_first_child();
        while current.is_some()
            invariant
                self.wf(),
                nodes == self.nodes(),
                full == chain(nodes, self.data().first_child),
                current matches Some(n) ==> n.wf() && n.tree == self.tree && n.depth == self.depth
                    + 1,
                full == children@.map_values(|n: ProtoNode<'a>| n.idx) + chain(
                    nodes,
                    match current {
                        Some(n) => Some(n.idx),
                        None => None,
                    },
                ),
                forall|k: int|
                    0 <= k < children@.len() ==> {
                        &&& (#[trigger] children@[k]).idx == full[k]
                        &&& children@[k].tree == self.tree
                        &&& children@[k].depth == self.depth + 1
                        &&& children@[k].wf()
                    },
            decreases (match current {
                Some(n) => nodes.len() - n.idx,
                None => 0,
            }),
        {
            let node = current.unwrap();
            proof {
                assert(chain(nodes, Some(node.idx)) == seq![node.idx].add(
                    chain(nodes, nodes[node.idx as int].next),
                ));
            }
            children.push(node);
            current = node.get_next();
            proof {
                assert(full =~= children@.map_values(|n: ProtoNode<'a>| n.idx) + chain(
                    nodes,
                    match current {
                        Some(n) => Some(n.idx),
                        None => None,
                    },
                ));
            }
        }
        proof {
            assert(full =~= children@.map_values(|n: ProtoNode<'a>| n.idx));
        }
        children
    }

    /// A lazy pre-order traversal of this node's subtree.
    pub fn iter_depth_first(&self) -> (r: ProtoNodeDepthFirstIter<'a>)
        requires
            self.wf(),
        ensures
            r.wf_iter(),
            r.parent_node == *self,
            r.pos@ == 0,
    {
        ProtoNodeDepthFirstIter::new(*self)
    }

    /// A lazy breadth-first traversal of this node's subtree.
    pub fn iter_breadth_first(&self) -> (r: ProtoNodeBreadthFirstIter<'a>)
        requires
            self.wf(),
        ensures
            r.wf_iter(),
            r.root == *self,
            r.visited@ == Seq::<usize>::empty(),
    {
        ProtoNodeBreadthFirstIter::new(*self)
    }

    /// Depth-first search of the entire subtree for the first node whose
    /// abbreviation equals `abbrev` exactly, in pre-order.
    pub fn find_exhaustive(&self, abbrev: String) -> (r: Option<ProtoNode<'a>>)
        requires
            self.wf(),
        ensures
            match first_match_at(self.nodes(), preorder(self.nodes(), self.idx as int), abbrev@, 0) {
                Some(j) => r matches Some(n) && n.idx == j && n.wf() && n.tree == self.tree,
                None => r is None,
            },
    {
        let ghost nodes = self.nodes();
        let ghost pre = preorder(nodes, self.idx as int);
        let mut it = self.iter_depth_first();
        loop
            invariant
                self.wf(),
                it.wf_iter(),
                it.parent_node == *self,
                nodes == self.nodes(),
                pre == preorder(nodes, self.idx as int),
                0 <= it.pos@ <= pre.len(),
                first_match_at(nodes, pre, abbrev@, 0) == first_match_at(
                    nodes,
                    pre,
                    abbrev@,
                    it.pos@,
                ),
            decreases pre.len() - it.pos@,
        {
            let ghost p = it.pos@;
            match it.next() {
                None => {
                    proof {
                        assert(first_match_at(nodes, pre, abbrev@, p) is None);
                    }
                    return None;
                },
                Some(n) => {
                    if n.get_abbrev() == abbrev {
                        proof {
                            assert(nodes[pre[p] as int].abbrev@ == abbrev@);
                            assert(first_match_at(nodes, pre, abbrev@, p) == Some(pre[p]));
                        }
                        return Some(n);
                    }
                    proof {
                        assert(nodes[pre[p] as int].abbrev@ != abbrev@);
                        assert(first_match_at(nodes, pre, abbrev@, p) == first_match_at(
                            nodes,
                            pre,
                            abbrev@,
                            p + 1,
                        ));
                    }
                },
            }
        }
    }

    /// The first direct child of `node` whose abbreviation equals `target`.
    fn find_child(node: ProtoNode<'a>, target: &String) -> (r: Option<ProtoNode<'a>>)
        requires
            node.wf(),
        ensures
            match find_in_chain(node.nodes(), node.data().first_child, target@) {
                Some(j) => r matches Some(n) && n.idx == j && n.wf() && n.tree == node.tree,
                None => r is None,
            },
    {
        let ghost nodes = node.nodes();
        let ghost fc = node.data().first_child;
        let mut cur = node.get_first_child();
        loop
            invariant
                node.wf(),
                nodes == node.nodes(),
                fc == node.data().first_child,
                cur matches Some(c) ==> c.wf() && c.tree == node.tree,
                find_in_chain(nodes, fc, target@) == find_in_chain(
                    nodes,
                    match cur {
                        Some(c) => Some(c.idx),
                        None => None,
                    },
                    target@,
                ),
            decreases (match cur {
                Some(c) => nodes.len() - c.idx,
                None => 0,
            }),
        {
            match cur {
                None => {
                    return None;
                },
                Some(c) => {
                    let ab = c.get_abbrev();
                    if ab == *target {
                        return Some(c);
                    }
                    cur = c.get_next();
                },
            }
        }
    }

    /// Dotted hierarchical lookup: the argument is read as dot-separated
    /// segments; at each dot, only the direct children of the current
    /// position are searched for the prefix accumulated so far, and the
    /// search descends into the match. The terminal segment after the last
    /// dot is never matched against: the node found at the last processed
    /// dot is returned. Callers needing the terminal leaf must pass a path
    /// ending in a dot.
    pub fn find_hierarchical(&self, abbrev: String) -> (r: Option<ProtoNode<'a>>)
        requires
            self.wf(),
        ensures
            match hier_lookup(self.nodes(), self.idx as int, abbrev@, 0) {
                Some(j) => r matches Some(n) && n.idx == j && n.wf() && n.tree == self.tree,
                None => r is None,
            },
    {
        let ghost nodes = self.nodes();
        let n_chars = abbrev.as_str().unicode_len();
        let mut crt: ProtoNode<'a> = *self;
        let mut i: usize = 0;
        while i < n_chars
            invariant
                self.wf(),
                crt.wf(),
                crt.tree == self.tree,
                nodes == self.nodes(),
                i <= n_chars,
                n_chars == abbrev@.len(),
                0 <= crt.idx < nodes.len(),
                hier_lookup(nodes, self.idx as int, abbrev@, 0) == hier_lookup(
                    nodes,
                    crt.idx as int,
                    abbrev@,
                    i as int,
                ),
            decreases n_chars - i,
        {
            let ch = abbrev.as_str().get_char(i);
            if ch == '.' {
                let prefix: String = String::from_str(abbrev.as_str().substring_char(0, i));
                proof {
                    assert(prefix@ == abbrev@.take(i as int));
                }
                match Self::find_child(crt, &prefix) {
                    Some(child) => {
                        proof {
                            assert(hier_lookup(nodes, crt.idx as int, abbrev@, i as int)
                                == hier_lookup(nodes, child.idx as int, abbrev@, i as int + 1));
                        }
                        crt = child;
                    },
                    None => {
                        proof {
                            assert(hier_lookup(nodes, crt.idx as int, abbrev@, i as int) is None);
                        }
                        return None;
                    },
                }
            } else {
                proof {
                    assert(hier_lookup(nodes, crt.idx as int, abbrev@, i as int) == hier_lookup(
                        nodes,
                        crt.idx as int,
                        abbrev@,
                        i as int + 1,
                    ));
                }
            }
            i = i + 1;
        }
        Some(crt)
    }

    /// A lazy iterator over the direct children, sharing its meaning with
    /// `get_children`: both walk the same sibling chain.
    pub fn iter_children(&self) -> (r: ProtoNodeChildrenIter<'a>)
        requires
            self.wf(),
        ensures
            r.wf_iter(),
            r.remaining() == chain(self.nodes(), self.data().first_child),
            r.crt_node matches Some(n) ==> n.tree == self.tree,
    {
        let r = ProtoNodeChildrenIter { crt_node: self.get_first_child() };
        proof {
            match r.crt_node {
                Some(n) => {
                    assert(r.remaining() == chain(self.nodes(), self.data().first_child));
                },
                None => {
                    assert(r.remaining() =~= chain(self.nodes(), self.data().first_child));
                },
            }
        }
        r
    }
}

/// Depth-first traversal visits every node of the start node's subtree
/// exactly once: its pre-order has no duplicates and contains precisely
/// the subtree's nodes, and from the tree root its length is the tree's
/// node count. Breadth-first traversal visits the same set exactly once
/// with the same count: `ProtoNodeBreadthFirstIter::next` states that at
/// exhaustion, over the same pre-order sequence.
pub proof fn lemma_traversal_visits_each_node_once(tree: &ProtoTree, start: int)
    requires
        tree.wf(),
        0 <= start < tree.nodes@.len(),
    ensures
        preorder(tree.nodes@, start).no_duplicates(),
        forall|x: usize| #[trigger]
            preorder(tree.nodes@, start).contains(x) <==> (x < tree.nodes@.len() && in_subtree(
                tree.nodes@,
                start,
                x as int,
            )),
        start == 0 ==> preorder(tree.nodes@, 0).len() == tree.spec_node_count(),
{
    crate::tree::lemma_preorder_nodup(tree.nodes@, start);
    assert forall|x: usize| #[trigger]
        preorder(tree.nodes@, start).contains(x) <==> (x < tree.nodes@.len() && in_subtree(
            tree.nodes@,
            start,
            x as int,
        )) by {
        crate::tree::lemma_preorder_mem(tree.nodes@, start, x);
    }
    if start == 0 {
        crate::tree::lemma_preorder_all(tree.nodes@);
    }
}

/// Children-only iteration from a node walks exactly the sequence
/// first-child, first-child's next, and so on, ending at the first absent
/// link — the very sequence `get_children` returns, since both are
/// contracted to the same sibling chain.
pub proof fn lemma_children_only_walks_sibling_chain(tree: &ProtoTree, n: int)
    requires
        tree.wf(),
        0 <= n < tree.nodes@.len(),
    ensures
        ({
            let kids = chain(tree.nodes@, tree.nodes@[n].first_child);
            &&& (tree.nodes@[n].first_child is None ==> kids == Seq::<usize>::empty())
            &&& (tree.nodes@[n].first_child matches Some(c) ==> kids.len() >= 1 && kids[0] == c)
            &&& forall|k: int|
                0 <= k < kids.len() - 1 ==> tree.nodes@[#[trigger] kids[k] as int].next == Some(
                    kids[k + 1],
                )
            &&& (kids.len() >= 1 ==> tree.nodes@[kids.last() as int].next is None)
        }),
{
    crate::tree::lemma_chain_is_sibling_sequence(tree.nodes@, tree.nodes@[n].first_child);
}

/// Lazy pre-order traversal of the subtree under a chosen starting node.
///
/// From the current node it prefers the first child; failing that, the next
/// sibling; failing that, it walks up through parents until one has a next
/// sibling, and descends there. The upward walk stops at the node the
/// traversal started from — the start node is the boundary, never exited,
/// even when the traversal starts in mid-tree.
pub struct ProtoNodeDepthFirstIter<'a> {
    pub parent_node: ProtoNode<'a>,
    pub current_node: Option<ProtoNode<'a>>,
    pub pos: Ghost<int>,
}

impl<'a> ProtoNodeDepthFirstIter<'a> {
    /// The full traversal: the pre-order of the start node's subtree.
    pub open spec fn traversal(&self) -> Seq<usize> {
        preorder(self.parent_node.tree.nodes@, self.parent_node.idx as int)
    }

    /// The iterator invariant: `pos` nodes are already yielded, and the
    /// current node heads exactly the rest of the pre-order.
    pub open spec fn wf_iter(&self) -> bool {
        &&& self.parent_node.wf()
        &&& 0 <= self.pos@ <= self.traversal().len()
        &&& match self.current_node {
            Some(n) => {
                &&& n.wf()
                &&& n.tree == self.parent_node.tree
                &&& in_subtree(self.parent_node.tree.nodes@, self.parent_node.idx as int, n.idx as int)
                &&& self.traversal().skip(self.pos@) == preorder(
                    self.parent_node.tree.nodes@,
                    n.idx as int,
                ) + after(
                    self.parent_node.tree.nodes@,
                    self.parent_node.idx as int,
                    n.idx as int,
                )
            },
            None => self.pos@ == self.traversal().len(),
        }
    }

    /// A fresh traversal positioned at its start node.
    pub fn new(node: ProtoNode<'a>) -> (r: ProtoNodeDepthFirstIter<'a>)
        requires
            node.wf(),
        ensures
            r.wf_iter(),
            r.parent_node == node,
            r.pos@ == 0,
    {
        let r = ProtoNodeDepthFirstIter {
            parent_node: node,
            current_node: Some(node),
            pos: Ghost(0int),
        };
        proof {
            let nodes = node.tree.nodes@;
            let ri = node.idx as int;
            crate::tree::lemma_after_root(nodes, ri);
            assert(r.traversal().skip(0) =~= preorder(nodes, ri) + after(nodes, ri, ri));
        }
        r
    }

    /// Yields the node at position `pos` of the pre-order and advances.
    pub fn next(&mut self) -> (r: Option<ProtoNode<'a>>)
        requires
            old(self).wf_iter(),
        ensures
            final(self).wf_iter(),
            final(self).parent_node == old(self).parent_node,
            r is Some <==> old(self).pos@ < old(self).traversal().len(),
            r matches Some(n) ==> {
                &&& n.idx == old(self).traversal()[old(self).pos@]
                &&& n.wf()
                &&& n.tree == old(self).parent_node.tree
                &&& final(self).pos@ == old(self).pos@ + 1
            },
            r is None ==> final(self).pos@ == old(self).pos@,
    {
        let ghost nodes = self.parent_node.tree.nodes@;
        let ghost ri = self.parent_node.idx as int;
        let ghost pre = self.traversal();
        match self.current_node {
            None => None,
            Some(node) => {
                proof {
                    assert(preorder(nodes, node.idx as int).len() >= 1);
                    assert(preorder(nodes, node.idx as int)[0] == node.idx);
                    assert(pre.skip(self.pos@).len() == pre.len() - self.pos@);
                    assert(self.pos@ < pre.len());
                    assert(pre.skip(self.pos@)[0] == node.idx);
                    assert(pre[self.pos@] == pre.skip(self.pos@)[0]);
                }
                let ghost oldpos = self.pos@;
                self.pos = Ghost(self.pos@ + 1);
                match node.get_first_child() {
                    Some(child) => {
                        proof {
                            crate::tree::lemma_dfs_down(nodes, ri, node.idx as int);
                            assert(pre.skip(oldpos).drop_first() =~= pre.skip(oldpos + 1));
                            assert((seq![node.idx] + (preorder(nodes, child.idx as int) + after(
                                nodes,
                                ri,
                                child.idx as int,
                            ))).drop_first() =~= preorder(nodes, child.idx as int) + after(
                                nodes,
                                ri,
                                child.idx as int,
                            ));
                        }
                        self.current_node = Some(child);
                        Some(node)
                    },
                    None => {
                        proof {
                            crate::tree::lemma_dfs_leaf(nodes, node.idx as int);
                            assert(pre.skip(oldpos).drop_first() =~= pre.skip(oldpos + 1));
                            assert(pre.skip(oldpos) == seq![node.idx] + after(
                                nodes,
                                ri,
                                node.idx as int,
                            ));
                            assert((seq![node.idx] + after(nodes, ri, node.idx as int)).drop_first()
                                =~= after(nodes, ri, node.idx as int));
                            assert(pre.skip(oldpos + 1) == after(nodes, ri, node.idx as int));
                        }
                        // Walk up and sideways, bounded by the start node.
                        let ghost parent0 = self.parent_node;
                        let mut cnode = node;
                        loop
                            invariant_except_break
                                self.current_node == Some(node),
                            invariant
                                self.parent_node == parent0,
                                self.parent_node.wf(),
                                nodes == self.parent_node.tree.nodes@,
                                ri == self.parent_node.idx as int,
                                pre == self.traversal(),
                                self.pos@ == oldpos + 1,
                                0 <= oldpos + 1 <= pre.len(),
                                cnode.wf(),
                                cnode.tree == self.parent_node.tree,
                                in_subtree(nodes, ri, cnode.idx as int),
                                pre.skip(oldpos + 1) == after(nodes, ri, cnode.idx as int),
                            ensures
                                self.parent_node == parent0,
                                self.pos@ == oldpos + 1,
                                self.wf_iter(),
                            decreases cnode.idx,
                        {
                            if cnode.idx == self.parent_node.idx {
                                proof {
                                    crate::tree::lemma_after_root(nodes, ri);
                                    assert(pre.skip(oldpos + 1).len() == pre.len() - (oldpos + 1));
                                }
                                self.current_node = None;
                                break ;
                            }
                            match cnode.get_next() {
                                Some(sib) => {
                                    proof {
                                        crate::tree::lemma_dfs_sideways(
                                            nodes,
                                            ri,
                                            cnode.idx as int,
                                        );
                                    }
                                    self.current_node = Some(sib);
                                    break ;
                                },
                                None => {
                                    proof {
                                        crate::tree::lemma_dfs_up(nodes, ri, cnode.idx as int);
                                    }
                                    cnode = cnode.get_parent().unwrap();
                                },
                            }
                        }
                        Some(node)
                    },
                }
            },
        }
    }
}

/// Lazy breadth-first traversal: a queue seeded with the start node; each
/// step dequeues one node, enqueues its direct children in order, and
/// yields the dequeued node. Visits exactly the nodes of the start node's
/// subtree, each once.
pub struct ProtoNodeBreadthFirstIter<'a> {
    pub root: ProtoNode<'a>,
    pub queue: Vec<ProtoNode<'a>>,
    pub head: usize,
    pub visited: Ghost<Seq<usize>>,
}

impl<'a> ProtoNodeBreadthFirstIter<'a> {
    /// The indices still queued, in order.
    pub open spec fn pending(&self) -> Seq<usize> {
        self.queue@.skip(self.head as int).map_values(|n: ProtoNode<'a>| n.idx)
    }

    /// The iterator invariant: the visited nodes and the subtrees of the
    /// queued nodes partition the start node's subtree.
    pub open spec fn wf_iter(&self) -> bool {
        let nodes = self.root.tree.nodes@;
        &&& self.root.wf()
        &&& self.head <= self.queue@.len()
        &&& (forall|k: int|
            self.head <= k < self.queue@.len() ==> (#[trigger] self.queue@[k]).wf()
                && self.queue@[k].tree == self.root.tree)
        &&& self.visited@.no_duplicates()
        &&& self.visited@.to_set().disjoint(cover(nodes, self.pending()))
        &&& self.visited@.to_set().union(cover(nodes, self.pending())) == subtree_set(
            nodes,
            self.root.idx as int,
        )
        &&& covers_disjoint(nodes, self.pending())
    }

    /// A fresh traversal whose queue holds only the start node.
    pub fn new(root: ProtoNode<'a>) -> (r: Self)
        requires
            root.wf(),
        ensures
            r.wf_iter(),
            r.root == root,
            r.visited@ == Seq::<usize>::empty(),
    {
        let mut queue: Vec<ProtoNode<'a>> = Vec::new();
        queue.push(root);
        let r = ProtoNodeBreadthFirstIter { root, queue, head: 0, visited: Ghost(Seq::empty()) };
        proof {
            let nodes = root.tree.nodes@;
            assert(r.pending() =~= seq![root.idx]);
            assert(r.pending().drop_first() =~= Seq::<usize>::empty());
            assert(cover(nodes, Seq::<usize>::empty()) == Set::<usize>::empty());
            assert(cover(nodes, r.pending()) =~= subtree_set(nodes, root.idx as int));
            assert(r.visited@.to_set() =~= Set::<usize>::empty());
            assert(r.visited@.to_set().disjoint(cover(nodes, r.pending())));
            assert(r.visited@.to_set().union(cover(nodes, r.pending())) =~= subtree_set(
                nodes,
                root.idx as int,
            ));
            assert(covers_disjoint(nodes, Seq::<usize>::empty()));
            assert(covers_disjoint(nodes, r.pending()));
        }
        r
    }

    /// Dequeues and yields the next node, enqueuing its children; yields
    /// nothing once the queue is exhausted, at which point every node of
    /// the start node's subtree has been yielded exactly once.
    #[verifier::rlimit(100)]
    pub fn next(&mut self) -> (r: Option<ProtoNode<'a>>)
        requires
            old(self).wf_iter(),
        ensures
            final(self).wf_iter(),
            final(self).root == old(self).root,
            r is Some <==> old(self).head < old(self).queue@.len(),
            r matches Some(n) ==> {
                &&& n.wf()
                &&& n.tree == old(self).root.tree
                &&& n.idx == old(self).pending()[0]
                &&& in_subtree(
                    old(self).root.tree.nodes@,
                    old(self).root.idx as int,
                    n.idx as int,
                )
                &&& !old(self).visited@.contains(n.idx)
                &&& final(self).visited@ == old(self).visited@.push(n.idx)
            },
            r is None ==> {
                &&& *final(self) == *old(self)
                &&& old(self).visited@.no_duplicates()
                &&& old(self).visited@.to_set() == preorder(
                    old(self).root.tree.nodes@,
                    old(self).root.idx as int,
                ).to_set()
                &&& old(self).visited@.len() == preorder(
                    old(self).root.tree.nodes@,
                    old(self).root.idx as int,
                ).len()
            },
    {
        let ghost nodes = self.root.tree.nodes@;
        let ghost ri = self.root.idx as int;
        if self.head >= self.queue.len() {
            proof {
                assert(self.pending() =~= Seq::<usize>::empty());
                assert(cover(nodes, self.pending()) == Set::<usize>::empty());
                assert(self.visited@.to_set() =~= subtree_set(nodes, ri));
                crate::tree::lemma_visit_matches_preorder(nodes, ri, self.visited@);
            }
            return None;
        }
        let node = self.queue[self.head];
        let ghost oldq = self.queue@;
        let ghost oldhead = self.head as int;
        let ghost oldvis = self.visited@;
        let ghost oldpend = self.pending();
        let ghost q = node.idx;
        let ghost qi = node.idx as int;
        proof {
            assert(oldpend[0] == q);
            assert(oldpend.len() >= 1);
            assert(cover(nodes, oldpend) == subtree_set(nodes, qi).union(
                cover(nodes, oldpend.drop_first()),
            ));
            assert(covers_disjoint(nodes, oldpend.drop_first()));
            assert(subtree_set(nodes, qi).disjoint(cover(nodes, oldpend.drop_first())));
            assert(in_subtree(nodes, qi, qi));
            assert(subtree_set(nodes, qi).contains(q));
            crate::tree::lemma_cover_intro(nodes, oldpend, q, 0);
            assert(cover(nodes, oldpend).contains(q));
            assert(subtree_set(nodes, ri).contains(q));
        }
        self.head = self.head + 1;
        let kids = node.get_children();
        let ghost qmid = self.queue@;
        let ghost kidsidx = chain(nodes, nodes[qi].first_child);
        proof {
            assert(kids@.map_values(|n: ProtoNode<'a>| n.idx) =~= kidsidx);
        }
        let mut i: usize = 0;
        while i < kids.len()
            invariant
                i <= kids@.len(),
                self.queue@ == qmid + kids@.subrange(0, i as int),
                self.head == oldhead + 1,
                self.root == old(self).root,
                self.visited@ == oldvis,
                forall|k: int|
                    0 <= k < kids@.len() ==> (#[trigger] kids@[k]).wf() && kids@[k].tree
                        == old(self).root.tree,
            decreases kids@.len() - i,
        {
            proof {
                assert(kids@.subrange(0, i as int).push(kids@[i as int]) =~= kids@.subrange(
                    0,
                    i as int + 1,
                ));
            }
            self.queue.push(kids[i]);
            i = i + 1;
        }
        self.visited = Ghost(oldvis.push(q));
        proof {
            assert(kids@.subrange(0, kids@.len() as int) =~= kids@);
            assert(self.queue@ == qmid + kids@);
            // The new pending run: the old one minus its head, then the
            // dequeued node's children.
            assert(self.pending() =~= oldpend.drop_first() + kidsidx) by {
                assert(qmid == oldq);
                assert forall|k: int| 0 <= k < self.pending().len() implies self.pending()[k]
                    == (oldpend.drop_first() + kidsidx)[k] by {
                    if oldhead + 1 + k < oldq.len() {
                        assert(self.queue@[oldhead + 1 + k] == oldq[oldhead + 1 + k]);
                        assert(oldpend[k + 1] == oldq[oldhead + 1 + k].idx);
                    } else {
                        let m = oldhead + 1 + k - oldq.len();
                        assert(self.queue@[oldhead + 1 + k] == kids@[m]);
                    }
                }
            }
            let rest = oldpend.drop_first();
            crate::tree::lemma_subtree_set_unfold(nodes, qi);
            assert(subtree_set(nodes, qi) == cover(nodes, kidsidx).insert(q));
            crate::tree::lemma_cover_append(nodes, rest, kidsidx);
            assert(cover(nodes, self.pending()) == cover(nodes, rest).union(
                cover(nodes, kidsidx),
            ));
            // The dequeued node leaves the frontier and joins the visited.
            assert(!oldvis.contains(q));
            assert(self.visited@.no_duplicates());
            assert(self.visited@.to_set() =~= oldvis.to_set().insert(q)) by {
                assert forall|x: usize| #[trigger]
                    self.visited@.contains(x) implies oldvis.contains(x) || x == q by {
                    let k = choose|k: int|
                        0 <= k < self.visited@.len() && self.visited@[k] == x;
                    if k < oldvis.len() {
                        assert(oldvis[k] == x);
                    }
                }
                assert forall|x: usize| oldvis.contains(x) implies self.visited@.contains(x) by {
                    let k = choose|k: int| 0 <= k < oldvis.len() && oldvis[k] == x;
                    assert(self.visited@[k] == x);
                }
                assert(self.visited@[self.visited@.len() - 1] == q);
                assert(self.visited@.contains(q));
            }
            // Children sit strictly after their parent, so the parent is in
            // no child subtree.
            assert forall|k: int| 0 <= k < kidsidx.len() implies (#[trigger] kidsidx[k]) as int
                > qi by {
                assert(kidsidx.contains(kidsidx[k]));
                crate::tree::lemma_chain_char(nodes, Some(q), qi + 1, kidsidx[k]);
            }
            if cover(nodes, kidsidx).contains(q) {
                crate::tree::lemma_cover_ge(nodes, kidsidx, qi, q);
            }
            assert(!cover(nodes, kidsidx).contains(q));
            // Disjointness of the new visited set and the new frontier.
            assert(self.visited@.to_set().disjoint(cover(nodes, self.pending())));
            // The partition is preserved.
            assert(self.visited@.to_set().union(cover(nodes, self.pending())) =~= oldvis.to_set()
                .union(cover(nodes, oldpend)));
            // Pairwise disjointness of the new frontier.
            crate::tree::lemma_chain_covers_disjoint(nodes, Some(q), qi + 1);
            assert(covers_disjoint(nodes, kidsidx));
            assert(cover(nodes, rest).disjoint(cover(nodes, kidsidx)));
            crate::tree::lemma_covers_disjoint_append(nodes, rest, kidsidx);
        }
        Some(node)
    }
}

/// Lazy direct-children traversal: yields the first child, then follows
/// `next` links until exhausted.
pub struct ProtoNodeChildrenIter<'a> {
    pub crt_node: Option<ProtoNode<'a>>,
}

impl<'a> ProtoNodeChildrenIter<'a> {
    pub open spec fn wf_iter(&self) -> bool {
        self.crt_node matches Some(n) ==> n.wf()
    }

    /// The indices still to be yielded, in order.
    pub open spec fn remaining(&self) -> Seq<usize> {
        match self.crt_node {
            Some(n) => chain(n.tree.nodes@, Some(n.idx)),
            None => Seq::empty(),
        }
    }

    /// An iterator over the sibling chain starting at `first_child`.
    pub fn new(first_child: Option<ProtoNode<'a>>) -> (r: ProtoNodeChildrenIter<'a>)
        requires
            first_child matches Some(n) ==> n.wf(),
        ensures
            r.crt_node == first_child,
            r.wf_iter(),
    {
        ProtoNodeChildrenIter { crt_node: first_child }
    }

    /// Yields the head of the remaining chain and moves to its next
    /// sibling; yields nothing once the chain is exhausted.
    pub fn next(&mut self) -> (r: Option<ProtoNode<'a>>)
        requires
            old(self).wf_iter(),
        ensures
            final(self).wf_iter(),
            r == old(self).crt_node,
            r is Some <==> old(self).remaining().len() > 0,
            r matches Some(n) ==> {
                &&& old(self).remaining()[0] == n.idx
                &&& final(self).remaining() == old(self).remaining().drop_first()
                &&& n.wf()
                &&& (final(self).crt_node matches Some(m) ==> m.tree == n.tree && m.depth
                    == n.depth)
            },
            r is None ==> final(self).crt_node == old(self).crt_node,
    {
        match self.crt_node {
            None => None,
            Some(node) => {
                proof {
                    let nodes = node.tree.nodes@;
                    assert(chain(nodes, Some(node.idx)) == seq![node.idx].add(
                        chain(nodes, nodes[node.idx as int].next),
                    ));
                }
                self.crt_node = node.get_next();
                proof {
                    let nodes = node.tree.nodes@;
                    assert(self.remaining() =~= chain(nodes, Some(node.idx)).drop_first());
                }
                Some(node)
            },
        }
    }
}


} // verus!
