//! The dissection tree: an arena of nodes addressed by stable index, each
//! carrying parent / first-child / last-child / next-sibling links only (no
//! previous-sibling link and no size field), an abbreviation name and an
//! optional decoded field value.
//!
//! The arena is append-only and parent-before-child: every link points
//! forward (children and siblings have larger indices than the node they are
//! reached from), and the sibling chain of every node enumerates, in index
//! order, exactly the nodes that name it as their parent. `wf_nodes` states
//! this invariant; `TreeBuilder` is the one way to establish it.

use vstd::prelude::*;

use crate::fvalue::FValue;

verus! {

/// Ceiling on the number of nodes in one tree; keeps every depth
/// representable as an `i16` handle field.
pub const MAX_TREE_NODES: usize = 0x7fff;

/// One arena entry.
#[derive(Debug)]
pub struct ProtoNodeData {
    pub parent: Option<usize>,
    pub first_child: Option<usize>,
    pub last_child: Option<usize>,
    pub next: Option<usize>,
    pub abbrev: String,
    pub fvalue: Option<FValue>,
}

/// Two arena entries are observably the same node: same links, same
/// abbreviation, same field value.
pub open spec fn node_data_eqv(a: ProtoNodeData, b: ProtoNodeData) -> bool {
    &&& a.parent == b.parent
    &&& a.first_child == b.first_child
    &&& a.last_child == b.last_child
    &&& a.next == b.next
    &&& a.abbrev@ == b.abbrev@
    &&& match (a.fvalue, b.fvalue) {
        (Some(x), Some(y)) => x.eqv(&y),
        (None, None) => true,
        _ => false,
    }
}

/// Two arenas are observably the same tree, node for node.
pub open spec fn trees_eqv(a: Seq<ProtoNodeData>, b: Seq<ProtoNodeData>) -> bool {
    &&& a.len() == b.len()
    &&& forall|i: int| 0 <= i < a.len() ==> node_data_eqv(#[trigger] a[i], b[i])
}

/// Every link points forward and lands inside the arena; parents sit before
/// their children. Enough to make the traversal spec functions terminate.
pub open spec fn links_ascend(nodes: Seq<ProtoNodeData>) -> bool {
    forall|i: int|
        0 <= i < nodes.len() ==> {
            &&& ((#[trigger] nodes[i]).parent matches Some(p) ==> p < i)
            &&& (nodes[i].next matches Some(j) ==> i < j < nodes.len())
            &&& (nodes[i].first_child matches Some(j) ==> i < j < nodes.len())
        }
}

/// The smallest index at or after `from` whose node names `pp` as its
/// parent, if any. Kept opaque: its unfolding together with the arena
/// invariant's link equations would otherwise send the prover marching
/// down the arena.
#[verifier::opaque]
pub open spec fn next_with_parent(nodes: Seq<ProtoNodeData>, pp: Option<usize>, from: int) -> Option<
    usize,
>
    decreases nodes.len() - from,
    when 0 <= from
{
    if from >= nodes.len() {
        None
    } else if nodes[from].parent == pp {
        Some(from as usize)
    } else {
        next_with_parent(nodes, pp, from + 1)
    }
}

/// The arena invariant: index 0 is the root, every other node has a parent
/// before it, and the child links of every node are exactly what its
/// children's parent links dictate.
pub open spec fn wf_nodes(nodes: Seq<ProtoNodeData>) -> bool {
    &&& 1 <= nodes.len() <= MAX_TREE_NODES
    &&& links_ascend(nodes)
    &&& nodes[0].parent is None
    &&& nodes[0].next is None
    &&& (forall|i: int| 1 <= i < nodes.len() ==> (#[trigger] nodes[i]).parent is Some)
    &&& (forall|i: int|
        0 <= i < nodes.len() ==> (#[trigger] nodes[i]).first_child == next_with_parent(
            nodes,
            Some(i as usize),
            i + 1,
        ))
    &&& (forall|i: int|
        0 <= i < nodes.len() ==> (#[trigger] nodes[i]).next == next_with_parent(
            nodes,
            nodes[i].parent,
            i + 1,
        ))
    &&& (forall|i: int|
        0 <= i < nodes.len() ==> match (#[trigger] nodes[i]).last_child {
            Some(l) => i < l < nodes.len() && nodes[l as int].parent == Some(i as usize)
                && nodes[l as int].next is None,
            None => nodes[i].first_child is None,
        })
}

/// The sibling chain starting at `link`: the indices reached by following
/// `next` until it is absent.
pub open spec fn chain(nodes: Seq<ProtoNodeData>, link: Option<usize>) -> Seq<usize>
    decreases (match link {
        Some(j) => nodes.len() - j,
        None => 0,
    }),
    when links_ascend(nodes) && (link matches Some(j) ==> j < nodes.len())
{
    match link {
        None => Seq::empty(),
        Some(j) => seq![j].add(chain(nodes, nodes[j as int].next)),
    }
}

/// Pre-order of the subtree rooted at `i`: the node itself, then the
/// pre-orders of its children in sibling order.
pub open spec fn preorder(nodes: Seq<ProtoNodeData>, i: int) -> Seq<usize>
    decreases nodes.len() - i, 0int,
    when links_ascend(nodes) && 0 <= i < nodes.len()
{
    seq![i as usize].add(preorder_chain(nodes, nodes[i].first_child))
}

/// Concatenated pre-orders of the subtrees rooted along a sibling chain.
pub open spec fn preorder_chain(nodes: Seq<ProtoNodeData>, link: Option<usize>) -> Seq<usize>
    decreases (match link {
        Some(j) => nodes.len() - j,
        None => 0,
    }),
    1int,
    when links_ascend(nodes) && (link matches Some(j) ==> j < nodes.len())
{
    match link {
        None => Seq::empty(),
        Some(j) => preorder(nodes, j as int).add(preorder_chain(nodes, nodes[j as int].next)),
    }
}

/// `j` lies in the subtree rooted at `r`: `r` is reached from `j` by
/// parent links.
pub open spec fn in_subtree(nodes: Seq<ProtoNodeData>, r: int, j: int) -> bool
    decreases j,
    when links_ascend(nodes) && 0 <= j < nodes.len()
{
    j == r || (match nodes[j].parent {
        Some(p) => in_subtree(nodes, r, p as int),
        None => false,
    })
}

/// Distance from the tree root by parent links.
pub open spec fn depth_of(nodes: Seq<ProtoNodeData>, j: int) -> nat
    decreases j,
    when links_ascend(nodes) && 0 <= j < nodes.len()
{
    match nodes[j].parent {
        Some(p) => 1 + depth_of(nodes, p as int),
        None => 0,
    }
}

/// What follows the subtree of `c` inside the pre-order of `r`: the
/// subtrees of `c`'s later siblings, then whatever follows `c`'s parent's
/// subtree, up to the traversal root `r`.
pub open spec fn after(nodes: Seq<ProtoNodeData>, r: int, c: int) -> Seq<usize>
    decreases c,
    when links_ascend(nodes) && 0 <= c < nodes.len()
{
    if c == r {
        Seq::empty()
    } else {
        match nodes[c].parent {
            Some(p) => preorder_chain(nodes, nodes[c].next).add(after(nodes, r, p as int)),
            None => Seq::empty(),
        }
    }
}

/// A node's depth never exceeds its index: parents sit strictly before
/// their children.
pub proof fn lemma_depth_le_idx(nodes: Seq<ProtoNodeData>, j: int)
    requires
        links_ascend(nodes),
        0 <= j < nodes.len(),
    ensures
        depth_of(nodes, j) <= j,
    decreases j,
{
    match nodes[j].parent {
        Some(p) => lemma_depth_le_idx(nodes, p as int),
        None => {},
    }
}

/// Everything inside the subtree of `r` sits at or after `r` in the arena.
pub proof fn lemma_in_subtree_ge(nodes: Seq<ProtoNodeData>, r: int, j: int)
    requires
        links_ascend(nodes),
        0 <= j < nodes.len(),
        in_subtree(nodes, r, j),
    ensures
        r <= j,
    decreases j,
{
    if j != r {
        match nodes[j].parent {
            Some(p) => lemma_in_subtree_ge(nodes, r, p as int),
            None => {},
        }
    }
}

/// `next_with_parent` reads only the `parent` fields: two arenas that agree
/// on parents agree on it.
pub proof fn lemma_nwp_only_parents(
    s: Seq<ProtoNodeData>,
    f: Seq<ProtoNodeData>,
    pp: Option<usize>,
    from: int,
)
    requires
        0 <= from,
        s.len() == f.len(),
        forall|i: int| 0 <= i < s.len() ==> (#[trigger] f[i]).parent == s[i].parent,
    ensures
        next_with_parent(f, pp, from) == next_with_parent(s, pp, from),
    decreases s.len() - from,
{
    reveal(next_with_parent);
    if from < s.len() {
        lemma_nwp_only_parents(s, f, pp, from + 1);
    }
}

/// Appending a node moves `next_with_parent` from "absent" to the new index
/// exactly for the new node's parent, and changes nothing that was present.
pub proof fn lemma_nwp_push(s: Seq<ProtoNodeData>, nd: ProtoNodeData, pp: Option<usize>, from: int)
    requires
        0 <= from <= s.len(),
    ensures
        next_with_parent(s.push(nd), pp, from) == (match next_with_parent(s, pp, from) {
            Some(j) => Some(j),
            None => if nd.parent == pp {
                Some(s.len() as usize)
            } else {
                None
            },
        }),
    decreases s.len() - from,
{
    reveal(next_with_parent);
    let f = s.push(nd);
    if from == s.len() {
        assert(f[from] == nd);
        assert(next_with_parent(f, pp, from + 1) == None::<usize>);
    } else {
        assert(f[from] == s[from]);
        lemma_nwp_push(s, nd, pp, from + 1);
    }
}

/// Where `next_with_parent` finds nothing, no node at or after `from` names
/// `pp` as its parent.
pub proof fn lemma_nwp_none(s: Seq<ProtoNodeData>, pp: Option<usize>, from: int, j: int)
    requires
        0 <= from <= j < s.len(),
        next_with_parent(s, pp, from) is None,
    ensures
        s[j].parent != pp,
    decreases j - from,
{
    reveal(next_with_parent);
    if from < j {
        lemma_nwp_none(s, pp, from + 1, j);
    }
}

/// One builder step over the arena view: append `nd` under parent `p`,
/// point the parent's child links (and the previous last sibling's `next`
/// link) at it, and touch nothing else.
pub open spec fn builder_step(s: Seq<ProtoNodeData>, nd: ProtoNodeData, p: int) -> Seq<
    ProtoNodeData,
> {
    let k = s.len() as usize;
    match s[p].last_child {
        None => s.push(nd).update(
            p,
            ProtoNodeData {
                first_child: Some(k),
                last_child: Some(k),
                parent: s[p].parent,
                next: s[p].next,
                abbrev: s[p].abbrev,
                fvalue: s[p].fvalue,
            },
        ),
        Some(l) => s.push(nd).update(
            l as int,
            ProtoNodeData {
                next: Some(k),
                parent: s[l as int].parent,
                first_child: s[l as int].first_child,
                last_child: s[l as int].last_child,
                abbrev: s[l as int].abbrev,
                fvalue: s[l as int].fvalue,
            },
        ).update(
            p,
            ProtoNodeData {
                last_child: Some(k),
                parent: s[p].parent,
                first_child: s[p].first_child,
                next: s[p].next,
                abbrev: s[p].abbrev,
                fvalue: s[p].fvalue,
            },
        ),
    }
}

/// Membership in a concatenation is membership in either part.
pub proof fn lemma_concat_contains<T>(a: Seq<T>, b: Seq<T>, x: T)
    ensures
        (a + b).contains(x) <==> a.contains(x) || b.contains(x),
{
    if (a + b).contains(x) {
        let k = choose|k: int| 0 <= k < (a + b).len() && (a + b)[k] == x;
        if k < a.len() {
            assert(a[k] == x);
        } else {
            assert(b[k - a.len()] == x);
        }
    }
    if a.contains(x) {
        let k = choose|k: int| 0 <= k < a.len() && a[k] == x;
        assert((a + b)[k] == x);
    }
    if b.contains(x) {
        let k = choose|k: int| 0 <= k < b.len() && b[k] == x;
        assert((a + b)[k + a.len()] == x);
    }
}

/// A concatenation of two duplicate-free sequences with no common element
/// is duplicate-free.
pub proof fn lemma_concat_nodup<T>(a: Seq<T>, b: Seq<T>)
    requires
        a.no_duplicates(),
        b.no_duplicates(),
        forall|x: T| a.contains(x) ==> !b.contains(x),
    ensures
        (a + b).no_duplicates(),
{
    assert forall|k: int, m: int|
        0 <= k < (a + b).len() && 0 <= m < (a + b).len() && k != m implies (a + b)[k] != (a
        + b)[m] by {
        if k < a.len() && m >= a.len() {
            assert(a.contains(a[k]));
            assert(b[m - a.len()] == (a + b)[m]);
            if (a + b)[k] == (a + b)[m] {
                assert(b.contains(a[k]));
            }
        } else if k >= a.len() && m < a.len() {
            assert(a.contains(a[m]));
            assert(b[k - a.len()] == (a + b)[k]);
            if (a + b)[k] == (a + b)[m] {
                assert(b.contains(a[m]));
            }
        }
    }
}

/// Past the end of the arena there is nothing to find.
pub proof fn lemma_nwp_beyond(s: Seq<ProtoNodeData>, pp: Option<usize>, from: int)
    requires
        from >= s.len(),
        0 <= from,
    ensures
        next_with_parent(s, pp, from) is None,
{
    reveal(next_with_parent);
}

/// Full characterization of `next_with_parent`: what it returns is the
/// least index at or after `from` whose parent is `pp`, and where it
/// returns nothing there is none.
pub proof fn lemma_nwp_char(s: Seq<ProtoNodeData>, pp: Option<usize>, from: int)
    requires
        0 <= from,
        s.len() <= usize::MAX,
    ensures
        match next_with_parent(s, pp, from) {
            Some(j) => from <= j < s.len() && s[j as int].parent == pp && (forall|m: int|
                from <= m < j ==> (#[trigger] s[m]).parent != pp),
            None => forall|m: int| from <= m < s.len() ==> (#[trigger] s[m]).parent != pp,
        },
    decreases s.len() - from,
{
    reveal(next_with_parent);
    if from >= s.len() {
        assert(next_with_parent(s, pp, from) is None);
    } else if s[from].parent == pp {
        assert(next_with_parent(s, pp, from) == Some(from as usize));
    } else {
        lemma_nwp_char(s, pp, from + 1);
        assert(next_with_parent(s, pp, from) == next_with_parent(s, pp, from + 1));
    }
}

/// The sibling chain hanging off `next_with_parent(s, pp, from)` holds
/// exactly the nodes at or after `from` whose parent is `pp`.
#[verifier::rlimit(100)]
pub proof fn lemma_chain_char(nodes: Seq<ProtoNodeData>, pp: Option<usize>, from: int, x: usize)
    requires
        wf_nodes(nodes),
        0 <= from,
    ensures
        chain(nodes, next_with_parent(nodes, pp, from)).contains(x) <==> (from <= x < nodes.len()
            && nodes[x as int].parent == pp),
    decreases nodes.len() - from,
{
    lemma_nwp_char(nodes, pp, from);
    match next_with_parent(nodes, pp, from) {
        None => {
            assert(!chain(nodes, None::<usize>).contains(x));
        },
        Some(j) => {
            let ji = j as int;
            assert(links_ascend(nodes));
            assert(0 <= ji < nodes.len());
            assert(nodes[ji].next == next_with_parent(nodes, nodes[ji].parent, ji + 1));
            lemma_chain_char(nodes, pp, ji + 1, x);
            lemma_concat_contains(seq![j], chain(nodes, nodes[ji].next), x);
            assert(chain(nodes, Some(j)) == seq![j].add(chain(nodes, nodes[ji].next)));
            assert(seq![j][0] == j);
            assert(seq![j].contains(x) <==> x == j);
        },
    }
}

/// Subtree membership composes along ancestry.
pub proof fn lemma_in_subtree_trans(nodes: Seq<ProtoNodeData>, a: int, b: int, j: int)
    requires
        links_ascend(nodes),
        0 <= j < nodes.len(),
        0 <= b < nodes.len(),
        in_subtree(nodes, a, b),
        in_subtree(nodes, b, j),
    ensures
        in_subtree(nodes, a, j),
    decreases j,
{
    if j != b {
        match nodes[j].parent {
            Some(p) => lemma_in_subtree_trans(nodes, a, b, p as int),
            None => {},
        }
    }
}

/// A strict descendant of `q` lies under one of `q`'s children.
pub proof fn lemma_subtree_child(nodes: Seq<ProtoNodeData>, q: int, j: int) -> (c: int)
    requires
        links_ascend(nodes),
        0 <= j < nodes.len(),
        0 <= q < nodes.len(),
        in_subtree(nodes, q, j),
        j != q,
    ensures
        0 <= c < nodes.len(),
        nodes[c].parent == Some(q as usize),
        in_subtree(nodes, c, j),
    decreases j,
{
    let p = nodes[j].parent->0;
    let pi = p as int;
    if pi == q {
        j
    } else {
        let c = lemma_subtree_child(nodes, q, pi);
        assert(in_subtree(nodes, c, j));
        c
    }
}

/// Two ancestors of one node are themselves in ancestor relation.
pub proof fn lemma_ancestors_linear(nodes: Seq<ProtoNodeData>, a: int, b: int, j: int)
    requires
        links_ascend(nodes),
        0 <= j < nodes.len(),
        in_subtree(nodes, a, j),
        in_subtree(nodes, b, j),
    ensures
        in_subtree(nodes, a, b) || in_subtree(nodes, b, a),
    decreases j,
{
    if j != a && j != b {
        match nodes[j].parent {
            Some(p) => lemma_ancestors_linear(nodes, a, b, p as int),
            None => {},
        }
    }
}

/// The subtrees of two distinct siblings share no node.
pub proof fn lemma_sibling_subtrees_disjoint(nodes: Seq<ProtoNodeData>, c: int, s: int, j: int)
    requires
        links_ascend(nodes),
        0 <= c < nodes.len(),
        0 <= s < nodes.len(),
        0 <= j < nodes.len(),
        c != s,
        nodes[c].parent == nodes[s].parent,
    ensures
        !(in_subtree(nodes, c, j) && in_subtree(nodes, s, j)),
{
    if in_subtree(nodes, c, j) && in_subtree(nodes, s, j) {
        lemma_ancestors_linear(nodes, c, s, j);
        if in_subtree(nodes, c, s) {
            match nodes[s].parent {
                Some(p) => {
                    lemma_in_subtree_ge(nodes, c, p as int);
                },
                None => {},
            }
        } else {
            match nodes[c].parent {
                Some(p) => {
                    lemma_in_subtree_ge(nodes, s, p as int);
                },
                None => {},
            }
        }
    }
}

/// `j` lies under some node of the sibling chain starting at `link`.
pub open spec fn in_subtree_chain(nodes: Seq<ProtoNodeData>, link: Option<usize>, j: int) -> bool
    decreases (match link {
        Some(x) => nodes.len() - x,
        None => 0,
    }),
    when links_ascend(nodes) && (link matches Some(x) ==> x < nodes.len())
{
    match link {
        None => false,
        Some(s) => in_subtree(nodes, s as int, j) || in_subtree_chain(nodes, nodes[s as int].next, j),
    }
}

/// A witness for `in_subtree_chain`: the chain member whose subtree holds `j`.
pub proof fn lemma_in_subtree_chain_witness(nodes: Seq<ProtoNodeData>, link: Option<usize>, j: int)
    -> (s: int)
    requires
        links_ascend(nodes),
        link matches Some(x) ==> x < nodes.len(),
        in_subtree_chain(nodes, link, j),
    ensures
        0 <= s < nodes.len(),
        chain(nodes, link).contains(s as usize),
        in_subtree(nodes, s, j),
    decreases (match link {
        Some(x) => nodes.len() - x,
        None => 0,
    }),
{
    let x = link->0;
    let xi = x as int;
    assert(chain(nodes, link) == seq![x] + chain(nodes, nodes[xi].next));
    if in_subtree(nodes, xi, j) {
        assert(chain(nodes, link)[0] == x);
        xi
    } else {
        let s = lemma_in_subtree_chain_witness(nodes, nodes[xi].next, j);
        lemma_concat_contains(seq![x], chain(nodes, nodes[xi].next), s as usize);
        s
    }
}

/// The converse: a chain member's descendant is in the chain's subtrees.
pub proof fn lemma_in_subtree_chain_intro(
    nodes: Seq<ProtoNodeData>,
    link: Option<usize>,
    s: usize,
    j: int,
)
    requires
        links_ascend(nodes),
        link matches Some(x) ==> x < nodes.len(),
        chain(nodes, link).contains(s),
        in_subtree(nodes, s as int, j),
    ensures
        in_subtree_chain(nodes, link, j),
    decreases (match link {
        Some(x) => nodes.len() - x,
        None => 0,
    }),
{
    let x = link->0;
    let xi = x as int;
    assert(chain(nodes, link) == seq![x] + chain(nodes, nodes[xi].next));
    lemma_concat_contains(seq![x], chain(nodes, nodes[xi].next), s);
    if s != x {
        lemma_in_subtree_chain_intro(nodes, nodes[xi].next, s, j);
    }
}

/// A node's pre-order lists exactly its subtree.
#[verifier::rlimit(100)]
pub proof fn lemma_preorder_mem(nodes: Seq<ProtoNodeData>, i: int, x: usize)
    requires
        wf_nodes(nodes),
        0 <= i < nodes.len(),
    ensures
        preorder(nodes, i).contains(x) <==> (x < nodes.len() && in_subtree(nodes, i, x as int)),
    decreases nodes.len() - i, 0int,
{
    let fc = nodes[i].first_child;
    assert(preorder(nodes, i) == seq![i as usize].add(preorder_chain(nodes, fc)));
    lemma_concat_contains(seq![i as usize], preorder_chain(nodes, fc), x);
    assert(seq![i as usize][0] == i as usize);
    assert(seq![i as usize].contains(x) <==> x == i as usize);
    lemma_preorder_chain_mem(nodes, fc, x);
    assert(fc == next_with_parent(nodes, Some(i as usize), i + 1));
    if x < nodes.len() && in_subtree(nodes, i, x as int) && x as int != i {
        let c = lemma_subtree_child(nodes, i, x as int);
        lemma_chain_char(nodes, Some(i as usize), i + 1, c as usize);
        lemma_in_subtree_chain_intro(nodes, fc, c as usize, x as int);
    }
    assert(in_subtree(nodes, i, i));
    if x < nodes.len() && in_subtree_chain(nodes, fc, x as int) {
        let s = lemma_in_subtree_chain_witness(nodes, fc, x as int);
        lemma_chain_char(nodes, Some(i as usize), i + 1, s as usize);
        assert(in_subtree(nodes, i, s));
        lemma_in_subtree_trans(nodes, i, s, x as int);
    }
}

/// A sibling chain's concatenated pre-orders list exactly its subtrees.
pub proof fn lemma_preorder_chain_mem(nodes: Seq<ProtoNodeData>, link: Option<usize>, x: usize)
    requires
        wf_nodes(nodes),
        link matches Some(j) ==> j < nodes.len(),
    ensures
        preorder_chain(nodes, link).contains(x) <==> (x < nodes.len() && in_subtree_chain(
            nodes,
            link,
            x as int,
        )),
    decreases (match link {
        Some(j) => nodes.len() - j,
        None => 0,
    }),
    1int,
{
    match link {
        None => {
            assert(!preorder_chain(nodes, None::<usize>).contains(x));
        },
        Some(j) => {
            let ji = j as int;
            assert(preorder_chain(nodes, link) == preorder(nodes, ji) + preorder_chain(
                nodes,
                nodes[ji].next,
            ));
            lemma_concat_contains(preorder(nodes, ji), preorder_chain(nodes, nodes[ji].next), x);
            lemma_preorder_mem(nodes, ji, x);
            lemma_preorder_chain_mem(nodes, nodes[ji].next, x);
        },
    }
}

/// A node's pre-order visits no node twice.
pub proof fn lemma_preorder_nodup(nodes: Seq<ProtoNodeData>, i: int)
    requires
        wf_nodes(nodes),
        0 <= i < nodes.len(),
    ensures
        preorder(nodes, i).no_duplicates(),
    decreases nodes.len() - i, 0int,
{
    let fc = nodes[i].first_child;
    assert(preorder(nodes, i) == seq![i as usize] + preorder_chain(nodes, fc));
    lemma_preorder_chain_nodup(nodes, fc);
    assert forall|x: usize| seq![i as usize].contains(x) implies !preorder_chain(
        nodes,
        fc,
    ).contains(x) by {
        assert(x == i as usize);
        lemma_preorder_chain_mem(nodes, fc, x);
        if in_subtree_chain(nodes, fc, x as int) {
            let s = lemma_in_subtree_chain_witness(nodes, fc, x as int);
            lemma_chain_char(nodes, Some(i as usize), i + 1, s as usize);
            lemma_in_subtree_ge(nodes, s, x as int);
        }
    }
    lemma_concat_nodup(seq![i as usize], preorder_chain(nodes, fc));
}

/// A sibling chain's concatenated pre-orders visit no node twice.
pub proof fn lemma_preorder_chain_nodup(nodes: Seq<ProtoNodeData>, link: Option<usize>)
    requires
        wf_nodes(nodes),
        link matches Some(j) ==> j < nodes.len(),
    ensures
        preorder_chain(nodes, link).no_duplicates(),
    decreases (match link {
        Some(j) => nodes.len() - j,
        None => 0,
    }),
    1int,
{
    match link {
        None => {},
        Some(j) => {
            let ji = j as int;
            assert(preorder_chain(nodes, link) == preorder(nodes, ji) + preorder_chain(
                nodes,
                nodes[ji].next,
            ));
            lemma_preorder_nodup(nodes, ji);
            lemma_preorder_chain_nodup(nodes, nodes[ji].next);
            assert(nodes[ji].next == next_with_parent(nodes, nodes[ji].parent, ji + 1));
            assert forall|x: usize| preorder(nodes, ji).contains(x) implies !preorder_chain(
                nodes,
                nodes[ji].next,
            ).contains(x) by {
                lemma_preorder_mem(nodes, ji, x);
                lemma_preorder_chain_mem(nodes, nodes[ji].next, x);
                if preorder_chain(nodes, nodes[ji].next).contains(x) {
                    let s = lemma_in_subtree_chain_witness(nodes, nodes[ji].next, x as int);
                    lemma_chain_char(nodes, nodes[ji].parent, ji + 1, s as usize);
                    lemma_sibling_subtrees_disjoint(nodes, ji, s, x as int);
                }
            }
            lemma_concat_nodup(preorder(nodes, ji), preorder_chain(nodes, nodes[ji].next));
        },
    }
}

/// Every node lies in the root's subtree.
pub proof fn lemma_in_subtree_root(nodes: Seq<ProtoNodeData>, j: int)
    requires
        wf_nodes(nodes),
        0 <= j < nodes.len(),
    ensures
        in_subtree(nodes, 0, j),
    decreases j,
{
    if j != 0 {
        match nodes[j].parent {
            Some(p) => lemma_in_subtree_root(nodes, p as int),
            None => {},
        }
    }
}

/// A duplicate-free sequence of indices below `n` that hits every such
/// index has length exactly `n`.
pub proof fn lemma_seq_usize_complete(s: Seq<usize>, n: int)
    requires
        0 <= n <= usize::MAX,
        s.no_duplicates(),
        forall|k: int| 0 <= k < s.len() ==> (#[trigger] s[k]) < n,
        forall|x: int| 0 <= x < n ==> #[trigger] s.contains(x as usize),
    ensures
        s.len() == n,
{
    let m = s.map_values(|u: usize| u as int);
    assert(m.len() == s.len());
    assert forall|k: int, l: int|
        0 <= k < m.len() && 0 <= l < m.len() && k != l implies m[k] != m[l] by {
        assert(m[k] == s[k] as int);
        assert(m[l] == s[l] as int);
    }
    assert(m.no_duplicates());
    assert(m.to_set() =~= vstd::set_lib::set_int_range(0, n)) by {
        assert forall|y: int| m.to_set().contains(y) implies 0 <= y < n by {
            let k = choose|k: int| 0 <= k < m.len() && m[k] == y;
            assert(m[k] == s[k] as int);
        }
        assert forall|y: int| 0 <= y < n implies m.to_set().contains(y) by {
            assert(s.contains(y as usize));
            let k = choose|k: int| 0 <= k < s.len() && s[k] == y as usize;
            assert(m[k] == y);
        }
    }
    m.unique_seq_to_set();
    vstd::set_lib::lemma_int_range(0, n);
}

/// The root's pre-order visits every node of the tree exactly once.
pub proof fn lemma_preorder_all(nodes: Seq<ProtoNodeData>)
    requires
        wf_nodes(nodes),
    ensures
        preorder(nodes, 0).no_duplicates(),
        forall|x: usize| #[trigger] preorder(nodes, 0).contains(x) <==> x < nodes.len(),
        preorder(nodes, 0).len() == nodes.len(),
    decreases 0int,
{
    lemma_preorder_nodup(nodes, 0);
    assert forall|x: usize| #[trigger] preorder(nodes, 0).contains(x) <==> x < nodes.len() by {
        lemma_preorder_mem(nodes, 0, x);
        if x < nodes.len() {
            lemma_in_subtree_root(nodes, x as int);
        }
    }
    assert forall|k: int| 0 <= k < preorder(nodes, 0).len() implies (#[trigger] preorder(
        nodes,
        0,
    )[k]) < nodes.len() by {
        assert(preorder(nodes, 0).contains(preorder(nodes, 0)[k]));
    }
    lemma_seq_usize_complete(preorder(nodes, 0), nodes.len() as int);
}

/// Stepping down to a first child: the suffix of the traversal that the
/// current node heads loses exactly that node.
pub proof fn lemma_dfs_down(nodes: Seq<ProtoNodeData>, r: int, c: int)
    requires
        wf_nodes(nodes),
        0 <= r < nodes.len(),
        0 <= c < nodes.len(),
        in_subtree(nodes, r, c),
        nodes[c].first_child is Some,
    ensures
        ({
            let fc = nodes[c].first_child->0 as int;
            &&& 0 <= fc < nodes.len()
            &&& in_subtree(nodes, r, fc)
            &&& preorder(nodes, c) + after(nodes, r, c) == seq![c as usize] + (preorder(nodes, fc)
                + after(nodes, r, fc))
        }),
{
    let fc = nodes[c].first_child->0 as int;
    lemma_nwp_char(nodes, Some(c as usize), c + 1);
    assert(nodes[fc].parent == Some(c as usize));
    lemma_in_subtree_ge(nodes, r, c);
    assert(in_subtree(nodes, r, fc));
    assert(preorder(nodes, c) == seq![c as usize] + preorder_chain(nodes, nodes[c].first_child));
    assert(preorder_chain(nodes, nodes[c].first_child) == preorder(nodes, fc) + preorder_chain(
        nodes,
        nodes[fc].next,
    ));
    assert(fc != r);
    assert(after(nodes, r, fc) == preorder_chain(nodes, nodes[fc].next) + after(nodes, r, c));
    assert(preorder(nodes, c) + after(nodes, r, c) =~= seq![c as usize] + (preorder(nodes, fc)
        + after(nodes, r, fc)));
}

/// A leaf's pre-order is the leaf alone.
pub proof fn lemma_dfs_leaf(nodes: Seq<ProtoNodeData>, c: int)
    requires
        wf_nodes(nodes),
        0 <= c < nodes.len(),
        nodes[c].first_child is None,
    ensures
        preorder(nodes, c) == seq![c as usize],
{
    assert(preorder(nodes, c) =~= seq![c as usize]);
}

/// Stepping sideways to a next sibling: what follows the current subtree
/// is the sibling's subtree and then what follows the sibling.
pub proof fn lemma_dfs_sideways(nodes: Seq<ProtoNodeData>, r: int, w: int)
    requires
        wf_nodes(nodes),
        0 <= r < nodes.len(),
        0 <= w < nodes.len(),
        in_subtree(nodes, r, w),
        w != r,
        nodes[w].next is Some,
    ensures
        ({
            let s = nodes[w].next->0 as int;
            &&& 0 <= s < nodes.len()
            &&& in_subtree(nodes, r, s)
            &&& after(nodes, r, w) == preorder(nodes, s) + after(nodes, r, s)
        }),
{
    let s = nodes[w].next->0 as int;
    lemma_in_subtree_ge(nodes, r, w);
    assert(nodes[w].parent is Some);
    let p = nodes[w].parent->0 as int;
    lemma_nwp_char(nodes, nodes[w].parent, w + 1);
    assert(nodes[s].parent == nodes[w].parent);
    assert(in_subtree(nodes, r, p));
    assert(in_subtree(nodes, r, s));
    assert(after(nodes, r, w) == preorder_chain(nodes, nodes[w].next) + after(nodes, r, p));
    assert(preorder_chain(nodes, nodes[w].next) == preorder(nodes, s) + preorder_chain(
        nodes,
        nodes[s].next,
    ));
    assert(s != r);
    assert(after(nodes, r, s) == preorder_chain(nodes, nodes[s].next) + after(nodes, r, p));
    assert(after(nodes, r, w) =~= preorder(nodes, s) + after(nodes, r, s));
}

/// Stepping up from a last sibling: what follows the current subtree is
/// what follows the parent's.
pub proof fn lemma_dfs_up(nodes: Seq<ProtoNodeData>, r: int, w: int)
    requires
        wf_nodes(nodes),
        0 <= r < nodes.len(),
        0 <= w < nodes.len(),
        in_subtree(nodes, r, w),
        w != r,
        nodes[w].next is None,
    ensures
        nodes[w].parent is Some,
        ({
            let p = nodes[w].parent->0 as int;
            &&& 0 <= p < nodes.len()
            &&& in_subtree(nodes, r, p)
            &&& after(nodes, r, w) == after(nodes, r, p)
        }),
{
    lemma_in_subtree_ge(nodes, r, w);
    assert(nodes[w].parent is Some);
    let p = nodes[w].parent->0 as int;
    assert(in_subtree(nodes, r, p));
    assert(after(nodes, r, w) == preorder_chain(nodes, None::<usize>) + after(nodes, r, p));
    assert(after(nodes, r, w) =~= after(nodes, r, p));
}

/// Nothing follows the traversal root's own subtree.
pub proof fn lemma_after_root(nodes: Seq<ProtoNodeData>, r: int)
    requires
        links_ascend(nodes),
        0 <= r < nodes.len(),
    ensures
        after(nodes, r, r) == Seq::<usize>::empty(),
{
}

/// The set of nodes in the subtree rooted at `q`.
pub open spec fn subtree_set(nodes: Seq<ProtoNodeData>, q: int) -> Set<usize> {
    Set::new(|x: usize| x < nodes.len() && in_subtree(nodes, q, x as int))
}

/// The union of the subtrees rooted at a pending sequence of nodes.
pub open spec fn cover(nodes: Seq<ProtoNodeData>, pend: Seq<usize>) -> Set<usize>
    decreases pend.len(),
{
    if pend.len() == 0 {
        Set::empty()
    } else {
        subtree_set(nodes, pend[0] as int).union(cover(nodes, pend.drop_first()))
    }
}

/// The pending nodes' subtrees are pairwise disjoint, stated head-first.
pub open spec fn covers_disjoint(nodes: Seq<ProtoNodeData>, pend: Seq<usize>) -> bool
    decreases pend.len(),
{
    pend.len() == 0 || (subtree_set(nodes, pend[0] as int).disjoint(
        cover(nodes, pend.drop_first()),
    ) && covers_disjoint(nodes, pend.drop_first()))
}

/// Covering distributes over concatenation.
pub proof fn lemma_cover_append(nodes: Seq<ProtoNodeData>, a: Seq<usize>, b: Seq<usize>)
    ensures
        cover(nodes, a + b) == cover(nodes, a).union(cover(nodes, b)),
    decreases a.len(),
{
    if a.len() == 0 {
        assert(a + b =~= b);
        assert(cover(nodes, a + b) =~= cover(nodes, a).union(cover(nodes, b)));
    } else {
        assert((a + b).drop_first() =~= a.drop_first() + b);
        lemma_cover_append(nodes, a.drop_first(), b);
        assert((a + b)[0] == a[0]);
        assert(cover(nodes, a + b) =~= cover(nodes, a).union(cover(nodes, b)));
    }
}

/// A member of a cover names the pending node whose subtree holds it.
pub proof fn lemma_cover_elim(nodes: Seq<ProtoNodeData>, pend: Seq<usize>, x: usize) -> (k: int)
    requires
        cover(nodes, pend).contains(x),
    ensures
        0 <= k < pend.len(),
        subtree_set(nodes, pend[k] as int).contains(x),
    decreases pend.len(),
{
    if subtree_set(nodes, pend[0] as int).contains(x) {
        0
    } else {
        let k = lemma_cover_elim(nodes, pend.drop_first(), x);
        assert(pend.drop_first()[k] == pend[k + 1]);
        k + 1
    }
}

/// A node under any pending node is in the cover.
pub proof fn lemma_cover_intro(nodes: Seq<ProtoNodeData>, pend: Seq<usize>, x: usize, k: int)
    requires
        0 <= k < pend.len(),
        subtree_set(nodes, pend[k] as int).contains(x),
    ensures
        cover(nodes, pend).contains(x),
    decreases pend.len(),
{
    if k > 0 {
        assert(pend.drop_first()[k - 1] == pend[k]);
        lemma_cover_intro(nodes, pend.drop_first(), x, k - 1);
    }
}

/// Two pending runs with disjoint covers, each internally disjoint, stay
/// disjoint when run one after the other.
pub proof fn lemma_covers_disjoint_append(nodes: Seq<ProtoNodeData>, a: Seq<usize>, b: Seq<usize>)
    requires
        covers_disjoint(nodes, a),
        covers_disjoint(nodes, b),
        cover(nodes, a).disjoint(cover(nodes, b)),
    ensures
        covers_disjoint(nodes, a + b),
    decreases a.len(),
{
    if a.len() == 0 {
        assert(a + b =~= b);
    } else {
        assert((a + b).drop_first() =~= a.drop_first() + b);
        lemma_cover_append(nodes, a.drop_first(), b);
        lemma_covers_disjoint_append(nodes, a.drop_first(), b);
        assert((a + b)[0] == a[0]);
        assert(subtree_set(nodes, a[0] as int) <= cover(nodes, a)) by {
            assert forall|x: usize|
                subtree_set(nodes, a[0] as int).contains(x) implies cover(nodes, a).contains(
                x,
            ) by {
                lemma_cover_intro(nodes, a, x, 0);
            }
        }
        assert(subtree_set(nodes, (a + b)[0] as int).disjoint(cover(nodes, (a + b).drop_first())));
    }
}

/// A subtree is its root plus the subtrees of the root's children.
pub proof fn lemma_subtree_set_unfold(nodes: Seq<ProtoNodeData>, q: int)
    requires
        wf_nodes(nodes),
        0 <= q < nodes.len(),
    ensures
        subtree_set(nodes, q) == cover(nodes, chain(nodes, nodes[q].first_child)).insert(
            q as usize,
        ),
{
    let kids = chain(nodes, nodes[q].first_child);
    assert(in_subtree(nodes, q, q));
    assert forall|x: usize| subtree_set(nodes, q).contains(x) && x != q as usize implies cover(
        nodes,
        kids,
    ).contains(x) by {
        let c = lemma_subtree_child(nodes, q, x as int);
        lemma_chain_char(nodes, Some(q as usize), q + 1, c as usize);
        assert(kids.contains(c as usize));
        let k = choose|k: int| 0 <= k < kids.len() && kids[k] == c as usize;
        lemma_cover_intro(nodes, kids, x, k);
    }
    assert forall|x: usize| cover(nodes, kids).contains(x) implies subtree_set(nodes, q).contains(
        x,
    ) by {
        let k = lemma_cover_elim(nodes, kids, x);
        let c = kids[k];
        assert(kids.contains(c));
        lemma_chain_char(nodes, Some(q as usize), q + 1, c);
        assert(in_subtree(nodes, q, c as int));
        lemma_in_subtree_trans(nodes, q, c as int, x as int);
    }
    assert(subtree_set(nodes, q) =~= cover(nodes, kids).insert(q as usize));
}

/// The subtrees of the sibling chain found by `next_with_parent` are
/// pairwise disjoint.
pub proof fn lemma_chain_covers_disjoint(nodes: Seq<ProtoNodeData>, pp: Option<usize>, from: int)
    requires
        wf_nodes(nodes),
        0 <= from,
    ensures
        covers_disjoint(nodes, chain(nodes, next_with_parent(nodes, pp, from))),
    decreases nodes.len() - from,
{
    lemma_nwp_char(nodes, pp, from);
    match next_with_parent(nodes, pp, from) {
        None => {},
        Some(j) => {
            let ji = j as int;
            assert(nodes[ji].next == next_with_parent(nodes, nodes[ji].parent, ji + 1));
            lemma_chain_covers_disjoint(nodes, pp, ji + 1);
            let c = chain(nodes, next_with_parent(nodes, pp, from));
            assert(c == seq![j] + chain(nodes, nodes[ji].next));
            assert(c[0] == j);
            assert(c.drop_first() =~= chain(nodes, nodes[ji].next));
            assert forall|x: usize|
                subtree_set(nodes, ji).contains(x) implies !cover(
                nodes,
                chain(nodes, nodes[ji].next),
            ).contains(x) by {
                if cover(nodes, chain(nodes, nodes[ji].next)).contains(x) {
                    let k = lemma_cover_elim(nodes, chain(nodes, nodes[ji].next), x);
                    let s = chain(nodes, nodes[ji].next)[k];
                    assert(chain(nodes, nodes[ji].next).contains(s));
                    lemma_chain_char(nodes, pp, ji + 1, s);
                    lemma_sibling_subtrees_disjoint(nodes, ji, s as int, x as int);
                }
            }
            assert(subtree_set(nodes, c[0] as int).disjoint(cover(nodes, c.drop_first())));
        },
    }
}

/// Everything in a cover of nodes later than `b` is itself later than `b`.
pub proof fn lemma_cover_ge(nodes: Seq<ProtoNodeData>, pend: Seq<usize>, b: int, x: usize)
    requires
        links_ascend(nodes),
        forall|k: int| 0 <= k < pend.len() ==> (#[trigger] pend[k]) as int > b,
        cover(nodes, pend).contains(x),
    ensures
        x as int > b,
{
    let k = lemma_cover_elim(nodes, pend, x);
    lemma_in_subtree_ge(nodes, pend[k] as int, x as int);
}

/// A duplicate-free visit of exactly the subtree of `r` has the same
/// members and the same length as the pre-order of `r`.
pub proof fn lemma_visit_matches_preorder(nodes: Seq<ProtoNodeData>, r: int, visited: Seq<usize>)
    requires
        wf_nodes(nodes),
        0 <= r < nodes.len(),
        visited.no_duplicates(),
        visited.to_set() == subtree_set(nodes, r),
    ensures
        visited.to_set() == preorder(nodes, r).to_set(),
        visited.len() == preorder(nodes, r).len(),
{
    assert forall|x: usize| #[trigger]
        preorder(nodes, r).contains(x) <==> subtree_set(nodes, r).contains(x) by {
        lemma_preorder_mem(nodes, r, x);
    }
    assert(preorder(nodes, r).to_set() =~= subtree_set(nodes, r));
    lemma_preorder_nodup(nodes, r);
    visited.unique_seq_to_set();
    preorder(nodes, r).unique_seq_to_set();
}

/// The sibling chain is exactly the sequence first link, its `next`, its
/// `next`'s `next`, and so on, ending at the first absent link.
pub proof fn lemma_chain_is_sibling_sequence(nodes: Seq<ProtoNodeData>, link: Option<usize>)
    requires
        links_ascend(nodes),
        link matches Some(c) ==> c < nodes.len(),
    ensures
        link is None ==> chain(nodes, link) == Seq::<usize>::empty(),
        link matches Some(c) ==> chain(nodes, link).len() >= 1 && chain(nodes, link)[0] == c,
        forall|k: int|
            0 <= k < chain(nodes, link).len() - 1 ==> nodes[#[trigger] chain(nodes, link)[k] as int].next
                == Some(chain(nodes, link)[k + 1]),
        chain(nodes, link).len() >= 1 ==> nodes[chain(nodes, link).last() as int].next is None,
        forall|k: int|
            0 <= k < chain(nodes, link).len() ==> (#[trigger] chain(nodes, link)[k]) < nodes.len(),
    decreases (match link {
        Some(c) => nodes.len() - c,
        None => 0,
    }),
{
    match link {
        None => {},
        Some(c) => {
            let ci = c as int;
            lemma_chain_is_sibling_sequence(nodes, nodes[ci].next);
            let rest = chain(nodes, nodes[ci].next);
            assert(chain(nodes, link) == seq![c] + rest);
            assert forall|k: int|
                0 <= k < chain(nodes, link).len() - 1 implies nodes[#[trigger] chain(
                nodes,
                link,
            )[k] as int].next == Some(chain(nodes, link)[k + 1]) by {
                if k == 0 {
                    match nodes[ci].next {
                        Some(nx) => {
                            assert(rest[0] == nx);
                            assert(chain(nodes, link)[1] == rest[0]);
                        },
                        None => {},
                    }
                } else {
                    assert(chain(nodes, link)[k] == rest[k - 1]);
                    assert(chain(nodes, link)[k + 1] == rest[k]);
                }
            }
            if rest.len() >= 1 {
                assert(chain(nodes, link).last() == rest.last());
            }
        },
    }
}

/// The case precondition shared by the step lemmas: the parent is present
/// and its recorded last child, if any, is a later index.
pub open spec fn step_pre(s: Seq<ProtoNodeData>, p: int) -> bool {
    &&& s.len() <= MAX_TREE_NODES
    &&& 0 <= p < s.len()
    &&& match s[p].last_child {
        Some(l) => p < l < s.len(),
        None => true,
    }
}

/// What a builder step leaves at every old index: parents, abbreviations
/// and values are untouched, and the new slot holds the new node.
proof fn lemma_step_keeps_nodes(s: Seq<ProtoNodeData>, nd: ProtoNodeData, p: int)
    requires
        step_pre(s, p),
    ensures
        builder_step(s, nd, p).len() == s.len() + 1,
        builder_step(s, nd, p)[s.len() as int] == nd,
        forall|i: int|
            0 <= i < s.len() ==> (#[trigger] builder_step(s, nd, p)[i]).parent == s[i].parent,
        forall|i: int|
            0 <= i < s.len() ==> (#[trigger] builder_step(s, nd, p)[i]).abbrev == s[i].abbrev
                && builder_step(s, nd, p)[i].fvalue == s[i].fvalue,
{
}

/// What a builder step does to child links: only the parent's are touched.
proof fn lemma_step_child_links(s: Seq<ProtoNodeData>, nd: ProtoNodeData, p: int)
    requires
        step_pre(s, p),
    ensures
        forall|i: int|
            0 <= i < s.len() && i != p ==> (#[trigger] builder_step(s, nd, p)[i]).first_child == s[
                i
            ].first_child && builder_step(s, nd, p)[i].last_child == s[i].last_child,
        builder_step(s, nd, p)[p].first_child == (match s[p].last_child {
            Some(_) => s[p].first_child,
            None => Some(s.len() as usize),
        }),
        builder_step(s, nd, p)[p].last_child == Some(s.len() as usize),
{
}

/// What a builder step does to sibling links: only the previous last
/// child of the parent gains one.
proof fn lemma_step_next_links(s: Seq<ProtoNodeData>, nd: ProtoNodeData, p: int)
    requires
        step_pre(s, p),
    ensures
        match s[p].last_child {
            Some(l) => builder_step(s, nd, p)[l as int].next == Some(s.len() as usize) && (forall|
                i: int,
            |
                0 <= i < s.len() && i != l ==> (#[trigger] builder_step(s, nd, p)[i]).next == s[
                    i
                ].next),
            None => forall|i: int|
                0 <= i < s.len() ==> (#[trigger] builder_step(s, nd, p)[i]).next == s[i].next,
        },
{
}

/// A builder step preserves the arena invariant, and changes no existing
/// node's parent, abbreviation or value.
pub proof fn lemma_wf_append_child(s: Seq<ProtoNodeData>, nd: ProtoNodeData, p: int)
    requires
        wf_nodes(s),
        s.len() < MAX_TREE_NODES,
        0 <= p < s.len(),
        nd.parent == Some(p as usize),
        nd.first_child is None,
        nd.last_child is None,
        nd.next is None,
    ensures
        wf_nodes(builder_step(s, nd, p)),
        builder_step(s, nd, p).len() == s.len() + 1,
        builder_step(s, nd, p)[s.len() as int] == nd,
        forall|i: int|
            0 <= i < s.len() ==> {
                &&& (#[trigger] builder_step(s, nd, p)[i]).parent == s[i].parent
                &&& builder_step(s, nd, p)[i].abbrev == s[i].abbrev
                &&& builder_step(s, nd, p)[i].fvalue == s[i].fvalue
            },
{
    match s[p].last_child {
        Some(l) => {
            assert(s[l as int].parent == Some(p as usize));
            if s[p].first_child is None {
                lemma_nwp_none(s, Some(p as usize), p + 1, l as int);
            }
        },
        None => {},
    }
    lemma_step_keeps_nodes(s, nd, p);
    lemma_step_child_links(s, nd, p);
    lemma_step_next_links(s, nd, p);
    lemma_wf_pointwise(s, builder_step(s, nd, p), p);
}

/// Any arena with the pointwise shape of a builder step is well-formed.
proof fn lemma_wf_pointwise(s: Seq<ProtoNodeData>, f: Seq<ProtoNodeData>, p: int)
    requires
        wf_nodes(s),
        s.len() < MAX_TREE_NODES,
        0 <= p < s.len(),
        f.len() == s.len() + 1,
        f[s.len() as int].parent == Some(p as usize),
        f[s.len() as int].first_child is None,
        f[s.len() as int].last_child is None,
        f[s.len() as int].next is None,
        forall|i: int| 0 <= i < s.len() ==> (#[trigger] f[i]).parent == s[i].parent,
        forall|i: int|
            0 <= i < s.len() && i != p ==> (#[trigger] f[i]).first_child == s[i].first_child
                && f[i].last_child == s[i].last_child,
        f[p].first_child == (if s[p].first_child is Some {
            s[p].first_child
        } else {
            Some(s.len() as usize)
        }),
        f[p].last_child == Some(s.len() as usize),
        match s[p].last_child {
            Some(l) => f[l as int].next == Some(s.len() as usize) && (forall|i: int|
                0 <= i < s.len() && i != l ==> (#[trigger] f[i]).next == s[i].next),
            None => forall|i: int| 0 <= i < s.len() ==> (#[trigger] f[i]).next == s[i].next,
        },
    ensures
        wf_nodes(f),
{
    let n = s.len() as int;
    let k = n;
    let nd = f[k];
    let g = s.push(nd);
    assert(forall|i: int| 0 <= i < f.len() ==> (#[trigger] f[i]).parent == g[i].parent);

    // Every link still points forward and inside the arena.
    assert forall|i: int| 0 <= i < f.len() implies {
        &&& ((#[trigger] f[i]).parent matches Some(q) ==> q < i)
        &&& (f[i].next matches Some(j) ==> i < j < f.len())
        &&& (f[i].first_child matches Some(j) ==> i < j < f.len())
    } by {
        if i < n {
            assert(s[i].parent matches Some(q) ==> q < i);
            assert(s[i].next matches Some(j) ==> i < j < s.len());
            assert(s[i].first_child matches Some(j) ==> i < j < s.len());
        }
    }
    assert(links_ascend(f));

    // The root keeps no parent and no sibling; every other node has a parent.
    assert(f[0].parent is None);
    match s[p].last_child {
        Some(l) => {
            assert(s[l as int].parent == Some(p as usize));
            assert(l as int != 0);
        },
        None => {},
    }
    assert(f[0].next is None);

    // First-child links match what the parent fields dictate.
    assert forall|i: int| 0 <= i < f.len() implies (#[trigger] f[i]).first_child
        == next_with_parent(f, Some(i as usize), i + 1) by {
        lemma_nwp_only_parents(g, f, Some(i as usize), i + 1);
        if i < n {
            lemma_nwp_push(s, nd, Some(i as usize), i + 1);
        } else {
            lemma_nwp_beyond(f, Some(i as usize), i + 1);
        }
    }

    // Next-sibling links match what the parent fields dictate.
    assert forall|i: int| 0 <= i < f.len() implies (#[trigger] f[i]).next == next_with_parent(
        f,
        f[i].parent,
        i + 1,
    ) by {
        lemma_nwp_only_parents(g, f, f[i].parent, i + 1);
        if i < n {
            lemma_nwp_push(s, nd, f[i].parent, i + 1);
            if s[i].next is None && f[i].parent == Some(p as usize) {
                // Only the previous last child of `p` can gain a sibling.
                match s[p].last_child {
                    Some(l) => {
                        let li = l as int;
                        if i != li {
                            // `i` and `l` are both children of `p` with no
                            // later sibling in `s`: impossible for two nodes.
                            assert(s[li].next is None);
                            if i < li {
                                lemma_nwp_none(s, Some(p as usize), i + 1, li);
                            } else {
                                lemma_nwp_none(s, Some(p as usize), li + 1, i);
                            }
                        }
                    },
                    None => {
                        assert(s[p].first_child is None);
                        lemma_nwp_none(s, Some(p as usize), p + 1, i);
                    },
                }
            }
        } else {
            lemma_nwp_beyond(f, f[i].parent, i + 1);
        }
    }

    // Last-child links name a real child with no later sibling.
    assert forall|i: int| 0 <= i < f.len() implies match (#[trigger] f[i]).last_child {
        Some(l) => i < l < f.len() && f[l as int].parent == Some(i as usize) && f[
            l as int
        ].next is None,
        None => f[i].first_child is None,
    } by {
        if i == k {
        } else if i == p {
            assert(f[k].parent == Some(p as usize));
        } else {
            match s[i].last_child {
                Some(l) => {
                    assert(s[l as int].parent == Some(i as usize));
                    match s[p].last_child {
                        Some(lp) => {
                            assert(s[lp as int].parent == Some(p as usize));
                            assert(l != lp);
                        },
                        None => {},
                    }
                },
                None => {},
            }
        }
    }
}

/// The whole dissection tree, owned by one dissection result; released in
/// one operation when that result goes.
#[derive(Debug)]
pub struct ProtoTree {
    pub nodes: Vec<ProtoNodeData>,
}

impl ProtoTree {
    pub open spec fn wf(&self) -> bool {
        wf_nodes(self.nodes@)
    }

    /// Number of nodes in the whole tree.
    pub open spec fn spec_node_count(&self) -> nat {
        self.nodes@.len()
    }

    pub fn node_count(&self) -> (r: usize)
        ensures
            r == self.spec_node_count(),
    {
        self.nodes.len()
    }
}

/// Builds a well-formed dissection tree bottom-up, the way the decode pass
/// emits nodes: the root first, every further node appended under an
/// already-present parent, as its new last child.
pub struct TreeBuilder {
    pub nodes: Vec<ProtoNodeData>,
}

impl TreeBuilder {
    pub open spec fn wf(&self) -> bool {
        wf_nodes(self.nodes@)
    }

    /// A builder holding only the root node.
    pub fn new(root_abbrev: String, root_value: Option<FValue>) -> (r: TreeBuilder)
        ensures
            r.wf(),
            r.nodes@.len() == 1,
            r.nodes@[0].abbrev == root_abbrev,
            r.nodes@[0].fvalue == root_value,
    {
        let mut nodes: Vec<ProtoNodeData> = Vec::new();
        nodes.push(
            ProtoNodeData {
                parent: None,
                first_child: None,
                last_child: None,
                next: None,
                abbrev: root_abbrev,
                fvalue: root_value,
            },
        );
        proof {
            lemma_nwp_beyond(nodes@, Some(0usize), 1);
            lemma_nwp_beyond(nodes@, None::<usize>, 1);
        }
        TreeBuilder { nodes }
    }

    /// Appends a node as the new last child of `parent`. Returns the new
    /// node's index; refuses an absent parent or a full arena, leaving the
    /// builder unchanged.
    #[verifier::rlimit(50)]
    pub fn add_node(&mut self, parent: usize, abbrev: String, fvalue: Option<FValue>) -> (r:
        Option<usize>)
        requires
            old(self).wf(),
        ensures
            final(self).wf(),
            (r is Some) <==> (parent < old(self).nodes@.len() && old(self).nodes@.len()
                < MAX_TREE_NODES),
            r is None ==> final(self).nodes@ == old(self).nodes@,
            r matches Some(k) ==> {
                &&& k == old(self).nodes@.len()
                &&& final(self).nodes@.len() == old(self).nodes@.len() + 1
                &&& final(self).nodes@[k as int].parent == Some(parent)
                &&& final(self).nodes@[k as int].abbrev == abbrev
                &&& final(self).nodes@[k as int].fvalue == fvalue
                &&& forall|i: int|
                    0 <= i < old(self).nodes@.len() ==> {
                        &&& (#[trigger] final(self).nodes@[i]).parent == old(self).nodes@[i].parent
                        &&& final(self).nodes@[i].abbrev == old(self).nodes@[i].abbrev
                        &&& final(self).nodes@[i].fvalue == old(self).nodes@[i].fvalue
                    }
            },
    {
        if parent >= self.nodes.len() || self.nodes.len() >= MAX_TREE_NODES {
            return None;
        }
        let k = self.nodes.len();
        let ghost s = self.nodes@;
        let old_last = self.nodes[parent].last_child;
        self.nodes.push(
            ProtoNodeData {
                parent: Some(parent),
                first_child: None,
                last_child: None,
                next: None,
                abbrev,
                fvalue,
            },
        );
        let ghost nd = self.nodes@[k as int];
        match old_last {
            None => {
                self.nodes[parent].first_child = Some(k);
                self.nodes[parent].last_child = Some(k);
            },
            Some(l) => {
                proof {
                    assert(s[parent as int].last_child == Some(l));
                    assert((l as int) < s.len());
                }
                self.nodes[l].next = Some(k);
                self.nodes[parent].last_child = Some(k);
            },
        }
        proof {
            let p = parent as int;
            assert(self.nodes@ =~= builder_step(s, nd, p));
            lemma_wf_append_child(s, nd, p);
        }
        Some(k)
    }

    /// Seals the builder into a tree; the arena invariant rides along.
    pub fn finish(self) -> (r: ProtoTree)
        requires
            self.wf(),
        ensures
            r.wf(),
            r.nodes@ == self.nodes@,
    {
        ProtoTree { nodes: self.nodes }
    }
}

} // verus!
