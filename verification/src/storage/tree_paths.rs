//! Paths through the tree.

use super::slotted_page::Node;
use super::tree_model;
use super::tree_model::Span;
use vstd::arithmetic::power::{lemma_pow0, lemma_pow_positive, pow};
use vstd::prelude::*;

verus! {

/// A node with fewer cells than this is underfull, unless it is the root.
pub const DEGREE: usize = 102;

/// `x` is a child of `n`.
pub open spec fn has_child(n: Node, x: u64) -> bool {
    exists|j: int| 0 <= j <= n.cells.len() && #[trigger] tree_model::child(n, j) == x
}

/// Which child of `n` the node `x` is.
pub open spec fn place(n: Node, x: u64) -> int {
    choose|j: int| 0 <= j <= n.cells.len() && #[trigger] tree_model::child(n, j) == x
}

/// `path` leads from the root downwards.
pub open spec fn path_ok(
    nodes: Seq<Node>,
    root: u64,
    spans: Map<u64, Span>,
    path: Seq<u64>,
) -> bool {
    &&& path.len() > 0
    &&& path[0] == root
    &&& forall|i: int|
        0 <= i < path.len() ==> spans.contains_key(#[trigger] path[i]) && spans[path[i]].level + i
            == spans[root].level
    &&& forall|i: int|
        0 < i < path.len() ==> has_child(nodes[path[i - 1] as int], #[trigger] path[i])
}

/// The beginning of a path is a path, also after changes below its last node.
pub proof fn lemma_path_prefix(
    nodes: Seq<Node>,
    root: u64,
    spans: Map<u64, Span>,
    path: Seq<u64>,
    nodes2: Seq<Node>,
    spans2: Map<u64, Span>,
)
    requires
        path_ok(nodes, root, spans, path),
        path.len() > 1,
        forall|i: int|
            0 <= i < path.len() - 1 ==> spans2.contains_key(#[trigger] path[i])
                && spans2[path[i]].level == spans[path[i]].level,
        forall|i: int|
            0 <= i < path.len() - 2 ==> nodes2[(#[trigger] path[i]) as int]
                == nodes[path[i] as int],
    ensures
        path_ok(nodes2, root, spans2, path.drop_last()),
{
    let q = path.drop_last();
    assert forall|i: int| 0 < i < q.len() implies has_child(
        nodes2[q[i - 1] as int],
        #[trigger] q[i],
    ) by {
        assert(q[i] == path[i]);
        assert(q[i - 1] == path[i - 1]);
        assert(has_child(nodes[path[i - 1] as int], path[i]));
    }
}

/// The nodes that a search passes.
pub proof fn lemma_trail(
    nodes: Seq<Node>,
    root: u64,
    spans: Map<u64, Span>,
    id: u64,
    fuel: nat,
    key: u64,
)
    requires
        tree_model::tree_ok(nodes, root, spans),
        spans.contains_key(id),
        spans[id].has(key as int),
        spans[id].level <= fuel,
    ensures
        ({
            let t = tree_model::trail(nodes, id, fuel, key);
            &&& t.len() == spans[id].level + 1
            &&& t[0] == id
            &&& forall|i: int|
                0 <= i < t.len() ==> spans.contains_key(#[trigger] t[i]) && spans[t[i]].level + i
                    == spans[id].level && spans[t[i]].has(key as int)
            &&& forall|i: int|
                0 < i < t.len() ==> has_child(nodes[t[i - 1] as int], #[trigger] t[i])
        }),
    decreases fuel,
{
    if spans[id].level > 0 {
        let n = nodes[id as int];
        let j = tree_model::route(n, key);
        tree_model::lemma_route(n, spans[id], key);
        let c = tree_model::child(n, j);
        assert(tree_model::child_ok(spans, spans[id], n, j, c));
        lemma_trail(nodes, root, spans, c, (fuel - 1) as nat, key);
        let rest = tree_model::trail(nodes, c, (fuel - 1) as nat, key);
        let t = seq![id] + rest;
        assert forall|i: int| 0 <= i < t.len() implies spans.contains_key(#[trigger] t[i])
            && spans[t[i]].level + i == spans[id].level && spans[t[i]].has(key as int) by {
            if i > 0 {
                assert(t[i] == rest[i - 1]);
            }
        }
        assert forall|i: int| 0 < i < t.len() implies has_child(
            nodes[t[i - 1] as int],
            #[trigger] t[i],
        ) by {
            assert(t[i] == rest[i - 1]);
            if i > 1 {
                assert(t[i - 1] == rest[i - 2]);
            }
        }
    }
}

/// The levels of the nodes that a search can reach.
pub open spec fn levels_ok(nodes: Seq<Node>, levels: Map<u64, nat>) -> bool {
    forall|id: u64| #[trigger]
        levels.contains_key(id) ==> {
            let n = nodes[id as int];
            &&& id < nodes.len()
            &&& n.leaf_level() == (levels[id] == 0)
            &&& levels[id] > 0 ==> forall|i: int|
                0 <= i <= n.cells.len() ==> levels.contains_key(#[trigger] tree_model::child(n, i))
                    && levels[tree_model::child(n, i)] == levels[id] - 1
        }
}

/// The levels of a B+ tree.
pub open spec fn levels_of(spans: Map<u64, Span>) -> Map<u64, nat> {
    Map::new(|id: u64| spans.contains_key(id), |id: u64| spans[id].level)
}

/// Every search in a B+ tree ends in a leaf.
pub proof fn lemma_tree_readable(nodes: Seq<Node>, root: u64, spans: Map<u64, Span>)
    requires
        tree_model::tree_ok(nodes, root, spans),
    ensures
        levels_ok(nodes, levels_of(spans)),
{
    let levels = levels_of(spans);
    assert forall|id: u64| #[trigger] levels.contains_key(id) implies ({
        let n = nodes[id as int];
        &&& id < nodes.len()
        &&& n.leaf_level() == (levels[id] == 0)
        &&& levels[id] > 0 ==> forall|i: int|
            0 <= i <= n.cells.len() ==> levels.contains_key(#[trigger] tree_model::child(n, i))
                && levels[tree_model::child(n, i)] == levels[id] - 1
    }) by {
        assert(spans.contains_key(id));
        let n = nodes[id as int];
        if levels[id] > 0 {
            assert forall|i: int| 0 <= i <= n.cells.len() implies levels.contains_key(
                #[trigger] tree_model::child(n, i),
            ) && levels[tree_model::child(n, i)] == levels[id] - 1 by {
                assert(tree_model::child_ok(spans, spans[id], n, i, tree_model::child(n, i)));
            }
        }
    }
}

/// The leaves whose keys lie from `lo` to below `hi`.
pub open spec fn leaves_in(pages: nat, spans: Map<u64, Span>, lo: int, hi: int) -> Set<int> {
    Set::new(
        |id: int|
            {
                &&& 0 <= id < pages
                &&& id <= u64::MAX
                &&& spans.contains_key(id as u64)
                &&& spans[id as u64].level == 0
                &&& lo <= spans[id as u64].lo
                &&& spans[id as u64].hi <= hi
            },
    )
}

/// There are no more leaves than pages.
proof fn lemma_leaves_finite(pages: nat, spans: Map<u64, Span>, lo: int, hi: int)
    ensures
        leaves_in(pages, spans, lo, hi).finite(),
        leaves_in(pages, spans, lo, hi).len() <= pages,
{
    let all = vstd::set_lib::set_int_range(0, pages as int);
    vstd::set_lib::lemma_int_range(0, pages as int);
    assert(leaves_in(pages, spans, lo, hi).subset_of(all));
    vstd::set_lib::lemma_len_subset(leaves_in(pages, spans, lo, hi), all);
}

/// The first `j` children of a node have the leaves of each of them.
proof fn lemma_leaves_below(
    nodes: Seq<Node>,
    root: u64,
    spans: Map<u64, Span>,
    id: u64,
    j: int,
    each: int,
)
    requires
        tree_model::tree_ok(nodes, root, spans),
        spans.contains_key(id),
        spans[id].level > 0,
        0 <= j <= nodes[id as int].cells.len() + 1,
        forall|i: int|
            0 <= i < j ==> {
                let c = #[trigger] tree_model::child(nodes[id as int], i);
                leaves_in(nodes.len(), spans, spans[c].lo, spans[c].hi).len() >= each
            },
    ensures
        leaves_in(
            nodes.len(),
            spans,
            spans[id].lo,
            tree_model::fence(nodes[id as int], spans[id], j),
        ).len() >= j * each,
    decreases j,
{
    if j > 0 {
        let n = nodes[id as int];
        let s = spans[id];
        let lo = tree_model::fence(n, s, j - 1);
        let hi = tree_model::fence(n, s, j);
        let c = tree_model::child(n, j - 1);
        lemma_leaves_below(nodes, root, spans, id, j - 1, each);
        assert(tree_model::child_ok(spans, s, n, j - 1, c));
        assert(tree_model::node_ok(root, spans, c, nodes[c as int]));
        let before = leaves_in(nodes.len(), spans, s.lo, lo);
        let last = leaves_in(nodes.len(), spans, lo, hi);
        let all = leaves_in(nodes.len(), spans, s.lo, hi);
        lemma_leaves_finite(nodes.len(), spans, s.lo, lo);
        lemma_leaves_finite(nodes.len(), spans, lo, hi);
        lemma_leaves_finite(nodes.len(), spans, s.lo, hi);
        assert(before.disjoint(last)) by {
            assert forall|q: int| !(before.contains(q) && last.contains(q)) by {
                if before.contains(q) && last.contains(q) {
                    assert(tree_model::node_ok(root, spans, q as u64, nodes[q]));
                }
            }
        }
        assert(s.lo <= lo) by {
            if j - 1 > 0 {
                assert(n.cells[j - 2].0 > s.lo);
            }
        }
        vstd::set_lib::lemma_set_disjoint_lens(before, last);
        assert((before + last).subset_of(all));
        vstd::set_lib::lemma_len_subset(before + last, all);
        assert(j * each == (j - 1) * each + each) by (nonlinear_arith);
    } else {
        assert(j * each == 0) by (nonlinear_arith)
            requires
                j == 0,
        ;
    }
}

/// A node other than the root has many leaves below it where every such node has
/// `least` cells.
proof fn lemma_leaf_count(
    nodes: Seq<Node>,
    root: u64,
    spans: Map<u64, Span>,
    id: u64,
    least: nat,
)
    requires
        tree_model::tree_ok(nodes, root, spans),
        spans.contains_key(id),
        id != root,
        forall|q: u64| #[trigger]
            spans.contains_key(q) && q != root ==> nodes[q as int].cells.len() >= least,
    ensures
        leaves_in(nodes.len(), spans, spans[id].lo, spans[id].hi).len() >= pow(
            least as int + 1,
            spans[id].level,
        ),
    decreases spans[id].level,
{
    let s = spans[id];
    let n = nodes[id as int];
    if s.level == 0 {
        lemma_pow0(least as int + 1);
        let leaves = leaves_in(nodes.len(), spans, s.lo, s.hi);
        lemma_leaves_finite(nodes.len(), spans, s.lo, s.hi);
        assert(leaves.contains(id as int));
        assert(leaves.len() > 0) by {
            vstd::set_lib::lemma_set_empty_equivalency_len(leaves);
        }
    } else {
        let each = pow(least as int + 1, (s.level - 1) as nat);
        let count = n.cells.len() as int + 1;
        assert forall|i: int| 0 <= i < count implies {
            let c = #[trigger] tree_model::child(n, i);
            leaves_in(nodes.len(), spans, spans[c].lo, spans[c].hi).len() >= each
        } by {
            let c = tree_model::child(n, i);
            assert(tree_model::child_ok(spans, s, n, i, c));
            lemma_leaf_count(nodes, root, spans, c, least);
        }
        lemma_leaves_below(nodes, root, spans, id, count, each);
        lemma_pow_positive(least as int + 1, (s.level - 1) as nat);
        reveal(pow);
        assert(count * each >= (least + 1) * each) by (nonlinear_arith)
            requires
                count >= least + 1,
                each > 0,
        ;
    }
}

/// A tree in which every node but the root has `least` cells is shallow: the number
/// of its leaves grows with every level.
pub proof fn lemma_shallow(nodes: Seq<Node>, root: u64, spans: Map<u64, Span>, least: nat)
    requires
        tree_model::tree_ok(nodes, root, spans),
        spans[root].level > 0,
        nodes[root as int].cells.len() >= 1,
        forall|q: u64| #[trigger]
            spans.contains_key(q) && q != root ==> nodes[q as int].cells.len() >= least,
    ensures
        nodes.len() >= 2 * pow(least as int + 1, (spans[root].level - 1) as nat),
{
    let s = spans[root];
    let n = nodes[root as int];
    let each = pow(least as int + 1, (s.level - 1) as nat);
    let count = n.cells.len() as int + 1;
    assert forall|i: int| 0 <= i < count implies {
        let c = #[trigger] tree_model::child(n, i);
        leaves_in(nodes.len(), spans, spans[c].lo, spans[c].hi).len() >= each
    } by {
        let c = tree_model::child(n, i);
        assert(tree_model::child_ok(spans, s, n, i, c));
        lemma_leaf_count(nodes, root, spans, c, least);
    }
    lemma_leaves_below(nodes, root, spans, root, count, each);
    lemma_leaves_finite(nodes.len(), spans, s.lo, s.hi);
    lemma_pow_positive(least as int + 1, (s.level - 1) as nat);
    assert(count * each >= 2 * each) by (nonlinear_arith)
        requires
            count >= 2,
            each > 0,
    ;
}

} // verus!
