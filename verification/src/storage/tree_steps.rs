//! The steps of the tree operations keep a B+ tree a B+ tree, and what they do
//! to its keys.

use super::header;
use super::header::PageKind;
use super::slotted_page;
use super::slotted_page::Node;
use super::tree_model;
use super::tree_model::Span;
use vstd::prelude::*;

verus! {

/// Fences increase.
pub proof fn lemma_fences(n: Node, s: Span, i: int, j: int)
    requires
        slotted_page::sorted(n.cells),
        s.lo < s.hi,
        forall|i: int| 0 <= i < n.cells.len() ==> s.lo < (#[trigger] n.cells[i]).0 < s.hi,
        0 <= i < j <= n.cells.len() + 1,
    ensures
        s.lo <= tree_model::fence(n, s, i) < tree_model::fence(n, s, j) <= s.hi,
{
    if i > 0 && i <= n.cells.len() {
        assert(s.lo < n.cells[i - 1].0 < s.hi);
    }
    if j > 0 && j <= n.cells.len() {
        assert(s.lo < n.cells[j - 1].0 < s.hi);
    }
}

/// A node that itself and whose children keep their spans stays as it should
/// be.
pub proof fn lemma_frame(
    root: u64,
    spans: Map<u64, Span>,
    root2: u64,
    spans2: Map<u64, Span>,
    id: u64,
    n: Node,
)
    requires
        tree_model::node_ok(root, spans, id, n),
        (id == root) == (id == root2),
        spans2[id] == spans[id],
        spans[id].level > 0 ==> forall|i: int|
            0 <= i <= n.cells.len() ==> spans2.contains_key(#[trigger] tree_model::child(n, i))
                && spans2[tree_model::child(n, i)] == spans[tree_model::child(n, i)],
    ensures
        tree_model::node_ok(root2, spans2, id, n),
{
}

/// A node has one parent, and one place in it.
pub proof fn lemma_one_parent(
    nodes: Seq<Node>,
    root: u64,
    spans: Map<u64, Span>,
    p: u64,
    j: int,
    q: u64,
    i: int,
)
    requires
        tree_model::tree_ok(nodes, root, spans),
        spans.contains_key(p),
        spans.contains_key(q),
        spans[p].level > 0,
        spans[q].level > 0,
        0 <= j <= nodes[p as int].cells.len(),
        0 <= i <= nodes[q as int].cells.len(),
        tree_model::child(nodes[p as int], j) == tree_model::child(nodes[q as int], i),
    ensures
        p == q,
        i == j,
{
    let np = nodes[p as int];
    let nq = nodes[q as int];
    let x = tree_model::child(np, j);
    assert(tree_model::child_ok(spans, spans[p], np, j, x));
    assert(tree_model::child_ok(spans, spans[q], nq, i, tree_model::child(nq, i)));
    lemma_fences(np, spans[p], j, j + 1);
    lemma_fences(nq, spans[q], i, i + 1);
    assert(p == q);
    if i < j {
        lemma_fences(np, spans[p], i, j);
    } else if j < i {
        lemma_fences(np, spans[p], j, i);
    }
}

/// New cells for a leaf change what the tree holds for the keys that the leaf
/// covers.
pub proof fn lemma_change_leaf(
    nodes: Seq<Node>,
    root: u64,
    spans: Map<u64, Span>,
    leaf: u64,
    n: Node,
)
    requires
        tree_model::tree_ok(nodes, root, spans),
        spans.contains_key(leaf),
        spans[leaf].level == 0,
        slotted_page::sorted(n.cells),
        n.leaf_level(),
        n.kind == nodes[leaf as int].kind,
        forall|i: int|
            0 <= i < n.cells.len() ==> spans[leaf].has((#[trigger] n.cells[i]).0 as int),
    ensures
        tree_model::tree_ok(nodes.update(leaf as int, n), root, spans),
        forall|key: u64|
            #[trigger] tree_model::value(nodes.update(leaf as int, n), root, key) == (
            if spans[leaf].has(key as int) {
                tree_model::find(n.cells, key)
            } else {
                tree_model::value(nodes, root, key)
            }),
{
    let nodes2 = nodes.update(leaf as int, n);
    assert forall|id: u64| #[trigger] spans.contains_key(id) implies id < nodes2.len()
        && spans[id].level <= spans[root].level && tree_model::node_ok(root, spans, id, nodes2[id as int]) by {
        if id != leaf {
            lemma_frame(root, spans, root, spans, id, nodes[id as int]);
        }
    }
    assert forall|key: u64|
        #[trigger] tree_model::value(nodes2, root, key) == (if spans[leaf].has(key as int) {
            tree_model::find(n.cells, key)
        } else {
            tree_model::value(nodes, root, key)
        }) by {
        let l = tree_model::lemma_leaf(nodes, root, spans, root, key);
        tree_model::lemma_value(nodes, root, spans, key, l);
        tree_model::lemma_value(nodes2, root, spans, key, l);
        if spans[leaf].has(key as int) {
            assert(l == leaf);
        }
    }
}

/// The cells with the pointers to `from` turned to `to`.
pub open spec fn redirect(cells: Seq<(u64, u64)>, from: u64, to: u64) -> Seq<(u64, u64)> {
    Seq::new(
        cells.len(),
        |i: int|
            (
                cells[i].0,
                if cells[i].1 == from {
                    to
                } else {
                    cells[i].1
                },
            ),
    )
}

/// `l` and `r` are what node `n` is split into at cell `s`. A leaf keeps the
/// cell, as the first one of its right half; an internal node gives it up.
pub open spec fn halves(n: Node, l: Node, r: Node, s: int) -> bool {
    &&& 0 < s < n.cells.len()
    &&& l.cells == n.cells.take(s)
    &&& if n.leaf_level() {
        &&& r.cells == n.cells.skip(s)
        &&& l.kind == PageKind::Leaf
        &&& r.kind == PageKind::Leaf
    } else {
        &&& l.ptr == n.cells[s].1
        &&& r.cells == n.cells.skip(s + 1)
        &&& r.ptr == n.ptr
        &&& l.kind == PageKind::Internal
        &&& r.kind == PageKind::Internal
        &&& !header::root_leaf_bit(l.flags)
        &&& !header::root_leaf_bit(r.flags)
    }
}

/// The spans after node `x` was split at key `m` into `x` and `r`.
pub open spec fn split_spans(spans: Map<u64, Span>, x: u64, r: u64, m: u64) -> Map<u64, Span> {
    spans.insert(x, Span { hi: m as int, ..spans[x] }).insert(
        r,
        Span { lo: m as int, ..spans[x] },
    )
}

/// The two halves of a node are as they should be.
proof fn lemma_halves(
    nodes: Seq<Node>,
    root: u64,
    spans: Map<u64, Span>,
    x: u64,
    l: Node,
    r: Node,
    s: int,
    root2: u64,
    spans2: Map<u64, Span>,
    rid: u64,
)
    requires
        tree_model::tree_ok(nodes, root, spans),
        spans.contains_key(x),
        halves(nodes[x as int], l, r, s),
        !spans.contains_key(rid),
        x != root2,
        rid != root2,
        spans2[x] == (Span { hi: nodes[x as int].cells[s].0 as int, ..spans[x] }),
        spans2[rid] == (Span { lo: nodes[x as int].cells[s].0 as int, ..spans[x] }),
        forall|id: u64| #[trigger]
            spans.contains_key(id) && id != x ==> spans2.contains_key(id) && spans2[id]
                == spans[id],
    ensures
        tree_model::node_ok(root2, spans2, x, l),
        tree_model::node_ok(root2, spans2, rid, r),
        spans[x].lo < nodes[x as int].cells[s].0 < spans[x].hi,
{
    let n = nodes[x as int];
    let m = n.cells[s].0;
    assert(n.cells[0].0 < n.cells[s].0);
    assert forall|i: int| 0 <= i < l.cells.len() implies #[trigger] l.cells[i] == n.cells[i]
        && n.cells[i].0 < m by {}
    let d = if n.leaf_level() {
        s
    } else {
        s + 1
    };
    assert forall|i: int| 0 <= i < r.cells.len() implies #[trigger] r.cells[i] == n.cells[d + i]
        && n.cells[d + i].0 >= m by {}
    if spans[x].level > 0 {
        assert forall|i: int| 0 <= i <= l.cells.len() implies tree_model::child_ok(
            spans2,
            spans2[x],
            l,
            i,
            #[trigger] tree_model::child(l, i),
        ) by {
            let c = tree_model::child(n, i);
            assert(tree_model::child(l, i) == c);
            assert(tree_model::child_ok(spans, spans[x], n, i, c));
            assert(c != x);
        }
        assert forall|i: int| 0 <= i <= r.cells.len() implies tree_model::child_ok(
            spans2,
            spans2[rid],
            r,
            i,
            #[trigger] tree_model::child(r, i),
        ) by {
            let c = tree_model::child(n, d + i);
            assert(tree_model::child(r, i) == c);
            assert(tree_model::child_ok(spans, spans[x], n, d + i, c));
            assert(c != x);
            assert(c != rid);
        }
    }
}

/// The two halves hold the same keys as the whole.
proof fn lemma_halves_find(n: Node, l: Node, r: Node, s: int, key: u64)
    requires
        n.leaf_level(),
        slotted_page::sorted(n.cells),
        halves(n, l, r, s),
    ensures
        key < n.cells[s].0 ==> tree_model::find(l.cells, key) == tree_model::find(n.cells, key),
        key >= n.cells[s].0 ==> tree_model::find(r.cells, key) == tree_model::find(n.cells, key),
{
    assert forall|i: int| 0 <= i < l.cells.len() implies #[trigger] l.cells[i] == n.cells[i] by {}
    assert forall|i: int| 0 <= i < r.cells.len() implies #[trigger] r.cells[i] == n.cells[s + i] by {}
    if key < n.cells[s].0 {
        assert forall|i: int| 0 <= i < n.cells.len() && (
        #[trigger] n.cells[i]).0 == key implies exists|j: int|
            0 <= j < l.cells.len() && #[trigger] l.cells[j] == n.cells[i] by {
            assert(l.cells[i] == n.cells[i]);
        }
        tree_model::lemma_find_same(n.cells, l.cells, key);
    } else {
        assert forall|i: int| 0 <= i < n.cells.len() && (
        #[trigger] n.cells[i]).0 == key implies exists|j: int|
            0 <= j < r.cells.len() && #[trigger] r.cells[j] == n.cells[i] by {
            assert(r.cells[i - s] == n.cells[i]);
        }
        tree_model::lemma_find_same(n.cells, r.cells, key);
    }
}

/// The parent after its child `x` was split at key `m` into `x` and `r`.
pub open spec fn parent_of_halves(p: Node, p2: Node, j: int, x: u64, r: u64, m: u64) -> bool {
    &&& p2.cells == redirect(p.cells, x, r).insert(j, (m, x))
    &&& p2.ptr == (if p.ptr == x {
        r
    } else {
        p.ptr
    })
    &&& p2.kind == p.kind
    &&& !header::root_leaf_bit(p2.flags)
}

/// Splitting a node below its parent keeps the tree and its keys.
pub proof fn lemma_split(
    nodes: Seq<Node>,
    root: u64,
    spans: Map<u64, Span>,
    p: u64,
    j: int,
    rid: u64,
    s: int,
    nodes2: Seq<Node>,
)
    requires
        tree_model::tree_ok(nodes, root, spans),
        nodes.len() <= nodes2.len(),
        spans.contains_key(p),
        spans[p].level > 0,
        0 <= j <= nodes[p as int].cells.len(),
        !spans.contains_key(rid),
        rid < nodes2.len(),
        ({
            let x = tree_model::child(nodes[p as int], j);
            let m = nodes[x as int].cells[s].0;
            &&& halves(nodes[x as int], nodes2[x as int], nodes2[rid as int], s)
            &&& parent_of_halves(nodes[p as int], nodes2[p as int], j, x, rid, m)
            &&& forall|id: u64| #[trigger]
                spans.contains_key(id) && id != x && id != p ==> nodes2[id as int]
                    == nodes[id as int]
        }),
    ensures
        ({
            let x = tree_model::child(nodes[p as int], j);
            let m = nodes[x as int].cells[s].0;
            let spans2 = split_spans(spans, x, rid, m);
            &&& tree_model::tree_ok(nodes2, root, spans2)
            &&& forall|key: u64| #[trigger]
                tree_model::value(nodes2, root, key) == tree_model::value(nodes, root, key)
        }),
{
    let np = nodes[p as int];
    let x = tree_model::child(np, j);
    let n = nodes[x as int];
    let m = n.cells[s].0;
    let l = nodes2[x as int];
    let r = nodes2[rid as int];
    let p2 = nodes2[p as int];
    let spans2 = split_spans(spans, x, rid, m);
    assert(tree_model::child_ok(spans, spans[p], np, j, x));
    assert(x != p);
    assert(x != root);
    lemma_halves(nodes, root, spans, x, l, r, s, root, spans2, rid);
    lemma_fences(np, spans[p], j, j + 1);
    // the parent
    assert forall|i: int| 0 <= i < p2.cells.len() implies #[trigger] p2.cells[i] == (if i < j {
        np.cells[i]
    } else if i == j {
        (m, x)
    } else if i == j + 1 {
        (np.cells[j].0, rid)
    } else {
        np.cells[i - 1]
    }) by {
        if i != j {
            let k = if i < j {
                i
            } else {
                i - 1
            };
            if np.cells[k].1 == x {
                assert(tree_model::child(np, k) == x);
                lemma_one_parent(nodes, root, spans, p, j, p, k);
            } else if k == j {
                assert(tree_model::child(np, k) == np.cells[k].1);
            }
        }
    }
    assert(np.ptr == x <==> j == np.cells.len()) by {
        let k = np.cells.len() as int;
        assert(tree_model::child(np, k) == np.ptr);
        if np.ptr == x {
            lemma_one_parent(nodes, root, spans, p, j, p, k);
        }
    }
    assert(tree_model::node_ok(root, spans2, p, p2)) by {
        let sp = spans[p];
        assert forall|i: int, k: int| 0 <= i < k < p2.cells.len() implies (#[trigger] p2.cells[i]).0
            < (#[trigger] p2.cells[k]).0 by {
            if j > 0 {
                assert(np.cells[j - 1].0 < m);
            }
            if j < np.cells.len() {
                assert(m < np.cells[j].0);
            }
        }
        assert forall|i: int| 0 <= i < p2.cells.len() implies sp.lo < (#[trigger] p2.cells[i]).0
            < sp.hi by {}
        assert forall|i: int| 0 <= i <= p2.cells.len() implies tree_model::child_ok(
            spans2,
            sp,
            p2,
            i,
            #[trigger] tree_model::child(p2, i),
        ) by {
            if i < j {
                assert(tree_model::child(p2, i) == tree_model::child(np, i));
                assert(tree_model::child_ok(spans, sp, np, i, tree_model::child(np, i)));
                if tree_model::child(np, i) == x {
                    lemma_one_parent(nodes, root, spans, p, j, p, i);
                }
            } else if i > j + 1 {
                assert(tree_model::child(p2, i) == tree_model::child(np, i - 1));
                assert(tree_model::child_ok(spans, sp, np, i - 1, tree_model::child(np, i - 1)));
                if tree_model::child(np, i - 1) == x {
                    lemma_one_parent(nodes, root, spans, p, j, p, i - 1);
                }
            } else if i == j {
                assert(tree_model::child(p2, i) == x);
            } else {
                assert(tree_model::child(p2, i) == rid);
            }
        }
    }
    // the others
    assert forall|id: u64| #[trigger] spans2.contains_key(id) implies id < nodes2.len()
        && spans2[id].level <= spans2[root].level && tree_model::node_ok(
        root,
        spans2,
        id,
        nodes2[id as int],
    ) by {
        if id != x && id != rid && id != p {
            assert(spans.contains_key(id));
            let q = nodes[id as int];
            if spans[id].level > 0 {
                assert forall|i: int| 0 <= i <= q.cells.len() implies spans2.contains_key(
                    #[trigger] tree_model::child(q, i),
                ) && spans2[tree_model::child(q, i)] == spans[tree_model::child(q, i)] by {
                    assert(tree_model::child_ok(spans, spans[id], q, i, tree_model::child(q, i)));
                    if tree_model::child(q, i) == x {
                        lemma_one_parent(nodes, root, spans, p, j, id, i);
                    }
                }
            }
            lemma_frame(root, spans, root, spans2, id, q);
        }
    }
    assert(tree_model::apart(spans2));
    // the keys
    assert forall|key: u64| #[trigger]
        tree_model::value(nodes2, root, key) == tree_model::value(nodes, root, key) by {
        let l2 = tree_model::lemma_leaf(nodes2, root, spans2, root, key);
        tree_model::lemma_value(nodes2, root, spans2, key, l2);
        if l2 == x || l2 == rid {
            tree_model::lemma_value(nodes, root, spans, key, x);
            lemma_halves_find(n, l, r, s, key);
        } else {
            tree_model::lemma_value(nodes, root, spans, key, l2);
        }
    }
}

/// Splitting the root below a new root keeps the tree and its keys.
pub proof fn lemma_split_root(
    nodes: Seq<Node>,
    root: u64,
    spans: Map<u64, Span>,
    rid: u64,
    qid: u64,
    s: int,
    nodes2: Seq<Node>,
)
    requires
        tree_model::tree_ok(nodes, root, spans),
        nodes.len() + 2 <= nodes2.len(),
        rid == nodes.len(),
        qid == nodes.len() + 1,
        halves(nodes[root as int], nodes2[root as int], nodes2[rid as int], s),
        nodes2[qid as int].cells == seq![(nodes[root as int].cells[s].0, root)],
        nodes2[qid as int].ptr == rid,
        nodes2[qid as int].kind == PageKind::Root,
        !header::root_leaf_bit(nodes2[qid as int].flags),
        forall|id: u64| #[trigger]
            spans.contains_key(id) && id != root ==> nodes2[id as int] == nodes[id as int],
    ensures
        ({
            let m = nodes[root as int].cells[s].0;
            let spans2 = split_spans(spans, root, rid, m).insert(
                qid,
                Span { level: spans[root].level + 1, lo: 0, hi: tree_model::key_end() },
            );
            &&& tree_model::tree_ok(nodes2, qid, spans2)
            &&& forall|key: u64| #[trigger]
                tree_model::value(nodes2, qid, key) == tree_model::value(nodes, root, key)
        }),
{
    let n = nodes[root as int];
    let m = n.cells[s].0;
    let l = nodes2[root as int];
    let r = nodes2[rid as int];
    let q = nodes2[qid as int];
    let spans2 = split_spans(spans, root, rid, m).insert(
        qid,
        Span { level: spans[root].level + 1, lo: 0, hi: tree_model::key_end() },
    );
    assert(!spans.contains_key(rid));
    assert(!spans.contains_key(qid));
    lemma_halves(nodes, root, spans, root, l, r, s, qid, spans2, rid);
    assert(tree_model::node_ok(qid, spans2, qid, q)) by {
        assert forall|i: int| 0 <= i <= q.cells.len() implies tree_model::child_ok(
            spans2,
            spans2[qid],
            q,
            i,
            #[trigger] tree_model::child(q, i),
        ) by {
            if i == 0 {
                assert(tree_model::child(q, i) == root);
            } else {
                assert(tree_model::child(q, i) == rid);
            }
        }
    }
    assert forall|id: u64| #[trigger] spans2.contains_key(id) implies id < nodes2.len()
        && spans2[id].level <= spans2[qid].level && tree_model::node_ok(
        qid,
        spans2,
        id,
        nodes2[id as int],
    ) by {
        if id != root && id != rid && id != qid {
            assert(spans.contains_key(id));
            let o = nodes[id as int];
            if spans[id].level > 0 {
                assert forall|i: int| 0 <= i <= o.cells.len() implies spans2.contains_key(
                    #[trigger] tree_model::child(o, i),
                ) && spans2[tree_model::child(o, i)] == spans[tree_model::child(o, i)] by {
                    assert(tree_model::child_ok(spans, spans[id], o, i, tree_model::child(o, i)));
                }
            }
            lemma_frame(root, spans, qid, spans2, id, o);
        }
    }
    assert(tree_model::apart(spans2));
    assert forall|key: u64| #[trigger]
        tree_model::value(nodes2, qid, key) == tree_model::value(nodes, root, key) by {
        let l2 = tree_model::lemma_leaf(nodes2, qid, spans2, qid, key);
        tree_model::lemma_value(nodes2, qid, spans2, key, l2);
        if l2 == root || l2 == rid {
            tree_model::lemma_value(nodes, root, spans, key, root);
            lemma_halves_find(n, l, r, s, key);
        } else {
            tree_model::lemma_value(nodes, root, spans, key, l2);
        }
    }
}

/// The cells of two neighbours in one node; internal nodes take the key that
/// parted them in between.
pub open spec fn joined(a: Node, b: Node, sep: u64) -> Seq<(u64, u64)> {
    if a.leaf_level() {
        a.cells + b.cells
    } else {
        a.cells.push((sep, a.ptr)) + b.cells
    }
}

/// The spans after `b` was merged into its left neighbour `a`.
pub open spec fn merge_spans(spans: Map<u64, Span>, a: u64, b: u64) -> Map<u64, Span> {
    spans.remove(b).insert(a, Span { hi: spans[b].hi, ..spans[a] })
}

/// The parent after its child `i + 1`, which is `b`, was merged into child `i`,
/// which is `a`.
pub open spec fn parent_of_merged(p: Node, p2: Node, i: int, a: u64, b: u64) -> bool {
    &&& p2.cells == redirect(p.cells.remove(i), b, a)
    &&& p2.ptr == (if p.ptr == b {
        a
    } else {
        p.ptr
    })
    &&& p2.kind == p.kind
    &&& !header::root_leaf_bit(p2.flags)
}

/// Merging two neighbours keeps the tree and its keys.
#[verifier::rlimit(30)]
pub proof fn lemma_merge(
    nodes: Seq<Node>,
    root: u64,
    spans: Map<u64, Span>,
    p: u64,
    i: int,
    nodes2: Seq<Node>,
)
    requires
        tree_model::tree_ok(nodes, root, spans),
        nodes.len() <= nodes2.len(),
        spans.contains_key(p),
        spans[p].level > 0,
        0 <= i < nodes[p as int].cells.len(),
        ({
            let np = nodes[p as int];
            let a = tree_model::child(np, i);
            let b = tree_model::child(np, i + 1);
            let na = nodes[a as int];
            let nb = nodes[b as int];
            let a2 = nodes2[a as int];
            &&& a2.cells == joined(na, nb, np.cells[i].0)
            &&& a2.ptr == nb.ptr
            &&& a2.kind == na.kind
            &&& !na.leaf_level() ==> !header::root_leaf_bit(a2.flags)
            &&& parent_of_merged(np, nodes2[p as int], i, a, b)
            &&& forall|id: u64| #[trigger]
                spans.contains_key(id) && id != a && id != b && id != p ==> nodes2[id as int]
                    == nodes[id as int]
        }),
    ensures
        ({
            let a = tree_model::child(nodes[p as int], i);
            let b = tree_model::child(nodes[p as int], i + 1);
            &&& a != b
            &&& spans.contains_key(a)
            &&& spans.contains_key(b)
            &&& tree_model::tree_ok(nodes2, root, merge_spans(spans, a, b))
            &&& forall|key: u64| #[trigger]
                tree_model::value(nodes2, root, key) == tree_model::value(nodes, root, key)
        }),
{
    let np = nodes[p as int];
    let a = tree_model::child(np, i);
    let b = tree_model::child(np, i + 1);
    let na = nodes[a as int];
    let nb = nodes[b as int];
    let a2 = nodes2[a as int];
    let p2 = nodes2[p as int];
    let sep = np.cells[i].0;
    let sp = spans[p];
    let spans2 = merge_spans(spans, a, b);
    assert(tree_model::child_ok(spans, sp, np, i, a));
    assert(tree_model::child_ok(spans, sp, np, i + 1, b));
    lemma_fences(np, sp, i, i + 1);
    lemma_fences(np, sp, i + 1, i + 2);
    assert(a != b);
    assert(a != p && b != p);
    assert(a != root && b != root);
    let sa = spans[a];
    let sb = spans[b];
    assert(sa.hi == sep && sb.lo == sep);
    let d = if sa.level == 0 {
        na.cells.len() as int
    } else {
        na.cells.len() as int + 1
    };
    assert(a2.cells.len() == d + nb.cells.len());
    assert forall|k: int| 0 <= k < a2.cells.len() implies #[trigger] a2.cells[k] == (if k
        < na.cells.len() {
        na.cells[k]
    } else if k < d {
        (sep, na.ptr)
    } else {
        nb.cells[k - d]
    }) by {}
    // the merged node
    assert(tree_model::node_ok(root, spans2, a, a2)) by {
        assert forall|k: int, l: int| 0 <= k < l < a2.cells.len() implies (#[trigger] a2.cells[k]).0
            < (#[trigger] a2.cells[l]).0 by {
            if k < na.cells.len() {
                assert(na.cells[k].0 < sep);
            }
            if l >= d {
                assert(nb.cells[l - d].0 >= sep);
            }
        }
        if sa.level > 0 {
            assert forall|k: int| 0 <= k <= a2.cells.len() implies tree_model::child_ok(
                spans2,
                spans2[a],
                a2,
                k,
                #[trigger] tree_model::child(a2, k),
            ) by {
                if k < d {
                    let c = tree_model::child(na, k);
                    assert(tree_model::child(a2, k) == c);
                    assert(tree_model::child_ok(spans, sa, na, k, c));
                    assert(c != a && c != b);
                } else {
                    let c = tree_model::child(nb, k - d);
                    assert(tree_model::child(a2, k) == c);
                    assert(tree_model::child_ok(spans, sb, nb, k - d, c));
                    assert(c != a && c != b);
                }
            }
        }
    }
    // the parent
    assert forall|k: int| 0 <= k < p2.cells.len() implies #[trigger] p2.cells[k] == (if k < i {
        np.cells[k]
    } else if k == i {
        (np.cells[i + 1].0, a)
    } else {
        np.cells[k + 1]
    }) by {
        let k2 = if k < i {
            k
        } else {
            k + 1
        };
        assert(tree_model::child(np, k2) == np.cells[k2].1);
        if np.cells[k2].1 == b {
            lemma_one_parent(nodes, root, spans, p, i + 1, p, k2);
        }
    }
    assert(np.ptr == b <==> i + 1 == np.cells.len()) by {
        let k = np.cells.len() as int;
        assert(tree_model::child(np, k) == np.ptr);
        if np.ptr == b {
            lemma_one_parent(nodes, root, spans, p, i + 1, p, k);
        }
    }
    assert(tree_model::node_ok(root, spans2, p, p2)) by {
        assert forall|k: int| 0 <= k <= p2.cells.len() implies tree_model::child_ok(
            spans2,
            sp,
            p2,
            k,
            #[trigger] tree_model::child(p2, k),
        ) by {
            if k == i {
                assert(tree_model::child(p2, k) == a);
            } else {
                let k2 = if k < i {
                    k
                } else {
                    k + 1
                };
                let c = tree_model::child(np, k2);
                assert(tree_model::child(p2, k) == c);
                assert(tree_model::child_ok(spans, sp, np, k2, c));
                if c == a {
                    lemma_one_parent(nodes, root, spans, p, i, p, k2);
                }
                if c == b {
                    lemma_one_parent(nodes, root, spans, p, i + 1, p, k2);
                }
            }
        }
    }
    // the others
    assert forall|id: u64| #[trigger] spans2.contains_key(id) implies id < nodes2.len()
        && spans2[id].level <= spans2[root].level && tree_model::node_ok(
        root,
        spans2,
        id,
        nodes2[id as int],
    ) by {
        assert(spans.contains_key(id));
        if id != a && id != p {
            let q = nodes[id as int];
            if spans[id].level > 0 {
                assert forall|k: int| 0 <= k <= q.cells.len() implies spans2.contains_key(
                    #[trigger] tree_model::child(q, k),
                ) && spans2[tree_model::child(q, k)] == spans[tree_model::child(q, k)] by {
                    assert(tree_model::child_ok(spans, spans[id], q, k, tree_model::child(q, k)));
                    if tree_model::child(q, k) == a {
                        lemma_one_parent(nodes, root, spans, p, i, id, k);
                    }
                    if tree_model::child(q, k) == b {
                        lemma_one_parent(nodes, root, spans, p, i + 1, id, k);
                    }
                }
            }
            lemma_frame(root, spans, root, spans2, id, q);
        }
    }
    assert(tree_model::apart(spans2)) by {
        assert forall|x: u64, y: u64|
            #![trigger spans2.contains_key(x), spans2.contains_key(y)]
            spans2.contains_key(x) && spans2.contains_key(y) && x != y && spans2[x].level
                == spans2[y].level implies spans2[x].hi <= spans2[y].lo || spans2[y].hi
            <= spans2[x].lo by {
            assert(spans.contains_key(x) && spans.contains_key(y));
        }
    }
    // the keys
    assert forall|key: u64| #[trigger]
        tree_model::value(nodes2, root, key) == tree_model::value(nodes, root, key) by {
        let l2 = tree_model::lemma_leaf(nodes2, root, spans2, root, key);
        tree_model::lemma_value(nodes2, root, spans2, key, l2);
        if l2 == a {
            if key < sep {
                tree_model::lemma_value(nodes, root, spans, key, a);
                lemma_joined_find(na, nb, sep, a2.cells, key);
            } else {
                tree_model::lemma_value(nodes, root, spans, key, b);
                lemma_joined_find(na, nb, sep, a2.cells, key);
            }
        } else {
            tree_model::lemma_value(nodes, root, spans, key, l2);
        }
    }
}

/// Two leaves in one hold what each of them held.
proof fn lemma_joined_find(a: Node, b: Node, sep: u64, cells: Seq<(u64, u64)>, key: u64)
    requires
        a.leaf_level(),
        slotted_page::sorted(a.cells),
        slotted_page::sorted(b.cells),
        slotted_page::sorted(cells),
        cells == a.cells + b.cells,
        forall|i: int| 0 <= i < a.cells.len() ==> (#[trigger] a.cells[i]).0 < sep,
        forall|i: int| 0 <= i < b.cells.len() ==> (#[trigger] b.cells[i]).0 >= sep,
    ensures
        key < sep ==> tree_model::find(cells, key) == tree_model::find(a.cells, key),
        key >= sep ==> tree_model::find(cells, key) == tree_model::find(b.cells, key),
{
    let d = a.cells.len() as int;
    assert forall|i: int| 0 <= i < cells.len() implies #[trigger] cells[i] == (if i < d {
        a.cells[i]
    } else {
        b.cells[i - d]
    }) by {}
    if key < sep {
        assert forall|i: int| 0 <= i < a.cells.len() implies #[trigger] a.cells[i] == cells[i] by {}
        assert forall|i: int| 0 <= i < a.cells.len() && (
        #[trigger] a.cells[i]).0 == key implies exists|j: int|
            0 <= j < cells.len() && #[trigger] cells[j] == a.cells[i] by {
            assert(cells[i] == a.cells[i]);
        }
        tree_model::lemma_find_same(a.cells, cells, key);
    } else {
        assert forall|i: int| 0 <= i < b.cells.len() && (
        #[trigger] b.cells[i]).0 == key implies exists|j: int|
            0 <= j < cells.len() && #[trigger] cells[j] == b.cells[i] by {
            assert(cells[d + i] == b.cells[i]);
        }
        assert forall|i: int| 0 <= i < cells.len() && (
        #[trigger] cells[i]).0 == key implies exists|j: int|
            0 <= j < b.cells.len() && #[trigger] b.cells[j] == cells[i] by {
            assert(b.cells[i - d] == cells[i]);
        }
        tree_model::lemma_find_same(b.cells, cells, key);
    }
}

/// Moving cells between two neighbours `a` and `b`, and the key that parts them
/// with them, keeps the tree and its keys.
pub proof fn lemma_rebalance(
    nodes: Seq<Node>,
    root: u64,
    spans: Map<u64, Span>,
    p: u64,
    i: int,
    s: int,
    nodes2: Seq<Node>,
)
    requires
        tree_model::tree_ok(nodes, root, spans),
        nodes.len() == nodes2.len(),
        spans.contains_key(p),
        spans[p].level > 0,
        0 <= i < nodes[p as int].cells.len(),
        ({
            let np = nodes[p as int];
            let p2 = nodes2[p as int];
            let a = tree_model::child(np, i);
            let b = tree_model::child(np, i + 1);
            let na = nodes[a as int];
            let nb = nodes[b as int];
            let all = Node {
                cells: joined(na, nb, np.cells[i].0),
                ptr: nb.ptr,
                flags: 0,
                ..na
            };
            &&& halves(all, nodes2[a as int], nodes2[b as int], s)
            &&& p2.cells == np.cells.update(i, (all.cells[s].0, a))
            &&& p2.ptr == np.ptr
            &&& p2.kind == np.kind
            &&& !header::root_leaf_bit(p2.flags)
            &&& forall|id: u64| #[trigger]
                spans.contains_key(id) && id != a && id != b && id != p ==> nodes2[id as int]
                    == nodes[id as int]
        }),
    ensures
        ({
            let np = nodes[p as int];
            let a = tree_model::child(np, i);
            let b = tree_model::child(np, i + 1);
            let m = joined(nodes[a as int], nodes[b as int], np.cells[i].0)[s].0;
            &&& a != b
            &&& spans.contains_key(a)
            &&& spans.contains_key(b)
            &&& tree_model::tree_ok(
                nodes2,
                root,
                split_spans(merge_spans(spans, a, b), a, b, m),
            )
            &&& forall|key: u64| #[trigger]
                tree_model::value(nodes2, root, key) == tree_model::value(nodes, root, key)
        }),
{
    let np = nodes[p as int];
    let p2 = nodes2[p as int];
    let a = tree_model::child(np, i);
    let b = tree_model::child(np, i + 1);
    let na = nodes[a as int];
    let nb = nodes[b as int];
    let sep = np.cells[i].0;
    assert(0u8 & 0x01 != 0x01) by (bit_vector);
    assert(tree_model::child_ok(spans, spans[p], np, i, a));
    assert(tree_model::child_ok(spans, spans[p], np, i + 1, b));
    lemma_fences(np, spans[p], i, i + 1);
    lemma_fences(np, spans[p], i + 1, i + 2);
    assert(a != b);
    let all = Node { cells: joined(na, nb, sep), ptr: nb.ptr, flags: 0, ..na };
    assert(all.leaf_level() == na.leaf_level()) by {
        assert(na.kind != PageKind::Root);
    }
    let p1 = Node {
        cells: redirect(np.cells.remove(i), b, a),
        ptr: if np.ptr == b {
            a
        } else {
            np.ptr
        },
        ..np
    };
    let nodes1 = nodes.update(a as int, all).update(p as int, p1);
    lemma_merge(nodes, root, spans, p, i, nodes1);
    let spans1 = merge_spans(spans, a, b);
    assert(tree_model::child(p1, i) == a) by {
        if i < p1.cells.len() {
            assert(tree_model::child(np, i + 1) == np.cells[i + 1].1);
            assert(np.cells.remove(i)[i] == np.cells[i + 1]);
        } else {
            assert(tree_model::child(np, i + 1) == np.ptr);
        }
    }
    let m = all.cells[s].0;
    assert(p2.cells =~= redirect(p1.cells, a, b).insert(i, (m, a))) by {
        assert forall|k: int| 0 <= k < p2.cells.len() implies p2.cells[k] == redirect(
            p1.cells,
            a,
            b,
        ).insert(i, (m, a))[k] by {
            if k != i {
                let k1 = if k < i {
                    k
                } else {
                    k - 1
                };
                assert(np.cells.remove(i)[k1] == np.cells[k]);
                assert(tree_model::child(np, k) == np.cells[k].1);
                if np.cells[k].1 == a {
                    lemma_one_parent(nodes, root, spans, p, i, p, k);
                }
            }
        }
    }
    assert(p2.ptr == (if p1.ptr == a {
        b
    } else {
        p1.ptr
    })) by {
        let k = np.cells.len() as int;
        assert(tree_model::child(np, k) == np.ptr);
        if np.ptr == a {
            lemma_one_parent(nodes, root, spans, p, i, p, k);
        }
    }
    assert(spans1.contains_key(p));
    assert forall|id: u64| #[trigger] spans1.contains_key(id) && id != a && id
        != p implies nodes2[id as int] == nodes1[id as int] by {
        assert(spans.contains_key(id));
    }
    lemma_split(nodes1, root, spans1, p, i, b, s, nodes2);
}

/// The only child of the root can take its place.
pub proof fn lemma_collapse(
    nodes: Seq<Node>,
    root: u64,
    spans: Map<u64, Span>,
    nodes2: Seq<Node>,
)
    requires
        tree_model::tree_ok(nodes, root, spans),
        nodes2.len() == nodes.len(),
        spans[root].level > 0,
        nodes[root as int].cells.len() == 0,
        ({
            let c = nodes[root as int].ptr;
            let n = nodes[c as int];
            let n2 = nodes2[c as int];
            &&& n2.cells == n.cells
            &&& n2.ptr == n.ptr
            &&& n2.kind == PageKind::Root
            &&& header::root_leaf_bit(n2.flags) == n.leaf_level()
            &&& forall|id: u64| #[trigger]
                spans.contains_key(id) && id != c ==> nodes2[id as int] == nodes[id as int]
        }),
    ensures
        ({
            let c = nodes[root as int].ptr;
            &&& tree_model::tree_ok(nodes2, c, spans.remove(root))
            &&& forall|key: u64| #[trigger]
                tree_model::value(nodes2, c, key) == tree_model::value(nodes, root, key)
        }),
{
    let nr = nodes[root as int];
    let c = nr.ptr;
    let n2 = nodes2[c as int];
    let spans2 = spans.remove(root);
    assert(tree_model::child(nr, 0) == c);
    assert(tree_model::child_ok(spans, spans[root], nr, 0, c));
    assert(c != root);
    assert(tree_model::node_ok(c, spans2, c, n2)) by {
        let n = nodes[c as int];
        if spans[c].level > 0 {
            assert forall|i: int| 0 <= i <= n2.cells.len() implies tree_model::child_ok(
                spans2,
                spans2[c],
                n2,
                i,
                #[trigger] tree_model::child(n2, i),
            ) by {
                assert(tree_model::child(n2, i) == tree_model::child(n, i));
                assert(tree_model::child_ok(spans, spans[c], n, i, tree_model::child(n, i)));
                assert(tree_model::child(n, i) != root);
            }
        }
    }
    assert forall|id: u64| #[trigger] spans2.contains_key(id) implies id < nodes2.len()
        && spans2[id].level <= spans2[c].level && tree_model::node_ok(
        c,
        spans2,
        id,
        nodes2[id as int],
    ) by {
        assert(spans.contains_key(id));
        assert(spans[id].level < spans[root].level);
        if id != c {
            let q = nodes[id as int];
            if spans[id].level > 0 {
                assert forall|i: int| 0 <= i <= q.cells.len() implies spans2.contains_key(
                    #[trigger] tree_model::child(q, i),
                ) && spans2[tree_model::child(q, i)] == spans[tree_model::child(q, i)] by {
                    assert(tree_model::child_ok(spans, spans[id], q, i, tree_model::child(q, i)));
                }
            }
            lemma_frame(root, spans, c, spans2, id, q);
        }
    }
    assert(tree_model::apart(spans2)) by {
        assert forall|x: u64, y: u64|
            #![trigger spans2.contains_key(x), spans2.contains_key(y)]
            spans2.contains_key(x) && spans2.contains_key(y) && x != y && spans2[x].level
                == spans2[y].level implies spans2[x].hi <= spans2[y].lo || spans2[y].hi
            <= spans2[x].lo by {
            assert(spans.contains_key(x) && spans.contains_key(y));
        }
    }
    assert forall|key: u64| #[trigger]
        tree_model::value(nodes2, c, key) == tree_model::value(nodes, root, key) by {
        let l2 = tree_model::lemma_leaf(nodes2, c, spans2, c, key);
        tree_model::lemma_value(nodes2, c, spans2, key, l2);
        tree_model::lemma_value(nodes, root, spans, key, l2);
    }
}

/// The node of a level below a node that covers a key.
pub proof fn lemma_below(
    nodes: Seq<Node>,
    root: u64,
    spans: Map<u64, Span>,
    id: u64,
    key: u64,
    level: nat,
) -> (y: u64)
    requires
        tree_model::tree_ok(nodes, root, spans),
        spans.contains_key(id),
        spans[id].has(key as int),
        level <= spans[id].level,
    ensures
        spans.contains_key(y),
        spans[y].level == level,
        spans[y].has(key as int),
        spans[id].lo <= spans[y].lo,
        spans[y].hi <= spans[id].hi,
    decreases spans[id].level,
{
    if spans[id].level == level {
        id
    } else {
        let n = nodes[id as int];
        let i = tree_model::route(n, key);
        tree_model::lemma_route(n, spans[id], key);
        let c = tree_model::child(n, i);
        assert(tree_model::child_ok(spans, spans[id], n, i, c));
        lemma_fences(n, spans[id], i, i + 1);
        lemma_below(nodes, root, spans, c, key, level)
    }
}

/// The spans after the key `old` that parts two children of a node on `level`
/// was replaced by `new`.
pub open spec fn moved_spans(spans: Map<u64, Span>, level: nat, old: u64, new: u64) -> Map<
    u64,
    Span,
> {
    Map::new(
        |id: u64| spans.contains_key(id),
        |id: u64|
            if spans[id].level < level {
                Span {
                    lo: if spans[id].lo == old {
                        new as int
                    } else {
                        spans[id].lo
                    },
                    hi: if spans[id].hi == old {
                        new as int
                    } else {
                        spans[id].hi
                    },
                    ..spans[id]
                }
            } else {
                spans[id]
            },
    )
}

/// A key that parts two children can be replaced by a larger one when there are
/// no keys in between.
#[verifier::rlimit(40)]
pub proof fn lemma_move_fence(
    nodes: Seq<Node>,
    root: u64,
    spans: Map<u64, Span>,
    p: u64,
    idx: int,
    new: u64,
    leaf: u64,
    nodes2: Seq<Node>,
)
    requires
        tree_model::tree_ok(nodes, root, spans),
        nodes2.len() == nodes.len(),
        spans.contains_key(p),
        spans[p].level > 0,
        0 <= idx < nodes[p as int].cells.len(),
        spans.contains_key(leaf),
        spans[leaf].level == 0,
        ({
            let np = nodes[p as int];
            let p2 = nodes2[p as int];
            let old = np.cells[idx].0;
            &&& old < new < spans[leaf].hi
            &&& spans[leaf].has(old as int)
            &&& forall|i: int|
                0 <= i < nodes[leaf as int].cells.len() ==> (
                #[trigger] nodes[leaf as int].cells[i]).0 >= new
            &&& p2.cells == np.cells.update(idx, (new, np.cells[idx].1))
            &&& p2.ptr == np.ptr
            &&& p2.kind == np.kind
            &&& !header::root_leaf_bit(p2.flags)
        }),
        forall|id: u64| #[trigger]
            spans.contains_key(id) && id != p ==> nodes2[id as int] == nodes[id as int],
    ensures
        tree_model::tree_ok(
            nodes2,
            root,
            moved_spans(spans, spans[p].level, nodes[p as int].cells[idx].0, new),
        ),
        forall|key: u64| #[trigger]
            tree_model::value(nodes2, root, key) == tree_model::value(nodes, root, key),
{
    let np = nodes[p as int];
    let p2 = nodes2[p as int];
    let old = np.cells[idx].0;
    let level = spans[p].level;
    let spans2 = moved_spans(spans, level, old, new);
    let below = tree_model::child(np, idx + 1);
    assert(tree_model::child_ok(spans, spans[p], np, idx + 1, below));
    lemma_fences(np, spans[p], idx + 1, idx + 2);
    // the node of each lower level that covers the old key starts with it
    assert forall|id: u64| #[trigger] spans.contains_key(id) && spans[id].level < level
        && spans[id].has(old as int) implies spans[id].lo == old && new < spans[id].hi by {
        let y = lemma_below(nodes, root, spans, below, old, spans[id].level);
        assert(y == id);
        let z = lemma_below(nodes, root, spans, id, old, 0);
        assert(z == leaf);
    }
    assert(spans[below].lo == old && new < spans[below].hi);
    // the parent
    assert(tree_model::node_ok(root, spans2, p, p2)) by {
        let sp = spans[p];
        assert forall|i: int, j: int| 0 <= i < j < p2.cells.len() implies (#[trigger] p2.cells[i]).0
            < (#[trigger] p2.cells[j]).0 by {
            assert(np.cells[i].0 < np.cells[j].0);
            if i == idx {
                assert(np.cells[idx + 1].0 <= np.cells[j].0);
            }
        }
        assert(sp.lo < old && new < sp.hi);
        assert forall|i: int| 0 <= i < p2.cells.len() implies sp.lo < (#[trigger] p2.cells[i]).0
            < sp.hi by {
            assert(sp.lo < np.cells[i].0 < sp.hi);
        }
        assert forall|i: int| 0 <= i <= p2.cells.len() implies tree_model::child_ok(
            spans2,
            sp,
            p2,
            i,
            #[trigger] tree_model::child(p2, i),
        ) by {
            let c = tree_model::child(np, i);
            assert(tree_model::child(p2, i) == c);
            assert(tree_model::child_ok(spans, sp, np, i, c));
            assert(tree_model::fence(np, sp, idx + 1) == old);
            if i < idx + 1 {
                lemma_fences(np, sp, i, idx + 1);
            }
            if i > idx + 1 {
                lemma_fences(np, sp, idx + 1, i);
            }
            if i + 1 < idx + 1 {
                lemma_fences(np, sp, i + 1, idx + 1);
            }
            if i + 1 > idx + 1 {
                lemma_fences(np, sp, idx + 1, i + 1);
            }
        }
    }
    // the others
    assert forall|id: u64| #[trigger] spans2.contains_key(id) implies id < nodes2.len()
        && spans2[id].level <= spans2[root].level && tree_model::node_ok(
        root,
        spans2,
        id,
        nodes2[id as int],
    ) by {
        assert(spans.contains_key(id));
        if id != p {
            let q = nodes[id as int];
            let s = spans[id];
            if s.level >= level {
                if s.level > 0 {
                    assert forall|i: int| 0 <= i <= q.cells.len() implies spans2.contains_key(
                        #[trigger] tree_model::child(q, i),
                    ) && spans2[tree_model::child(q, i)] == spans[tree_model::child(q, i)] by {
                        let c = tree_model::child(q, i);
                        assert(tree_model::child_ok(spans, s, q, i, c));
                        lemma_fences(q, s, i, i + 1);
                        if s.level == level {
                            // only `p` covers the keys around the old one
                            assert(spans[p].has(old as int) && spans[p].has(old - 1));
                        }
                    }
                }
                lemma_frame(root, spans, root, spans2, id, q);
            } else {
                lemma_moved_node(root, spans, level, old, new, id, q);
            }
        }
    }
    assert(tree_model::apart(spans2)) by {
        assert forall|x: u64, y: u64|
            #![trigger spans2.contains_key(x), spans2.contains_key(y)]
            spans2.contains_key(x) && spans2.contains_key(y) && x != y && spans2[x].level
                == spans2[y].level implies spans2[x].hi <= spans2[y].lo || spans2[y].hi
            <= spans2[x].lo by {
            assert(spans.contains_key(x) && spans.contains_key(y));
            if spans[x].level < level {
                let z = lemma_below(nodes, root, spans, below, old, spans[x].level);
                assert(spans.contains_key(z));
            }
        }
    }
    // the keys
    assert forall|key: u64| #[trigger]
        tree_model::value(nodes2, root, key) == tree_model::value(nodes, root, key) by {
        let l2 = tree_model::lemma_leaf(nodes2, root, spans2, root, key);
        tree_model::lemma_value(nodes2, root, spans2, key, l2);
        assert(spans.contains_key(l2));
        if old <= key < new {
            tree_model::lemma_value(nodes, root, spans, key, leaf);
            tree_model::lemma_find(nodes[leaf as int].cells, key);
            tree_model::lemma_find(nodes[l2 as int].cells, key);
            assert(l2 != leaf) by {
                assert(spans[leaf].lo == old);
            }
        } else {
            tree_model::lemma_value(nodes, root, spans, key, l2);
        }
    }
}

/// A node below a moved fence stays as it should be.
proof fn lemma_moved_node(
    root: u64,
    spans: Map<u64, Span>,
    level: nat,
    old: u64,
    new: u64,
    id: u64,
    n: Node,
)
    requires
        tree_model::node_ok(root, spans, id, n),
        spans.contains_key(id),
        spans[id].level < level,
        old < new,
        forall|x: u64| #[trigger]
            spans.contains_key(x) && spans[x].level < level && spans[x].has(old as int)
                ==> spans[x].lo == old && new < spans[x].hi,
        spans[id].level == 0 && spans[id].has(old as int) ==> forall|i: int|
            0 <= i < n.cells.len() ==> (#[trigger] n.cells[i]).0 >= new,
        new <= u64::MAX,
    ensures
        tree_model::node_ok(root, moved_spans(spans, level, old, new), id, n),
{
    let s = spans[id];
    let spans2 = moved_spans(spans, level, old, new);
    let s2 = spans2[id];
    if s.level > 0 {
        if s.lo == old {
            let c = tree_model::child(n, 0);
            assert(tree_model::child_ok(spans, s, n, 0, c));
            lemma_fences(n, s, 0, 1);
            assert(spans.contains_key(c) && spans[c].level < level && spans[c].has(old as int));
            assert(new < tree_model::fence(n, s, 1));
            assert forall|i: int| 0 <= i < n.cells.len() implies s2.lo < (
            #[trigger] n.cells[i]).0 < s2.hi by {
                if i > 0 {
                    assert(n.cells[0].0 < n.cells[i].0);
                }
            }
        } else {
            assert(!s.has(old as int)) by {
                if s.has(old as int) {
                    assert(spans.contains_key(id));
                }
            }
        }
        assert forall|i: int| 0 <= i <= n.cells.len() implies tree_model::child_ok(
            spans2,
            s2,
            n,
            i,
            #[trigger] tree_model::child(n, i),
        ) by {
            let c = tree_model::child(n, i);
            assert(tree_model::child_ok(spans, s, n, i, c));
            lemma_fences(n, s, i, i + 1);
            if i > 0 {
                lemma_fences(n, s, 0, i);
            }
            if i < n.cells.len() {
                lemma_fences(n, s, i + 1, n.cells.len() as int + 1);
            }
        }
    }
}

/// The leaves other than `a` and `b` point at the same leaves as before.
pub open spec fn same_links(
    nodes: Seq<Node>,
    spans: Map<u64, Span>,
    a: u64,
    b: u64,
    nodes2: Seq<Node>,
) -> bool {
    forall|id: u64| #[trigger]
        spans.contains_key(id) && spans[id].level == 0 && id != a && id != b ==> nodes2[id as int].ptr
            == nodes[id as int].ptr
}

/// The leaves stay chained when none of them points elsewhere.
pub proof fn lemma_chain_same(nodes: Seq<Node>, spans: Map<u64, Span>, nodes2: Seq<Node>)
    requires
        tree_model::chained(nodes, spans),
        forall|id: u64| #[trigger]
            spans.contains_key(id) && spans[id].level == 0 ==> nodes2[id as int].ptr
                == nodes[id as int].ptr,
    ensures
        tree_model::chained(nodes2, spans),
        forall|id: u64| spans[id].level > 0 ==> #[trigger] tree_model::chained(
            nodes2,
            spans.remove(id),
        ),
{
    reveal(tree_model::chained);
    assert forall|x: u64| spans[x].level > 0 implies #[trigger] tree_model::chained(
        nodes2,
        spans.remove(x),
    ) by {
        let spans2 = spans.remove(x);
        assert forall|id: u64| #[trigger]
            spans2.contains_key(id) && spans2[id].level == 0 && spans2[id].hi
                < tree_model::key_end() implies tree_model::follows(
            spans2,
            id,
            nodes2[id as int].ptr,
        ) by {
            assert(spans.contains_key(id));
            assert(tree_model::follows(spans, id, nodes[id as int].ptr));
        }
    }
}

/// A new node above the leaves changes nothing about them.
pub proof fn lemma_chain_root(nodes: Seq<Node>, spans: Map<u64, Span>, id: u64, s: Span)
    requires
        tree_model::chained(nodes, spans),
        !spans.contains_key(id),
        s.level > 0 || s.hi == tree_model::key_end(),
    ensures
        tree_model::chained(nodes, spans.insert(id, s)),
{
    reveal(tree_model::chained);
    let spans2 = spans.insert(id, s);
    assert forall|x: u64| #[trigger]
        spans2.contains_key(x) && spans2[x].level == 0 && spans2[x].hi
            < tree_model::key_end() implies tree_model::follows(
        spans2,
        x,
        nodes[x as int].ptr,
    ) by {
        assert(spans.contains_key(x));
        assert(tree_model::follows(spans, x, nodes[x as int].ptr));
    }
}

/// The leaves stay chained when a node is split.
pub proof fn lemma_chain_split(
    nodes: Seq<Node>,
    root: u64,
    spans: Map<u64, Span>,
    x: u64,
    rid: u64,
    m: u64,
    nodes2: Seq<Node>,
)
    requires
        tree_model::tree_ok(nodes, root, spans),
        tree_model::chained(nodes, spans),
        spans.contains_key(x),
        !spans.contains_key(rid),
        spans[x].lo < m < spans[x].hi,
        spans[x].level == 0 ==> nodes2[x as int].ptr == rid && nodes2[rid as int].ptr
            == nodes[x as int].ptr,
        same_links(nodes, spans, x, rid, nodes2),
    ensures
        tree_model::chained(nodes2, split_spans(spans, x, rid, m)),
{
    reveal(tree_model::chained);
    let spans2 = split_spans(spans, x, rid, m);
    assert forall|id: u64| #[trigger]
        spans2.contains_key(id) && spans2[id].level == 0 && spans2[id].hi
            < tree_model::key_end() implies tree_model::follows(
        spans2,
        id,
        nodes2[id as int].ptr,
    ) by {
        if id == rid {
            assert(tree_model::follows(spans, x, nodes[x as int].ptr));
        } else if id != x {
            assert(spans.contains_key(id));
            assert(tree_model::follows(spans, id, nodes[id as int].ptr));
        }
    }
}

/// The leaves stay chained when a node is merged into the one before it.
pub proof fn lemma_chain_merge(
    nodes: Seq<Node>,
    root: u64,
    spans: Map<u64, Span>,
    a: u64,
    b: u64,
    nodes2: Seq<Node>,
)
    requires
        tree_model::tree_ok(nodes, root, spans),
        tree_model::chained(nodes, spans),
        spans.contains_key(a),
        spans.contains_key(b),
        a != b,
        spans[a].level == spans[b].level,
        spans[a].hi == spans[b].lo,
        spans[a].level == 0 ==> nodes2[a as int].ptr == nodes[b as int].ptr,
        same_links(nodes, spans, a, b, nodes2),
    ensures
        tree_model::chained(nodes2, merge_spans(spans, a, b)),
{
    reveal(tree_model::chained);
    let spans2 = merge_spans(spans, a, b);
    assert forall|id: u64| #[trigger]
        spans2.contains_key(id) && spans2[id].level == 0 && spans2[id].hi
            < tree_model::key_end() implies tree_model::follows(
        spans2,
        id,
        nodes2[id as int].ptr,
    ) by {
        assert(spans.contains_key(id));
        if id == a {
            assert(tree_model::follows(spans, b, nodes[b as int].ptr));
        } else {
            assert(tree_model::follows(spans, id, nodes[id as int].ptr));
        }
    }
}

/// The leaves stay chained when cells move between two neighbours.
pub proof fn lemma_chain_rebalance(
    nodes: Seq<Node>,
    root: u64,
    spans: Map<u64, Span>,
    a: u64,
    b: u64,
    m: u64,
    nodes2: Seq<Node>,
)
    requires
        tree_model::tree_ok(nodes, root, spans),
        tree_model::chained(nodes, spans),
        spans.contains_key(a),
        spans.contains_key(b),
        a != b,
        spans[a].level == spans[b].level,
        spans[a].hi == spans[b].lo,
        spans[a].lo < m < spans[b].hi,
        spans[a].level == 0 ==> nodes2[a as int].ptr == nodes[a as int].ptr && nodes2[
            b as int
        ].ptr == nodes[b as int].ptr,
        same_links(nodes, spans, a, b, nodes2),
    ensures
        tree_model::chained(nodes2, split_spans(merge_spans(spans, a, b), a, b, m)),
{
    reveal(tree_model::chained);
    let spans2 = split_spans(merge_spans(spans, a, b), a, b, m);
    assert forall|id: u64| #[trigger]
        spans2.contains_key(id) && spans2[id].level == 0 && spans2[id].hi
            < tree_model::key_end() implies tree_model::follows(
        spans2,
        id,
        nodes2[id as int].ptr,
    ) by {
        assert(spans.contains_key(id));
        assert(tree_model::follows(spans, id, nodes[id as int].ptr));
        if id == a {
            let y = nodes[a as int].ptr;
            assert(spans.contains_key(y) && spans.contains_key(b));
            assert(y == b);
        }
    }
}

/// The leaves stay chained when a key that parts two nodes is replaced.
pub proof fn lemma_chain_move(
    nodes: Seq<Node>,
    spans: Map<u64, Span>,
    level: nat,
    old: u64,
    new: u64,
    nodes2: Seq<Node>,
)
    requires
        tree_model::chained(nodes, spans),
        forall|id: u64| #[trigger]
            spans.contains_key(id) && spans[id].level == 0 ==> nodes2[id as int].ptr
                == nodes[id as int].ptr,
    ensures
        tree_model::chained(nodes2, moved_spans(spans, level, old, new)),
{
    reveal(tree_model::chained);
    let spans2 = moved_spans(spans, level, old, new);
    assert forall|id: u64| #[trigger]
        spans2.contains_key(id) && spans2[id].level == 0 && spans2[id].hi
            < tree_model::key_end() implies tree_model::follows(
        spans2,
        id,
        nodes2[id as int].ptr,
    ) by {
        assert(spans.contains_key(id));
        assert(tree_model::follows(spans, id, nodes[id as int].ptr));
    }
}

} // verus!
