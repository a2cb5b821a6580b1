//! What makes index pages a B+ tree, and what the steps of the tree operations
//! do to it.
//!
//! A tree is a sequence of nodes, the pages by their ids, with the id of its
//! root. Each node has a level, 0 for leaves, and covers an interval of keys.

use super::header;
use super::header::PageKind;
use super::slotted_page;
use super::slotted_page::Node;
use vstd::prelude::*;

verus! {

/// One more than the largest key.
pub open spec fn key_end() -> int {
    0x1_0000_0000_0000_0000
}

/// The level of a node, and the keys `lo <= key < hi` that it covers.
pub struct Span {
    pub level: nat,
    pub lo: int,
    pub hi: int,
}

impl Span {
    pub open spec fn has(self, key: int) -> bool {
        self.lo <= key < self.hi
    }
}

/// Child `i` of an internal node; the last one stands in the header.
pub open spec fn child(n: Node, i: int) -> u64 {
    if i < n.cells.len() {
        n.cells[i].1
    } else {
        n.ptr
    }
}

/// Where the keys of child `i` begin and those of child `i - 1` end.
pub open spec fn fence(n: Node, s: Span, i: int) -> int {
    if i <= 0 {
        s.lo
    } else if i <= n.cells.len() {
        n.cells[i - 1].0 as int
    } else {
        s.hi
    }
}

/// The child that a key belongs to.
pub open spec fn route(n: Node, key: u64) -> int {
    let r = slotted_page::rank(n.cells, key);
    if r < n.cells.len() && n.cells[r].0 == key {
        r + 1
    } else {
        r
    }
}

/// The pointer that stands with a key.
pub open spec fn find(cells: Seq<(u64, u64)>, key: u64) -> Option<u64> {
    let r = slotted_page::rank(cells, key);
    if 0 <= r < cells.len() && cells[r].0 == key {
        Some(cells[r].1)
    } else {
        None
    }
}

/// The pointer that the search for a key from node `id` on ends with, within
/// `fuel` steps.
pub open spec fn lookup(nodes: Seq<Node>, id: u64, fuel: nat, key: u64) -> Option<u64>
    decreases fuel,
{
    if id >= nodes.len() {
        None
    } else if nodes[id as int].leaf_level() {
        find(nodes[id as int].cells, key)
    } else if fuel == 0 {
        None
    } else {
        let n = nodes[id as int];
        lookup(nodes, child(n, route(n, key)), (fuel - 1) as nat, key)
    }
}

/// The nodes that the search for a key passes.
pub open spec fn trail(nodes: Seq<Node>, id: u64, fuel: nat, key: u64) -> Seq<u64>
    decreases fuel,
{
    if id >= nodes.len() || nodes[id as int].leaf_level() || fuel == 0 {
        seq![id]
    } else {
        let n = nodes[id as int];
        seq![id] + trail(nodes, child(n, route(n, key)), (fuel - 1) as nat, key)
    }
}

/// The pointer that a tree holds for a key.
pub open spec fn value(nodes: Seq<Node>, root: u64, key: u64) -> Option<u64> {
    lookup(nodes, root, nodes.len(), key)
}

/// The keys of a tree with their pointers.
pub open spec fn content(nodes: Seq<Node>, root: u64) -> Map<u64, u64> {
    Map::new(
        |key: u64| value(nodes, root, key) is Some,
        |key: u64| value(nodes, root, key).unwrap(),
    )
}

/// Node `id` of a tree with the given root and spans can look like `n`.
pub open spec fn node_ok(root: u64, spans: Map<u64, Span>, id: u64, n: Node) -> bool {
    let s = spans[id];
    &&& 0 <= s.lo < s.hi <= key_end()
    &&& slotted_page::sorted(n.cells)
    &&& n.leaf_level() == (s.level == 0)
    &&& s.level > 0 ==> !header::root_leaf_bit(n.flags)
    &&& (n.kind == PageKind::Root) == (id == root)
    &&& s.level == 0 ==> forall|i: int|
        0 <= i < n.cells.len() ==> s.has((#[trigger] n.cells[i]).0 as int)
    &&& s.level > 0 ==> forall|i: int|
        0 <= i < n.cells.len() ==> s.lo < (#[trigger] n.cells[i]).0 < s.hi
    &&& s.level > 0 ==> forall|i: int|
        0 <= i <= n.cells.len() ==> child_ok(spans, s, n, i, #[trigger] child(n, i))
}

/// Child `i` of `n`, which has span `s`, has the level and the keys that are
/// expected of it.
pub open spec fn child_ok(spans: Map<u64, Span>, s: Span, n: Node, i: int, c: u64) -> bool {
    &&& spans.contains_key(c)
    &&& spans[c] == (Span {
        level: (s.level - 1) as nat,
        lo: fence(n, s, i),
        hi: fence(n, s, i + 1),
    })
}

/// Nodes of the same level cover different keys.
pub open spec fn apart(spans: Map<u64, Span>) -> bool {
    forall|a: u64, b: u64|
        #![trigger spans.contains_key(a), spans.contains_key(b)]
        spans.contains_key(a) && spans.contains_key(b) && a != b && spans[a].level
            == spans[b].level ==> spans[a].hi <= spans[b].lo || spans[b].hi <= spans[a].lo
}

/// The nodes with spans are a B+ tree.
pub open spec fn tree_ok(nodes: Seq<Node>, root: u64, spans: Map<u64, Span>) -> bool {
    &&& spans.contains_key(root)
    &&& spans[root].lo == 0
    &&& spans[root].hi == key_end()
    &&& spans[root].level < nodes.len()
    &&& forall|id: u64| #[trigger]
        spans.contains_key(id) ==> id < nodes.len() && spans[id].level <= spans[root].level
            && node_ok(root, spans, id, nodes[id as int])
    &&& apart(spans)
}

/// The leaf `next` covers the keys behind those of leaf `id`.
pub open spec fn follows(spans: Map<u64, Span>, id: u64, next: u64) -> bool {
    &&& spans.contains_key(next)
    &&& spans[next].level == 0
    &&& spans[next].lo == spans[id].hi
}

/// Each leaf but the last points at the leaf that follows it.
#[verifier::opaque]
pub open spec fn chained(nodes: Seq<Node>, spans: Map<u64, Span>) -> bool {
    forall|id: u64| #[trigger]
        spans.contains_key(id) && spans[id].level == 0 && spans[id].hi < key_end() ==> follows(
            spans,
            id,
            nodes[id as int].ptr,
        )
}

/// The search for a key in an internal node finds the child that covers it.
pub proof fn lemma_route(n: Node, s: Span, key: u64)
    requires
        slotted_page::sorted(n.cells),
        s.has(key as int),
        forall|i: int| 0 <= i < n.cells.len() ==> s.lo < (#[trigger] n.cells[i]).0 < s.hi,
    ensures
        0 <= route(n, key) <= n.cells.len(),
        fence(n, s, route(n, key)) <= key < fence(n, s, route(n, key) + 1),
{
    slotted_page::lemma_rank(n.cells, key);
    let r = slotted_page::rank(n.cells, key);
    if r < n.cells.len() && n.cells[r].0 == key {
        if r + 1 < n.cells.len() {
            assert(n.cells[r].0 < n.cells[r + 1].0);
        }
    } else {
        if r < n.cells.len() {
            assert(n.cells[r].0 >= key);
        }
        if r > 0 {
            assert(n.cells[r - 1].0 < key);
        }
    }
}

/// The two descriptions of a key's pointer agree.
pub proof fn lemma_find(cells: Seq<(u64, u64)>, key: u64)
    requires
        slotted_page::sorted(cells),
    ensures
        find(cells, key) is Some <==> exists|i: int|
            0 <= i < cells.len() && (#[trigger] cells[i]).0 == key,
        forall|i: int|
            0 <= i < cells.len() && (#[trigger] cells[i]).0 == key ==> find(cells, key) == Some(
                cells[i].1,
            ),
{
    slotted_page::lemma_rank(cells, key);
    let r = slotted_page::rank(cells, key);
    assert forall|i: int| 0 <= i < cells.len() && (#[trigger] cells[i]).0 == key implies find(
        cells,
        key,
    ) == Some(cells[i].1) by {
        if i < r {
        } else if r < i {
            assert(cells[r].0 < cells[i].0);
        }
    }
}

/// Cells that agree on a key give the same pointer for it.
pub proof fn lemma_find_same(a: Seq<(u64, u64)>, b: Seq<(u64, u64)>, key: u64)
    requires
        slotted_page::sorted(a),
        slotted_page::sorted(b),
        forall|i: int|
            0 <= i < a.len() && (#[trigger] a[i]).0 == key ==> exists|j: int|
                0 <= j < b.len() && #[trigger] b[j] == a[i],
        forall|i: int|
            0 <= i < b.len() && (#[trigger] b[i]).0 == key ==> exists|j: int|
                0 <= j < a.len() && #[trigger] a[j] == b[i],
    ensures
        find(a, key) == find(b, key),
{
    lemma_find(a, key);
    lemma_find(b, key);
    if find(a, key) is Some {
        let i = choose|i: int| 0 <= i < a.len() && (#[trigger] a[i]).0 == key;
        let j = choose|j: int| 0 <= j < b.len() && #[trigger] b[j] == a[i];
        assert(b[j].0 == key);
    } else if find(b, key) is Some {
        let i = choose|i: int| 0 <= i < b.len() && (#[trigger] b[i]).0 == key;
        let j = choose|j: int| 0 <= j < a.len() && #[trigger] a[j] == b[i];
        assert(a[j].0 == key);
    }
}

/// The leaf below a node that covers a key.
pub proof fn lemma_leaf(
    nodes: Seq<Node>,
    root: u64,
    spans: Map<u64, Span>,
    id: u64,
    key: u64,
) -> (leaf: u64)
    requires
        tree_ok(nodes, root, spans),
        spans.contains_key(id),
        spans[id].has(key as int),
    ensures
        spans.contains_key(leaf),
        spans[leaf].level == 0,
        spans[leaf].has(key as int),
    decreases spans[id].level,
{
    if spans[id].level == 0 {
        id
    } else {
        let n = nodes[id as int];
        lemma_route(n, spans[id], key);
        let c = child(n, route(n, key));
        assert(child_ok(spans, spans[id], n, route(n, key), c));
        lemma_leaf(nodes, root, spans, c, key)
    }
}

/// The search from a node that covers the key ends in the leaf that does.
pub proof fn lemma_lookup(
    nodes: Seq<Node>,
    root: u64,
    spans: Map<u64, Span>,
    id: u64,
    fuel: nat,
    key: u64,
    leaf: u64,
)
    requires
        tree_ok(nodes, root, spans),
        spans.contains_key(id),
        spans[id].has(key as int),
        spans[id].level <= fuel,
        spans.contains_key(leaf),
        spans[leaf].level == 0,
        spans[leaf].has(key as int),
    ensures
        lookup(nodes, id, fuel, key) == find(nodes[leaf as int].cells, key),
    decreases fuel,
{
    if spans[id].level == 0 {
        assert(id == leaf);
    } else {
        let n = nodes[id as int];
        lemma_route(n, spans[id], key);
        let c = child(n, route(n, key));
        assert(child_ok(spans, spans[id], n, route(n, key), c));
        lemma_lookup(nodes, root, spans, c, (fuel - 1) as nat, key, leaf);
    }
}

/// What the tree holds for a key stands in the leaf that covers it.
pub proof fn lemma_value(
    nodes: Seq<Node>,
    root: u64,
    spans: Map<u64, Span>,
    key: u64,
    leaf: u64,
)
    requires
        tree_ok(nodes, root, spans),
        spans.contains_key(leaf),
        spans[leaf].level == 0,
        spans[leaf].has(key as int),
    ensures
        value(nodes, root, key) == find(nodes[leaf as int].cells, key),
{
    lemma_lookup(nodes, root, spans, root, nodes.len(), key, leaf);
}

} // verus!
