//! Laws of the steps that keep the nodes of the tree at their size.

use super::bplus_tree;
use super::bplus_tree::BplusTree;
use super::error::StorageError;
use super::header::PageKind;
use super::heap;
use super::slotted_page;
use super::slotted_page::Node;
use super::tree_layout;
use super::tree_model;
use super::tree_paths;
use super::tree_steps;
use vstd::prelude::*;

verus! {

/// The children of a node from left to right.
pub open spec fn children(n: Node) -> Seq<u64> {
    Seq::new(n.cells.len() + 1, |i: int| tree_model::child(n, i))
}

/// The keys of a node from left to right.
pub open spec fn keys(n: Node) -> Seq<u64> {
    Seq::new(n.cells.len(), |i: int| n.cells[i].0)
}

/// The halves of a leaf: together they have its cells, and the left one at most one more
/// than the right one. The left one points at the right one, which points where the leaf
/// did. The first key of the right one goes up.
pub proof fn lemma_leaf_halves(n: Node, id: u64, right: u64)
    requires
        n.leaf_level(),
        n.cells.len() >= 2,
    ensures
        ({
            let a = tree_layout::left_half(n, id, right);
            let b = tree_layout::right_half(n, right);
            &&& a.cells + b.cells == n.cells
            &&& b.cells.len() <= a.cells.len() <= b.cells.len() + 1
            &&& a.id == id && b.id == right
            &&& a.kind is Leaf && b.kind is Leaf
            &&& a.flags == 0 && b.flags == 0
            &&& a.ptr == right && b.ptr == n.ptr
            &&& tree_layout::split_key(n) == b.cells[0].0
        }),
{
    let a = tree_layout::left_half(n, id, right);
    let b = tree_layout::right_half(n, right);
    assert(a.cells + b.cells =~= n.cells);
}

/// The halves of an internal node: the key between them goes up, and together they have
/// its other keys and all its children.
pub proof fn lemma_internal_halves(n: Node, id: u64, right: u64)
    requires
        !n.leaf_level(),
        n.cells.len() >= 2,
    ensures
        ({
            let a = tree_layout::left_half(n, id, right);
            let b = tree_layout::right_half(n, right);
            &&& keys(a).push(tree_layout::split_key(n)) + keys(b) == keys(n)
            &&& children(a) + children(b) == children(n)
            &&& b.cells.len() <= a.cells.len() <= b.cells.len() + 2
            &&& a.id == id && b.id == right
            &&& a.kind is Internal && b.kind is Internal
            &&& a.flags == 0 && b.flags == 0
        }),
{
    let a = tree_layout::left_half(n, id, right);
    let b = tree_layout::right_half(n, right);
    let s = tree_layout::split_point(n.cells.len());
    assert(a.cells.len() == s && b.cells.len() == n.cells.len() - s - 1);
    assert(keys(a).push(tree_layout::split_key(n)) + keys(b) =~= keys(n)) by {
        assert forall|i: int| s < i < n.cells.len() implies keys(b)[i - s - 1] == n.cells[i].0 by {
            assert(b.cells[i - s - 1] == n.cells[i]);
        }
    }
    assert(children(a) + children(b) =~= children(n)) by {
        assert forall|i: int| s < i <= n.cells.len() implies children(b)[i - s - 1]
            == tree_model::child(n, i) by {
            if i < n.cells.len() {
                assert(b.cells[i - s - 1] == n.cells[i]);
            }
        }
    }
}

/// A parent whose child was split: the key stands where the child stood, the left half to
/// the left of it and the right half to the right. All other keys and children stay.
pub proof fn lemma_attached(p: Node, id: u64, key: u64, left: u64, right: u64, j: int)
    requires
        slotted_page::sorted(p.cells),
        0 <= j <= p.cells.len(),
        tree_model::child(p, j) == left,
        forall|i: int|
            0 <= i <= p.cells.len() && i != j ==> #[trigger] tree_model::child(p, i) != left,
        forall|i: int| 0 <= i < j ==> (#[trigger] p.cells[i]).0 < key,
        forall|i: int| j <= i < p.cells.len() ==> key < (#[trigger] p.cells[i]).0,
    ensures
        ({
            let q = tree_layout::attached(p, id, key, left, right);
            &&& keys(q) == keys(p).insert(j, key)
            &&& children(q) == children(p).insert(j + 1, right)
            &&& q.kind == p.kind
            &&& q.flags == 0
            &&& q.id == id
        }),
{
    let q = tree_layout::attached(p, id, key, left, right);
    let cells = tree_steps::redirect(p.cells, left, right);
    assert(slotted_page::sorted(cells)) by {
        assert forall|x: int, y: int| 0 <= x < y < cells.len() implies (#[trigger] cells[x]).0 < (
        #[trigger] cells[y]).0 by {
            assert(p.cells[x].0 < p.cells[y].0);
        }
    }
    slotted_page::lemma_rank(cells, key);
    let r = slotted_page::rank(cells, key);
    if r < j {
        assert(p.cells[r].0 < key);
        assert(cells[r].0 >= key);
    }
    if j < r {
        assert(cells[j].0 < key);
        assert(key < p.cells[j].0);
    }
    assert(r == j);
    assert forall|i: int| 0 <= i < p.cells.len() && i != j implies (#[trigger] cells[i])
        == p.cells[i] by {
        assert(tree_model::child(p, i) != left);
    }
    assert(tree_model::child(p, p.cells.len() as int) == p.ptr);
    assert(keys(q) =~= keys(p).insert(j, key));
    assert(children(q) =~= children(p).insert(j + 1, right)) by {
        assert forall|i: int| 0 <= i < children(q).len() implies children(q)[i] == children(
            p,
        ).insert(j + 1, right)[i] by {
            if i < q.cells.len() {
                assert(q.cells[i] == (if i < j {
                    cells[i]
                } else if i == j {
                    (key, left)
                } else {
                    cells[i - 1]
                }));
                if i < j {
                    assert(cells[i] == p.cells[i]);
                }
            }
        }
    }
}

/// A cell that goes from a leaf to its right neighbour is the last one of the one and the
/// first of the other, and its key parts them then.
pub proof fn lemma_leaf_to_right(a: Node, b: Node, sep: u64, b_id: u64)
    requires
        a.leaf_level(),
        a.cells.len() > 0,
    ensures
        ({
            let s = tree_layout::shift_right(a, b, sep, b_id);
            &&& s.a.cells.push(s.b.cells[0]) == a.cells
            &&& s.b.cells.skip(1) == b.cells
            &&& s.b.cells.len() == b.cells.len() + 1
            &&& s.key == s.b.cells[0].0
            &&& s.a.ptr == a.ptr && s.b.ptr == b.ptr
            &&& s.a.id == a.id && s.b.id == b.id
            &&& s.a.kind == a.kind && s.b.kind == b.kind
        }),
{
    let s = tree_layout::shift_right(a, b, sep, b_id);
    assert(s.a.cells.push(s.b.cells[0]) =~= a.cells);
    assert(s.b.cells.skip(1) =~= b.cells);
}

/// A child that goes from a node to its right neighbour: the children stay in their
/// order, and so do the keys with the one that parts the nodes.
pub proof fn lemma_child_to_right(a: Node, b: Node, sep: u64, b_id: u64)
    requires
        !a.leaf_level(),
        a.cells.len() > 0,
    ensures
        ({
            let s = tree_layout::shift_right(a, b, sep, b_id);
            &&& children(s.a) + children(s.b) == children(a) + children(b)
            &&& keys(s.a).push(s.key) + keys(s.b) == keys(a).push(sep) + keys(b)
            &&& s.a.cells.len() == a.cells.len() - 1
            &&& s.b.cells.len() == b.cells.len() + 1
            &&& s.a.kind == a.kind && s.b.kind == b.kind
            &&& s.a.id == a.id && s.b.id == b_id
        }),
{
    let s = tree_layout::shift_right(a, b, sep, b_id);
    let n = a.cells.len() as int;
    assert(s.b.cells[0] == (sep, a.ptr));
    assert(children(s.a) + children(s.b) =~= children(a) + children(b)) by {
        assert forall|i: int| 0 <= i < children(s.b).len() implies children(s.b)[i] == (if i == 0 {
            a.ptr
        } else {
            children(b)[i - 1]
        }) by {
            if 0 < i < s.b.cells.len() {
                assert(s.b.cells[i] == b.cells[i - 1]);
            }
        }
    }
    assert(keys(s.a).push(s.key) + keys(s.b) =~= keys(a).push(sep) + keys(b)) by {
        assert forall|i: int| 0 < i < s.b.cells.len() implies keys(s.b)[i] == keys(b)[i - 1] by {
            assert(s.b.cells[i] == b.cells[i - 1]);
        }
    }
}

/// A cell that goes from a leaf to its left neighbour is the first one of the one and the
/// last of the other; the key that is the first of the leaf then parts them.
pub proof fn lemma_leaf_to_left(a: Node, b: Node, sep: u64)
    requires
        a.leaf_level(),
        b.cells.len() > 1,
    ensures
        ({
            let s = tree_layout::shift_left(a, b, sep);
            &&& s.a.cells == a.cells.push(b.cells[0])
            &&& seq![b.cells[0]] + s.b.cells == b.cells
            &&& s.key == s.b.cells[0].0
            &&& s.a.ptr == a.ptr && s.b.ptr == b.ptr
            &&& s.a.id == a.id && s.b.id == b.id
            &&& s.a.kind == a.kind && s.b.kind == b.kind
        }),
{
    let s = tree_layout::shift_left(a, b, sep);
    assert(seq![b.cells[0]] + s.b.cells =~= b.cells);
}

/// A child that goes from a node to its left neighbour: the children stay in their
/// order, and so do the keys with the one that parts the nodes.
pub proof fn lemma_child_to_left(a: Node, b: Node, sep: u64)
    requires
        !a.leaf_level(),
        b.cells.len() > 0,
    ensures
        ({
            let s = tree_layout::shift_left(a, b, sep);
            &&& children(s.a) + children(s.b) == children(a) + children(b)
            &&& keys(s.a).push(s.key) + keys(s.b) == keys(a).push(sep) + keys(b)
            &&& s.a.cells.len() == a.cells.len() + 1
            &&& s.b.cells.len() == b.cells.len() - 1
            &&& s.a.kind == a.kind && s.b.kind == b.kind
            &&& s.a.id == a.id && s.b.id == b.id
        }),
{
    let s = tree_layout::shift_left(a, b, sep);
    assert(children(s.a) + children(s.b) =~= children(a) + children(b)) by {
        assert forall|i: int| 0 <= i < children(s.b).len() implies children(s.b)[i]
            == children(b)[i + 1] by {
            if i < s.b.cells.len() {
                assert(s.b.cells[i] == b.cells[i + 1]);
            }
        }
        assert forall|i: int| 0 <= i < children(s.a).len() implies children(s.a)[i] == (if i
            < children(a).len() {
            children(a)[i]
        } else {
            children(b)[0]
        }) by {
            if i < a.cells.len() {
                assert(s.a.cells[i] == a.cells[i]);
            }
        }
    }
    assert(keys(s.a).push(s.key) + keys(s.b) =~= keys(a).push(sep) + keys(b)) by {
        assert forall|i: int| 0 <= i < s.b.cells.len() implies keys(s.b)[i] == keys(b)[i + 1] by {
            assert(s.b.cells[i] == b.cells[i + 1]);
        }
    }
}

/// Merged leaves have the cells of both; merged nodes have the children of both, and
/// their keys with the one that parted them.
pub proof fn lemma_joined(a: Node, b: Node, sep: u64)
    ensures
        a.leaf_level() ==> tree_steps::joined(a, b, sep) == a.cells + b.cells,
        !a.leaf_level() ==> {
            let n = Node { cells: tree_steps::joined(a, b, sep), ptr: b.ptr, ..a };
            children(n) == children(a) + children(b) && keys(n) == keys(a).push(sep) + keys(b)
        },
{
    if !a.leaf_level() {
        let n = Node { cells: tree_steps::joined(a, b, sep), ptr: b.ptr, ..a };
        let m = a.cells.len() as int;
        assert(children(n) =~= children(a) + children(b)) by {
            assert forall|i: int| m < i <= n.cells.len() implies children(n)[i] == children(b)[i - m
                - 1] by {
                if i < n.cells.len() {
                    assert(n.cells[i] == b.cells[i - m - 1]);
                }
            }
        }
        assert(keys(n) =~= keys(a).push(sep) + keys(b));
    }
}

/// What is changed when two neighbours are merged: the left one has the cells of both and
/// points where the right one did, their parent loses the key between them and the right
/// child, and no other node changes.
pub proof fn lemma_merged(nodes: Seq<Node>, p: u64, i: int, a: u64, b: u64)
    requires
        p < nodes.len(),
        a < nodes.len(),
        b < nodes.len(),
        p != a && p != b && a != b,
        0 <= i < nodes[p as int].cells.len(),
        tree_model::child(nodes[p as int], i) == a,
        tree_model::child(nodes[p as int], i + 1) == b,
        forall|j: int|
            0 <= j <= nodes[p as int].cells.len() && j != i + 1 ==> #[trigger] tree_model::child(
                nodes[p as int],
                j,
            ) != b,
    ensures
        ({
            let now = tree_layout::merged(nodes, p, i, a, b);
            let np = nodes[p as int];
            let sep = np.cells[i].0;
            &&& now.len() == nodes.len()
            &&& now[a as int].cells == tree_steps::joined(nodes[a as int], nodes[b as int], sep)
            &&& now[a as int].ptr == nodes[b as int].ptr
            &&& now[a as int].id == a && now[a as int].flags == 0
            &&& now[a as int].kind == (if nodes[a as int].leaf_level() {
                PageKind::Leaf
            } else {
                PageKind::Internal
            })
            &&& keys(now[p as int]) == keys(np).remove(i)
            &&& children(now[p as int]) == children(np).remove(i + 1)
            &&& now[p as int].kind == np.kind
            &&& forall|x: int|
                0 <= x < nodes.len() && x != a && x != p ==> #[trigger] now[x] == nodes[x]
        }),
{
    let now = tree_layout::merged(nodes, p, i, a, b);
    let np = nodes[p as int];
    let q = now[p as int];
    let fewer = np.cells.remove(i);
    assert forall|j: int| 0 <= j < fewer.len() implies (#[trigger] q.cells[j]) == (
        fewer[j].0,
        if fewer[j].1 == b {
            a
        } else {
            fewer[j].1
        },
    ) by {}
    assert(keys(q) =~= keys(np).remove(i));
    assert(tree_model::child(np, np.cells.len() as int) == np.ptr);
    assert(children(q) =~= children(np).remove(i + 1)) by {
        assert forall|j: int| 0 <= j < children(q).len() implies children(q)[j] == children(
            np,
        ).remove(i + 1)[j] by {
            if j < i {
                assert(tree_model::child(np, j) != b);
                assert(fewer[j] == np.cells[j]);
            } else {
                assert(j > i ==> tree_model::child(np, j + 1) != b);
                if j < fewer.len() {
                    assert(fewer[j] == np.cells[j + 1]);
                }
            }
        }
    }
}

/// Where a node with too few cells gets cells: from its left neighbour if that has more
/// than 102; else from its right one if that has; else it is merged with the left one, or
/// with the right one where there is no left one, unless that would make 203 cells.
pub proof fn lemma_refilled(nodes: Seq<Node>, root: u64, path: Seq<u64>)
    requires
        path.len() >= 2,
    ensures
        ({
            let above = path.drop_last();
            let u = path.last();
            let p = path[path.len() - 2];
            let np = nodes[p as int];
            let j = tree_paths::place(np, u);
            let left = tree_model::child(np, j - 1);
            let right = tree_model::child(np, j + 1);
            let has_left = j > 0;
            let has_right = j < np.cells.len();
            let rich_left = has_left && nodes[left as int].cells.len() > 102;
            let rich_right = has_right && nodes[right as int].cells.len() > 102;
            let room_left = tree_layout::both(nodes, p, j - 1, left, u).len() < 203;
            let room_right = tree_layout::both(nodes, p, j, u, right).len() < 203;
            let r = tree_layout::refill(nodes, root, path);
            &&& rich_left || (has_left && !rich_right && !room_left) ==> r.nodes
                == tree_layout::from_left(nodes, p, j - 1, left, u)
            &&& !rich_left && (rich_right || (!has_left && has_right && !room_right)) ==> r.nodes
                == tree_layout::from_right(nodes, p, j, u, right)
            &&& has_left && !rich_left && !rich_right && room_left ==> r == tree_layout::parent_up(
                tree_layout::merged(nodes, p, j - 1, left, u),
                root,
                above,
            )
            &&& !has_left && has_right && !rich_right && room_right ==> r == tree_layout::parent_up(
                tree_layout::merged(nodes, p, j, u, right),
                root,
                above,
            )
        }),
{
    let above = path.drop_last();
    assert(above.last() == path[path.len() - 2]);
}

/// A parent that lost a cell: the root makes way for its only child when it has no cell
/// left, and stays otherwise; another node is brought back to size when it has less than
/// 102 cells.
pub proof fn lemma_parent_up(nodes: Seq<Node>, root: u64, path: Seq<u64>)
    requires
        path.len() > 0,
    ensures
        ({
            let p = path.last();
            let np = nodes[p as int];
            let r = tree_layout::parent_up(nodes, root, path);
            &&& p == root && np.cells.len() > 0 ==> r.nodes == nodes && r.root == root
            &&& p == root && np.cells.len() == 0 ==> {
                let c = nodes[np.ptr as int];
                &&& r.root == np.ptr
                &&& r.nodes == nodes.update(np.ptr as int, tree_layout::rooted(c))
                &&& tree_layout::rooted(c).kind is Root
                &&& c.leaf_level() ==> tree_layout::rooted(c).leaf_level()
                &&& !c.leaf_level() ==> tree_layout::rooted(c).flags == c.flags
                &&& tree_layout::rooted(c).cells == c.cells
                &&& tree_layout::rooted(c).ptr == c.ptr
                &&& tree_layout::rooted(c).id == c.id
            }
            &&& p != root && np.cells.len() >= 102 ==> r.nodes == nodes && r.root == root
            &&& p != root && np.cells.len() < 102 ==> r == tree_layout::refill(nodes, root, path)
        }),
{
    let c = nodes[nodes[path.last() as int].ptr as int];
    let f = c.flags;
    assert((f | 0x01) & 0x01 == 0x01) by (bit_vector);
}

/// Splitting the last node of a path puts its right half on a new page. Where that node
/// is the root, a new root with one key comes above the halves; else the parent gets the
/// key, and is split too when it has 203 cells then.
pub proof fn lemma_split_up(nodes: Seq<Node>, path: Seq<u64>)
    requires
        path.len() > 0,
        path.last() < nodes.len(),
        nodes.len() + 2 <= u64::MAX,
    ensures
        ({
            let x = path.last();
            let n = nodes[x as int];
            let right = nodes.len() as u64;
            let a = tree_layout::left_half(n, x, right);
            let b = tree_layout::right_half(n, right);
            let s = tree_layout::split_up(nodes, path);
            &&& path.len() == 1 ==> {
                &&& s.new_root == Some((right + 1) as u64)
                &&& s.nodes.len() == nodes.len() + 2
                &&& s.nodes[x as int] == a
                &&& s.nodes[right as int] == b
                &&& s.nodes.last().id == right + 1
                &&& s.nodes.last().kind is Root
                &&& s.nodes.last().flags == 0
                &&& keys(s.nodes.last()) == seq![tree_layout::split_key(n)]
                &&& children(s.nodes.last()) == seq![x, right]
                &&& forall|y: int|
                    0 <= y < nodes.len() && y != x ==> #[trigger] s.nodes[y] == nodes[y]
            }
            &&& path.len() > 1 ==> {
                let p = path[path.len() - 2];
                let np = tree_layout::attached(
                    nodes[p as int],
                    p,
                    tree_layout::split_key(n),
                    x,
                    right,
                );
                let above = nodes.update(x as int, a).push(b).update(p as int, np);
                &&& np.cells.len() < 203 ==> s.nodes == above && s.new_root is None
                &&& np.cells.len() >= 203 ==> s == tree_layout::split_up(above, path.drop_last())
            }
        }),
{
    let s = tree_layout::split_up(nodes, path);
    if path.len() == 1 {
        let n = nodes[path.last() as int];
        assert(keys(s.nodes.last()) =~= seq![tree_layout::split_key(n)]);
        assert(children(s.nodes.last()) =~= seq![path.last(), nodes.len() as u64]);
    }
}

/// What an insert says: it is refused where the tree has the key, or where the records
/// with their slots take up more than 8171 bytes. Else the key has the records, and all
/// other keys have what they had; where it is refused nothing changes.
pub proof fn lemma_insert_told(
    before: BplusTree,
    after: BplusTree,
    key: u64,
    records: Seq<Seq<u8>>,
    r: Result<(), StorageError>,
)
    requires
        bplus_tree::insert_outcome(before, after, key, records, r),
    ensures
        r is Ok <==> !before@.contains_key(key) && slotted_page::records_room(records) <= 8171,
        r == Err::<(), StorageError>(StorageError::KeyExists) <==> before@.contains_key(key),
        r == Err::<(), StorageError>(StorageError::HeapPageOverflow) <==> !before@.contains_key(key)
            && slotted_page::records_room(records) > 8171,
        r is Ok ==> after@.contains_key(key) && after@[key] == records && after@.remove(key)
            == before@,
        r is Err ==> after@ == before@,
{
    if r is Ok {
        assert(after@.remove(key) =~= before@);
    }
}

/// What a tree holds: for each key that a search from the root finds a pointer for, the
/// records of the chain of heap pages that it points at.
pub proof fn lemma_records_found(t: BplusTree, key: u64)
    ensures
        t@.contains_key(key) <==> tree_model::value(t.nodes(), t.root(), key) is Some,
        t@.contains_key(key) ==> t@[key] == heap::records_of(
            t.heap(),
            tree_model::value(t.nodes(), t.root(), key)->0,
        ),
{
}

/// A search ends in the leaf that it is led to, with the pointer that stands there with
/// the key.
pub proof fn lemma_found(cells: Seq<(u64, u64)>, key: u64, p: u64)
    requires
        slotted_page::sorted(cells),
    ensures
        tree_model::find(cells, key) == Some(p) <==> cells.contains((key, p)),
        tree_model::find(cells, key) is None <==> forall|i: int|
            0 <= i < cells.len() ==> (#[trigger] cells[i]).0 != key,
{
    let r = slotted_page::rank(cells, key);
    slotted_page::lemma_rank(cells, key);
    if cells.contains((key, p)) {
        let i = choose|i: int| 0 <= i < cells.len() && cells[i] == (key, p);
        if i < r {
            assert(cells[i].0 < key);
        } else if r < i {
            assert(cells[r].0 < cells[i].0);
        }
    }
    if tree_model::find(cells, key) is None {
        assert forall|i: int| 0 <= i < cells.len() implies (#[trigger] cells[i]).0 != key by {
            if i < r {
                assert(cells[i].0 < key);
            } else if r < i {
                assert(cells[r].0 < cells[i].0);
            }
        }
    }
}

} // verus!
