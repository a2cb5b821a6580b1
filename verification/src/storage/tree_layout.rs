//! How the nodes of the tree lie after splits, mergers and moved cells.

use super::header::PageKind;
use super::slotted_page;
use super::slotted_page::{Node, ORDER};
use super::tree_model;
use super::tree_paths;
use super::tree_paths::DEGREE;
use super::tree_steps;
use vstd::prelude::*;

verus! {

/// Where a node with that many cells is split.
pub open spec fn split_point(n: nat) -> int {
    (n / 2 + n % 2) as int
}

/// The key that parts the halves of a node.
pub open spec fn split_key(n: Node) -> u64 {
    n.cells[split_point(n.cells.len())].0
}

/// The kind of a node that is not the root.
pub open spec fn lower_kind(leaf: bool) -> PageKind {
    if leaf {
        PageKind::Leaf
    } else {
        PageKind::Internal
    }
}

/// The left half of a node, which is page `id`. A leaf points at the right half,
/// page `right`; the last child of an internal node is that of the cell that goes up.
pub open spec fn left_half(n: Node, id: u64, right: u64) -> Node {
    let s = split_point(n.cells.len());
    Node {
        id,
        kind: lower_kind(n.leaf_level()),
        flags: 0,
        ptr: if n.leaf_level() {
            right
        } else {
            n.cells[s].1
        },
        cells: n.cells.take(s),
    }
}

/// The right half of a node, which is page `right`. A leaf keeps the cell that
/// parts the halves, an internal node gives it up.
pub open spec fn right_half(n: Node, right: u64) -> Node {
    let s = split_point(n.cells.len());
    Node {
        id: right,
        kind: lower_kind(n.leaf_level()),
        flags: 0,
        ptr: n.ptr,
        cells: if n.leaf_level() {
            n.cells.skip(s)
        } else {
            n.cells.skip(s + 1)
        },
    }
}

/// The parent, which is page `id`, after its child `left` was split at `key`: a new
/// cell points at the left half, and what pointed at the child at the right half.
pub open spec fn attached(p: Node, id: u64, key: u64, left: u64, right: u64) -> Node {
    Node {
        id,
        flags: 0,
        cells: slotted_page::with_cell(
            tree_steps::redirect(p.cells, left, right),
            key,
            left,
        ),
        ptr: if p.ptr == left {
            right
        } else {
            p.ptr
        },
        ..p
    }
}

/// The outcome of a split: the nodes, the new root if there is one, and what is
/// left of the path.
#[verifier::ext_equal]
pub struct Splits {
    pub nodes: Seq<Node>,
    pub new_root: Option<u64>,
    pub path: Seq<u64>,
}

/// The last node of a path is split, and the nodes above it as far as they are full
/// then. The right half is a new page; above two halves of the root comes another.
pub open spec fn split_up(nodes: Seq<Node>, path: Seq<u64>) -> Splits
    decreases path.len(),
{
    let x = path.last();
    let n = nodes[x as int];
    let right = nodes.len() as u64;
    let halved = nodes.update(x as int, left_half(n, x, right)).push(right_half(n, right));
    if path.len() <= 1 {
        let id = (right + 1) as u64;
        Splits {
            nodes: halved.push(
                Node {
                    id,
                    kind: PageKind::Root,
                    flags: 0,
                    ptr: right,
                    cells: seq![(split_key(n), x)],
                },
            ),
            new_root: Some(id),
            path: Seq::empty(),
        }
    } else {
        let p = path[path.len() - 2];
        let np = attached(nodes[p as int], p, split_key(n), x, right);
        let above = halved.update(p as int, np);
        if np.cells.len() >= ORDER {
            split_up(above, path.drop_last())
        } else {
            Splits { nodes: above, new_root: None, path: path.drop_last() }
        }
    }
}

/// Two neighbours `a` and `b` with other cells, and the key that parts them.
#[verifier::ext_equal]
pub struct Shift {
    pub a: Node,
    pub b: Node,
    pub key: u64,
}

/// The neighbours after the last cell of `a` went to `b`, which is page `b_id`. Of
/// leaves it is the cell itself that goes, and its key parts them. Of internal pages
/// the key goes up and the key `sep` that parted them comes down: it takes the last
/// child of `a` along, and the child of the cell becomes the last one of `a`.
pub open spec fn shift_right(na: Node, nb: Node, sep: u64, b_id: u64) -> Shift {
    let cell = na.cells.last();
    if na.leaf_level() {
        Shift {
            a: Node { flags: 0, cells: na.cells.drop_last(), ..na },
            b: Node { cells: seq![cell] + nb.cells, ..nb },
            key: cell.0,
        }
    } else {
        Shift {
            a: Node { flags: 0, cells: na.cells.drop_last(), ptr: cell.1, ..na },
            b: Node { id: b_id, flags: 0, cells: seq![(sep, na.ptr)] + nb.cells, ..nb },
            key: cell.0,
        }
    }
}

/// The neighbours after the first cell of `b` went to `a`. Of leaves it is the cell
/// itself that goes, and the key that is the first of `b` now parts them. Of internal
/// pages the key goes up and the key `sep` that parted them comes down: it takes the
/// last child of `a` along, and the child of the cell becomes the last one of `a`.
pub open spec fn shift_left(na: Node, nb: Node, sep: u64) -> Shift {
    let cell = nb.cells[0];
    let b = Node { flags: 0, cells: nb.cells.skip(1), ..nb };
    if na.leaf_level() {
        Shift { a: Node { cells: na.cells.push(cell), ..na }, b, key: nb.cells[1].0 }
    } else {
        Shift {
            a: Node { cells: na.cells.push((sep, na.ptr)), ptr: cell.1, ..na },
            b,
            key: cell.0,
        }
    }
}

/// The nodes with two neighbours `a` and `b` replaced, and the key of cell `i` of
/// their parent `p`, which parts them.
pub open spec fn shifted(nodes: Seq<Node>, p: u64, i: int, a: u64, b: u64, s: Shift) -> Seq<Node> {
    let np = nodes[p as int];
    nodes.update(a as int, s.a).update(b as int, s.b).update(
        p as int,
        Node { flags: 0, cells: np.cells.update(i, (s.key, a)), ..np },
    )
}

/// The nodes after the last cell of `a` went to its right neighbour `b`.
pub open spec fn from_left(nodes: Seq<Node>, p: u64, i: int, a: u64, b: u64) -> Seq<Node> {
    shifted(
        nodes,
        p,
        i,
        a,
        b,
        shift_right(nodes[a as int], nodes[b as int], nodes[p as int].cells[i].0, b),
    )
}

/// The nodes after the first cell of `b` went to its left neighbour `a`.
pub open spec fn from_right(nodes: Seq<Node>, p: u64, i: int, a: u64, b: u64) -> Seq<Node> {
    shifted(
        nodes,
        p,
        i,
        a,
        b,
        shift_left(nodes[a as int], nodes[b as int], nodes[p as int].cells[i].0),
    )
}

/// The cells of two neighbours that cell `i` of their parent `p` parts.
pub open spec fn both(nodes: Seq<Node>, p: u64, i: int, a: u64, b: u64) -> Seq<(u64, u64)> {
    tree_steps::joined(nodes[a as int], nodes[b as int], nodes[p as int].cells[i].0)
}

/// The nodes after `b` was merged into its left neighbour `a`: `a` has the cells of
/// both and points where `b` did, and their parent `p` lost the cell that parted
/// them and points at `a` where it pointed at `b`.
pub open spec fn merged(nodes: Seq<Node>, p: u64, i: int, a: u64, b: u64) -> Seq<Node> {
    let np = nodes[p as int];
    let na = nodes[a as int];
    nodes.update(
        a as int,
        Node {
            id: a,
            kind: lower_kind(na.leaf_level()),
            flags: 0,
            ptr: nodes[b as int].ptr,
            cells: both(nodes, p, i, a, b),
        },
    ).update(
        p as int,
        Node {
            id: p,
            flags: 0,
            ptr: if np.ptr == b {
                a
            } else {
                np.ptr
            },
            cells: tree_steps::redirect(np.cells.remove(i), b, a),
            ..np
        },
    )
}

/// A node that becomes the root; a leaf becomes a root leaf.
pub open spec fn rooted(n: Node) -> Node {
    Node {
        kind: PageKind::Root,
        flags: if n.leaf_level() {
            n.flags | 0x01
        } else {
            n.flags
        },
        ..n
    }
}

/// The outcome of a refill: the nodes, the root, and what is left of the path.
#[verifier::ext_equal]
pub struct Refill {
    pub nodes: Seq<Node>,
    pub root: u64,
    pub path: Seq<u64>,
}

/// The last node of a path, which has too few cells, is brought back to size. It
/// gets a cell of a neighbour that has cells to spare, the left one first. Otherwise it
/// is merged with its left neighbour, or with its right one where it has no other;
/// but where that would fill a page it gets a cell of that neighbour all the same.
pub open spec fn refill(nodes: Seq<Node>, root: u64, path: Seq<u64>) -> Refill
    decreases path.len(), 0nat,
{
    let above = path.drop_last();
    if path.len() <= 1 {
        Refill { nodes, root, path: above }
    } else {
        let u = path.last();
        let p = above.last();
        let np = nodes[p as int];
        let j = tree_paths::place(np, u);
        let left = tree_model::child(np, j - 1);
        let right = tree_model::child(np, j + 1);
        if j > 0 && nodes[left as int].cells.len() > DEGREE {
            Refill { nodes: from_left(nodes, p, j - 1, left, u), root, path: above }
        } else if j < np.cells.len() && nodes[right as int].cells.len() > DEGREE {
            Refill { nodes: from_right(nodes, p, j, u, right), root, path: above }
        } else if j > 0 {
            if both(nodes, p, j - 1, left, u).len() < ORDER {
                merge_up(nodes, root, above, j - 1, left, u)
            } else {
                Refill { nodes: from_left(nodes, p, j - 1, left, u), root, path: above }
            }
        } else if j < np.cells.len() {
            if both(nodes, p, j, u, right).len() < ORDER {
                merge_up(nodes, root, above, j, u, right)
            } else {
                Refill { nodes: from_right(nodes, p, j, u, right), root, path: above }
            }
        } else {
            Refill { nodes, root, path: above }
        }
    }
}

/// Two neighbours below the last node of a path are merged, and that node is brought
/// back to size.
pub open spec fn merge_up(
    nodes: Seq<Node>,
    root: u64,
    path: Seq<u64>,
    i: int,
    a: u64,
    b: u64,
) -> Refill
    decreases path.len(), 2nat,
{
    parent_up(merged(nodes, path.last(), i, a, b), root, path)
}

/// The last node of a path, which gave up a cell, is brought back to size if it has
/// too few now. A root without cells makes way for its only child.
pub open spec fn parent_up(nodes: Seq<Node>, root: u64, path: Seq<u64>) -> Refill
    decreases path.len(), 1nat,
{
    let p = path.last();
    let np = nodes[p as int];
    if p == root {
        if np.cells.len() == 0 {
            let c = np.ptr;
            Refill { nodes: nodes.update(c as int, rooted(nodes[c as int])), root: c, path }
        } else {
            Refill { nodes, root, path }
        }
    } else if np.cells.len() < DEGREE {
        refill(nodes, root, path)
    } else {
        Refill { nodes, root, path }
    }
}

} // verus!
