//! The B+ tree.
//!
//! Internal pages hold keys and child pages: the child of a cell covers the
//! keys below the key of the cell, and the last child stands in the header.
//! Leaves hold keys and the heap pages with their records.

use super::error::StorageError;
use super::file::{PageFile, MAX_PAGES};
use super::header;
use super::header::{IndexHeader, PageKind};
use super::heap;
use super::index::Index;
use super::pager::Pager;
use super::slotted_page;
use super::slotted_page::{Cell, HeapPage, Node, Page, ORDER};
use super::tree_layout;
use super::tree_model;
use super::tree_model::Span;
use super::tree_paths;
use super::tree_paths::DEGREE;
use super::tree_steps;
use super::wal;
use super::wal::Wal;
use vstd::arithmetic::power::{lemma_pow_increases, pow};
use vstd::prelude::*;

verus! {

broadcast use slotted_page::lemma_page_wf;

/// The nodes of index pages.
pub open spec fn nodes_of(pages: Seq<Page>) -> Seq<Node> {
    Seq::new(pages.len(), |i: int| pages[i]@)
}

/// The nodes with spans are well-formed pages that make up a B+ tree.
pub open spec fn grown(pages: Seq<Page>, root: u64, spans: Map<u64, Span>) -> bool {
    &&& tree_model::tree_ok(nodes_of(pages), root, spans)
    &&& tree_model::chained(nodes_of(pages), spans)
    &&& forall|id: u64| #[trigger] spans.contains_key(id) ==> pages[id as int].wf()
}

/// The least number of cells of a page that is not the root.
pub const LEAST: usize = 100;

/// How many cells pages have: fewer than a page takes and at least `least`, but for
/// the page `full`, which may have more, and the page `low`, which may have fewer.
/// The root may have fewer, too: an internal root has a cell at least.
pub struct Sizes {
    pub full: Option<u64>,
    pub low: Option<u64>,
    pub least: nat,
}

impl Sizes {
    /// The sizes in a tree that nothing is being done to.
    pub open spec fn usual() -> Sizes {
        Sizes { full: None, low: None, least: LEAST as nat }
    }

    /// The sizes while page `id` may be full.
    pub open spec fn with_full(self, id: u64) -> Sizes {
        Sizes { full: Some(id), ..self }
    }

    /// The sizes while page `id` may be underfull.
    pub open spec fn with_low(self, id: u64) -> Sizes {
        Sizes { low: Some(id), ..self }
    }

    /// The sizes when no page is underfull.
    pub open spec fn settled(self) -> Sizes {
        Sizes { low: None, ..self }
    }

    /// Whether page `id` has as many cells as it may.
    pub open spec fn admits(self, id: u64, n: Node, root: u64) -> bool {
        &&& self.full == Some(id) || n.cells.len() < ORDER
        &&& self.low == Some(id) || n.cells.len() >= (if id != root {
            self.least
        } else if n.leaf_level() || self.least == 0 {
            0
        } else {
            1
        })
    }
}

/// The pages of a tree have as many cells as they may.
pub open spec fn sized(pages: Seq<Page>, root: u64, spans: Map<u64, Span>, z: Sizes) -> bool {
    forall|id: u64| #[trigger]
        spans.contains_key(id) ==> z.admits(id, pages[id as int]@, root)
}

/// The pages from the root on are a B+ tree with pages of the given sizes.
pub open spec fn planted(pages: Seq<Page>, root: u64, z: Sizes) -> bool {
    exists|spans: Map<u64, Span>| #[trigger]
        grown(pages, root, spans) && sized(pages, root, spans, z)
}

/// The pages from the root on are a B+ tree with pages of the given sizes, and `path`
/// leads through it.
pub open spec fn path_in(pages: Seq<Page>, root: u64, path: Seq<u64>, z: Sizes) -> bool {
    exists|spans: Map<u64, Span>| #[trigger] path_by(pages, root, path, z, spans)
}

pub open spec fn path_by(
    pages: Seq<Page>,
    root: u64,
    path: Seq<u64>,
    z: Sizes,
    spans: Map<u64, Span>,
) -> bool {
    &&& grown(pages, root, spans)
    &&& sized(pages, root, spans, z)
    &&& tree_paths::path_ok(nodes_of(pages), root, spans, path)
}

/// The number of pages that a search passes.
pub open spec fn depth_of(nodes: Seq<Node>, root: u64) -> nat {
    tree_model::trail(nodes, root, nodes.len(), 0).len()
}

/// Every search passes one page of each level.
proof fn lemma_depth(pages: Seq<Page>, root: u64, spans: Map<u64, Span>)
    requires
        grown(pages, root, spans),
    ensures
        depth_of(nodes_of(pages), root) == spans[root].level + 1,
{
    tree_paths::lemma_trail(nodes_of(pages), root, spans, root, pages.len(), 0);
}

/// Every search from the root ends in a leaf, and passes well-formed pages
/// only.
pub open spec fn legible(pages: Seq<Page>, root: u64) -> bool {
    exists|levels: Map<u64, nat>| #[trigger] legible_by(pages, root, levels)
}

pub open spec fn legible_by(pages: Seq<Page>, root: u64, levels: Map<u64, nat>) -> bool {
    &&& tree_paths::levels_ok(nodes_of(pages), levels)
    &&& levels.contains_key(root)
    &&& levels[root] < pages.len()
    &&& forall|id: u64| #[trigger] levels.contains_key(id) ==> pages[id as int].wf()
}

/// The two trees hold the same.
pub open spec fn same_values(pages: Seq<Page>, root: u64, pages2: Seq<Page>, root2: u64) -> bool {
    forall|key: u64| #[trigger]
        tree_model::value(nodes_of(pages2), root2, key) == tree_model::value(
            nodes_of(pages),
            root,
            key,
        )
}

/// A B+ tree can be searched.
proof fn lemma_grown_legible(pages: Seq<Page>, root: u64, spans: Map<u64, Span>)
    requires
        grown(pages, root, spans),
    ensures
        legible(pages, root),
{
    let levels = tree_paths::levels_of(spans);
    tree_paths::lemma_tree_readable(nodes_of(pages), root, spans);
    assert forall|id: u64| #[trigger] levels.contains_key(id) implies pages[id as int].wf() by {
        assert(spans.contains_key(id));
    }
    assert(legible_by(pages, root, levels));
}

/// The nodes after one page was replaced.
proof fn lemma_nodes_update(pages: Seq<Page>, id: int, page: Page)
    requires
        0 <= id < pages.len(),
    ensures
        nodes_of(pages.update(id, page)) == nodes_of(pages).update(id, page@),
{
    assert(nodes_of(pages.update(id, page)) =~= nodes_of(pages).update(id, page@));
}

/// Searches for a key among cells in key order.
fn search(cells: &Vec<Cell>, key: u64) -> (r: Result<usize, usize>)
    requires
        forall|i: int, j: int|
            0 <= i < j < cells@.len() ==> (#[trigger] cells@[i]).key < (#[trigger] cells@[j]).key,
    ensures
        match r {
            Ok(i) => i < cells@.len() && cells@[i as int].key == key,
            Err(i) => {
                &&& i <= cells@.len()
                &&& forall|j: int| 0 <= j < i ==> (#[trigger] cells@[j]).key < key
                &&& forall|j: int| i <= j < cells@.len() ==> (#[trigger] cells@[j]).key > key
            },
        },
{
    let mut lo: usize = 0;
    let mut hi: usize = cells.len();
    while lo < hi
        invariant
            lo <= hi <= cells@.len(),
            forall|i: int, j: int|
                0 <= i < j < cells@.len() ==> (#[trigger] cells@[i]).key < (
                #[trigger] cells@[j]).key,
            forall|j: int| 0 <= j < lo ==> (#[trigger] cells@[j]).key < key,
            forall|j: int| hi <= j < cells@.len() ==> (#[trigger] cells@[j]).key > key,
        decreases hi - lo,
    {
        let mid: usize = lo + (hi - lo) / 2;
        let k: u64 = cells[mid].key;
        if k == key {
            return Ok(mid);
        } else if k < key {
            assert forall|j: int| 0 <= j < mid + 1 implies (#[trigger] cells@[j]).key < key by {
                if j < mid {
                    assert(cells@[j].key < cells@[mid as int].key);
                }
            }
            lo = mid + 1;
        } else {
            assert forall|j: int| mid <= j < cells@.len() implies (#[trigger] cells@[j]).key
                > key by {
                if j > mid {
                    assert(cells@[mid as int].key < cells@[j].key);
                }
            }
            hi = mid;
        }
    }
    Err(lo)
}

/// What a search among the cells of a node means for the node.
proof fn lemma_search(n: Node, cells: Seq<Cell>, key: u64, r: Result<usize, usize>)
    requires
        slotted_page::sorted(n.cells),
        cells == slotted_page::cells_of(n.leaf_level(), n.cells),
        match r {
            Ok(i) => i < cells.len() && cells[i as int].key == key,
            Err(i) => {
                &&& i <= cells.len()
                &&& forall|j: int| 0 <= j < i ==> (#[trigger] cells[j]).key < key
                &&& forall|j: int| i <= j < cells.len() ==> (#[trigger] cells[j]).key > key
            },
        },
    ensures
        match r {
            Ok(i) => {
                &&& tree_model::find(n.cells, key) == Some(n.cells[i as int].1)
                &&& slotted_page::rank(n.cells, key) == i
                &&& tree_model::route(n, key) == i + 1
            },
            Err(i) => {
                &&& tree_model::find(n.cells, key) is None
                &&& slotted_page::rank(n.cells, key) == i
                &&& tree_model::route(n, key) == i
            },
        },
{
    match r {
        Ok(i) => {
            assert(cells[i as int].key == n.cells[i as int].0);
            slotted_page::lemma_rank_unique(n.cells, key, i as int);
        },
        Err(i) => {
            assert forall|j: int| 0 <= j < i implies (#[trigger] n.cells[j]).0 < key by {
                assert(cells[j].key == n.cells[j].0);
            }
            assert forall|j: int| i <= j < n.cells.len() implies (#[trigger] n.cells[j]).0
                > key by {
                assert(cells[j].key == n.cells[j].0);
            }
            slotted_page::lemma_rank_unique(n.cells, key, i as int);
        },
    }
}

/// Rebuilds a page from cells in key order; those that do not fit are left out.
fn rebuild_page(
    index: &mut Index,
    wal: &mut Wal,
    id: u64,
    cells: &[Cell],
    page_ty: PageKind,
    ptr: u64,
    Ghost(pairs): Ghost<Seq<(u64, u64)>>,
) -> (r: Result<(), StorageError>)
    requires
        old(index).wf(),
        old(wal).wf(),
        id < old(index)@.len(),
        slotted_page::sorted(pairs),
        cells@ == slotted_page::cells_of(
            old(index)@[id as int].rebuilt_leaf_level(page_ty),
            pairs,
        ),
    ensures
        final(index).wf(),
        final(wal).wf(),
        final(wal)@.flushes(old(wal)@),
        final(index)@ == old(index)@.update(id as int, final(index)@[id as int]),
        final(index)@[id as int].wf(),
        final(index)@[id as int]@ == (Node {
            id,
            kind: page_ty,
            flags: if old(index)@[id as int].stays_root_leaf(page_ty) {
                1
            } else {
                0
            },
            ptr,
            cells: if pairs.len() <= ORDER {
                pairs
            } else {
                pairs.take(ORDER as int)
            },
        }),
        r is Ok == (pairs.len() <= ORDER),
        r matches Err(e) ==> e == StorageError::PageOverflow,
{
    let mut page = index.fetch_mut(wal, id);
    let ghost leaf = page.rebuilt_leaf_level(page_ty);
    let r = page.rebuild_from_cells(cells, page_ty, id, ptr);
    proof {
        if pairs.len() <= ORDER {
            slotted_page::lemma_build_sorted(leaf, pairs);
        } else {
            slotted_page::lemma_build_overflow(leaf, pairs);
            let k = choose|k: int| #[trigger]
                slotted_page::stopped_at(leaf, cells@, page@.cells, k);
            slotted_page::lemma_stopped(leaf, pairs, page@.cells, k);
        }
    }
    index.store(wal, id, page);
    r
}

/// The cells with the pointers to `from` turned to `to`.
fn redirect_cells(
    cells: &Vec<Cell>,
    from: u64,
    to: u64,
    Ghost(pairs): Ghost<Seq<(u64, u64)>>,
) -> (out: Vec<Cell>)
    requires
        cells@ == slotted_page::cells_of(false, pairs),
    ensures
        out@ == slotted_page::cells_of(false, tree_steps::redirect(pairs, from, to)),
{
    let mut out: Vec<Cell> = Vec::with_capacity(cells.len());
    let mut i: usize = 0;
    while i < cells.len()
        invariant
            i <= cells@.len(),
            cells@ == slotted_page::cells_of(false, pairs),
            out@.len() == i,
            forall|j: int|
                0 <= j < i ==> #[trigger] out@[j] == slotted_page::cell_of(
                    false,
                    tree_steps::redirect(pairs, from, to)[j],
                ),
        decreases cells@.len() - i,
    {
        let c: Cell = cells[i];
        assert(c == slotted_page::cell_of(false, pairs[i as int]));
        let c_ptr = match c.c_ptr {
            Some(p) => if p == from {
                Some(to)
            } else {
                Some(p)
            },
            None => None,
        };
        out.push(Cell { key: c.key, c_ptr, h_ptr: c.h_ptr });
        i = i + 1;
    }
    assert(out@ =~= slotted_page::cells_of(false, tree_steps::redirect(pairs, from, to)));
    out
}

/// A key that lies among the keys of child `j` has its place before cell `j`.
proof fn lemma_rank_at(n: Node, s: Span, j: int, cells: Seq<(u64, u64)>, m: u64)
    requires
        slotted_page::sorted(n.cells),
        0 <= j <= n.cells.len(),
        cells.len() == n.cells.len(),
        forall|i: int| 0 <= i < cells.len() ==> (#[trigger] cells[i]).0 == n.cells[i].0,
        forall|i: int| 0 <= i < n.cells.len() ==> s.lo < (#[trigger] n.cells[i]).0 < s.hi,
        tree_model::fence(n, s, j) < m < tree_model::fence(n, s, j + 1),
    ensures
        slotted_page::sorted(cells),
        slotted_page::rank(cells, m) == j,
        forall|i: int| 0 <= i < cells.len() ==> (#[trigger] cells[i]).0 != m,
{
    assert forall|i: int| 0 <= i < j implies (#[trigger] cells[i]).0 < m by {
        if i < j - 1 {
            assert(n.cells[i].0 < n.cells[j - 1].0);
        }
    }
    assert forall|i: int| j <= i < cells.len() implies (#[trigger] cells[i]).0 > m by {
        if i > j {
            assert(n.cells[j].0 < n.cells[i].0);
        }
    }
    slotted_page::lemma_rank_unique(cells, m, j);
}

/// The pages that a search passes, and whether it finds the key.
pub struct BreadCrumbs {
    pub breadcrumb: Vec<u64>,
    pub found: bool,
}

/// Where a page stands among the children of its parent, and its neighbours
/// there.
pub struct Sibling {
    pub child_idx: usize,
    pub left: Option<u64>,
    pub right: Option<u64>,
}

/// Where the page `id` stands among the children of a node with the given cells
/// and last child, and its neighbours there. A page that no cell points at is taken
/// for the last child.
pub open spec fn stands_at(s: Sibling, id: u64, cells: Seq<(u64, u64)>, ptr: u64) -> bool {
    let n = cells.len();
    &&& s.child_idx <= n
    &&& forall|i: int| 0 <= i < s.child_idx ==> (#[trigger] cells[i]).1 != id
    &&& s.child_idx < n ==> cells[s.child_idx as int].1 == id
    &&& s.left == (if s.child_idx > 0 {
        Some(cells[s.child_idx - 1].1)
    } else {
        None
    })
    &&& s.right == (if s.child_idx + 1 < n {
        Some(cells[s.child_idx + 1].1)
    } else if s.child_idx < n {
        Some(ptr)
    } else {
        None
    })
}

/// A B+ tree: its view maps each key to its records.
pub struct BplusTree {
    pub root_id: u64,
    pub pager: Pager,
}

impl View for BplusTree {
    type V = Map<u64, Seq<Seq<u8>>>;

    open spec fn view(&self) -> Map<u64, Seq<Seq<u8>>> {
        records_by_key(self.links(), self.heap())
    }
}

/// The records that heap pages hold for keys.
pub open spec fn records_by_key(links: Map<u64, u64>, pages: Seq<HeapPage>) -> Map<
    u64,
    Seq<Seq<u8>>,
> {
    Map::new(
        |key: u64| links.contains_key(key),
        |key: u64| heap::records_of(pages, links[key]),
    )
}

/// The heap pages of all keys are there and well-formed.
pub open spec fn records_ok(links: Map<u64, u64>, pages: Seq<HeapPage>) -> bool {
    forall|key: u64| #[trigger]
        links.contains_key(key) ==> heap::complete(pages, links[key]) && heap::sound(
            pages,
            links[key],
        )
}

impl BplusTree {
    /// The page that every search starts from.
    pub open spec fn root(self) -> u64 {
        self.root_id
    }

    /// The index pages.
    pub open spec fn pages(self) -> Seq<Page> {
        self.pager.index@
    }

    /// The heap pages.
    pub open spec fn heap(self) -> Seq<HeapPage> {
        self.pager.heap@
    }

    /// The nodes of the tree.
    pub open spec fn nodes(self) -> Seq<Node> {
        nodes_of(self.pages())
    }

    /// The heap page of each key.
    pub open spec fn links(self) -> Map<u64, u64> {
        tree_model::content(self.nodes(), self.root())
    }

    /// The files are in order.
    pub open spec fn files_ok(self) -> bool {
        self.pager.wf()
    }

    /// The invariant of the tree: the files are in order, the pages from the root on
    /// are a B+ tree, none of them is full or underfull, and the records of all keys are
    /// there.
    pub open spec fn wf(self) -> bool {
        &&& self.files_ok()
        &&& planted(self.pages(), self.root(), Sizes::usual())
        &&& records_ok(self.links(), self.heap())
    }

    /// A tree is in its pages and its root: other files with the same pages hold
    /// the same tree. In particular, a tree whose files were flushed is found
    /// again when they are opened.
    pub proof fn lemma_reopened(self, pager: Pager)
        requires
            self.wf(),
            pager.wf(),
            pager.index@ == self.pages(),
            pager.heap@ == self.heap(),
        ensures
            (BplusTree { root_id: self.root_id, pager }).wf(),
            (BplusTree { root_id: self.root_id, pager })@ == self@,
    {
    }

    /// A tree is found in longer files that start with its pages. In particular, a tree
    /// that was flushed can be read after later changes were discarded, where none of
    /// its pages was written back in between: the files hold its pages then, and new
    /// pages behind them.
    pub proof fn lemma_discarded(self, later: Pager, discarded: Pager)
        requires
            self.wf(),
            later.index.stored().len() >= self.pages().len(),
            later.index.stored().take(self.pages().len() as int) == self.pages(),
            later.heap.stored().len() >= self.heap().len(),
            later.heap.stored().take(self.heap().len() as int) == self.heap(),
            discarded.wf(),
            discarded.index@ == later.index.stored(),
            discarded.heap@ == later.heap.stored(),
        ensures
            (BplusTree { root_id: self.root_id, pager: discarded }).wf(),
            (BplusTree { root_id: self.root_id, pager: discarded })@ == self@,
    {
        let tree = BplusTree { root_id: self.root_id, pager: discarded };
        let pages = self.pages();
        let pages2 = tree.pages();
        let root = self.root();
        let spans = choose|spans: Map<u64, Span>| #[trigger]
            grown(pages, root, spans) && sized(pages, root, spans, Sizes::usual());
        let nodes = nodes_of(pages);
        let nodes2 = nodes_of(pages2);
        assert forall|i: int| 0 <= i < pages.len() implies #[trigger] pages2[i] == pages[i] by {
            assert(pages2.take(pages.len() as int)[i] == pages2[i]);
        }
        assert forall|i: int| 0 <= i < nodes.len() implies #[trigger] nodes2[i] == nodes[i] by {
            assert(pages2[i] == pages[i]);
        }
        assert forall|id: u64| #[trigger] spans.contains_key(id) implies id < nodes2.len()
            && spans[id].level <= spans[root].level && tree_model::node_ok(
            root,
            spans,
            id,
            nodes2[id as int],
        ) by {
            assert(nodes2[id as int] == nodes[id as int]);
        }
        assert(tree_model::tree_ok(nodes2, root, spans));
        tree_steps::lemma_chain_same(nodes, spans, nodes2);
        assert(grown(pages2, root, spans));
        assert(sized(pages2, root, spans, Sizes::usual()));
        assert forall|key: u64| #[trigger]
            tree_model::value(nodes2, root, key) == tree_model::value(nodes, root, key) by {
            self.lemma_leaf_span(spans, key);
            let leaf = self.leaf_of(key);
            tree_model::lemma_value(nodes, root, spans, key, leaf);
            tree_model::lemma_value(nodes2, root, spans, key, leaf);
        }
        assert(tree.links() =~= self.links());
        assert forall|i: int| 0 <= i < self.heap().len() implies #[trigger] tree.heap()[i]
            == self.heap()[i] by {
            assert(tree.heap().take(self.heap().len() as int)[i] == tree.heap()[i]);
        }
        lemma_records_kept(self.links(), self.heap(), tree.heap());
    }

    /// Deleting a key that was inserted gives back what the tree held before.
    pub proof fn lemma_insert_delete(
        before: BplusTree,
        inserted: BplusTree,
        deleted: BplusTree,
        key: u64,
        records: Seq<Seq<u8>>,
    )
        requires
            !before@.contains_key(key),
            inserted@ == before@.insert(key, records),
            deleted@ == inserted@.remove(key),
        ensures
            deleted@ == before@,
    {
        assert(deleted@ =~= before@);
    }

    /// Creates an empty tree in the given files.
    pub fn new(
        index_file: PageFile<Page>,
        heap_file: PageFile<HeapPage>,
        log_file: Vec<u8>,
    ) -> (r: Result<BplusTree, StorageError>)
        requires
            index_file@.len() < MAX_PAGES,
            heap_file@.len() <= MAX_PAGES,
        ensures
            r is Ok == (log_file@.len() == 0 || log_file@.len() >= header::WAL_HEADER_SIZE),
            r matches Ok(tree) ==> {
                &&& tree.wf()
                &&& tree@ == Map::<u64, Seq<Seq<u8>>>::empty()
                &&& tree.root() == index_file@.len()
                &&& tree.pages().len() == index_file@.len() + 1
                &&& tree.pages().drop_last() == index_file@
                &&& tree.heap() == heap_file@
                &&& tree.nodes().last() == (Node {
                    id: tree.root(),
                    kind: PageKind::Root,
                    flags: 1,
                    ptr: 0,
                    cells: Seq::empty(),
                })
                &&& tree.depth() == 1
                &&& tree.pager.wal@.flushes(wal::opened(log_file@))
            },
            r matches Err(e) ==> e == StorageError::WalTruncated,
    {
        let mut pager = match Pager::new(index_file, heap_file, log_file) {
            Ok(pager) => pager,
            Err(e) => return Err(e),
        };
        let root_id: u64 = pager.index.allocate(&mut pager.wal, PageKind::Root);
        let ghost pages1 = pager.index@;
        let mut root_page = pager.index.fetch_mut(&mut pager.wal, root_id);
        match root_page.set_root_leaf() {
            Ok(()) => {},
            Err(e) => return Err(e),
        }
        pager.index.store(&mut pager.wal, root_id, root_page);
        let tree = BplusTree { root_id, pager };
        proof {
            let pages = tree.pages();
            assert(pages.drop_last() =~= pages1.drop_last());
            let spans = Map::<u64, Span>::empty().insert(
                root_id,
                Span { level: 0, lo: 0, hi: tree_model::key_end() },
            );
            let n = pages[root_id as int]@;
            assert(nodes_of(pages)[root_id as int] == n);
            assert(0u8 | 0x01 == 1) by (bit_vector);
            assert(tree_model::node_ok(root_id, spans, root_id, n));
            reveal(tree_model::chained);
            assert(grown(pages, root_id, spans));
            assert(sized(pages, root_id, spans, Sizes::usual()));
            lemma_depth(pages, root_id, spans);
            assert forall|key: u64| !tree.links().contains_key(key) by {
                tree_model::lemma_value(nodes_of(pages), root_id, spans, key, root_id);
            }
            assert(tree@ =~= Map::<u64, Seq<Seq<u8>>>::empty());
        }
        Ok(tree)
    }

    /// Follows a key from the root to a leaf.
    fn breadcrumbs(&mut self, key: u64) -> (r: Result<BreadCrumbs, StorageError>)
        requires
            old(self).files_ok(),
            legible(old(self).pages(), old(self).root()),
        ensures
            final(self).files_ok(),
            final(self).pages() == old(self).pages(),
            final(self).root() == old(self).root(),
            final(self).pager.heap == old(self).pager.heap,
            final(self).pager.wal.wf(),
            final(self).pager.wal@.flushes(old(self).pager.wal@),
            r matches Ok(crumbs) && crumbs.breadcrumb@ == tree_model::trail(
                old(self).nodes(),
                old(self).root(),
                old(self).nodes().len(),
                key,
            ) && crumbs.found == (tree_model::value(old(self).nodes(), old(self).root(), key)
                is Some),
    {
        let mut breadcrumb: Vec<u64> = Vec::new();
        let mut page_id: u64 = self.root_id;
        let ghost nodes = self.nodes();
        let ghost levels = choose|levels: Map<u64, nat>|
            legible_by(self.pages(), self.root(), levels);
        let ghost mut fuel: nat = nodes.len();
        let ghost whole = tree_model::trail(nodes, page_id, fuel, key);
        assert(breadcrumb@ + whole =~= whole);
        loop
            invariant
                self.files_ok(),
                self.pages() == old(self).pages(),
                self.root() == old(self).root(),
                self.pager.heap == old(self).pager.heap,
                self.pager.wal.wf(),
                self.pager.wal@.flushes(old(self).pager.wal@),
                nodes == old(self).nodes(),
                legible_by(self.pages(), self.root(), levels),
                levels.contains_key(page_id),
                levels[page_id] <= fuel,
                whole == tree_model::trail(nodes, old(self).root(), nodes.len(), key),
                breadcrumb@ + tree_model::trail(nodes, page_id, fuel, key) == whole,
                tree_model::lookup(nodes, page_id, fuel, key) == tree_model::value(
                    nodes,
                    old(self).root(),
                    key,
                ),
            decreases fuel,
        {
            let ghost before = breadcrumb@;
            let page = self.pager.index.fetch(&mut self.pager.wal, page_id);
            let ghost n = page@;
            assert(nodes[page_id as int] == n);
            assert(page.wf());
            let p_hdr = match page.header() {
                Ok(h) => h,
                Err(e) => return Err(e),
            };
            let cells = match page.get_cells() {
                Ok(c) => c,
                Err(e) => return Err(e),
            };
            breadcrumb.push(page_id);
            let is_leaf_level: bool = p_hdr.page_ty == PageKind::Leaf || (p_hdr.page_ty
                == PageKind::Root && p_hdr.is_root_leaf());
            let found = search(&cells, key);
            proof {
                lemma_search(n, cells@, key, found);
                if n.leaf_level() {
                    assert(breadcrumb@ =~= before + seq![page_id]);
                } else {
                    let c = tree_model::child(n, tree_model::route(n, key));
                    assert(levels.contains_key(c) && levels[c] == levels[page_id] - 1);
                    let rest = tree_model::trail(nodes, c, (fuel - 1) as nat, key);
                    assert(breadcrumb@ + rest =~= before + (seq![page_id] + rest));
                    fuel = (fuel - 1) as nat;
                }
            }
            match found {
                Ok(i) => {
                    if is_leaf_level {
                        return Ok(BreadCrumbs { breadcrumb, found: true });
                    }
                    page_id = if i + 1 < cells.len() {
                        cells[i + 1].c_ptr.unwrap()
                    } else {
                        p_hdr.ptr
                    };
                },
                Err(i) => {
                    if is_leaf_level {
                        return Ok(BreadCrumbs { breadcrumb, found: false });
                    }
                    page_id = if i < cells.len() {
                        cells[i].c_ptr.unwrap()
                    } else {
                        p_hdr.ptr
                    };
                },
            }
        }
    }

    /// The records of a key.
    pub fn get(&mut self, key: u64) -> (r: Result<Vec<Vec<u8>>, StorageError>)
        requires
            old(self).wf(),
        ensures
            final(self).wf(),
            final(self)@ == old(self)@,
            final(self).pages() == old(self).pages(),
            final(self).heap() == old(self).heap(),
            final(self).root() == old(self).root(),
            if old(self)@.contains_key(key) {
                r matches Ok(records) && slotted_page::contents(records@) == old(self)@[key]
            } else {
                r matches Err(e) && e == StorageError::EntryNotFound
            },
    {
        let mut page_id: u64 = self.root_id;
        let ghost nodes = self.nodes();
        let ghost spans = choose|spans: Map<u64, Span>| grown(self.pages(), self.root(), spans);
        proof {
            lemma_grown_legible(self.pages(), self.root(), spans);
        }
        let ghost levels = choose|levels: Map<u64, nat>|
            legible_by(self.pages(), self.root(), levels);
        let ghost mut fuel: nat = nodes.len();
        loop
            invariant
                old(self).wf(),
                self.files_ok(),
                self.pages() == old(self).pages(),
                self.root() == old(self).root(),
                self.pager.heap == old(self).pager.heap,
                self.pager.wal.wf(),
                self.pager.wal@.flushes(old(self).pager.wal@),
                nodes == old(self).nodes(),
                legible_by(self.pages(), self.root(), levels),
                levels.contains_key(page_id),
                levels[page_id] <= fuel,
                tree_model::lookup(nodes, page_id, fuel, key) == tree_model::value(
                    nodes,
                    old(self).root(),
                    key,
                ),
            decreases fuel,
        {
            let page = self.pager.index.fetch(&mut self.pager.wal, page_id);
            let ghost n = page@;
            assert(nodes[page_id as int] == n);
            assert(page.wf());
            let p_hdr = match page.header() {
                Ok(h) => h,
                Err(e) => return Err(e),
            };
            let cells = match page.get_cells() {
                Ok(c) => c,
                Err(e) => return Err(e),
            };
            let is_leaf_level: bool = p_hdr.page_ty == PageKind::Leaf || (p_hdr.page_ty
                == PageKind::Root && p_hdr.is_root_leaf());
            let found = search(&cells, key);
            proof {
                lemma_search(n, cells@, key, found);
                if !n.leaf_level() {
                    let c = tree_model::child(n, tree_model::route(n, key));
                    assert(levels.contains_key(c) && levels[c] == levels[page_id] - 1);
                    fuel = (fuel - 1) as nat;
                }
            }
            match found {
                Ok(i) => {
                    if is_leaf_level {
                        let heap_id: u64 = match cells[i].h_ptr {
                            Some(h) => h.index,
                            None => return Err(StorageError::NoHeapPointer),
                        };
                        proof {
                            assert(old(self).links().contains_key(key));
                            assert(old(self).links()[key] == heap_id);
                            assert(self.heap() == old(self).heap());
                            heap::lemma_walk(self.heap(), heap_id, self.heap().len());
                        }
                        let mut data_records: Vec<Vec<u8>> = Vec::new();
                        match self.pager.heap.get_record(
                            &mut self.pager.wal,
                            heap_id,
                            &mut data_records,
                        ) {
                            Ok(()) => {},
                            Err(e) => return Err(e),
                        }
                        proof {
                            assert(slotted_page::contents(data_records@) =~= old(self)@[key]);
                        }
                        return Ok(data_records);
                    }
                    page_id = if i + 1 < cells.len() {
                        cells[i + 1].c_ptr.unwrap()
                    } else {
                        p_hdr.ptr
                    };
                },
                Err(i) => {
                    if is_leaf_level {
                        return Err(StorageError::EntryNotFound);
                    }
                    page_id = if i < cells.len() {
                        cells[i].c_ptr.unwrap()
                    } else {
                        p_hdr.ptr
                    };
                },
            }
        }
    }

    /// Splits the last page of a path, which has too many cells, and the pages above
    /// it as far as they are full then. Returns the new root if there is one; the
    /// pages of the path that were split are taken off it.
    fn handle_overfull(
        &mut self,
        breadcrumbs: &mut Vec<u64>,
        Ghost(z): Ghost<Sizes>,
    ) -> (r: Result<Option<u64>, StorageError>)
        requires
            old(self).pager.index.wf(),
            old(self).pager.wal.wf(),
            path_in(
                old(self).pages(),
                old(self).root(),
                old(breadcrumbs)@,
                z.with_full(old(breadcrumbs)@.last()),
            ),
            z.full is None,
            z.low is None,
            z.least <= LEAST,
            old(self).pages()[old(breadcrumbs)@.last() as int]@.cells.len() >= 2 * z.least + 2,
            old(self).pages().len() + old(breadcrumbs)@.len() + 1 <= MAX_PAGES,
        ensures
            final(self).pager.index.wf(),
            final(self).root() == old(self).root(),
            final(self).pager.heap == old(self).pager.heap,
            final(self).pager.wal.wf(),
            final(self).pager.wal@.flushes(old(self).pager.wal@),
            ({
                let splits = tree_layout::split_up(old(self).nodes(), old(breadcrumbs)@);
                let root2 = match splits.new_root {
                    Some(id) => id,
                    None => old(self).root(),
                };
                &&& r == Ok::<Option<u64>, StorageError>(splits.new_root)
                &&& final(self).nodes() == splits.nodes
                &&& final(breadcrumbs)@ == splits.path
                &&& grown_from(
                    old(self).pages(),
                    old(self).root(),
                    final(self).pages(),
                    root2,
                    z,
                )
                &&& depth_of(final(self).nodes(), root2) == depth_of(
                    old(self).nodes(),
                    old(self).root(),
                ) + (if splits.new_root is Some {
                    1int
                } else {
                    0
                })
                &&& final(self).pages().len() <= old(self).pages().len() + old(
                    breadcrumbs,
                )@.len() + 1
            }),
        decreases old(breadcrumbs)@.len(),
    {
        let ghost root = self.root();
        let ghost path = breadcrumbs@;
        let ghost pages0 = self.pages();
        let ghost nodes0 = self.nodes();
        let ghost spans = choose|spans: Map<u64, Span>| #[trigger]
            path_by(pages0, root, path, z.with_full(path.last()), spans);
        let overflow_page_id: u64 = match breadcrumbs.pop() {
            Some(id) => id,
            None => return Err(StorageError::NoPage),
        };
        assert(path[path.len() - 1] == overflow_page_id);
        assert(spans.contains_key(overflow_page_id));
        assert(breadcrumbs@ =~= path.drop_last());
        assert(nodes0[overflow_page_id as int] == pages0[overflow_page_id as int]@);
        let (promoted, right_page_id) = match split_page(
            &mut self.pager.index,
            &mut self.pager.wal,
            overflow_page_id,
        ) {
            Ok(split) => split,
            Err(e) => return Err(e),
        };
        let ghost pages1 = self.pages();
        let ghost nodes1 = self.nodes();
        if breadcrumbs.len() > 0 {
            let parent_id: u64 = breadcrumbs[breadcrumbs.len() - 1];
            proof {
                assert(parent_id == path[path.len() - 2]);
                assert(spans.contains_key(parent_id));
                lemma_parent_room(pages0, root, spans, path, promoted, right_page_id);
                assert(nodes0[parent_id as int] == pages0[parent_id as int]@);
                assert(nodes1[parent_id as int] == nodes0[parent_id as int]);
                assert(nodes1[parent_id as int] == pages1[parent_id as int]@);
            }
            let n_slot: usize = match attach_right_half(
                &mut self.pager.index,
                &mut self.pager.wal,
                parent_id,
                promoted,
                overflow_page_id,
                right_page_id,
            ) {
                Ok(n_slot) => n_slot,
                Err(e) => return Err(e),
            };
            let ghost pages2 = self.pages();
            proof {
                lemma_nodes_update(pages1, parent_id as int, pages2[parent_id as int]);
                lemma_split_done(pages0, root, spans, path, right_page_id, promoted, pages2, z);
                assert(nodes_of(pages2)[parent_id as int] == pages2[parent_id as int]@);
            }
            if n_slot >= ORDER {
                let r = self.handle_overfull(breadcrumbs, Ghost(z));
                proof {
                    lemma_after(pages0, root, pages2, root, self.pages());
                }
                r
            } else {
                Ok(None)
            }
        } else {
            let new_root_id: u64 = self.pager.index.allocate(&mut self.pager.wal, PageKind::Root);
            let mut root_page = self.pager.index.fetch_mut(&mut self.pager.wal, new_root_id);
            root_page.init_header(new_root_id, PageKind::Root, right_page_id);
            match root_page.add_cell(promoted, overflow_page_id) {
                Ok(_) => {},
                Err(e) => return Err(e),
            }
            self.pager.index.store(&mut self.pager.wal, new_root_id, root_page);
            proof {
                let pages2 = self.pages();
                assert(pages2.len() == pages1.len() + 1);
                assert forall|i: int| 0 <= i < pages1.len() implies pages2[i] == pages1[i] by {}
                assert(root_page@.cells =~= seq![(promoted, overflow_page_id)]);
                assert(nodes_of(pages2) =~= nodes1.push(root_page@));
                lemma_root_split(pages0, root, spans, path, right_page_id, promoted, pages2, z);
            }
            Ok(Some(new_root_id))
        }
    }
}

impl BplusTree {
    /// The pages that the search for a key passes.
    pub open spec fn trail(self, key: u64) -> Seq<u64> {
        tree_model::trail(self.nodes(), self.root(), self.nodes().len(), key)
    }

    /// The leaf that a key belongs to.
    pub open spec fn leaf_of(self, key: u64) -> u64 {
        self.trail(key).last()
    }

    /// The keys from `key` to below `next` belong to one leaf, which points at the
    /// leaf of `next`.
    pub open spec fn next_leaf(self, key: u64, next: u64) -> bool {
        &&& key < next
        &&& forall|k: u64| key <= k < next ==> #[trigger] self.leaf_of(k) == self.leaf_of(key)
        &&& self.nodes()[self.leaf_of(key) as int].ptr == self.leaf_of(next)
    }

    /// Every search passes the same number of pages.
    pub proof fn lemma_balanced(self, a: u64, b: u64)
        requires
            self.wf(),
        ensures
            self.trail(a).len() == self.trail(b).len(),
    {
        let spans = choose|spans: Map<u64, Span>| grown(self.pages(), self.root(), spans);
        let n = self.nodes().len();
        tree_paths::lemma_trail(self.nodes(), self.root(), spans, self.root(), n, a);
        tree_paths::lemma_trail(self.nodes(), self.root(), spans, self.root(), n, b);
    }

    /// No page that a search passes is full, and none but the root has fewer cells than
    /// `LEAST`. An internal root has one at least.
    pub proof fn lemma_fill(self, key: u64, i: int)
        requires
            self.wf(),
            0 <= i < self.trail(key).len(),
        ensures
            ({
                let n = self.nodes()[self.trail(key)[i] as int];
                &&& n.cells.len() < ORDER
                &&& i > 0 ==> n.cells.len() >= LEAST
                &&& !n.leaf_level() ==> n.cells.len() >= 1
            }),
    {
        let spans = choose|spans: Map<u64, Span>| #[trigger]
            grown(self.pages(), self.root(), spans) && sized(
                self.pages(),
                self.root(),
                spans,
                Sizes::usual(),
            );
        let n = self.nodes().len();
        tree_paths::lemma_trail(self.nodes(), self.root(), spans, self.root(), n, key);
        let id = self.trail(key)[i];
        assert(spans.contains_key(id));
        assert(spans[id].level + i == spans[self.root()].level);
        assert(self.nodes()[id as int] == self.pages()[id as int]@);
    }

    /// Searches pass few pages: with every page more that they pass, the tree has
    /// many times as many pages.
    pub proof fn lemma_depth_bound(self)
        requires
            self.wf(),
        ensures
            1 <= self.depth() <= self.pages().len(),
            self.depth() >= 2 ==> self.pages().len() >= 2 * pow(
                LEAST as int + 1,
                (self.depth() - 2) as nat,
            ),
    {
        let spans = choose|spans: Map<u64, Span>| #[trigger]
            grown(self.pages(), self.root(), spans) && sized(
                self.pages(),
                self.root(),
                spans,
                Sizes::usual(),
            );
        let nodes = self.nodes();
        lemma_depth(self.pages(), self.root(), spans);
        if self.depth() >= 2 {
            assert forall|q: u64| #[trigger]
                spans.contains_key(q) && q != self.root() implies nodes[q as int].cells.len()
                >= LEAST by {
                assert(nodes[q as int] == self.pages()[q as int]@);
            }
            assert(nodes[self.root() as int] == self.pages()[self.root() as int]@);
            tree_paths::lemma_shallow(nodes, self.root(), spans, LEAST as nat);
        }
    }

    /// The leaves are chained in the order of their keys: where a larger key
    /// belongs to another leaf, the leaf of a key points at the one that comes
    /// next.
    pub proof fn lemma_leaf_chain(self, key: u64, larger: u64)
        requires
            self.wf(),
            key < larger,
            self.leaf_of(larger) != self.leaf_of(key),
        ensures
            exists|next: u64| next <= larger && #[trigger] self.next_leaf(key, next),
    {
        reveal(tree_model::chained);
        let spans = choose|spans: Map<u64, Span>| grown(self.pages(), self.root(), spans);
        let nodes = self.nodes();
        let leaf = self.leaf_of(key);
        self.lemma_leaf_span(spans, key);
        self.lemma_leaf_span(spans, larger);
        let next = spans[leaf].hi as u64;
        assert(next <= larger);
        assert(tree_model::follows(spans, leaf, nodes[leaf as int].ptr));
        self.lemma_leaf_span(spans, next);
        assert(spans.contains_key(nodes[leaf as int].ptr));
        assert forall|k: u64| key <= k < next implies #[trigger] self.leaf_of(k) == leaf by {
            self.lemma_leaf_span(spans, k);
        }
        assert(self.next_leaf(key, next));
    }

    /// The leaf of a key covers it, and no other leaf does.
    proof fn lemma_leaf_span(self, spans: Map<u64, Span>, key: u64)
        requires
            grown(self.pages(), self.root(), spans),
        ensures
            spans.contains_key(self.leaf_of(key)),
            spans[self.leaf_of(key)].level == 0,
            spans[self.leaf_of(key)].has(key as int),
            forall|id: u64| #[trigger]
                spans.contains_key(id) && spans[id].level == 0 && spans[id].has(key as int) ==> id
                    == self.leaf_of(key),
    {
        let n = self.nodes().len();
        let t = self.trail(key);
        tree_paths::lemma_trail(self.nodes(), self.root(), spans, self.root(), n, key);
        assert(t[t.len() - 1] == t.last());
    }

    /// The number of pages that a search passes.
    pub open spec fn depth(self) -> nat {
        depth_of(self.nodes(), self.root())
    }

    /// Whether the files have room for one more key: for the pages that come of
    /// splitting every page of a search and the root, and for one heap page.
    pub open spec fn has_room(self) -> bool {
        self.pages().len() + self.depth() + 1 <= MAX_PAGES && self.heap().len() < MAX_PAGES
    }

    /// Stores the records of a key on a new heap page.
    fn put_records(&mut self, data_records: Vec<Vec<u8>>) -> (r: Result<u64, StorageError>)
        requires
            old(self).files_ok(),
            old(self).heap().len() < MAX_PAGES,
            records_ok(old(self).links(), old(self).heap()),
        ensures
            final(self).files_ok(),
            final(self).pages() == old(self).pages(),
            final(self).root() == old(self).root(),
            records_ok(old(self).links(), final(self).heap()),
            final(self)@ == old(self)@,
            final(self).heap().len() == old(self).heap().len() + 1,
            ({
                let records = slotted_page::contents(data_records@);
                if slotted_page::records_room(records) > heap::RECORD_ROOM {
                    r matches Err(e) && e == StorageError::HeapPageOverflow
                } else {
                    &&& r matches Ok(id)
                    &&& id == old(self).heap().len()
                    &&& heap::complete(final(self).heap(), id)
                    &&& heap::sound(final(self).heap(), id)
                    &&& heap::records_of(final(self).heap(), id) == records
                }
            }),
    {
        let ghost heap0 = self.heap();
        let ghost links0 = self.links();
        let heap_page_id: u64 = self.pager.heap.allocate(&mut self.pager.wal);
        let ghost heap1 = self.heap();
        let mut heap_page = match self.pager.heap.fetch_mut(&mut self.pager.wal, heap_page_id) {
            Ok(page) => page,
            Err(e) => return Err(e),
        };
        let added = heap_page.add_records(data_records);
        self.pager.heap.release(heap_page_id, heap_page);
        let ghost heap2 = self.heap();
        proof {
            assert(heap1[heap_page_id as int] == heap1.last());
            assert forall|i: int| 0 <= i < heap0.len() implies heap2[i] == heap0[i] by {
                assert(heap1.drop_last()[i] == heap1[i]);
            }
            lemma_records_kept(links0, heap0, heap2);
            assert(0u8 & 0x02 != 0x02) by (bit_vector);
        }
        match added {
            Ok(()) => {
                proof {
                    let records = slotted_page::contents(data_records@);
                    assert(heap_page.records() =~= records);
                    lemma_single_page(heap2, heap_page_id, records);
                }
                Ok(heap_page_id)
            },
            Err(e) => Err(e),
        }
    }

    /// Adds a key with its records.
    pub fn insert(&mut self, key: u64, data_records: Vec<Vec<u8>>) -> (r: Result<
        (),
        StorageError,
    >)
        requires
            old(self).wf(),
            old(self).has_room(),
        ensures
            insert_outcome(
                *old(self),
                *final(self),
                key,
                slotted_page::contents(data_records@),
                r,
            ),
    {
        let ghost heap0 = self.heap();
        let ghost links0 = self.links();
        let ghost pages0 = self.pages();
        let ghost path = self.trail(key);
        proof {
            lemma_trail_leads(pages0, self.root(), key);
        }
        let crumbs = match self.breadcrumbs(key) {
            Ok(c) => c,
            Err(e) => return Err(e),
        };
        if crumbs.found {
            return Err(StorageError::KeyExists);
        }
        let ghost records = slotted_page::contents(data_records@);
        let heap_page_id: u64 = match self.put_records(data_records) {
            Ok(id) => id,
            Err(e) => return Err(e),
        };
        let ghost heap2 = self.heap();
        let ghost root0 = self.root();
        match self.put_key(crumbs.breadcrumb, key, heap_page_id) {
            Ok(()) => {},
            Err(e) => return Err(e),
        }
        proof {
            lemma_links_added(pages0, root0, self.pages(), self.root(), key, heap_page_id);
            lemma_view_insert(links0, heap0, self.links(), heap2, key, heap_page_id, records);
        }
        Ok(())
    }

    /// Adds a key with its heap page to the leaf at the end of a path.
    fn put_key(&mut self, path: Vec<u64>, key: u64, heap_page_id: u64) -> (r: Result<
        (),
        StorageError,
    >)
        requires
            old(self).pager.index.wf(),
            old(self).pager.wal.wf(),
            leads_to(old(self).pages(), old(self).root(), path@, key),
            tree_model::value(old(self).nodes(), old(self).root(), key) is None,
            old(self).pages().len() + path@.len() + 1 <= MAX_PAGES,
        ensures
            final(self).pager.index.wf(),
            final(self).pager.heap == old(self).pager.heap,
            final(self).pager.wal.wf(),
            final(self).pager.wal@.flushes(old(self).pager.wal@),
            r is Ok,
            ({
                let leaf = path@.last();
                let n = old(self).nodes()[leaf as int];
                let more = old(self).nodes().update(
                    leaf as int,
                    Node { cells: slotted_page::with_cell(n.cells, key, heap_page_id), ..n },
                );
                if n.cells.len() + 1 < ORDER {
                    &&& final(self).nodes() == more
                    &&& final(self).root() == old(self).root()
                } else {
                    let splits = tree_layout::split_up(more, path@);
                    &&& final(self).nodes() == splits.nodes
                    &&& final(self).root() == (match splits.new_root {
                        Some(id) => id,
                        None => old(self).root(),
                    })
                }
            }),
            planted(final(self).pages(), final(self).root(), Sizes::usual()),
            holds_also(
                old(self).pages(),
                old(self).root(),
                final(self).pages(),
                final(self).root(),
                key,
                heap_page_id,
            ),
            final(self).pages().len() <= old(self).pages().len() + path@.len() + 1,
            old(self).depth() <= final(self).depth() <= old(self).depth() + 1,
    {
        let ghost root = self.root();
        let ghost pages0 = self.pages();
        let ghost nodes0 = self.nodes();
        let ghost spans = choose|spans: Map<u64, Span>| #[trigger]
            leads_by(pages0, root, path@, key, spans);
        let mut breadcrumbs: Vec<u64> = path;
        let index_page_id: u64 = match breadcrumbs.pop() {
            Some(id) => id,
            None => return Err(StorageError::NoPage),
        };
        assert(index_page_id == path@[path@.len() - 1]);
        assert(spans.contains_key(index_page_id));
        let mut page = self.pager.index.fetch_mut(&mut self.pager.wal, index_page_id);
        let ghost n = page@;
        proof {
            assert(nodes0[index_page_id as int] == n);
            tree_model::lemma_value(nodes0, root, spans, key, index_page_id);
            tree_model::lemma_find(n.cells, key);
        }
        let added = page.add_cell(key, heap_page_id);
        self.pager.index.store(&mut self.pager.wal, index_page_id, page);
        let ghost pages1 = self.pages();
        let n_slot: usize = match added {
            Ok(n_slot) => n_slot,
            Err(e) => return Err(e),
        };
        proof {
            slotted_page::lemma_rank(n.cells, key);
            lemma_leaf_insert(pages0, root, spans, path@, key, heap_page_id, page);
            lemma_nodes_update(pages0, index_page_id as int, page);
            assert(pages1 == pages0.update(path@.last() as int, page));
        }
        if n_slot >= ORDER {
            breadcrumbs.push(index_page_id);
            assert(breadcrumbs@ =~= path@);
            match self.handle_overfull(&mut breadcrumbs, Ghost(Sizes::usual())) {
                Ok(new_root) => {
                    if let Some(new_id) = new_root {
                        self.root_id = new_id;
                    }
                    Ok(())
                },
                Err(e) => Err(e),
            }
        } else {
            Ok(())
        }
    }
}

/// What an insert does: the key gets its records, unless the tree has the key or the
/// records do not fit on a page.
pub open spec fn insert_outcome(
    before: BplusTree,
    after: BplusTree,
    key: u64,
    records: Seq<Seq<u8>>,
    r: Result<(), StorageError>,
) -> bool {
    &&& after.wf()
    &&& after.pages().len() <= before.pages().len() + before.depth() + 1
    &&& after.heap().len() <= before.heap().len() + 1
    &&& before.depth() <= after.depth() <= before.depth() + 1
    &&& if before@.contains_key(key) {
        &&& r matches Err(e)
        &&& e == StorageError::KeyExists
        &&& after@ == before@
    } else if slotted_page::records_room(records) > heap::RECORD_ROOM {
        &&& r matches Err(e)
        &&& e == StorageError::HeapPageOverflow
        &&& after@ == before@
    } else {
        &&& r is Ok
        &&& after@ == before@.insert(key, records)
    }
}

/// Trees that follow from one another by inserts: `trees[i + 1]` is `trees[i]` after key
/// `keys[i]` was inserted with `records[i]`, which gave `results[i]`.
pub open spec fn insert_history(
    trees: Seq<BplusTree>,
    keys: Seq<u64>,
    records: Seq<Seq<Seq<u8>>>,
    results: Seq<Result<(), StorageError>>,
) -> bool {
    &&& trees.len() == keys.len() + 1
    &&& records.len() == keys.len()
    &&& results.len() == keys.len()
    &&& forall|i: int|
        #![trigger results[i]]
        0 <= i < keys.len() ==> slotted_page::records_room(records[i]) <= heap::RECORD_ROOM && (
        trees[i].wf() && trees[i].has_room() ==> insert_outcome(
            trees[i],
            trees[i + 1],
            keys[i],
            records[i],
            results[i],
        ))
}

/// After inserts into a new tree, and as many as the files can take, there is room for
/// the next one. An insert fails exactly where its key was inserted before, and the
/// first records of a key stay.
pub proof fn lemma_insert_history(
    trees: Seq<BplusTree>,
    keys: Seq<u64>,
    records: Seq<Seq<Seq<u8>>>,
    results: Seq<Result<(), StorageError>>,
    n: int,
)
    requires
        insert_history(trees, keys, records, results),
        16 * keys.len() <= MAX_PAGES,
        trees[0].wf(),
        trees[0]@ == Map::<u64, Seq<Seq<u8>>>::empty(),
        trees[0].pages().len() == 1,
        trees[0].heap().len() == 0,
        0 <= n <= keys.len(),
    ensures
        trees[n].wf(),
        trees[n].has_room(),
        trees[n].pages().len() <= 1 + 10 * n,
        trees[n].heap().len() <= n,
        forall|k: u64| #[trigger] trees[n]@.contains_key(k) == keys.take(n).contains(k),
        forall|i: int|
            #![trigger results[i]]
            0 <= i < n ==> results[i] is Err == keys.take(i).contains(keys[i]),
        forall|i: int|
            #![trigger records[i]]
            0 <= i < n && !keys.take(i).contains(keys[i]) ==> trees[n]@[keys[i]] == records[i],
    decreases n,
{
    if n > 0 {
        lemma_insert_history(trees, keys, records, results, n - 1);
        let t = trees[n - 1];
        let key = keys[n - 1];
        let r = results[n - 1];
        assert(insert_outcome(t, trees[n], key, records[n - 1], r));
        lemma_few_levels(t);
        assert(keys.take(n) =~= keys.take(n - 1).push(key));
        assert forall|k: u64| #[trigger] trees[n]@.contains_key(k) == keys.take(n).contains(k) by {
            assert(t@.contains_key(k) == keys.take(n - 1).contains(k));
            let s = keys.take(n - 1);
            let s2 = keys.take(n);
            if s2.contains(k) {
                let i = choose|i: int| 0 <= i < s2.len() && s2[i] == k;
                if i < n - 1 {
                    assert(s[i] == k);
                }
            }
            if s.contains(k) {
                let i = choose|i: int| 0 <= i < s.len() && s[i] == k;
                assert(s2[i] == k);
            }
            assert(s2[n - 1] == key);
        }
        assert(t@.contains_key(key) == keys.take(n - 1).contains(key));
        assert forall|i: int|
            #![trigger records[i]]
            0 <= i < n && !keys.take(i).contains(keys[i]) implies trees[n]@[keys[i]]
            == records[i] by {
            if i < n - 1 {
                assert(keys.take(n - 1)[i] == keys[i]);
                assert(t@.contains_key(keys[i]));
            }
        }
    } else {
        assert(keys.take(0) =~= Seq::empty());
    }
    lemma_few_levels(trees[n]);
}

/// A tree in files of the size that is possible has few levels.
proof fn lemma_few_levels(t: BplusTree)
    requires
        t.wf(),
        t.pages().len() <= MAX_PAGES,
    ensures
        1 <= t.depth() <= 9,
{
    t.lemma_depth_bound();
    if t.depth() >= 10 {
        lemma_pow_increases(101, 8, (t.depth() - 2) as nat);
        reveal_with_fuel(pow, 9);
        assert(pow(101, 8) == 101 * (101 * (101 * (101 * (101 * (101 * (101 * 101)))))));
    }
}

/// `path` leads from the root to the leaf that covers the key.
pub open spec fn leads_by(
    pages: Seq<Page>,
    root: u64,
    path: Seq<u64>,
    key: u64,
    spans: Map<u64, Span>,
) -> bool {
    &&& grown(pages, root, spans)
    &&& sized(pages, root, spans, Sizes::usual())
    &&& tree_paths::path_ok(nodes_of(pages), root, spans, path)
    &&& spans[path.last()].level == 0
    &&& spans[path.last()].has(key as int)
}

/// The pages are a B+ tree, and `path` leads from its root to the leaf that
/// covers the key.
pub open spec fn leads_to(pages: Seq<Page>, root: u64, path: Seq<u64>, key: u64) -> bool {
    exists|spans: Map<u64, Span>| #[trigger] leads_by(pages, root, path, key, spans)
}

/// A search leads to the leaf that covers the key.
proof fn lemma_trail_leads(pages: Seq<Page>, root: u64, key: u64)
    requires
        planted(pages, root, Sizes::usual()),
    ensures
        ({
            let path = tree_model::trail(nodes_of(pages), root, pages.len(), key);
            &&& leads_to(pages, root, path, key)
            &&& 0 < path.len() <= pages.len()
            &&& path.len() == depth_of(nodes_of(pages), root)
            &&& legible(pages, root)
        }),
{
    let spans = choose|spans: Map<u64, Span>| #[trigger]
        grown(pages, root, spans) && sized(pages, root, spans, Sizes::usual());
    lemma_depth(pages, root, spans);
    let path = tree_model::trail(nodes_of(pages), root, pages.len(), key);
    lemma_grown_legible(pages, root, spans);
    tree_paths::lemma_trail(nodes_of(pages), root, spans, root, pages.len(), key);
    assert(path[path.len() - 1] == path.last());
    assert(leads_by(pages, root, path, key, spans));
}

/// The second tree holds what the first one does and one key more.
pub open spec fn holds_also(
    pages: Seq<Page>,
    root: u64,
    pages2: Seq<Page>,
    root2: u64,
    key: u64,
    v: u64,
) -> bool {
    forall|k: u64| #[trigger]
        tree_model::value(nodes_of(pages2), root2, k) == (if k == key {
            Some(v)
        } else {
            tree_model::value(nodes_of(pages), root, k)
        })
}

proof fn lemma_links_added(
    pages: Seq<Page>,
    root: u64,
    pages2: Seq<Page>,
    root2: u64,
    key: u64,
    v: u64,
)
    requires
        holds_also(pages, root, pages2, root2, key, v),
    ensures
        ({
            let links = tree_model::content(nodes_of(pages), root);
            let links2 = tree_model::content(nodes_of(pages2), root2);
            &&& forall|k: u64| #[trigger]
                links2.contains_key(k) == (k == key || links.contains_key(k))
            &&& forall|k: u64| #[trigger]
                links2.contains_key(k) ==> links2[k] == (if k == key {
                    v
                } else {
                    links[k]
                })
        }),
{
}

/// New heap pages leave the records of all keys as they are.
proof fn lemma_records_kept(links: Map<u64, u64>, pages: Seq<HeapPage>, pages2: Seq<HeapPage>)
    requires
        records_ok(links, pages),
        pages.len() <= pages2.len(),
        forall|i: int| 0 <= i < pages.len() ==> #[trigger] pages2[i] == pages[i],
    ensures
        records_ok(links, pages2),
        records_by_key(links, pages2) == records_by_key(links, pages),
{
    assert forall|key: u64| #[trigger] links.contains_key(key) implies heap::complete(
        pages2,
        links[key],
    ) && heap::sound(pages2, links[key]) && heap::records_of(pages2, links[key])
        == heap::records_of(pages, links[key]) by {
        let id = links[key];
        assert(heap::complete(pages, id) && heap::sound(pages, id));
        heap::lemma_walk_same(pages, pages2, id, pages.len());
        heap::lemma_walk_fuel(pages2, id, pages.len(), pages2.len());
        heap::lemma_walk(pages, id, pages.len());
        let ids = heap::chain(pages, id);
        assert(heap::chain(pages2, id) == ids);
        assert forall|i: int| 0 <= i < ids.len() implies pages2[(
        #[trigger] ids[i]) as int].records() == pages[ids[i] as int].records() by {}
        heap::lemma_gather_same(pages, pages2, ids);
        assert forall|i: int| 0 <= i < heap::chain(pages2, id).len() implies pages2[(
        #[trigger] heap::chain(pages2, id)[i]) as int].wf() by {
            assert(pages[heap::chain(pages, id)[i] as int].wf());
        }
    }
    assert(records_by_key(links, pages2) =~= records_by_key(links, pages));
}

/// A page without overflow pages holds all its records itself.
proof fn lemma_single_page(pages: Seq<HeapPage>, id: u64, records: Seq<Seq<u8>>)
    requires
        id < pages.len(),
        !pages[id as int].hdr().overflow_bit(),
        pages[id as int].wf(),
        pages[id as int].records() == records,
    ensures
        heap::complete(pages, id),
        heap::sound(pages, id),
        heap::records_of(pages, id) == records,
{
    let ids = heap::chain(pages, id);
    assert(ids =~= seq![id]);
    assert(ids.drop_last() =~= Seq::<u64>::empty());
    assert(heap::gather(pages, ids.drop_last()) == Seq::<Seq<u8>>::empty());
    assert(heap::records_of(pages, id) =~= records);
}

/// A cell more in a leaf.
proof fn lemma_leaf_insert(
    pages: Seq<Page>,
    root: u64,
    spans: Map<u64, Span>,
    path: Seq<u64>,
    key: u64,
    v: u64,
    page: Page,
)
    requires
        path_by(pages, root, path, Sizes::usual(), spans),
        spans[path.last()].level == 0,
        spans[path.last()].has(key as int),
        page.wf(),
        ({
            let n = pages[path.last() as int]@;
            &&& forall|i: int| 0 <= i < n.cells.len() ==> (#[trigger] n.cells[i]).0 != key
            &&& page@ == (Node { cells: slotted_page::with_cell(n.cells, key, v), ..n })
        }),
    ensures
        ({
            let pages2 = pages.update(path.last() as int, page);
            &&& path_in(pages2, root, path, Sizes::usual().with_full(path.last()))
            &&& page@.cells.len() < ORDER ==> planted(pages2, root, Sizes::usual())
            &&& holds_also(pages, root, pages2, root, key, v)
            &&& depth_of(nodes_of(pages2), root) == depth_of(nodes_of(pages), root)
        }),
{
    let nodes = nodes_of(pages);
    let leaf = path.last();
    let pages2 = pages.update(leaf as int, page);
    let nodes2 = nodes_of(pages2);
    let n = nodes[leaf as int];
    let n2 = page@;
    assert(path[path.len() - 1] == leaf);
    assert(spans.contains_key(leaf));
    lemma_nodes_update(pages, leaf as int, page);
    slotted_page::lemma_rank(n.cells, key);
    slotted_page::lemma_with_cell_sorted(n.cells, key, v);
    let p = slotted_page::rank(n.cells, key);
    assert forall|i: int| 0 <= i < n2.cells.len() implies #[trigger] n2.cells[i] == (if i < p {
        n.cells[i]
    } else if i == p {
        (key, v)
    } else {
        n.cells[i - 1]
    }) by {}
    tree_steps::lemma_change_leaf(nodes, root, spans, leaf, n2);
    tree_steps::lemma_chain_same(nodes, spans, nodes2);
    assert(grown(pages2, root, spans));
    assert(sized(pages2, root, spans, Sizes::usual().with_full(leaf)));
    if n2.cells.len() < ORDER {
        assert(sized(pages2, root, spans, Sizes::usual()));
    }
    lemma_depth(pages, root, spans);
    lemma_depth(pages2, root, spans);
    assert forall|i: int| 0 < i < path.len() implies tree_paths::has_child(
        nodes2[path[i - 1] as int],
        #[trigger] path[i],
    ) by {
        assert(tree_paths::has_child(nodes[path[i - 1] as int], path[i]));
        assert(spans[path[i - 1]].level + (i - 1) == spans[root].level);
        assert(spans[path[path.len() - 1]].level + (path.len() - 1) == spans[root].level);
        assert(path[i - 1] != leaf);
    }
    assert(tree_paths::path_ok(nodes2, root, spans, path));
    assert(path_by(pages2, root, path, Sizes::usual().with_full(leaf), spans));
    assert forall|k: u64| #[trigger]
        tree_model::value(nodes2, root, k) == (if k == key {
            Some(v)
        } else {
            tree_model::value(nodes, root, k)
        }) by {
        if spans[leaf].has(k as int) {
            tree_model::lemma_value(nodes, root, spans, k, leaf);
            lemma_with_cell_find(n.cells, key, v, k);
        }
    }
}

/// What cells hold after one was added.
proof fn lemma_with_cell_find(cells: Seq<(u64, u64)>, key: u64, v: u64, k: u64)
    requires
        slotted_page::sorted(cells),
        forall|i: int| 0 <= i < cells.len() ==> (#[trigger] cells[i]).0 != key,
    ensures
        tree_model::find(slotted_page::with_cell(cells, key, v), k) == (if k == key {
            Some(v)
        } else {
            tree_model::find(cells, k)
        }),
{
    let more = slotted_page::with_cell(cells, key, v);
    let p = slotted_page::rank(cells, key);
    slotted_page::lemma_rank(cells, key);
    slotted_page::lemma_with_cell_sorted(cells, key, v);
    assert forall|i: int| 0 <= i < more.len() implies #[trigger] more[i] == (if i < p {
        cells[i]
    } else if i == p {
        (key, v)
    } else {
        cells[i - 1]
    }) by {}
    if k == key {
        tree_model::lemma_find(more, k);
        assert(more[p].0 == key);
    } else {
        assert forall|i: int| 0 <= i < cells.len() && (
        #[trigger] cells[i]).0 == k implies exists|j: int|
            0 <= j < more.len() && #[trigger] more[j] == cells[i] by {
            if i < p {
                assert(more[i] == cells[i]);
            } else {
                assert(more[i + 1] == cells[i]);
            }
        }
        assert forall|i: int| 0 <= i < more.len() && (
        #[trigger] more[i]).0 == k implies exists|j: int|
            0 <= j < cells.len() && #[trigger] cells[j] == more[i] by {
            if i < p {
                assert(more[i] == cells[i]);
            } else {
                assert(more[i] == cells[i - 1]);
            }
        }
        tree_model::lemma_find_same(cells, more, k);
    }
}

/// What the tree holds after a new key.
proof fn lemma_view_insert(
    links: Map<u64, u64>,
    pages: Seq<HeapPage>,
    links2: Map<u64, u64>,
    pages2: Seq<HeapPage>,
    key: u64,
    v: u64,
    records: Seq<Seq<u8>>,
)
    requires
        records_ok(links, pages2),
        records_by_key(links, pages2) == records_by_key(links, pages),
        heap::complete(pages2, v),
        heap::sound(pages2, v),
        heap::records_of(pages2, v) == records,
        forall|k: u64| #[trigger]
            links2.contains_key(k) == (k == key || links.contains_key(k)),
        forall|k: u64| #[trigger]
            links2.contains_key(k) ==> links2[k] == (if k == key {
                v
            } else {
                links[k]
            }),
    ensures
        records_ok(links2, pages2),
        records_by_key(links2, pages2) == records_by_key(links, pages).insert(key, records),
{
    assert forall|k: u64| #[trigger] links2.contains_key(k) implies heap::complete(
        pages2,
        links2[k],
    ) && heap::sound(pages2, links2[k]) by {
        if k != key {
            assert(links.contains_key(k));
        }
    }
    assert(records_by_key(links2, pages2) =~= records_by_key(links, pages2).insert(key, records));
}

/// The second tree is one that holds the same as the first, with pages of the given
/// sizes.
pub open spec fn grown_from(
    pages: Seq<Page>,
    root: u64,
    pages2: Seq<Page>,
    root2: u64,
    z: Sizes,
) -> bool {
    planted(pages2, root2, z) && same_values(pages, root, pages2, root2)
}

/// Moves the upper half of a page to a new one. Returns the key that
/// parts them and the new page.
fn split_page(index: &mut Index, wal: &mut Wal, overflow_page_id: u64) -> (r: Result<
    (u64, u64),
    StorageError,
>)
    requires
        old(index).wf(),
        old(wal).wf(),
        overflow_page_id < old(index)@.len(),
        old(index)@.len() < MAX_PAGES,
        old(index)@[overflow_page_id as int].wf(),
        old(index)@[overflow_page_id as int]@.cells.len() >= 2,
    ensures
        final(index).wf(),
        final(wal).wf(),
        final(wal)@.flushes(old(wal)@),
        r matches Ok((key, right)) && {
            let n = old(index)@[overflow_page_id as int]@;
            &&& right == old(index)@.len()
            &&& final(index)@.len() == old(index)@.len() + 1
            &&& key == tree_layout::split_key(n)
            &&& final(index)@[overflow_page_id as int].wf()
            &&& final(index)@[right as int].wf()
            &&& nodes_of(final(index)@) == nodes_of(old(index)@).update(
                overflow_page_id as int,
                tree_layout::left_half(n, overflow_page_id, right),
            ).push(tree_layout::right_half(n, right))
            &&& forall|i: int|
                0 <= i < old(index)@.len() && i != overflow_page_id ==> #[trigger] final(index)@[i]
                    == old(index)@[i]
        },
{
    let ghost pages0 = index@;
    let page = index.fetch(wal, overflow_page_id);
    let ghost n = page@;
    let overflow_hdr = match page.header() {
        Ok(h) => h,
        Err(e) => return Err(e),
    };
    let overflow_cells = match page.get_cells() {
        Ok(c) => c,
        Err(e) => return Err(e),
    };
    let count: usize = overflow_cells.len();
    let split: usize = count / 2 + count % 2;
    let promote_cell: Cell = overflow_cells[split];
    assert(promote_cell == slotted_page::cell_of(n.leaf_level(), n.cells[split as int]));
    let is_leaf_level: bool = overflow_hdr.page_ty == PageKind::Leaf || (overflow_hdr.page_ty
        == PageKind::Root && overflow_hdr.is_root_leaf());
    let right_page_kind = if is_leaf_level {
        PageKind::Leaf
    } else {
        PageKind::Internal
    };
    let right_page_id: u64 = index.allocate(wal, right_page_kind);
    assert(0u8 & 0x01 != 0x01) by (bit_vector);
    assert(index@ =~= pages0.push(index@.last()));
    if is_leaf_level {
        proof {
            assert(overflow_cells@.subrange(0, split as int) =~= slotted_page::cells_of(
                true,
                n.cells.take(split as int),
            ));
            assert(overflow_cells@.subrange(split as int, count as int) =~= slotted_page::cells_of(
                true,
                n.cells.skip(split as int),
            ));
        }
        match rebuild_page(
            index,
            wal,
            overflow_page_id,
            &overflow_cells.as_slice()[0..split],
            PageKind::Leaf,
            right_page_id,
            Ghost(n.cells.take(split as int)),
        ) {
            Ok(()) => {},
            Err(e) => return Err(e),
        }
        match rebuild_page(
            index,
            wal,
            right_page_id,
            &overflow_cells.as_slice()[split..count],
            PageKind::Leaf,
            overflow_hdr.ptr,
            Ghost(n.cells.skip(split as int)),
        ) {
            Ok(()) => {},
            Err(e) => return Err(e),
        }
    } else {
        let promote_c_ptr: u64 = match promote_cell.c_ptr {
            Some(c) => c,
            None => return Err(StorageError::MissingChildPointer),
        };
        proof {
            assert(overflow_cells@.subrange(0, split as int) =~= slotted_page::cells_of(
                false,
                n.cells.take(split as int),
            ));
            assert(overflow_cells@.subrange(split + 1, count as int) =~= slotted_page::cells_of(
                false,
                n.cells.skip(split + 1),
            ));
        }
        match rebuild_page(
            index,
            wal,
            overflow_page_id,
            &overflow_cells.as_slice()[0..split],
            PageKind::Internal,
            promote_c_ptr,
            Ghost(n.cells.take(split as int)),
        ) {
            Ok(()) => {},
            Err(e) => return Err(e),
        }
        match rebuild_page(
            index,
            wal,
            right_page_id,
            &overflow_cells.as_slice()[split + 1..count],
            PageKind::Internal,
            overflow_hdr.ptr,
            Ghost(n.cells.skip(split + 1)),
        ) {
            Ok(()) => {},
            Err(e) => return Err(e),
        }
    }
    proof {
        assert(nodes_of(index@) =~= nodes_of(pages0).update(
            overflow_page_id as int,
            tree_layout::left_half(n, overflow_page_id, right_page_id),
        ).push(tree_layout::right_half(n, right_page_id)));
    }
    Ok((promote_cell.key, right_page_id))
}

/// Puts the two halves of a page in its place in the parent. Returns the number
/// of cells of the parent.
fn attach_right_half(
    index: &mut Index,
    wal: &mut Wal,
    parent_id: u64,
    key: u64,
    left_id: u64,
    right_id: u64,
) -> (r: Result<usize, StorageError>)
    requires
        old(index).wf(),
        old(wal).wf(),
        parent_id < old(index)@.len(),
        old(index)@[parent_id as int].wf(),
        !old(index)@[parent_id as int]@.leaf_level(),
        old(index)@[parent_id as int]@.cells.len() < ORDER,
        forall|i: int|
            0 <= i < old(index)@[parent_id as int]@.cells.len() ==> (
            #[trigger] old(index)@[parent_id as int]@.cells[i]).0 != key,
    ensures
        final(index).wf(),
        final(wal).wf(),
        final(wal)@.flushes(old(wal)@),
        final(index)@ == old(index)@.update(parent_id as int, final(index)@[parent_id as int]),
        final(index)@[parent_id as int].wf(),
        ({
            let p = old(index)@[parent_id as int]@;
            &&& r == Ok::<usize, StorageError>((p.cells.len() + 1) as usize)
            &&& final(index)@[parent_id as int]@ == tree_layout::attached(
                p,
                parent_id,
                key,
                left_id,
                right_id,
            )
        }),
{
    let mut parent_page = index.fetch_mut(wal, parent_id);
    let ghost p = parent_page@;
    let parent_hdr = match parent_page.header() {
        Ok(h) => h,
        Err(e) => return Err(e),
    };
    let parent_cells = match parent_page.get_cells() {
        Ok(c) => c,
        Err(e) => return Err(e),
    };
    let fixed_cells = redirect_cells(&parent_cells, left_id, right_id, Ghost(p.cells));
    let ghost fixed = tree_steps::redirect(p.cells, left_id, right_id);
    let fixed_ptr: u64 = if parent_hdr.ptr == left_id {
        right_id
    } else {
        parent_hdr.ptr
    };
    proof {
        assert(slotted_page::sorted(fixed)) by {
            assert forall|i: int, j: int| 0 <= i < j < fixed.len() implies (#[trigger] fixed[i]).0
                < (#[trigger] fixed[j]).0 by {
                assert(p.cells[i].0 < p.cells[j].0);
            }
        }
        slotted_page::lemma_build_sorted(false, fixed);
    }
    match parent_page.rebuild_from_cells(&fixed_cells, parent_hdr.page_ty, parent_id, fixed_ptr) {
        Ok(()) => {},
        Err(e) => return Err(e),
    }
    assert(parent_page@.cells == fixed);
    assert forall|i: int| 0 <= i < fixed.len() implies (#[trigger] fixed[i]).0 != key by {
        assert(p.cells[i].0 != key);
    }
    proof {
        slotted_page::lemma_rank(fixed, key);
    }
    let added = parent_page.add_cell(key, left_id);
    index.store(wal, parent_id, parent_page);
    added
}

/// The parent of a split page has no cell with the key that parts the halves,
/// and its place is the one of the page.
proof fn lemma_parent_room(
    pages: Seq<Page>,
    root: u64,
    spans: Map<u64, Span>,
    path: Seq<u64>,
    m: u64,
    rid: u64,
)
    requires
        grown(pages, root, spans),
        tree_paths::path_ok(nodes_of(pages), root, spans, path),
        path.len() > 1,
        ({
            let n = pages[path.last() as int]@;
            &&& n.cells.len() >= 2
            &&& m == tree_layout::split_key(n)
        }),
    ensures
        ({
            let np = pages[path[path.len() - 2] as int]@;
            let x = path.last();
            let j = tree_paths::place(np, x);
            let fixed = tree_steps::redirect(np.cells, x, rid);
            &&& 0 <= j <= np.cells.len()
            &&& tree_model::child(np, j) == x
            &&& slotted_page::rank(fixed, m) == j
            &&& !np.leaf_level()
            &&& spans[path[path.len() - 2]].level > 0
            &&& forall|i: int| 0 <= i < np.cells.len() ==> (#[trigger] np.cells[i]).0 != m
        }),
{
    let nodes = nodes_of(pages);
    let x = path.last();
    let p = path[path.len() - 2];
    assert(path[path.len() - 1] == x);
    assert(spans.contains_key(p) && spans.contains_key(x));
    let np = nodes[p as int];
    let n = nodes[x as int];
    assert(tree_paths::has_child(nodes[path[path.len() - 2] as int], path[path.len() - 1]));
    let j = tree_paths::place(np, x);
    assert(tree_model::child(np, j) == x);
    assert(tree_model::child_ok(spans, spans[p], np, j, x));
    let s = tree_layout::split_point(n.cells.len());
    assert(n.cells[0].0 < n.cells[s].0);
    let fixed = tree_steps::redirect(np.cells, x, rid);
    lemma_rank_at(np, spans[p], j, fixed, m);
    assert forall|i: int| 0 <= i < np.cells.len() implies (#[trigger] np.cells[i]).0 != m by {
        assert(fixed[i].0 != m);
    }
}

/// Splitting a page below a parent with room.
proof fn lemma_split_done(
    pages: Seq<Page>,
    root: u64,
    spans: Map<u64, Span>,
    path: Seq<u64>,
    rid: u64,
    m: u64,
    pages2: Seq<Page>,
    z: Sizes,
)
    requires
        path_by(pages, root, path, z.with_full(path.last()), spans),
        z.full is None && z.low is None,
        pages[path.last() as int]@.cells.len() >= 2 * z.least + 2,
        path.len() > 1,
        pages2.len() == pages.len() + 1,
        ({
            let x = path.last();
            let n = pages[x as int]@;
            let p = path[path.len() - 2];
            &&& rid == pages.len()
            &&& m == tree_layout::split_key(n)
            &&& pages2[x as int].wf() && pages2[rid as int].wf() && pages2[p as int].wf()
            &&& nodes_of(pages2) == nodes_of(pages).update(
                x as int,
                tree_layout::left_half(n, x, rid),
            ).push(tree_layout::right_half(n, rid)).update(
                p as int,
                tree_layout::attached(pages[p as int]@, p, m, x, rid),
            )
            &&& forall|i: int|
                0 <= i < pages.len() && i != x && i != p ==> #[trigger] pages2[i] == pages[i]
        }),
    ensures
        path_in(pages2, root, path.drop_last(), z.with_full(path.drop_last().last())),
        pages2[path[path.len() - 2] as int]@.cells.len() < ORDER ==> planted(pages2, root, z),
        same_values(pages, root, pages2, root),
        depth_of(nodes_of(pages2), root) == depth_of(nodes_of(pages), root),
{
    let nodes = nodes_of(pages);
    let nodes2 = nodes_of(pages2);
    let x = path.last();
    let p = path[path.len() - 2];
    let s = tree_layout::split_point(nodes[x as int].cells.len());
    assert(0u8 & 0x01 != 0x01) by (bit_vector);
    assert(path[path.len() - 1] == x);
    assert(spans.contains_key(p) && spans.contains_key(x));
    lemma_parent_room(pages, root, spans, path, m, rid);
    let np = nodes[p as int];
    let j = tree_paths::place(np, x);
    let spans2 = tree_steps::split_spans(spans, x, rid, m);
    assert(!spans.contains_key(rid));
    assert(spans[x].level + 1 == spans[p].level);
    assert(nodes2[x as int] == pages2[x as int]@);
    assert(nodes2[rid as int] == pages2[rid as int]@);
    assert(nodes2[p as int] == pages2[p as int]@);
    assert forall|id: u64| #[trigger] spans.contains_key(id) && id != x && id != p implies nodes2[
        id as int
    ] == nodes[id as int] by {
        assert(pages2[id as int] == pages[id as int]);
    }
    tree_steps::lemma_split(nodes, root, spans, p, j, rid, s, nodes2);
    assert(spans2[x].lo < spans2[x].hi && spans2[rid].lo < spans2[rid].hi) by {
        assert(spans2.contains_key(x) && spans2.contains_key(rid));
    }
    tree_steps::lemma_chain_split(nodes, root, spans, x, rid, m, nodes2);
    assert forall|id: u64| #[trigger] spans2.contains_key(id) implies pages2[id as int].wf()
        && z.with_full(p).admits(id, pages2[id as int]@, root) by {
        if id != rid && id != x && id != p {
            assert(spans.contains_key(id));
            assert(pages2[id as int] == pages[id as int]);
        }
    }
    assert(grown(pages2, root, spans2));
    assert(path.drop_last().last() == p);
    assert(sized(pages2, root, spans2, z.with_full(p)));
    assert forall|i: int| 0 <= i < path.len() - 1 implies spans2.contains_key(#[trigger] path[i])
        && spans2[path[i]].level == spans[path[i]].level by {
        assert(spans.contains_key(path[i]));
    }
    assert forall|i: int| 0 <= i < path.len() - 2 implies nodes2[(#[trigger] path[i]) as int]
        == nodes[path[i] as int] by {
        assert(spans.contains_key(path[i]));
    }
    tree_paths::lemma_path_prefix(nodes, root, spans, path, nodes2, spans2);
    assert(path_by(pages2, root, path.drop_last(), z.with_full(p), spans2));
    if pages2[p as int]@.cells.len() < ORDER {
        assert(sized(pages2, root, spans2, z));
    }
    lemma_depth(pages, root, spans);
    lemma_depth(pages2, root, spans2);
}

/// Splitting the root.
proof fn lemma_root_split(
    pages: Seq<Page>,
    root: u64,
    spans: Map<u64, Span>,
    path: Seq<u64>,
    rid: u64,
    m: u64,
    pages2: Seq<Page>,
    z: Sizes,
)
    requires
        path_by(pages, root, path, z.with_full(path.last()), spans),
        z.full is None && z.low is None,
        pages[path.last() as int]@.cells.len() >= 2 * z.least + 2,
        path.len() == 1,
        pages2.len() == pages.len() + 2,
        pages2.len() <= u64::MAX,
        ({
            let x = path.last();
            let n = pages[x as int]@;
            let id = (rid + 1) as u64;
            &&& rid == pages.len()
            &&& m == tree_layout::split_key(n)
            &&& pages2[x as int].wf() && pages2[rid as int].wf() && pages2.last().wf()
            &&& nodes_of(pages2) == nodes_of(pages).update(
                x as int,
                tree_layout::left_half(n, x, rid),
            ).push(tree_layout::right_half(n, rid)).push(
                Node { id, kind: PageKind::Root, flags: 0, ptr: rid, cells: seq![(m, x)] },
            )
            &&& forall|i: int| 0 <= i < pages.len() && i != x ==> #[trigger] pages2[i] == pages[i]
        }),
    ensures
        grown_from(pages, root, pages2, (pages.len() + 1) as u64, z),
        depth_of(nodes_of(pages2), (pages.len() + 1) as u64) == depth_of(nodes_of(pages), root)
            + 1,
{
    let nodes = nodes_of(pages);
    let nodes2 = nodes_of(pages2);
    let qid = (pages.len() + 1) as u64;
    let s = tree_layout::split_point(nodes[root as int].cells.len());
    assert(0u8 & 0x01 != 0x01) by (bit_vector);
    assert(path.last() == root);
    let spans2 = tree_steps::split_spans(spans, root, rid, m).insert(
        qid,
        Span { level: spans[root].level + 1, lo: 0, hi: tree_model::key_end() },
    );
    assert forall|id: u64| #[trigger] spans.contains_key(id) && id != root implies nodes2[id as int]
        == nodes[id as int] by {
        assert(pages2[id as int] == pages[id as int]);
    }
    assert(nodes2[qid as int] == pages2.last()@);
    assert(nodes2[root as int] == pages2[root as int]@);
    assert(nodes2[rid as int] == pages2[rid as int]@);
    assert(root < pages.len()) by {
        assert(spans.contains_key(root));
    }
    tree_steps::lemma_split_root(nodes, root, spans, rid, qid, s, nodes2);
    assert(spans2[root].lo < spans2[root].hi && spans2[rid].lo < spans2[rid].hi) by {
        assert(spans2.contains_key(root) && spans2.contains_key(rid));
    }
    tree_steps::lemma_chain_split(nodes, root, spans, root, rid, m, nodes2);
    tree_steps::lemma_chain_root(
        nodes2,
        tree_steps::split_spans(spans, root, rid, m),
        qid,
        spans2[qid],
    );
    assert forall|id: u64| #[trigger] spans2.contains_key(id) implies pages2[id as int].wf()
        && z.admits(id, pages2[id as int]@, qid) by {
        if id != rid && id != root && id != qid {
            assert(spans.contains_key(id));
            assert(pages2[id as int] == pages[id as int]);
        }
    }
    assert(grown(pages2, qid, spans2));
    assert(sized(pages2, qid, spans2, z));
    lemma_depth(pages, root, spans);
    lemma_depth(pages2, qid, spans2);
}

/// What holds of further steps holds of the whole.
proof fn lemma_after(
    pages: Seq<Page>,
    root: u64,
    pages2: Seq<Page>,
    root2: u64,
    pages3: Seq<Page>,
)
    requires
        same_values(pages, root, pages2, root2),
    ensures
        forall|root3: u64, z: Sizes| #[trigger]
            grown_from(pages2, root2, pages3, root3, z) ==> grown_from(
                pages,
                root,
                pages3,
                root3,
                z,
            ),
{
    assert forall|root3: u64, z: Sizes| #[trigger]
        grown_from(pages2, root2, pages3, root3, z) implies grown_from(
        pages,
        root,
        pages3,
        root3,
        z,
    ) by {
        assert forall|key: u64| #[trigger]
            tree_model::value(nodes_of(pages3), root3, key) == tree_model::value(
                nodes_of(pages),
                root,
                key,
            ) by {
            assert(tree_model::value(nodes_of(pages2), root2, key) == tree_model::value(
                nodes_of(pages),
                root,
                key,
            ));
        }
    }
}

/// Two neighbours `a` and `b` below the page `p`, which cell `i` of `p` parts.
pub open spec fn neighbours(
    pages: Seq<Page>,
    root: u64,
    spans: Map<u64, Span>,
    p: u64,
    i: int,
    a: u64,
    b: u64,
) -> bool {
    let np = pages[p as int]@;
    &&& grown(pages, root, spans)
    &&& spans.contains_key(p)
    &&& spans[p].level > 0
    &&& 0 <= i < np.cells.len()
    &&& a == tree_model::child(np, i)
    &&& b == tree_model::child(np, i + 1)
}

/// Neighbours are two pages of one level, other than their parent.
proof fn lemma_neighbours(
    pages: Seq<Page>,
    root: u64,
    spans: Map<u64, Span>,
    p: u64,
    i: int,
    a: u64,
    b: u64,
)
    requires
        neighbours(pages, root, spans, p, i, a, b),
    ensures
        a != b && a != p && b != p,
        a < pages.len() && b < pages.len() && p < pages.len(),
        spans.contains_key(a) && spans.contains_key(b),
        pages[a as int].wf() && pages[b as int].wf() && pages[p as int].wf(),
        spans[a].level == spans[b].level,
        spans[a].level + 1 == spans[p].level,
        ({
            let np = pages[p as int]@;
            let na = pages[a as int]@;
            let nb = pages[b as int]@;
            let sep = np.cells[i].0;
            &&& na.leaf_level() == (spans[a].level == 0)
            &&& nb.leaf_level() == na.leaf_level()
            &&& na.kind == (if na.leaf_level() {
                PageKind::Leaf
            } else {
                PageKind::Internal
            })
            &&& nb.kind == na.kind
            &&& !np.leaf_level()
            &&& !header::root_leaf_bit(np.flags)
            &&& slotted_page::sorted(na.cells) && slotted_page::sorted(nb.cells)
            &&& spans[a].hi == sep && spans[b].lo == sep
            &&& spans[a].lo == tree_model::fence(np, spans[p], i)
            &&& spans[b].hi == tree_model::fence(np, spans[p], i + 2)
            &&& spans[a].lo < sep < spans[b].hi
            &&& forall|k: int|
                0 <= k < na.cells.len() ==> spans[a].has((#[trigger] na.cells[k]).0 as int)
            &&& forall|k: int|
                0 <= k < nb.cells.len() ==> spans[b].has((#[trigger] nb.cells[k]).0 as int)
            &&& !na.leaf_level() ==> forall|k: int|
                0 <= k < na.cells.len() ==> spans[a].lo < (#[trigger] na.cells[k]).0
            &&& !na.leaf_level() ==> forall|k: int|
                0 <= k < nb.cells.len() ==> sep < (#[trigger] nb.cells[k]).0
        }),
{
    let nodes = nodes_of(pages);
    let np = nodes[p as int];
    assert(tree_model::child_ok(spans, spans[p], np, i, a));
    assert(tree_model::child_ok(spans, spans[p], np, i + 1, b));
    tree_steps::lemma_fences(np, spans[p], i, i + 1);
    tree_steps::lemma_fences(np, spans[p], i + 1, i + 2);
    assert(nodes[a as int] == pages[a as int]@);
    assert(nodes[b as int] == pages[b as int]@);
    assert(a != root && b != root);
}

/// The last page of a path, its parent and its neighbours.
proof fn lemma_siblings(
    pages: Seq<Page>,
    root: u64,
    spans: Map<u64, Span>,
    path: Seq<u64>,
    z: Sizes,
    s: Sibling,
)
    requires
        path_by(pages, root, path, z, spans),
        path.len() > 1,
        ({
            let np = pages[path[path.len() - 2] as int]@;
            stands_at(s, path.last(), np.cells, np.ptr)
        }),
    ensures
        ({
            let p = path[path.len() - 2];
            let u = path.last();
            let np = pages[p as int]@;
            let j = tree_paths::place(np, u);
            let left = tree_model::child(np, j - 1);
            let right = tree_model::child(np, j + 1);
            &&& s.child_idx == j
            &&& s.left == (if j > 0 {
                Some(left)
            } else {
                None
            })
            &&& s.right == (if j < np.cells.len() {
                Some(right)
            } else {
                None
            })
            &&& j > 0 ==> neighbours(pages, root, spans, p, j - 1, left, u) && left < pages.len()
                && pages[left as int].wf() && pages[left as int]@.leaf_level()
                == pages[u as int]@.leaf_level() && left != u
            &&& j < np.cells.len() ==> neighbours(pages, root, spans, p, j, u, right) && right
                < pages.len() && pages[right as int].wf()
            &&& j > 0 || j < np.cells.len() ==> pages[u as int]@.kind == tree_layout::lower_kind(
                pages[u as int]@.leaf_level(),
            )
            &&& path_by(pages, root, path.drop_last(), z, spans)
        }),
{
    let nodes = nodes_of(pages);
    let p = path[path.len() - 2];
    let u = path.last();
    assert(path[path.len() - 1] == u);
    assert(spans.contains_key(p) && spans.contains_key(u));
    assert(tree_paths::has_child(nodes[path[path.len() - 2] as int], path[path.len() - 1]));
    assert(nodes[p as int] == pages[p as int]@);
    tree_paths::lemma_path_prefix(nodes, root, spans, path, nodes, spans);
    let np = nodes[p as int];
    let j = tree_paths::place(np, u);
    let c = s.child_idx as int;
    assert(tree_model::child(np, j) == u);
    if c < np.cells.len() {
        assert(tree_model::child(np, c) == u);
    } else if j < np.cells.len() {
        assert(np.cells[j].1 == u);
    }
    assert(tree_model::child(np, c) == u);
    tree_steps::lemma_one_parent(nodes, root, spans, p, j, p, c);
    if j > 0 {
        let a = tree_model::child(np, j - 1);
        assert(neighbours(pages, root, spans, p, j - 1, a, u));
        lemma_neighbours(pages, root, spans, p, j - 1, a, u);
    }
    if j < np.cells.len() {
        let b = tree_model::child(np, j + 1);
        assert(neighbours(pages, root, spans, p, j, u, b));
        lemma_neighbours(pages, root, spans, p, j, u, b);
    }
}

/// A page that may be underfull, and its neighbours.
struct Neighbourhood {
    sibling: Sibling,
    header: IndexHeader,
    len: usize,
    left_len: usize,
    right_len: usize,
}

/// What is read of a page and its neighbours: where they are, the kind and the last
/// pointer of the page, and how many cells each has.
spec fn surrounds(h: Neighbourhood, nodes: Seq<Node>, p: u64, u: u64) -> bool {
    let np = nodes[p as int];
    let n = nodes[u as int];
    let j = tree_paths::place(np, u);
    let left = tree_model::child(np, j - 1);
    let right = tree_model::child(np, j + 1);
    &&& stands_at(h.sibling, u, np.cells, np.ptr)
    &&& 0 <= j <= np.cells.len()
    &&& h.sibling.child_idx == j
    &&& h.sibling.left == (if j > 0 {
        Some(left)
    } else {
        None
    })
    &&& h.sibling.right == (if j < np.cells.len() {
        Some(right)
    } else {
        None
    })
    &&& h.header.page_ty == n.kind
    &&& h.header.ptr == n.ptr
    &&& h.len == n.cells.len()
    &&& h.left_len == (if j > 0 {
        nodes[left as int].cells.len()
    } else {
        0
    })
    &&& h.right_len == (if j < np.cells.len() {
        nodes[right as int].cells.len()
    } else {
        0
    })
}

/// Replaces the key of a parent's cell; the pointer stays.
fn replace_separator(
    index: &mut Index,
    wal: &mut Wal,
    parent_id: u64,
    idx: usize,
    key: u64,
    child_id: u64,
    Ghost(s): Ghost<Span>,
) -> (r: Result<(), StorageError>)
    requires
        old(index).wf(),
        old(wal).wf(),
        parent_id < old(index)@.len(),
        old(index)@[parent_id as int].wf(),
        !old(index)@[parent_id as int]@.leaf_level(),
        ({
            let n = old(index)@[parent_id as int]@;
            &&& idx < n.cells.len()
            &&& n.cells[idx as int].1 == child_id
            &&& s.lo < s.hi
            &&& forall|i: int| 0 <= i < n.cells.len() ==> s.lo < (#[trigger] n.cells[i]).0 < s.hi
            &&& tree_model::fence(n, s, idx as int) < key < tree_model::fence(n, s, idx + 2)
        }),
    ensures
        final(index).wf(),
        final(wal).wf(),
        final(wal)@.flushes(old(wal)@),
        r is Ok,
        final(index)@ == old(index)@.update(parent_id as int, final(index)@[parent_id as int]),
        final(index)@[parent_id as int].wf(),
        ({
            let n = old(index)@[parent_id as int]@;
            final(index)@[parent_id as int]@ == (Node {
                flags: 0,
                cells: n.cells.update(idx as int, (key, child_id)),
                ..n
            })
        }),
{
    let mut parent_page = index.fetch_mut(wal, parent_id);
    let ghost n = parent_page@;
    match parent_page.remove_cell_at(idx) {
        Ok(_) => {},
        Err(e) => return Err(e),
    }
    let ghost rest = n.cells.remove(idx as int);
    proof {
        assert forall|i: int| 0 <= i < idx implies (#[trigger] rest[i]).0 < key by {
            assert(rest[i] == n.cells[i]);
            if i < idx - 1 {
                assert(n.cells[i].0 < n.cells[idx - 1].0);
            }
        }
        assert forall|i: int| idx <= i < rest.len() implies (#[trigger] rest[i]).0 > key by {
            assert(rest[i] == n.cells[i + 1]);
            if i > idx {
                assert(n.cells[idx + 1].0 < n.cells[i + 1].0);
            }
        }
        slotted_page::lemma_rank_unique(rest, key, idx as int);
    }
    match parent_page.add_cell(key, child_id) {
        Ok(_) => {},
        Err(e) => return Err(e),
    }
    proof {
        assert(rest.insert(idx as int, (key, child_id)) =~= n.cells.update(
            idx as int,
            (key, child_id),
        ));
    }
    index.store(wal, parent_id, parent_page);
    Ok(())
}

/// Moving cells between neighbours.
proof fn lemma_moved_cells(
    pages: Seq<Page>,
    root: u64,
    spans: Map<u64, Span>,
    p: u64,
    i: int,
    a: u64,
    b: u64,
    s: int,
    pages2: Seq<Page>,
    z: Sizes,
)
    requires
        neighbours(pages, root, spans, p, i, a, b),
        sized(pages, root, spans, z),
        z.low is None || z.low == Some(a) || z.low == Some(b),
        z.settled().admits(a, pages2[a as int]@, root),
        z.settled().admits(b, pages2[b as int]@, root),
        pages2.len() == pages.len(),
        pages2[a as int].wf() && pages2[b as int].wf() && pages2[p as int].wf(),
        ({
            let np = pages[p as int]@;
            let na = pages[a as int]@;
            let nb = pages[b as int]@;
            let all = Node {
                cells: tree_steps::joined(na, nb, np.cells[i].0),
                ptr: nb.ptr,
                flags: 0,
                ..na
            };
            &&& tree_steps::halves(all, pages2[a as int]@, pages2[b as int]@, s)
            &&& na.leaf_level() ==> pages2[a as int]@.ptr == na.ptr && pages2[b as int]@.ptr
                == nb.ptr
            &&& pages2[p as int]@ == (Node {
                flags: 0,
                cells: np.cells.update(i, (all.cells[s].0, a)),
                ..np
            })
        }),
        forall|id: int|
            0 <= id < pages.len() && id != a && id != b && id != p ==> #[trigger] pages2[id]
                == pages[id],
    ensures
        grown_from(pages, root, pages2, root, z.settled()),
        depth_of(nodes_of(pages2), root) == depth_of(nodes_of(pages), root),
{
    let nodes = nodes_of(pages);
    let nodes2 = nodes_of(pages2);
    assert(0u8 & 0x01 != 0x01) by (bit_vector);
    lemma_neighbours(pages, root, spans, p, i, a, b);
    assert(nodes[p as int] == pages[p as int]@);
    assert(nodes[a as int] == pages[a as int]@);
    assert(nodes[b as int] == pages[b as int]@);
    assert(nodes2[p as int] == pages2[p as int]@);
    assert(nodes2[a as int] == pages2[a as int]@);
    assert(nodes2[b as int] == pages2[b as int]@);
    assert forall|id: u64| #[trigger] spans.contains_key(id) && id != a && id != b && id
        != p implies nodes2[id as int] == nodes[id as int] by {
        assert(pages2[id as int] == pages[id as int]);
    }
    tree_steps::lemma_rebalance(nodes, root, spans, p, i, s, nodes2);
    let m = tree_steps::joined(
        nodes[a as int],
        nodes[b as int],
        nodes[p as int].cells[i].0,
    )[s].0;
    let spans2 = tree_steps::split_spans(tree_steps::merge_spans(spans, a, b), a, b, m);
    assert(spans2[a].lo < spans2[a].hi && spans2[b].lo < spans2[b].hi) by {
        assert(spans2.contains_key(a) && spans2.contains_key(b));
    }
    assert(tree_model::child_ok(spans, spans[p], nodes[p as int], i, a));
    assert(tree_model::child_ok(spans, spans[p], nodes[p as int], i + 1, b));
    tree_steps::lemma_chain_rebalance(nodes, root, spans, a, b, m, nodes2);
    assert forall|id: u64| #[trigger] spans2.contains_key(id) implies pages2[id as int].wf()
        && z.settled().admits(id, pages2[id as int]@, root) by {
        assert(spans.contains_key(id));
        if id != a && id != b && id != p {
            assert(pages2[id as int] == pages[id as int]);
        }
    }
    assert(grown(pages2, root, spans2));
    assert(sized(pages2, root, spans2, z.settled()));
    lemma_depth(pages, root, spans);
    lemma_depth(pages2, root, spans2);
}

/// Moving the last cell of a page to its right neighbour.
proof fn lemma_from_left(
    pages: Seq<Page>,
    root: u64,
    spans: Map<u64, Span>,
    p: u64,
    i: int,
    a: u64,
    b: u64,
    pages2: Seq<Page>,
    z: Sizes,
)
    requires
        neighbours(pages, root, spans, p, i, a, b),
        sized(pages, root, spans, z),
        z.low is None || z.low == Some(b),
        pages[a as int]@.cells.len() > 1,
        pages[a as int]@.cells.len() > z.least,
        pages[b as int]@.cells.len() + 1 >= z.least,
        z.full == Some(b) || pages[b as int]@.cells.len() + 1 < ORDER,
        nodes_of(pages2) == tree_layout::from_left(nodes_of(pages), p, i, a, b),
        pages2[a as int].wf() && pages2[b as int].wf() && pages2[p as int].wf(),
        forall|id: int|
            0 <= id < pages.len() && id != a && id != b && id != p ==> #[trigger] pages2[id]
                == pages[id],
    ensures
        grown_from(pages, root, pages2, root, z.settled()),
        depth_of(nodes_of(pages2), root) == depth_of(nodes_of(pages), root),
{
    let nodes = nodes_of(pages);
    let nodes2 = nodes_of(pages2);
    assert(0u8 & 0x01 != 0x01) by (bit_vector);
    lemma_neighbours(pages, root, spans, p, i, a, b);
    let np = nodes[p as int];
    let na = nodes[a as int];
    let nb = nodes[b as int];
    assert(np == pages[p as int]@ && na == pages[a as int]@ && nb == pages[b as int]@);
    assert(nodes2.len() == pages2.len());
    assert(nodes2[p as int] == pages2[p as int]@);
    assert(nodes2[a as int] == pages2[a as int]@);
    assert(nodes2[b as int] == pages2[b as int]@);
    let sep = np.cells[i].0;
    let all = tree_steps::joined(na, nb, sep);
    let s = na.cells.len() - 1;
    assert(all.take(s) =~= na.cells.drop_last());
    if na.leaf_level() {
        assert(all.skip(s) =~= seq![na.cells.last()] + nb.cells);
    } else {
        assert(all.skip(s + 1) =~= seq![(sep, na.ptr)] + nb.cells);
    }
    lemma_moved_cells(pages, root, spans, p, i, a, b, s, pages2, z);
}

/// Moving the first cell of a page to its left neighbour.
proof fn lemma_from_right(
    pages: Seq<Page>,
    root: u64,
    spans: Map<u64, Span>,
    p: u64,
    i: int,
    a: u64,
    b: u64,
    pages2: Seq<Page>,
    z: Sizes,
)
    requires
        neighbours(pages, root, spans, p, i, a, b),
        sized(pages, root, spans, z),
        z.low is None || z.low == Some(a),
        pages[b as int]@.cells.len() > 1,
        pages[b as int]@.cells.len() > z.least,
        pages[a as int]@.cells.len() + 1 >= z.least,
        z.full == Some(a) || pages[a as int]@.cells.len() + 1 < ORDER,
        nodes_of(pages2) == tree_layout::from_right(nodes_of(pages), p, i, a, b),
        pages2[a as int].wf() && pages2[b as int].wf() && pages2[p as int].wf(),
        forall|id: int|
            0 <= id < pages.len() && id != a && id != b && id != p ==> #[trigger] pages2[id]
                == pages[id],
    ensures
        grown_from(pages, root, pages2, root, z.settled()),
        depth_of(nodes_of(pages2), root) == depth_of(nodes_of(pages), root),
{
    let nodes = nodes_of(pages);
    let nodes2 = nodes_of(pages2);
    assert(0u8 & 0x01 != 0x01) by (bit_vector);
    lemma_neighbours(pages, root, spans, p, i, a, b);
    let np = nodes[p as int];
    let na = nodes[a as int];
    let nb = nodes[b as int];
    assert(np == pages[p as int]@ && na == pages[a as int]@ && nb == pages[b as int]@);
    assert(nodes2.len() == pages2.len());
    assert(nodes2[p as int] == pages2[p as int]@);
    assert(nodes2[a as int] == pages2[a as int]@);
    assert(nodes2[b as int] == pages2[b as int]@);
    let sep = np.cells[i].0;
    let all = tree_steps::joined(na, nb, sep);
    let s = na.cells.len() as int + 1;
    if na.leaf_level() {
        assert(all.take(s) =~= na.cells.push(nb.cells[0]));
        assert(all.skip(s) =~= nb.cells.skip(1));
    } else {
        assert(all.take(s) =~= na.cells.push((sep, na.ptr)));
        assert(all.skip(s + 1) =~= nb.cells.skip(1));
        assert(spans.contains_key(a));
    }
    lemma_moved_cells(pages, root, spans, p, i, a, b, s, pages2, z);
}

impl BplusTree {
    /// Finds the neighbours of a page among the children of its parent.
    fn find_siblings(child_id: u64, parent_cells: &Vec<Cell>, parent_hdr: &IndexHeader, Ghost(
        pairs,
    ): Ghost<Seq<(u64, u64)>>) -> (r: Result<Sibling, StorageError>)
        requires
            parent_cells@ == slotted_page::cells_of(false, pairs),
        ensures
            r matches Ok(s) && stands_at(s, child_id, pairs, parent_hdr.ptr),
    {
        let n: usize = parent_cells.len();
        let mut child_idx: usize = 0;
        while child_idx < n && parent_cells[child_idx].c_ptr != Some(child_id)
            invariant
                n == parent_cells@.len(),
                child_idx <= n,
                parent_cells@ == slotted_page::cells_of(false, pairs),
                forall|i: int| 0 <= i < child_idx ==> (#[trigger] pairs[i]).1 != child_id,
            decreases n - child_idx,
        {
            assert(parent_cells@[child_idx as int] == slotted_page::cell_of(
                false,
                pairs[child_idx as int],
            ));
            child_idx = child_idx + 1;
        }
        proof {
            if child_idx < n {
                assert(parent_cells@[child_idx as int] == slotted_page::cell_of(
                    false,
                    pairs[child_idx as int],
                ));
            }
            if child_idx > 0 {
                assert(parent_cells@[child_idx - 1] == slotted_page::cell_of(
                    false,
                    pairs[child_idx - 1],
                ));
            }
            if child_idx + 1 < n {
                assert(parent_cells@[child_idx + 1] == slotted_page::cell_of(
                    false,
                    pairs[child_idx + 1],
                ));
            }
        }
        let left = if child_idx > 0 {
            parent_cells[child_idx - 1].c_ptr
        } else {
            None
        };
        let right = if child_idx < n && n - child_idx > 1 {
            parent_cells[child_idx + 1].c_ptr
        } else if child_idx < n {
            Some(parent_hdr.ptr)
        } else {
            None
        };
        Ok(Sibling { child_idx, left, right })
    }

    /// Moves the last cell of the left neighbour to an underfull page.
    #[verifier::rlimit(40)]
    fn redistribute_from_left(
        &mut self,
        left_id: u64,
        underfull_id: u64,
        parent_id: u64,
        child_idx: usize,
        underfull_hdr: &IndexHeader,
        Ghost(spans): Ghost<Map<u64, Span>>,
        Ghost(z): Ghost<Sizes>,
    ) -> (r: Result<(), StorageError>)
        requires
            old(self).pager.index.wf(),
            old(self).pager.wal.wf(),
            child_idx > 0,
            neighbours(
                old(self).pages(),
                old(self).root(),
                spans,
                parent_id,
                child_idx - 1,
                left_id,
                underfull_id,
            ),
            old(self).pages()[left_id as int]@.cells.len() > 1,
            sized(old(self).pages(), old(self).root(), spans, z),
            z.low is None || z.low == Some(underfull_id),
            old(self).pages()[left_id as int]@.cells.len() > z.least,
            old(self).pages()[underfull_id as int]@.cells.len() + 1 >= z.least,
            old(self).pages()[underfull_id as int]@.cells.len() < ORDER,
            z.full == Some(underfull_id) || old(self).pages()[underfull_id as int]@.cells.len() + 1
                < ORDER,
            underfull_hdr.page_ty == old(self).pages()[underfull_id as int]@.kind,
            underfull_hdr.ptr == old(self).pages()[underfull_id as int]@.ptr,
        ensures
            final(self).pager.index.wf(),
            final(self).pager.heap == old(self).pager.heap,
            final(self).pager.wal.wf(),
            final(self).pager.wal@.flushes(old(self).pager.wal@),
            final(self).root() == old(self).root(),
            r is Ok,
            final(self).nodes() == tree_layout::from_left(
                old(self).nodes(),
                parent_id,
                child_idx - 1,
                left_id,
                underfull_id,
            ),
            grown_from(
                old(self).pages(),
                old(self).root(),
                final(self).pages(),
                final(self).root(),
                z.settled(),
            ),
            final(self).depth() == old(self).depth(),
    {
        let ghost root = self.root();
        let ghost pages0 = self.pages();
        let ghost i = child_idx - 1;
        let ghost np = pages0[parent_id as int]@;
        let ghost na = pages0[left_id as int]@;
        let ghost nb = pages0[underfull_id as int]@;
        let ghost sep = np.cells[i].0;
        proof {
            lemma_neighbours(pages0, root, spans, parent_id, i, left_id, underfull_id);
            assert(0u8 & 0x01 != 0x01) by (bit_vector);
        }
        let is_leaf: bool = underfull_hdr.page_ty == PageKind::Leaf;
        let separator_idx: usize = child_idx - 1;
        let mut left_page = self.pager.index.fetch_mut(&mut self.pager.wal, left_id);
        let last_idx: usize = match left_page.num_cells() {
            Ok(n) => n - 1,
            Err(e) => return Err(e),
        };
        let borrowed_cell: Cell = match left_page.remove_cell_at(last_idx) {
            Ok(c) => c,
            Err(e) => return Err(e),
        };
        self.pager.index.store(&mut self.pager.wal, left_id, left_page);
        let ghost borrowed = na.cells[last_idx as int];
        assert(na.cells.remove(last_idx as int) =~= na.cells.take(last_idx as int));
        assert(spans[left_id].lo < borrowed.0 < sep) by {
            assert(spans[left_id].has(na.cells[last_idx as int].0 as int));
            assert(spans[left_id].has(na.cells[0].0 as int));
            assert(na.cells[0].0 < na.cells[last_idx as int].0);
        }
        if is_leaf {
            let mut underfull_page = self.pager.index.fetch_mut(&mut self.pager.wal, underfull_id);
            let value: u64 = borrowed_cell.h_ptr.unwrap().index;
            proof {
                assert forall|k: int| 0 <= k < nb.cells.len() implies (#[trigger] nb.cells[k]).0
                    > borrowed.0 by {
                    assert(spans[underfull_id].has(nb.cells[k].0 as int));
                }
                slotted_page::lemma_rank_unique(nb.cells, borrowed.0, 0);
            }
            match underfull_page.add_cell(borrowed_cell.key, value) {
                Ok(_) => {},
                Err(e) => return Err(e),
            }
            self.pager.index.store(&mut self.pager.wal, underfull_id, underfull_page);
            let underfull_page = self.pager.index.fetch(&mut self.pager.wal, underfull_id);
            let new_separator: u64 = match underfull_page.get_cells() {
                Ok(cells) => cells[0].key,
                Err(e) => return Err(e),
            };
            assert(new_separator == borrowed.0);
            match replace_separator(
                &mut self.pager.index,
                &mut self.pager.wal,
                parent_id,
                separator_idx,
                new_separator,
                left_id,
                Ghost(spans[parent_id]),
            ) {
                Ok(()) => {},
                Err(e) => return Err(e),
            }
            proof {
                let s = tree_layout::shift_right(na, nb, sep, underfull_id);
                assert(na.cells.drop_last() =~= na.cells.take(last_idx as int));
                assert(seq![borrowed] + nb.cells =~= nb.cells.insert(0, borrowed));
                assert(self.pages()[left_id as int]@ == s.a);
                assert(self.pages()[underfull_id as int]@ == s.b);
            }
        } else {
            let parent_page = self.pager.index.fetch(&mut self.pager.wal, parent_id);
            let parent_sep_key: u64 = match parent_page.get_cells() {
                Ok(cells) => cells[separator_idx].key,
                Err(e) => return Err(e),
            };
            assert(parent_sep_key == sep);
            let left_page = self.pager.index.fetch(&mut self.pager.wal, left_id);
            let left_old_rightmost: u64 = match left_page.header() {
                Ok(h) => h.ptr,
                Err(e) => return Err(e),
            };
            let underfull_page = self.pager.index.fetch(&mut self.pager.wal, underfull_id);
            let mut underfull_cells = match underfull_page.get_cells() {
                Ok(cells) => cells,
                Err(e) => return Err(e),
            };
            let mut all_cells: Vec<Cell> = Vec::new();
            all_cells.push(
                Cell { key: parent_sep_key, c_ptr: Some(left_old_rightmost), h_ptr: None },
            );
            all_cells.append(&mut underfull_cells);
            let ghost pairs = nb.cells.insert(0, (sep, na.ptr));
            proof {
                assert(all_cells@ =~= slotted_page::cells_of(false, pairs));
                assert(slotted_page::sorted(pairs)) by {
                    assert forall|x: int, y: int| 0 <= x < y < pairs.len() implies (
                    #[trigger] pairs[x]).0 < (#[trigger] pairs[y]).0 by {
                        assert(pairs[y] == nb.cells[y - 1]);
                        if x > 0 {
                            assert(pairs[x] == nb.cells[x - 1]);
                        }
                    }
                }
            }
            match rebuild_page(
                &mut self.pager.index,
                &mut self.pager.wal,
                underfull_id,
                &all_cells,
                underfull_hdr.page_ty,
                underfull_hdr.ptr,
                Ghost(pairs),
            ) {
                Ok(()) => {},
                Err(e) => return Err(e),
            }
            match replace_separator(
                &mut self.pager.index,
                &mut self.pager.wal,
                parent_id,
                separator_idx,
                borrowed_cell.key,
                left_id,
                Ghost(spans[parent_id]),
            ) {
                Ok(()) => {},
                Err(e) => return Err(e),
            }
            let mut left_page = self.pager.index.fetch_mut(&mut self.pager.wal, left_id);
            if let Some(c) = borrowed_cell.c_ptr {
                match left_page.set_header_ptr(c) {
                    Ok(()) => {},
                    Err(e) => return Err(e),
                }
            }
            self.pager.index.store(&mut self.pager.wal, left_id, left_page);
            proof {
                let s = tree_layout::shift_right(na, nb, sep, underfull_id);
                assert(na.cells.drop_last() =~= na.cells.take(last_idx as int));
                assert(seq![(sep, na.ptr)] + nb.cells =~= pairs);
                assert(self.pages()[left_id as int]@ == s.a);
                assert(self.pages()[underfull_id as int]@ == s.b);
            }
        }
        proof {
            assert(nodes_of(pages0)[parent_id as int] == np);
            assert(nodes_of(pages0)[left_id as int] == na);
            assert(nodes_of(pages0)[underfull_id as int] == nb);
            assert(self.nodes() =~= tree_layout::from_left(
                nodes_of(pages0),
                parent_id,
                i,
                left_id,
                underfull_id,
            ));
            lemma_from_left(
                pages0,
                root,
                spans,
                parent_id,
                i,
                left_id,
                underfull_id,
                self.pages(),
                z,
            );
        }
        Ok(())
    }

    /// Moves the first cell of the right neighbour to an underfull page.
    #[verifier::rlimit(40)]
    fn redistribute_from_right(
        &mut self,
        underfull_id: u64,
        right_id: u64,
        parent_id: u64,
        child_idx: usize,
        underfull_hdr: &IndexHeader,
        Ghost(spans): Ghost<Map<u64, Span>>,
        Ghost(z): Ghost<Sizes>,
    ) -> (r: Result<(), StorageError>)
        requires
            old(self).pager.index.wf(),
            old(self).pager.wal.wf(),
            neighbours(
                old(self).pages(),
                old(self).root(),
                spans,
                parent_id,
                child_idx as int,
                underfull_id,
                right_id,
            ),
            old(self).pages()[right_id as int]@.cells.len() > 1,
            sized(old(self).pages(), old(self).root(), spans, z),
            z.low is None || z.low == Some(underfull_id),
            old(self).pages()[right_id as int]@.cells.len() > z.least,
            old(self).pages()[underfull_id as int]@.cells.len() + 1 >= z.least,
            old(self).pages()[underfull_id as int]@.cells.len() < ORDER,
            z.full == Some(underfull_id) || old(self).pages()[underfull_id as int]@.cells.len() + 1
                < ORDER,
            underfull_hdr.page_ty == old(self).pages()[underfull_id as int]@.kind,
        ensures
            final(self).pager.index.wf(),
            final(self).pager.heap == old(self).pager.heap,
            final(self).pager.wal.wf(),
            final(self).pager.wal@.flushes(old(self).pager.wal@),
            final(self).root() == old(self).root(),
            r is Ok,
            final(self).nodes() == tree_layout::from_right(
                old(self).nodes(),
                parent_id,
                child_idx as int,
                underfull_id,
                right_id,
            ),
            grown_from(
                old(self).pages(),
                old(self).root(),
                final(self).pages(),
                final(self).root(),
                z.settled(),
            ),
            final(self).depth() == old(self).depth(),
    {
        let ghost root = self.root();
        let ghost pages0 = self.pages();
        let ghost i = child_idx as int;
        let ghost np = pages0[parent_id as int]@;
        let ghost na = pages0[underfull_id as int]@;
        let ghost nb = pages0[right_id as int]@;
        let ghost sep = np.cells[i].0;
        proof {
            lemma_neighbours(pages0, root, spans, parent_id, i, underfull_id, right_id);
            assert(0u8 & 0x01 != 0x01) by (bit_vector);
        }
        let is_leaf: bool = underfull_hdr.page_ty == PageKind::Leaf;
        let separator_idx: usize = child_idx;
        let mut right_page = self.pager.index.fetch_mut(&mut self.pager.wal, right_id);
        let borrowed_cell: Cell = match right_page.remove_cell_at(0) {
            Ok(c) => c,
            Err(e) => return Err(e),
        };
        self.pager.index.store(&mut self.pager.wal, right_id, right_page);
        let ghost borrowed = nb.cells[0];
        proof {
            assert(nb.cells.remove(0) =~= nb.cells.skip(1));
            assert(spans[right_id].has(nb.cells[0].0 as int));
            assert(spans[right_id].has(nb.cells[1].0 as int));
            assert(nb.cells[0].0 < nb.cells[1].0);
        }
        if is_leaf {
            let mut underfull_page = self.pager.index.fetch_mut(&mut self.pager.wal, underfull_id);
            let value: u64 = borrowed_cell.h_ptr.unwrap().index;
            proof {
                assert forall|k: int| 0 <= k < na.cells.len() implies (#[trigger] na.cells[k]).0
                    < borrowed.0 by {
                    assert(spans[underfull_id].has(na.cells[k].0 as int));
                }
                slotted_page::lemma_rank_unique(
                    na.cells,
                    borrowed.0,
                    na.cells.len() as int,
                );
            }
            match underfull_page.add_cell(borrowed_cell.key, value) {
                Ok(_) => {},
                Err(e) => return Err(e),
            }
            self.pager.index.store(&mut self.pager.wal, underfull_id, underfull_page);
            let right_page = self.pager.index.fetch(&mut self.pager.wal, right_id);
            let new_separator: u64 = match right_page.get_cells() {
                Ok(cells) => cells[0].key,
                Err(e) => return Err(e),
            };
            assert(new_separator == nb.cells[1].0);
            match replace_separator(
                &mut self.pager.index,
                &mut self.pager.wal,
                parent_id,
                separator_idx,
                new_separator,
                underfull_id,
                Ghost(spans[parent_id]),
            ) {
                Ok(()) => {},
                Err(e) => return Err(e),
            }
            proof {
                let shift = tree_layout::shift_left(na, nb, sep);
                assert(na.cells.push(borrowed) =~= na.cells.insert(
                    na.cells.len() as int,
                    borrowed,
                ));
                assert(self.pages()[underfull_id as int]@ == shift.a);
                assert(self.pages()[right_id as int]@ == shift.b);
            }
        } else {
            let parent_page = self.pager.index.fetch(&mut self.pager.wal, parent_id);
            let parent_sep_key: u64 = match parent_page.get_cells() {
                Ok(cells) => cells[separator_idx].key,
                Err(e) => return Err(e),
            };
            assert(parent_sep_key == sep);
            let borrowed_left_child: u64 = match borrowed_cell.c_ptr {
                Some(c) => c,
                None => return Err(StorageError::MissingChildPointer),
            };
            let mut underfull_page = self.pager.index.fetch_mut(&mut self.pager.wal, underfull_id);
            let old_ptr: u64 = match underfull_page.header() {
                Ok(h) => h.ptr,
                Err(e) => return Err(e),
            };
            proof {
                assert forall|k: int| 0 <= k < na.cells.len() implies (#[trigger] na.cells[k]).0
                    < sep by {
                    assert(spans[underfull_id].has(na.cells[k].0 as int));
                }
                slotted_page::lemma_rank_unique(na.cells, sep, na.cells.len() as int);
            }
            match underfull_page.add_cell(parent_sep_key, old_ptr) {
                Ok(_) => {},
                Err(e) => return Err(e),
            }
            match underfull_page.set_header_ptr(borrowed_left_child) {
                Ok(()) => {},
                Err(e) => return Err(e),
            }
            self.pager.index.store(&mut self.pager.wal, underfull_id, underfull_page);
            match replace_separator(
                &mut self.pager.index,
                &mut self.pager.wal,
                parent_id,
                separator_idx,
                borrowed_cell.key,
                underfull_id,
                Ghost(spans[parent_id]),
            ) {
                Ok(()) => {},
                Err(e) => return Err(e),
            }
            proof {
                assert(!header::root_leaf_bit(na.flags)) by {
                    assert(spans.contains_key(underfull_id));
                    assert(nodes_of(pages0)[underfull_id as int] == na);
                }
                let shift = tree_layout::shift_left(na, nb, sep);
                assert(na.cells.push((sep, na.ptr)) =~= na.cells.insert(
                    na.cells.len() as int,
                    (sep, na.ptr),
                ));
                assert(self.pages()[underfull_id as int]@ == shift.a);
                assert(self.pages()[right_id as int]@ == shift.b);
            }
        }
        proof {
            assert(nodes_of(pages0)[parent_id as int] == np);
            assert(nodes_of(pages0)[underfull_id as int] == na);
            assert(nodes_of(pages0)[right_id as int] == nb);
            assert(self.nodes() =~= tree_layout::from_right(
                nodes_of(pages0),
                parent_id,
                i,
                underfull_id,
                right_id,
            ));
            lemma_from_right(
                pages0,
                root,
                spans,
                parent_id,
                i,
                underfull_id,
                right_id,
                self.pages(),
                z,
            );
        }
        Ok(())
    }
}

/// Merging neighbours that fit on one page.
proof fn lemma_merged(
    pages: Seq<Page>,
    root: u64,
    spans: Map<u64, Span>,
    p: u64,
    i: int,
    a: u64,
    b: u64,
    path: Seq<u64>,
    pages2: Seq<Page>,
    z: Sizes,
)
    requires
        neighbours(pages, root, spans, p, i, a, b),
        path_by(pages, root, path, z, spans),
        z.low is None || z.low == Some(a) || z.low == Some(b),
        path.last() == p,
        nodes_of(pages2) == tree_layout::merged(nodes_of(pages), p, i, a, b),
        pages2[a as int].wf() && pages2[p as int].wf(),
        z.full == Some(a) || tree_layout::both(nodes_of(pages), p, i, a, b).len() < ORDER,
        tree_layout::both(nodes_of(pages), p, i, a, b).len() >= z.least,
        forall|id: int|
            0 <= id < pages.len() && id != a && id != p ==> #[trigger] pages2[id] == pages[id],
    ensures
        path_in(pages2, root, path, z.with_low(p)),
        same_values(pages, root, pages2, root),
        depth_of(nodes_of(pages2), root) == depth_of(nodes_of(pages), root),
{
    let nodes = nodes_of(pages);
    let nodes2 = nodes_of(pages2);
    assert(0u8 & 0x01 != 0x01) by (bit_vector);
    lemma_neighbours(pages, root, spans, p, i, a, b);
    assert(nodes[p as int] == pages[p as int]@);
    assert(nodes[a as int] == pages[a as int]@);
    assert(nodes[b as int] == pages[b as int]@);
    assert(nodes2.len() == pages2.len());
    assert(nodes2[p as int] == pages2[p as int]@);
    assert(nodes2[a as int] == pages2[a as int]@);
    assert(tree_steps::parent_of_merged(nodes[p as int], nodes2[p as int], i, a, b));
    assert forall|id: u64| #[trigger] spans.contains_key(id) && id != a && id != p implies nodes2[
        id as int
    ] == nodes[id as int] by {
        assert(pages2[id as int] == pages[id as int]);
    }
    tree_steps::lemma_merge(nodes, root, spans, p, i, nodes2);
    let spans2 = tree_steps::merge_spans(spans, a, b);
    assert(tree_model::child_ok(spans, spans[p], nodes[p as int], i, a));
    assert(tree_model::child_ok(spans, spans[p], nodes[p as int], i + 1, b));
    tree_steps::lemma_chain_merge(nodes, root, spans, a, b, nodes2);
    assert forall|id: u64| #[trigger] spans2.contains_key(id) implies pages2[id as int].wf()
        && z.with_low(p).admits(id, pages2[id as int]@, root) by {
        assert(spans.contains_key(id));
        if id != a && id != p {
            assert(pages2[id as int] == pages[id as int]);
        }
    }
    assert(grown(pages2, root, spans2));
    assert(sized(pages2, root, spans2, z.with_low(p)));
    lemma_depth(pages, root, spans);
    lemma_depth(pages2, root, spans2);
    assert(path[path.len() - 1] == p);
    assert forall|k: int| 0 <= k < path.len() implies spans2.contains_key(#[trigger] path[k])
        && spans2[path[k]].level + k == spans2[root].level by {
        assert(spans.contains_key(path[k]));
        assert(spans[path[path.len() - 1]].level + (path.len() - 1) == spans[root].level);
        assert(spans[path[k]].level >= spans[p].level);
        assert(path[k] != a && path[k] != b);
    }
    assert forall|k: int| 0 < k < path.len() implies tree_paths::has_child(
        nodes2[path[k - 1] as int],
        #[trigger] path[k],
    ) by {
        assert(tree_paths::has_child(nodes[path[k - 1] as int], path[k]));
        assert(spans.contains_key(path[k - 1]));
        assert(spans[path[path.len() - 1]].level + (path.len() - 1) == spans[root].level);
        assert(spans[path[k - 1]].level + (k - 1) == spans[root].level);
        assert(path[k - 1] != a && path[k - 1] != p);
    }
    assert(tree_paths::path_ok(nodes2, root, spans2, path));
    assert(path_by(pages2, root, path, z.with_low(p), spans2));
}

impl BplusTree {
    /// The nodes, the root and what is left of a path are as after a refill.
    pub open spec fn refilled(self, refill: tree_layout::Refill, path: Seq<u64>) -> bool {
        &&& self.nodes() == refill.nodes
        &&& self.root() == refill.root
        &&& path == refill.path
    }

    /// The other tree holds the same, its pages have the given sizes, it has as many
    /// pages, and searches pass no more of them.
    pub open spec fn regrown(self, other: BplusTree, z: Sizes) -> bool {
        &&& grown_from(self.pages(), self.root(), other.pages(), other.root(), z)
        &&& other.pages().len() == self.pages().len()
        &&& other.depth() <= self.depth()
    }

    /// Merges a page into its left neighbour, and brings the parent back to
    /// size.
    fn merge_with_left(
        &mut self,
        left_id: u64,
        underfull_id: u64,
        parent_id: u64,
        child_idx: usize,
        ancestors: &mut Vec<u64>,
        Ghost(spans): Ghost<Map<u64, Span>>,
        Ghost(z): Ghost<Sizes>,
    ) -> (r: Result<(), StorageError>)
        requires
            old(self).pager.index.wf(),
            old(self).pager.wal.wf(),
            child_idx > 0,
            neighbours(
                old(self).pages(),
                old(self).root(),
                spans,
                parent_id,
                child_idx - 1,
                left_id,
                underfull_id,
            ),
            path_by(old(self).pages(), old(self).root(), old(ancestors)@, z, spans),
            z.low is None || z.low == Some(left_id) || z.low == Some(underfull_id),
            z.least <= LEAST,
            old(ancestors)@.last() == parent_id,
            ({
                let n = tree_layout::both(
                    old(self).nodes(),
                    parent_id,
                    child_idx - 1,
                    left_id,
                    underfull_id,
                ).len();
                &&& n < ORDER || n == ORDER && z.full == Some(left_id)
                &&& n >= z.least
            }),
        ensures
            final(self).pager.index.wf(),
            final(self).pager.heap == old(self).pager.heap,
            final(self).pager.wal.wf(),
            final(self).pager.wal@.flushes(old(self).pager.wal@),
            r is Ok,
            final(self).refilled(
                tree_layout::merge_up(
                    old(self).nodes(),
                    old(self).root(),
                    old(ancestors)@,
                    child_idx - 1,
                    left_id,
                    underfull_id,
                ),
                final(ancestors)@,
            ),
            old(self).regrown(*final(self), z.settled()),
        decreases old(ancestors)@.len(), 2int,
    {
        self.merge_pair(
            left_id,
            underfull_id,
            parent_id,
            child_idx - 1,
            ancestors,
            Ghost(spans),
            Ghost(z),
        )
    }

    /// Merges the right neighbour into a page, and brings the parent back to
    /// size.
    fn merge_with_right(
        &mut self,
        underfull_id: u64,
        right_id: u64,
        parent_id: u64,
        child_idx: usize,
        ancestors: &mut Vec<u64>,
        Ghost(spans): Ghost<Map<u64, Span>>,
        Ghost(z): Ghost<Sizes>,
    ) -> (r: Result<(), StorageError>)
        requires
            old(self).pager.index.wf(),
            old(self).pager.wal.wf(),
            neighbours(
                old(self).pages(),
                old(self).root(),
                spans,
                parent_id,
                child_idx as int,
                underfull_id,
                right_id,
            ),
            path_by(old(self).pages(), old(self).root(), old(ancestors)@, z, spans),
            z.low is None || z.low == Some(underfull_id) || z.low == Some(right_id),
            z.least <= LEAST,
            old(ancestors)@.last() == parent_id,
            ({
                let n = tree_layout::both(
                    old(self).nodes(),
                    parent_id,
                    child_idx as int,
                    underfull_id,
                    right_id,
                ).len();
                &&& n < ORDER || n == ORDER && z.full == Some(underfull_id)
                &&& n >= z.least
            }),
        ensures
            final(self).pager.index.wf(),
            final(self).pager.heap == old(self).pager.heap,
            final(self).pager.wal.wf(),
            final(self).pager.wal@.flushes(old(self).pager.wal@),
            r is Ok,
            final(self).refilled(
                tree_layout::merge_up(
                    old(self).nodes(),
                    old(self).root(),
                    old(ancestors)@,
                    child_idx as int,
                    underfull_id,
                    right_id,
                ),
                final(ancestors)@,
            ),
            old(self).regrown(*final(self), z.settled()),
        decreases old(ancestors)@.len(), 2int,
    {
        self.merge_pair(
            underfull_id,
            right_id,
            parent_id,
            child_idx,
            ancestors,
            Ghost(spans),
            Ghost(z),
        )
    }

    /// Merges the page `right_id` into its left neighbour `left_id`, which cell
    /// `separator_idx` of their parent parts, and brings the parent back to
    /// size.
    fn merge_pair(
        &mut self,
        left_id: u64,
        right_id: u64,
        parent_id: u64,
        separator_idx: usize,
        ancestors: &mut Vec<u64>,
        Ghost(spans): Ghost<Map<u64, Span>>,
        Ghost(z): Ghost<Sizes>,
    ) -> (r: Result<(), StorageError>)
        requires
            old(self).pager.index.wf(),
            old(self).pager.wal.wf(),
            neighbours(
                old(self).pages(),
                old(self).root(),
                spans,
                parent_id,
                separator_idx as int,
                left_id,
                right_id,
            ),
            path_by(old(self).pages(), old(self).root(), old(ancestors)@, z, spans),
            z.low is None || z.low == Some(left_id) || z.low == Some(right_id),
            z.least <= LEAST,
            old(ancestors)@.last() == parent_id,
            ({
                let n = tree_layout::both(
                    old(self).nodes(),
                    parent_id,
                    separator_idx as int,
                    left_id,
                    right_id,
                ).len();
                &&& n < ORDER || n == ORDER && z.full == Some(left_id)
                &&& n >= z.least
            }),
        ensures
            final(self).pager.index.wf(),
            final(self).pager.heap == old(self).pager.heap,
            final(self).pager.wal.wf(),
            final(self).pager.wal@.flushes(old(self).pager.wal@),
            r is Ok,
            final(self).refilled(
                tree_layout::merge_up(
                    old(self).nodes(),
                    old(self).root(),
                    old(ancestors)@,
                    separator_idx as int,
                    left_id,
                    right_id,
                ),
                final(ancestors)@,
            ),
            old(self).regrown(*final(self), z.settled()),
        decreases old(ancestors)@.len(), 1int,
    {
        let ghost root = self.root();
        let ghost pages0 = self.pages();
        let ghost i = separator_idx as int;
        let ghost np = pages0[parent_id as int]@;
        let ghost na = pages0[left_id as int]@;
        let ghost nb = pages0[right_id as int]@;
        let ghost sep = np.cells[i].0;
        let ghost pairs = tree_steps::joined(na, nb, sep);
        proof {
            lemma_neighbours(pages0, root, spans, parent_id, i, left_id, right_id);
            assert(0u8 & 0x01 != 0x01) by (bit_vector);
            assert(nodes_of(pages0)[left_id as int] == na);
            assert(nodes_of(pages0)[right_id as int] == nb);
            assert(nodes_of(pages0)[parent_id as int] == np);
            assert(ancestors@[ancestors@.len() - 1] == parent_id);
        }
        let left_page = self.pager.index.fetch(&mut self.pager.wal, left_id);
        let right_page = self.pager.index.fetch(&mut self.pager.wal, right_id);
        let left_hdr = match left_page.header() {
            Ok(h) => h,
            Err(e) => return Err(e),
        };
        let right_hdr = match right_page.header() {
            Ok(h) => h,
            Err(e) => return Err(e),
        };
        let is_leaf: bool = left_hdr.page_ty == PageKind::Leaf;
        let mut merged = match left_page.get_cells() {
            Ok(cells) => cells,
            Err(e) => return Err(e),
        };
        let mut right_cells = match right_page.get_cells() {
            Ok(cells) => cells,
            Err(e) => return Err(e),
        };
        let kind = if is_leaf {
            PageKind::Leaf
        } else {
            let parent_page = self.pager.index.fetch(&mut self.pager.wal, parent_id);
            let parent_sep_key: u64 = match parent_page.get_cells() {
                Ok(cells) => cells[separator_idx].key,
                Err(e) => return Err(e),
            };
            merged.push(Cell { key: parent_sep_key, c_ptr: Some(left_hdr.ptr), h_ptr: None });
            PageKind::Internal
        };
        merged.append(&mut right_cells);
        proof {
            assert(merged@ =~= slotted_page::cells_of(is_leaf, pairs));
            lemma_joined_sorted(na, nb, sep, spans[left_id], spans[right_id]);
        }
        match rebuild_page(
            &mut self.pager.index,
            &mut self.pager.wal,
            left_id,
            &merged,
            kind,
            right_hdr.ptr,
            Ghost(pairs),
        ) {
            Ok(()) => {},
            Err(e) => return Err(e),
        }
        let ghost pages1 = self.pages();
        let mut parent_page = self.pager.index.fetch_mut(&mut self.pager.wal, parent_id);
        match parent_page.remove_cell_at(separator_idx) {
            Ok(_) => {},
            Err(e) => return Err(e),
        }
        let ghost rest = np.cells.remove(i);
        let ghost fixed = tree_steps::redirect(rest, right_id, left_id);
        let parent_hdr_after = match parent_page.header() {
            Ok(h) => h,
            Err(e) => return Err(e),
        };
        let parent_cells_after = match parent_page.get_cells() {
            Ok(cells) => cells,
            Err(e) => return Err(e),
        };
        let fixed_cells = redirect_cells(&parent_cells_after, right_id, left_id, Ghost(rest));
        let fixed_ptr: u64 = if parent_hdr_after.ptr == right_id {
            left_id
        } else {
            parent_hdr_after.ptr
        };
        proof {
            assert(slotted_page::sorted(fixed)) by {
                assert forall|x: int, y: int| 0 <= x < y < fixed.len() implies (
                #[trigger] fixed[x]).0 < (#[trigger] fixed[y]).0 by {
                    assert(rest[x].0 < rest[y].0);
                }
            }
            slotted_page::lemma_build_sorted(false, fixed);
        }
        match parent_page.rebuild_from_cells(
            &fixed_cells,
            parent_hdr_after.page_ty,
            parent_id,
            fixed_ptr,
        ) {
            Ok(()) => {},
            Err(e) => return Err(e),
        }
        self.pager.index.store(&mut self.pager.wal, parent_id, parent_page);
        let ghost pages2 = self.pages();
        proof {
            assert(parent_page@.cells == fixed);
            assert(nodes_of(pages2) =~= tree_layout::merged(
                nodes_of(pages0),
                parent_id,
                i,
                left_id,
                right_id,
            ));
            lemma_merged(
                pages0,
                root,
                spans,
                parent_id,
                i,
                left_id,
                right_id,
                ancestors@,
                pages2,
                z,
            );
            assert(nodes_of(pages2)[parent_id as int] == parent_page@);
        }
        let r = self.check_parent_underfull(
            parent_id,
            ancestors,
            Ghost(z.with_low(parent_id)),
        );
        proof {
            lemma_after(pages0, root, pages2, root, self.pages());
        }
        r
    }

    /// A root without cells makes way for its only child.
    fn shrink_root(&mut self, Ghost(spans): Ghost<Map<u64, Span>>, Ghost(z): Ghost<Sizes>) -> (r:
        Result<(), StorageError>)
        requires
            old(self).pager.index.wf(),
            old(self).pager.wal.wf(),
            grown(old(self).pages(), old(self).root(), spans),
            sized(old(self).pages(), old(self).root(), spans, z),
            spans[old(self).root()].level > 0,
            z.low is None || z.low == Some(old(self).root()),
        ensures
            final(self).pager.index.wf(),
            final(self).pager.heap == old(self).pager.heap,
            final(self).pager.wal.wf(),
            final(self).pager.wal@.flushes(old(self).pager.wal@),
            r is Ok,
            ({
                let nodes = old(self).nodes();
                let n = nodes[old(self).root() as int];
                if n.cells.len() == 0 {
                    &&& final(self).nodes() == nodes.update(
                        n.ptr as int,
                        tree_layout::rooted(nodes[n.ptr as int]),
                    )
                    &&& final(self).root() == n.ptr
                } else {
                    &&& final(self).nodes() == nodes
                    &&& final(self).root() == old(self).root()
                }
            }),
            old(self).regrown(*final(self), z.settled()),
    {
        let ghost root = self.root();
        let ghost pages0 = self.pages();
        let root_id: u64 = self.root_id;
        proof {
            assert(spans.contains_key(root_id));
            assert(nodes_of(pages0)[root_id as int] == pages0[root_id as int]@);
        }
        let root_page = self.pager.index.fetch(&mut self.pager.wal, root_id);
        let root_cells_empty: bool = match root_page.num_cells() {
            Ok(n) => n == 0,
            Err(e) => return Err(e),
        };
        let new_root_id: u64 = match root_page.header() {
            Ok(h) => h.ptr,
            Err(e) => return Err(e),
        };
        if root_cells_empty {
            proof {
                let nr = nodes_of(pages0)[root as int];
                assert(tree_model::child(nr, 0) == new_root_id);
                assert(tree_model::child_ok(spans, spans[root], nr, 0, new_root_id));
            }
            let mut new_root = self.pager.index.fetch_mut(&mut self.pager.wal, new_root_id);
            match new_root.set_page_kind(PageKind::Root) {
                Ok(()) => {},
                Err(e) => return Err(e),
            }
            self.pager.index.store(&mut self.pager.wal, new_root_id, new_root);
            self.root_id = new_root_id;
            proof {
                lemma_nodes_update(pages0, new_root_id as int, new_root);
                assert(nodes_of(pages0)[new_root_id as int] == pages0[new_root_id as int]@);
                lemma_collapsed(pages0, root, spans, new_root, self.pages(), z);
            }
        }
        proof {
            if pages0[root_id as int]@.cells.len() > 0 {
                assert(sized(pages0, root, spans, z.settled()));
                assert(planted(pages0, root, z.settled()));
            }
        }
        Ok(())
    }

    /// Brings a page that gave up a cell back to size. A root without cells
    /// makes way for its only child.
    fn check_parent_underfull(
        &mut self,
        parent_id: u64,
        ancestors: &mut Vec<u64>,
        Ghost(z): Ghost<Sizes>,
    ) -> (r: Result<(), StorageError>)
        requires
            old(self).pager.index.wf(),
            old(self).pager.wal.wf(),
            path_in(old(self).pages(), old(self).root(), old(ancestors)@, z),
            z.low is None || z.low == Some(parent_id),
            z.least <= LEAST,
            parent_id == old(self).root() || old(self).pages()[parent_id as int]@.cells.len() + 1
                >= z.least,
            old(ancestors)@.last() == parent_id,
            !old(self).pages()[parent_id as int]@.leaf_level(),
        ensures
            final(self).pager.index.wf(),
            final(self).pager.heap == old(self).pager.heap,
            final(self).pager.wal.wf(),
            final(self).pager.wal@.flushes(old(self).pager.wal@),
            r is Ok,
            final(self).refilled(
                tree_layout::parent_up(old(self).nodes(), old(self).root(), old(ancestors)@),
                final(ancestors)@,
            ),
            old(self).regrown(*final(self), z.settled()),
        decreases old(ancestors)@.len(), 0int,
    {
        let ghost root = self.root();
        let ghost pages0 = self.pages();
        let ghost path = ancestors@;
        let ghost spans = choose|spans: Map<u64, Span>| #[trigger]
            path_by(pages0, root, path, z, spans);
        proof {
            assert(path[path.len() - 1] == parent_id);
            assert(spans.contains_key(parent_id));
            assert(nodes_of(pages0)[parent_id as int] == pages0[parent_id as int]@);
            assert(spans[path[path.len() - 1]].level + (path.len() - 1) == spans[root].level);
        }
        if parent_id == self.root_id {
            assert(path.len() == 1);
            return self.shrink_root(Ghost(spans), Ghost(z));
        }
        assert(path.len() > 1);
        let page = self.pager.index.fetch(&mut self.pager.wal, parent_id);
        let remaining: usize = match page.num_cells() {
            Ok(n) => n,
            Err(e) => return Err(e),
        };
        if remaining < DEGREE {
            let _ = ancestors.pop();
            proof {
                assert(ancestors@.push(parent_id) =~= path);
                assert(sized(pages0, root, spans, z.with_low(parent_id)));
                assert(path_by(pages0, root, path, z.with_low(parent_id), spans));
            }
            return self.handle_underfull(parent_id, ancestors, Ghost(z.with_low(parent_id)));
        }
        proof {
            assert(sized(pages0, root, spans, z.settled()));
            assert(planted(pages0, root, z.settled()));
        }
        Ok(())
    }

    /// Looks up the neighbours of a page, the last one of a path.
    fn neighbourhood(
        &mut self,
        underfull_id: u64,
        parent_id: u64,
        Ghost(path): Ghost<Seq<u64>>,
        Ghost(z): Ghost<Sizes>,
        Ghost(spans): Ghost<Map<u64, Span>>,
    ) -> (r: Result<Neighbourhood, StorageError>)
        requires
            old(self).pager.index.wf(),
            old(self).pager.wal.wf(),
            path_by(old(self).pages(), old(self).root(), path, z, spans),
            path.len() > 1,
            path.last() == underfull_id,
            path[path.len() - 2] == parent_id,
        ensures
            final(self).pager.index.wf(),
            final(self).pager.heap == old(self).pager.heap,
            final(self).pager.wal.wf(),
            final(self).pager.wal@.flushes(old(self).pager.wal@),
            final(self).root() == old(self).root(),
            final(self).pages() == old(self).pages(),
            r matches Ok(h) && surrounds(h, old(self).nodes(), parent_id, underfull_id),
    {
        let ghost root = self.root();
        let ghost pages0 = self.pages();
        let ghost nodes0 = self.nodes();
        proof {
            assert(path[path.len() - 1] == underfull_id);
            assert(spans.contains_key(underfull_id));
            assert(spans.contains_key(parent_id));
            assert(spans[path[path.len() - 2]].level > spans[path[path.len() - 1]].level);
            assert(nodes0[underfull_id as int] == pages0[underfull_id as int]@);
            assert(nodes0[parent_id as int] == pages0[parent_id as int]@);
        }
        let ghost np = nodes0[parent_id as int];
        let parent_page = self.pager.index.fetch(&mut self.pager.wal, parent_id);
        let parent_hdr = match parent_page.header() {
            Ok(h) => h,
            Err(e) => return Err(e),
        };
        let parent_cells = match parent_page.get_cells() {
            Ok(cells) => cells,
            Err(e) => return Err(e),
        };
        let sibling = match Self::find_siblings(
            underfull_id,
            &parent_cells,
            &parent_hdr,
            Ghost(np.cells),
        ) {
            Ok(s) => s,
            Err(e) => return Err(e),
        };
        let ghost j = tree_paths::place(np, underfull_id);
        let ghost left = tree_model::child(np, j - 1);
        let ghost right = tree_model::child(np, j + 1);
        proof {
            lemma_siblings(pages0, root, spans, path, z, sibling);
            assert(nodes0[left as int] == pages0[left as int]@ || j == 0);
            assert(nodes0[right as int] == pages0[right as int]@ || j == np.cells.len());
        }
        let underfull_page = self.pager.index.fetch(&mut self.pager.wal, underfull_id);
        let underfull_hdr = match underfull_page.header() {
            Ok(h) => h,
            Err(e) => return Err(e),
        };
        let underfull_len: usize = match underfull_page.num_cells() {
            Ok(n) => n,
            Err(e) => return Err(e),
        };
        let mut left_len: usize = 0;
        let mut right_len: usize = 0;
        if let Some(left_id) = sibling.left {
            let left_page = self.pager.index.fetch(&mut self.pager.wal, left_id);
            left_len = match left_page.num_cells() {
                Ok(n) => n,
                Err(e) => return Err(e),
            };
        }
        if let Some(right_id) = sibling.right {
            let right_page = self.pager.index.fetch(&mut self.pager.wal, right_id);
            right_len = match right_page.num_cells() {
                Ok(n) => n,
                Err(e) => return Err(e),
            };
        }
        Ok(
            Neighbourhood {
                sibling,
                header: underfull_hdr,
                len: underfull_len,
                left_len,
                right_len,
            },
        )
    }

    /// Brings an underfull page back to size with a cell of a neighbour, or by
    /// merging it with one. Two neighbours that would fill a page are not merged.
    #[verifier::rlimit(40)]
    fn handle_underfull(
        &mut self,
        underfull_id: u64,
        ancestors: &mut Vec<u64>,
        Ghost(z): Ghost<Sizes>,
    ) -> (r: Result<(), StorageError>)
        requires
            old(self).pager.index.wf(),
            old(self).pager.wal.wf(),
            path_in(
                old(self).pages(),
                old(self).root(),
                old(ancestors)@.push(underfull_id),
                z,
            ),
            z.low is None || z.low == Some(underfull_id) && old(ancestors)@.len() > 0,
            z.least <= LEAST,
            old(self).pages()[underfull_id as int]@.cells.len() < DEGREE,
            old(self).pages()[underfull_id as int]@.cells.len() + 1 >= z.least,
        ensures
            final(self).pager.index.wf(),
            final(self).pager.heap == old(self).pager.heap,
            final(self).pager.wal.wf(),
            final(self).pager.wal@.flushes(old(self).pager.wal@),
            r is Ok,
            final(self).refilled(
                tree_layout::refill(
                    old(self).nodes(),
                    old(self).root(),
                    old(ancestors)@.push(underfull_id),
                ),
                final(ancestors)@,
            ),
            old(self).regrown(*final(self), z.settled()),
        decreases old(ancestors)@.len(), 3int,
    {
        let ghost root = self.root();
        let ghost pages0 = self.pages();
        let ghost nodes0 = self.nodes();
        let ghost path = ancestors@.push(underfull_id);
        let ghost spans = choose|spans: Map<u64, Span>| #[trigger]
            path_by(pages0, root, path, z, spans);
        proof {
            assert(path[path.len() - 1] == underfull_id);
            assert(spans.contains_key(underfull_id));
            assert(nodes0[underfull_id as int] == pages0[underfull_id as int]@);
            assert(path.drop_last() =~= ancestors@);
        }
        let depth: usize = ancestors.len();
        if depth == 0 {
            assert(planted(pages0, root, z.settled()));
            return Ok(());
        }
        let parent_id: u64 = ancestors[depth - 1];
        assert(path[path.len() - 2] == parent_id);
        let near = match self.neighbourhood(
            underfull_id,
            parent_id,
            Ghost(path),
            Ghost(z),
            Ghost(spans),
        ) {
            Ok(near) => near,
            Err(e) => return Err(e),
        };
        let child_idx: usize = near.sibling.child_idx;
        let underfull_hdr: IndexHeader = near.header;
        proof {
            assert(spans.contains_key(parent_id));
            assert(nodes0[parent_id as int] == pages0[parent_id as int]@);
            lemma_siblings(pages0, root, spans, path, z, near.sibling);
        }
        if let Some(left_id) = near.sibling.left {
            if near.left_len > DEGREE {
                return self.redistribute_from_left(
                    left_id,
                    underfull_id,
                    parent_id,
                    child_idx,
                    &underfull_hdr,
                    Ghost(spans),
                    Ghost(z),
                );
            }
        }
        if let Some(right_id) = near.sibling.right {
            if near.right_len > DEGREE {
                return self.redistribute_from_right(
                    underfull_id,
                    right_id,
                    parent_id,
                    child_idx,
                    &underfull_hdr,
                    Ghost(spans),
                    Ghost(z),
                );
            }
        }
        let is_leaf: bool = underfull_hdr.page_ty == PageKind::Leaf;
        let extra: usize = if is_leaf {
            0
        } else {
            1
        };
        if let Some(left_id) = near.sibling.left {
            if near.left_len + extra + near.len >= ORDER {
                return self.redistribute_from_left(
                    left_id,
                    underfull_id,
                    parent_id,
                    child_idx,
                    &underfull_hdr,
                    Ghost(spans),
                    Ghost(z),
                );
            }
            return self.merge_with_left(
                left_id,
                underfull_id,
                parent_id,
                child_idx,
                ancestors,
                Ghost(spans),
                Ghost(z),
            );
        } else if let Some(right_id) = near.sibling.right {
            if near.len + extra + near.right_len >= ORDER {
                return self.redistribute_from_right(
                    underfull_id,
                    right_id,
                    parent_id,
                    child_idx,
                    &underfull_hdr,
                    Ghost(spans),
                    Ghost(z),
                );
            }
            return self.merge_with_right(
                underfull_id,
                right_id,
                parent_id,
                child_idx,
                ancestors,
                Ghost(spans),
                Ghost(z),
            );
        }
        proof {
            assert(sized(pages0, root, spans, z.settled()));
            assert(planted(pages0, root, z.settled()));
        }
        Ok(())
    }
}

/// The cells of neighbours in one node are in key order.
proof fn lemma_joined_sorted(na: Node, nb: Node, sep: u64, sa: Span, sb: Span)
    requires
        slotted_page::sorted(na.cells),
        slotted_page::sorted(nb.cells),
        sa.hi == sep,
        sb.lo == sep,
        forall|k: int| 0 <= k < na.cells.len() ==> sa.has((#[trigger] na.cells[k]).0 as int),
        forall|k: int| 0 <= k < nb.cells.len() ==> sb.has((#[trigger] nb.cells[k]).0 as int),
        !na.leaf_level() ==> forall|k: int|
            0 <= k < nb.cells.len() ==> sep < (#[trigger] nb.cells[k]).0,
    ensures
        slotted_page::sorted(tree_steps::joined(na, nb, sep)),
{
    let all = tree_steps::joined(na, nb, sep);
    let d = if na.leaf_level() {
        na.cells.len() as int
    } else {
        na.cells.len() as int + 1
    };
    assert forall|x: int, y: int| 0 <= x < y < all.len() implies (#[trigger] all[x]).0 < (
    #[trigger] all[y]).0 by {
        if x < na.cells.len() {
            assert(all[x] == na.cells[x]);
            assert(sa.has(na.cells[x].0 as int));
        } else if x >= d {
            assert(all[x] == nb.cells[x - d]);
        }
        if y < na.cells.len() {
            assert(all[y] == na.cells[y]);
        } else if y >= d {
            assert(all[y] == nb.cells[y - d]);
            assert(sb.has(nb.cells[y - d].0 as int));
        }
    }
}

/// The only child of the root takes its place.
proof fn lemma_collapsed(
    pages: Seq<Page>,
    root: u64,
    spans: Map<u64, Span>,
    page: Page,
    pages2: Seq<Page>,
    z: Sizes,
)
    requires
        grown(pages, root, spans),
        sized(pages, root, spans, z),
        z.low is None || z.low == Some(root),
        spans[root].level > 0,
        pages[root as int]@.cells.len() == 0,
        page.wf(),
        ({
            let c = pages[root as int]@.ptr;
            let n = pages[c as int]@;
            &&& pages2 == pages.update(c as int, page)
            &&& page@.cells == n.cells
            &&& page@.ptr == n.ptr
            &&& page@.kind == PageKind::Root
            &&& n.leaf_level() ==> header::root_leaf_bit(page@.flags)
            &&& !n.leaf_level() ==> page@.flags == n.flags
        }),
    ensures
        grown_from(pages, root, pages2, pages[root as int]@.ptr, z.settled()),
        depth_of(nodes_of(pages2), pages[root as int]@.ptr) < depth_of(nodes_of(pages), root),
{
    let nodes = nodes_of(pages);
    let nodes2 = nodes_of(pages2);
    let nr = nodes[root as int];
    let c = nr.ptr;
    assert(nr == pages[root as int]@);
    assert(tree_model::child(nr, 0) == c);
    assert(tree_model::child_ok(spans, spans[root], nr, 0, c));
    assert(nodes[c as int] == pages[c as int]@);
    lemma_nodes_update(pages, c as int, page);
    tree_steps::lemma_collapse(nodes, root, spans, nodes2);
    tree_steps::lemma_chain_same(nodes, spans, nodes2);
    let spans2 = spans.remove(root);
    assert forall|id: u64| #[trigger] spans2.contains_key(id) implies pages2[id as int].wf()
        && z.settled().admits(id, pages2[id as int]@, c) by {
        assert(spans.contains_key(id));
    }
    assert(grown(pages2, c, spans2));
    assert(sized(pages2, c, spans2, z.settled()));
    lemma_depth(pages, root, spans);
    lemma_depth(pages2, c, spans2);
}

/// Cells stay in order when one is removed.
proof fn lemma_remove_sorted(cells: Seq<(u64, u64)>, i: int)
    requires
        slotted_page::sorted(cells),
        0 <= i < cells.len(),
    ensures
        slotted_page::sorted(cells.remove(i)),
{
    let less = cells.remove(i);
    assert forall|x: int, y: int| 0 <= x < y < less.len() implies (#[trigger] less[x]).0 < (
    #[trigger] less[y]).0 by {
        let x1 = if x < i {
            x
        } else {
            x + 1
        };
        let y1 = if y < i {
            y
        } else {
            y + 1
        };
        assert(less[x] == cells[x1] && less[y] == cells[y1]);
        assert(cells[x1].0 < cells[y1].0);
    }
}

/// What cells hold after one was removed.
proof fn lemma_remove_find(cells: Seq<(u64, u64)>, i: int, k: u64)
    requires
        slotted_page::sorted(cells),
        0 <= i < cells.len(),
    ensures
        tree_model::find(cells.remove(i), k) == (if k == cells[i].0 {
            None
        } else {
            tree_model::find(cells, k)
        }),
{
    let less = cells.remove(i);
    lemma_remove_sorted(cells, i);
    tree_model::lemma_find(less, k);
    tree_model::lemma_find(cells, k);
    if tree_model::find(less, k) is Some {
        let x = choose|x: int| 0 <= x < less.len() && (#[trigger] less[x]).0 == k;
        let y = if x < i {
            x
        } else {
            x + 1
        };
        assert(less[x] == cells[y]);
        assert(cells[y].0 == k);
        assert(k != cells[i].0) by {
            if y < i {
                assert(cells[y].0 < cells[i].0);
            } else {
                assert(cells[i].0 < cells[y].0);
            }
        }
    } else if k != cells[i].0 && tree_model::find(cells, k) is Some {
        let y = choose|y: int| 0 <= y < cells.len() && (#[trigger] cells[y]).0 == k;
        let x = if y < i {
            y
        } else {
            y - 1
        };
        assert(less[x] == cells[y]);
        assert(less[x].0 == k);
    }
}

/// The second tree holds what the first one does but for one key.
pub open spec fn removed(
    pages: Seq<Page>,
    root: u64,
    pages2: Seq<Page>,
    root2: u64,
    key: u64,
) -> bool {
    forall|k: u64| #[trigger]
        tree_model::value(nodes_of(pages2), root2, k) == (if k == key {
            None
        } else {
            tree_model::value(nodes_of(pages), root, k)
        })
}

/// A cell less in a leaf.
proof fn lemma_leaf_remove(
    pages: Seq<Page>,
    root: u64,
    spans: Map<u64, Span>,
    path: Seq<u64>,
    i: int,
    page: Page,
)
    requires
        path_by(pages, root, path, Sizes::usual(), spans),
        spans[path.last()].level == 0,
        page.wf(),
        ({
            let n = pages[path.last() as int]@;
            &&& 0 <= i < n.cells.len()
            &&& page@.cells == n.cells.remove(i)
            &&& page@.kind == n.kind
            &&& page@.ptr == n.ptr
            &&& page@.leaf_level()
        }),
    ensures
        ({
            let pages2 = pages.update(path.last() as int, page);
            let key = pages[path.last() as int]@.cells[i].0;
            &&& path_by(pages2, root, path, Sizes::usual().with_low(path.last()), spans)
            &&& path.last() == root || page@.cells.len() >= LEAST ==> path_by(
                pages2,
                root,
                path,
                Sizes::usual(),
                spans,
            )
            &&& removed(pages, root, pages2, root, key)
            &&& depth_of(nodes_of(pages2), root) == depth_of(nodes_of(pages), root)
        }),
{
    let nodes = nodes_of(pages);
    let leaf = path.last();
    let pages2 = pages.update(leaf as int, page);
    let nodes2 = nodes_of(pages2);
    let n = nodes[leaf as int];
    let n2 = page@;
    let key = n.cells[i].0;
    assert(path[path.len() - 1] == leaf);
    assert(spans.contains_key(leaf));
    lemma_nodes_update(pages, leaf as int, page);
    lemma_remove_sorted(n.cells, i);
    assert forall|x: int| 0 <= x < n2.cells.len() implies #[trigger] n2.cells[x] == n.cells[if x
        < i {
        x
    } else {
        x + 1
    }] by {}
    tree_steps::lemma_change_leaf(nodes, root, spans, leaf, n2);
    tree_steps::lemma_chain_same(nodes, spans, nodes2);
    assert forall|k: int| 0 < k < path.len() implies tree_paths::has_child(
        nodes2[path[k - 1] as int],
        #[trigger] path[k],
    ) by {
        assert(tree_paths::has_child(nodes[path[k - 1] as int], path[k]));
        assert(spans[path[k - 1]].level + (k - 1) == spans[root].level);
        assert(spans[path[path.len() - 1]].level + (path.len() - 1) == spans[root].level);
        assert(path[k - 1] != leaf);
    }
    assert forall|k: u64| #[trigger]
        tree_model::value(nodes2, root, k) == (if k == key {
            None
        } else {
            tree_model::value(nodes, root, k)
        }) by {
        if spans[leaf].has(k as int) {
            tree_model::lemma_value(nodes, root, spans, k, leaf);
            lemma_remove_find(n.cells, i, k);
        }
    }
    lemma_depth(pages, root, spans);
    lemma_depth(pages2, root, spans);
}

/// A leaf that covers the key of a cell above it starts with that key.
proof fn lemma_fence_leaf(
    nodes: Seq<Node>,
    root: u64,
    spans: Map<u64, Span>,
    p: u64,
    idx: int,
    leaf: u64,
)
    requires
        tree_model::tree_ok(nodes, root, spans),
        spans.contains_key(p),
        spans[p].level > 0,
        0 <= idx < nodes[p as int].cells.len(),
        spans.contains_key(leaf),
        spans[leaf].level == 0,
        spans[leaf].has(nodes[p as int].cells[idx].0 as int),
    ensures
        spans[leaf].lo == nodes[p as int].cells[idx].0,
{
    let np = nodes[p as int];
    let old = np.cells[idx].0;
    let below = tree_model::child(np, idx + 1);
    assert(tree_model::child_ok(spans, spans[p], np, idx + 1, below));
    tree_steps::lemma_fences(np, spans[p], idx + 1, idx + 2);
    let y = tree_steps::lemma_below(nodes, root, spans, below, old, 0);
    assert(y == leaf);
}

/// Replacing the key of a cell by the first key of the leaf below it.
proof fn lemma_fence_moved(
    pages: Seq<Page>,
    root: u64,
    spans: Map<u64, Span>,
    p: u64,
    idx: int,
    leaf: u64,
    page: Page,
)
    requires
        grown(pages, root, spans),
        sized(pages, root, spans, Sizes::usual()),
        spans.contains_key(p),
        spans[p].level > 0,
        spans.contains_key(leaf),
        spans[leaf].level == 0,
        page.wf(),
        ({
            let np = pages[p as int]@;
            let nl = pages[leaf as int]@;
            let old = np.cells[idx].0;
            &&& 0 <= idx < np.cells.len()
            &&& nl.cells.len() > 0
            &&& spans[leaf].has(old as int)
            &&& forall|i: int| 0 <= i < nl.cells.len() ==> (#[trigger] nl.cells[i]).0 != old
            &&& page@ == (Node {
                id: page@.id,
                flags: 0,
                cells: np.cells.update(idx, (nl.cells[0].0, np.cells[idx].1)),
                ..np
            })
        }),
    ensures
        grown_from(pages, root, pages.update(p as int, page), root, Sizes::usual()),
        depth_of(nodes_of(pages.update(p as int, page)), root) == depth_of(nodes_of(pages), root),
{
    let nodes = nodes_of(pages);
    let pages2 = pages.update(p as int, page);
    let nodes2 = nodes_of(pages2);
    let np = nodes[p as int];
    let nl = nodes[leaf as int];
    let old = np.cells[idx].0;
    let new = nl.cells[0].0;
    assert(0u8 & 0x01 != 0x01) by (bit_vector);
    assert(np == pages[p as int]@ && nl == pages[leaf as int]@);
    lemma_nodes_update(pages, p as int, page);
    lemma_fence_leaf(nodes, root, spans, p, idx, leaf);
    assert(spans[leaf].has(nl.cells[0].0 as int));
    assert(nl.cells[0].0 != old);
    assert forall|i: int| 0 <= i < nl.cells.len() implies (#[trigger] nl.cells[i]).0 >= new by {
        if i > 0 {
            assert(nl.cells[0].0 < nl.cells[i].0);
        }
    }
    tree_steps::lemma_move_fence(nodes, root, spans, p, idx, new, leaf, nodes2);
    let spans2 = tree_steps::moved_spans(spans, spans[p].level, old, new);
    tree_steps::lemma_chain_move(nodes, spans, spans[p].level, old, new, nodes2);
    assert forall|id: u64| #[trigger] spans2.contains_key(id) implies pages2[id as int].wf()
        && Sizes::usual().admits(id, pages2[id as int]@, root) by {
        assert(spans.contains_key(id));
    }
    assert(grown(pages2, root, spans2));
    assert(sized(pages2, root, spans2, Sizes::usual()));
    lemma_depth(pages, root, spans);
    lemma_depth(pages2, root, spans2);
}

/// The place of the last of some pages that has a cell with the key, or -1.
pub open spec fn lowest_with(nodes: Seq<Node>, ids: Seq<u64>, key: u64) -> int
    decreases ids.len(),
{
    if ids.len() == 0 {
        -1
    } else if tree_model::find(nodes[ids.last() as int].cells, key) is Some {
        ids.len() - 1
    } else {
        lowest_with(nodes, ids.drop_last(), key)
    }
}

/// The pages after `old_key`, which was the first key of a leaf, was replaced by
/// the key that is the first now. It is replaced in the lowest of the pages above
/// that has it. Nothing changes where none has it, or where the leaf is empty.
pub open spec fn key_replaced(
    pages: Seq<Page>,
    ancestors: Seq<u64>,
    leaf: u64,
    old_key: u64,
    pages2: Seq<Page>,
) -> bool {
    let first = pages[leaf as int]@.cells;
    let at = lowest_with(nodes_of(pages), ancestors, old_key);
    if first.len() == 0 || at < 0 {
        pages2 == pages
    } else {
        let p = ancestors[at];
        let np = pages[p as int]@;
        let i = slotted_page::rank(np.cells, old_key);
        &&& pages2 == pages.update(p as int, pages2[p as int])
        &&& pages2[p as int]@ == (Node {
            flags: 0,
            cells: np.cells.update(i, (first[0].0, np.cells[i].1)),
            ..np
        })
    }
}

impl BplusTree {
    /// Replaces the key `old_key`, which was the first of a leaf, in the pages
    /// above by the key that is the first now.
    #[verifier::rlimit(40)]
    fn propagate_key_update(&mut self, old_key: u64, child_id: u64, ancestors: &Vec<u64>, Ghost(
        spans,
    ): Ghost<Map<u64, Span>>) -> (r: Result<(), StorageError>)
        requires
            old(self).pager.index.wf(),
            old(self).pager.wal.wf(),
            leads_by(
                old(self).pages(),
                old(self).root(),
                ancestors@.push(child_id),
                old_key,
                spans,
            ),
            tree_model::value(old(self).nodes(), old(self).root(), old_key) is None,
        ensures
            final(self).pager.index.wf(),
            final(self).pager.heap == old(self).pager.heap,
            final(self).pager.wal.wf(),
            final(self).pager.wal@.flushes(old(self).pager.wal@),
            final(self).root() == old(self).root(),
            r is Ok,
            key_replaced(
                old(self).pages(),
                ancestors@,
                child_id,
                old_key,
                final(self).pages(),
            ),
            grown_from(
                old(self).pages(),
                old(self).root(),
                final(self).pages(),
                final(self).root(),
                Sizes::usual(),
            ),
            final(self).pages().len() == old(self).pages().len(),
            final(self).depth() == old(self).depth(),
    {
        let ghost root = self.root();
        let ghost pages0 = self.pages();
        let ghost nodes0 = self.nodes();
        let ghost path = ancestors@.push(child_id);
        let ghost nl = pages0[child_id as int]@;
        proof {
            assert(path[path.len() - 1] == child_id);
            assert(spans.contains_key(child_id));
            assert(nodes0[child_id as int] == nl);
            tree_model::lemma_value(nodes0, root, spans, old_key, child_id);
            tree_model::lemma_find(nl.cells, old_key);
            assert(grown_from(pages0, root, pages0, root, Sizes::usual()));
        }
        let leaf_page = self.pager.index.fetch(&mut self.pager.wal, child_id);
        let leaf_cells = match leaf_page.get_cells() {
            Ok(cells) => cells,
            Err(e) => return Err(e),
        };
        if leaf_cells.len() == 0 {
            return Ok(());
        }
        let new_first_key: u64 = leaf_cells[0].key;
        assert(new_first_key == nl.cells[0].0);
        let mut i: usize = ancestors.len();
        assert(ancestors@.take(i as int) =~= ancestors@);
        while i > 0
            invariant
                i <= ancestors@.len(),
                self.pager.index.wf(),
                self.pager.heap == old(self).pager.heap,
                self.pager.wal.wf(),
                self.pager.wal@.flushes(old(self).pager.wal@),
                self.root() == old(self).root(),
                self.pages() == pages0,
                pages0 == old(self).pages(),
                nodes0 == nodes_of(pages0),
                root == self.root(),
                path == ancestors@.push(child_id),
                leads_by(pages0, root, path, old_key, spans),
                path.last() == child_id,
                nl == pages0[child_id as int]@,
                nl.cells.len() > 0,
                new_first_key == nl.cells[0].0,
                forall|k: int| 0 <= k < nl.cells.len() ==> (#[trigger] nl.cells[k]).0 != old_key,
                grown_from(pages0, root, pages0, root, Sizes::usual()),
                lowest_with(nodes0, ancestors@, old_key) == lowest_with(
                    nodes0,
                    ancestors@.take(i as int),
                    old_key,
                ),
            decreases i,
        {
            i = i - 1;
            let ancestor_id: u64 = ancestors[i];
            proof {
                assert(path[i as int] == ancestor_id);
                assert(path[path.len() - 1] == child_id);
                assert(spans.contains_key(ancestor_id) && spans.contains_key(child_id));
                assert(spans[path[path.len() - 1]].level + (path.len() - 1) == spans[root].level);
                assert(nodes0[ancestor_id as int] == pages0[ancestor_id as int]@);
                assert(ancestors@.take(i + 1).drop_last() =~= ancestors@.take(i as int));
                assert(ancestors@.take(i + 1).last() == ancestor_id);
            }
            let ghost np = pages0[ancestor_id as int]@;
            let page = self.pager.index.fetch(&mut self.pager.wal, ancestor_id);
            let cells = match page.get_cells() {
                Ok(cells) => cells,
                Err(e) => return Err(e),
            };
            let found = search(&cells, old_key);
            proof {
                lemma_search(np, cells@, old_key, found);
            }
            if let Ok(idx) = found {
                assert(lowest_with(nodes0, ancestors@, old_key) == i);
                let mut page = self.pager.index.fetch_mut(&mut self.pager.wal, ancestor_id);
                let hdr = match page.header() {
                    Ok(h) => h,
                    Err(e) => return Err(e),
                };
                let mut updated_cells: Vec<Cell> = cells;
                let c: Cell = updated_cells[idx];
                updated_cells.set(
                    idx,
                    Cell { key: new_first_key, c_ptr: c.c_ptr, h_ptr: c.h_ptr },
                );
                let ghost pairs = np.cells.update(
                    idx as int,
                    (new_first_key, np.cells[idx as int].1),
                );
                proof {
                    assert(cells@[idx as int] == slotted_page::cell_of(
                        false,
                        np.cells[idx as int],
                    ));
                    assert(updated_cells@ =~= slotted_page::cells_of(false, pairs));
                    lemma_moved_sorted(nodes0, root, spans, ancestor_id, idx as int, child_id);
                    slotted_page::lemma_build_sorted(false, pairs);
                }
                match page.rebuild_from_cells(&updated_cells, hdr.page_ty, hdr.id, hdr.ptr) {
                    Ok(()) => {},
                    Err(e) => return Err(e),
                }
                self.pager.index.store(&mut self.pager.wal, ancestor_id, page);
                proof {
                    lemma_fence_moved(
                        pages0,
                        root,
                        spans,
                        ancestor_id,
                        idx as int,
                        child_id,
                        page,
                    );
                    assert(key_replaced(pages0, ancestors@, child_id, old_key, self.pages()));
                }
                return Ok(());
            }
        }
        Ok(())
    }
}

/// The keys of a page stay in order when one is replaced by the first key of
/// the leaf below it.
proof fn lemma_moved_sorted(
    nodes: Seq<Node>,
    root: u64,
    spans: Map<u64, Span>,
    p: u64,
    idx: int,
    leaf: u64,
)
    requires
        tree_model::tree_ok(nodes, root, spans),
        spans.contains_key(p),
        spans[p].level > 0,
        0 <= idx < nodes[p as int].cells.len(),
        spans.contains_key(leaf),
        spans[leaf].level == 0,
        spans[leaf].has(nodes[p as int].cells[idx].0 as int),
        nodes[leaf as int].cells.len() > 0,
    ensures
        ({
            let np = nodes[p as int];
            slotted_page::sorted(
                np.cells.update(idx, (nodes[leaf as int].cells[0].0, np.cells[idx].1)),
            )
        }),
{
    let np = nodes[p as int];
    let nl = nodes[leaf as int];
    let old = np.cells[idx].0;
    let new = nl.cells[0].0;
    lemma_fence_leaf(nodes, root, spans, p, idx, leaf);
    assert(spans[leaf].has(nl.cells[0].0 as int));
    let below = tree_model::child(np, idx + 1);
    assert(tree_model::child_ok(spans, spans[p], np, idx + 1, below));
    tree_steps::lemma_fences(np, spans[p], idx + 1, idx + 2);
    let y = tree_steps::lemma_below(nodes, root, spans, below, old, 0);
    assert(y == leaf);
    let out = np.cells.update(idx, (new, np.cells[idx].1));
    assert forall|i: int, j: int| 0 <= i < j < out.len() implies (#[trigger] out[i]).0 < (
    #[trigger] out[j]).0 by {
        assert(np.cells[i].0 < np.cells[j].0);
        if i == idx && j > idx + 1 {
            assert(np.cells[idx + 1].0 < np.cells[j].0);
        }
    }
}

impl BplusTree {
    /// Removes a key.
    pub fn delete(&mut self, key: u64) -> (r: Result<(), StorageError>)
        requires
            old(self).wf(),
        ensures
            final(self).wf(),
            final(self).pages().len() == old(self).pages().len(),
            final(self).heap() == old(self).heap(),
            final(self).depth() <= old(self).depth(),
            if old(self)@.contains_key(key) {
                &&& r is Ok
                &&& final(self)@ == old(self)@.remove(key)
            } else {
                &&& r matches Err(e)
                &&& e == StorageError::KeyNotFound
                &&& final(self)@ == old(self)@
            },
    {
        let ghost path = self.trail(key);
        let ghost links0 = self.links();
        let ghost pages0 = self.pages();
        let ghost root0 = self.root();
        proof {
            lemma_trail_leads(pages0, root0, key);
        }
        let crumbs = match self.breadcrumbs(key) {
            Ok(c) => c,
            Err(e) => return Err(e),
        };
        if !crumbs.found {
            return Err(StorageError::KeyNotFound);
        }
        let r = self.remove_key(crumbs.breadcrumb, key);
        proof {
            lemma_links_removed(pages0, root0, self.pages(), self.root(), key);
            assert(self@ =~= old(self)@.remove(key));
        }
        r
    }

    /// Removes a key from the leaf at the end of a path.
    fn remove_key(&mut self, path: Vec<u64>, key: u64) -> (r: Result<(), StorageError>)
        requires
            old(self).pager.index.wf(),
            old(self).pager.wal.wf(),
            leads_to(old(self).pages(), old(self).root(), path@, key),
            tree_model::value(old(self).nodes(), old(self).root(), key) is Some,
        ensures
            final(self).pager.index.wf(),
            final(self).pager.heap == old(self).pager.heap,
            final(self).pager.wal.wf(),
            final(self).pager.wal@.flushes(old(self).pager.wal@),
            removed(
                old(self).pages(),
                old(self).root(),
                final(self).pages(),
                final(self).root(),
                key,
            ),
            r is Ok,
            planted(final(self).pages(), final(self).root(), Sizes::usual()),
            final(self).pages().len() == old(self).pages().len(),
            final(self).depth() <= old(self).depth(),
    {
        let ghost root = self.root();
        let ghost pages0 = self.pages();
        let ghost nodes0 = self.nodes();
        let ghost spans = choose|spans: Map<u64, Span>| #[trigger]
            leads_by(pages0, root, path@, key, spans);
        let mut trail: Vec<u64> = path;
        let leaf_id: u64 = match trail.pop() {
            Some(id) => id,
            None => return Err(StorageError::NoPage),
        };
        proof {
            assert(path@[path@.len() - 1] == leaf_id);
            assert(spans.contains_key(leaf_id));
            assert(trail@.push(leaf_id) =~= path@);
            assert(spans[path@[path@.len() - 1]].level + (path@.len() - 1) == spans[root].level);
        }
        let mut leaf_page = self.pager.index.fetch_mut(&mut self.pager.wal, leaf_id);
        let ghost n = leaf_page@;
        let cells = match leaf_page.get_cells() {
            Ok(cells) => cells,
            Err(e) => return Err(e),
        };
        let found = search(&cells, key);
        proof {
            assert(nodes0[leaf_id as int] == n);
            tree_model::lemma_value(nodes0, root, spans, key, leaf_id);
            lemma_search(n, cells@, key, found);
        }
        let idx: usize = match found {
            Ok(i) => i,
            Err(_) => return Err(StorageError::KeyNotFound),
        };
        match leaf_page.remove_cell_at(idx) {
            Ok(_) => {},
            Err(e) => return Err(e),
        }
        let remaining: usize = match leaf_page.num_cells() {
            Ok(n) => n,
            Err(e) => return Err(e),
        };
        self.pager.index.store(&mut self.pager.wal, leaf_id, leaf_page);
        let ghost pages1 = self.pages();
        proof {
            assert(cells@[idx as int].key == n.cells[idx as int].0);
            lemma_leaf_remove(pages0, root, spans, path@, idx as int, leaf_page);
            assert(pages1 == pages0.update(path@.last() as int, leaf_page));
            assert(nodes_of(pages1)[leaf_id as int] == leaf_page@);
            if remaining >= DEGREE || leaf_id == root {
                assert(leads_by(pages1, root, path@, key, spans));
                assert(planted(pages1, root, Sizes::usual()));
            }
        }
        if leaf_id == self.root_id {
            assert(path@.len() == 1);
            return Ok(());
        }
        assert(path@.len() > 1) by {
            if path@.len() == 1 {
                assert(path@[0] == root);
            }
        }
        if remaining >= DEGREE {
            let r = self.propagate_key_update(key, leaf_id, &trail, Ghost(spans));
            proof {
                lemma_removed_after(pages0, root, pages1, self.pages(), self.root(), key);
            }
            return r;
        }
        proof {
            assert(path_in(
                pages1,
                root,
                trail@.push(leaf_id),
                Sizes::usual().with_low(leaf_id),
            ));
        }
        let r = self.handle_underfull(leaf_id, &mut trail, Ghost(Sizes::usual().with_low(leaf_id)));
        proof {
            lemma_removed_after(pages0, root, pages1, self.pages(), self.root(), key);
        }
        r
    }
}

/// What is gone stays gone.
proof fn lemma_removed_after(
    pages: Seq<Page>,
    root: u64,
    pages1: Seq<Page>,
    pages2: Seq<Page>,
    root2: u64,
    key: u64,
)
    requires
        removed(pages, root, pages1, root, key),
        same_values(pages1, root, pages2, root2),
    ensures
        removed(pages, root, pages2, root2, key),
{
    assert forall|k: u64| #[trigger]
        tree_model::value(nodes_of(pages2), root2, k) == (if k == key {
            None
        } else {
            tree_model::value(nodes_of(pages), root, k)
        }) by {
        assert(tree_model::value(nodes_of(pages1), root, k) == (if k == key {
            None
        } else {
            tree_model::value(nodes_of(pages), root, k)
        }));
    }
}

proof fn lemma_links_removed(
    pages: Seq<Page>,
    root: u64,
    pages2: Seq<Page>,
    root2: u64,
    key: u64,
)
    requires
        removed(pages, root, pages2, root2, key),
    ensures
        tree_model::content(nodes_of(pages2), root2) == tree_model::content(
            nodes_of(pages),
            root,
        ).remove(key),
{
    assert(tree_model::content(nodes_of(pages2), root2) =~= tree_model::content(
        nodes_of(pages),
        root,
    ).remove(key));
}

} // verus!
