//! The table: a B+tree of pages, always rooted at page 0.
//!
//! Internal nodes never split, and the only internal node ever created is the
//! new root made when a root leaf splits; the tree therefore has either a
//! single root leaf, or an internal root all of whose children are leaves.
//! [`wf_pages`] states the shape invariant every operation preserves: sorted
//! leaves, separator keys equal to each child's largest key, every non-root
//! page a child of the root, and the next-leaf chain running through the
//! children in key order. [`table_cells`] is the content the tree represents:
//! every `(key, row)` cell, in ascending key order.

use vstd::prelude::*;
use crate::page::{
    internal_keys, leaf_keys, lemma_lower_bound, lemma_lower_bound_unique, lower_bound,
    sorted_keys, InternalCell, LeafCell, LeafCellV, NodeType, Page, PageV,
};
use crate::pager::Pager;
use crate::constant::{
    lemma_leaf_geometry, INTERNAL_NODE_MAX_CELLS, LEAF_NODE_LEFT_SPLIT_COUNT, LEAF_NODE_MAX_CELLS,
    LEAF_NODE_RIGHT_SPLIT_COUNT, TABLE_MAX_PAGES,
};
use crate::row::RowV;

verus! {

/// The table: the page cache plus the number of its root page, which is
/// always 0 for the lifetime of a database.
pub struct Table {
    pub root_page_num: usize,
    pub pager: Pager,
}

impl View for Table {
    type V = Seq<Page>;

    open spec fn view(&self) -> Seq<Page> {
        self.pager@
    }
}

/// A whole database held in a single root leaf.
pub open spec fn wf_root_leaf(pages: Seq<Page>) -> bool {
    &&& pages.len() == 1
    &&& pages[0]@.wf_leaf()
    &&& pages[0]@.is_root
    &&& pages[0]@.parent == 0
    &&& pages[0]@.next_leaf == 0
}

/// The page reached through child index `i` of the root.
pub open spec fn child_page(pages: Seq<Page>, i: int) -> PageV {
    pages[pages[0]@.child_at(i) as int]@
}

/// Child index `i` of the root points at a well-formed non-empty leaf below
/// the root.
pub open spec fn wf_child(pages: Seq<Page>, i: int) -> bool {
    let c = pages[0]@.child_at(i);
    &&& 1 <= c < pages.len()
    &&& child_page(pages, i).wf_leaf()
    &&& !child_page(pages, i).is_root
    &&& child_page(pages, i).parent == 0
    &&& child_page(pages, i).cells.len() >= 1
}

/// Page `q` appears among the root's children.
pub open spec fn is_child_of_root(pages: Seq<Page>, q: int) -> bool {
    exists|i: int| 0 <= i <= pages[0]@.children.len() && pages[0]@.child_at(i) == q
}

/// A two-level database: an internal root whose children are exactly the
/// leaves at pages `1..pages.len()`, with correct separators and leaf chain.
pub open spec fn wf_root_internal(pages: Seq<Page>) -> bool {
    let root = pages[0]@;
    let nk = root.children.len() as int;
    &&& root.wf_internal()
    &&& root.is_root
    &&& root.parent == 0
    &&& nk + 2 == pages.len()
    &&& forall|i: int| 0 <= i <= nk ==> #[trigger] wf_child(pages, i)
    &&& forall|i: int|
        0 <= i < nk ==> (#[trigger] child_page(pages, i)).max_key() == root.children[i].key
    &&& forall|i: int|
        1 <= i <= nk ==> (#[trigger] child_page(pages, i)).cells.first().key > root.children[i
            - 1].key
    &&& forall|i: int|
        0 <= i < nk ==> (#[trigger] child_page(pages, i)).next_leaf == root.child_at(i + 1)
    &&& child_page(pages, nk).next_leaf == 0
    &&& forall|q: int| 1 <= q < pages.len() ==> #[trigger] is_child_of_root(pages, q)
}

/// The shape invariant of a database: a root leaf alone, or an internal root
/// over leaves, within the page cap.
pub open spec fn wf_pages(pages: Seq<Page>) -> bool {
    &&& 1 <= pages.len() <= TABLE_MAX_PAGES
    &&& pages[0]@.is_leaf() ==> wf_root_leaf(pages)
    &&& !pages[0]@.is_leaf() ==> wf_root_internal(pages)
}

impl Table {
    pub open spec fn wf(self) -> bool {
        &&& self.root_page_num == 0
        &&& wf_pages(self@)
    }
}

/// The cells of the root's children from child index `i` on, in child order.
pub open spec fn tail_cells(pages: Seq<Page>, i: int) -> Seq<LeafCellV>
    decreases pages[0]@.children.len() + 1 - i,
{
    if i < 0 || i > pages[0]@.children.len() {
        Seq::empty()
    } else {
        child_page(pages, i).cells + tail_cells(pages, i + 1)
    }
}

/// The cells of the root's children before child index `i`, in child order.
pub open spec fn head_cells(pages: Seq<Page>, i: int) -> Seq<LeafCellV>
    decreases i,
{
    if i <= 0 {
        Seq::empty()
    } else {
        head_cells(pages, i - 1) + child_page(pages, i - 1).cells
    }
}

/// Every `(key, row)` cell the tree holds, in ascending key order.
pub open spec fn table_cells(pages: Seq<Page>) -> Seq<LeafCellV> {
    if pages[0]@.is_leaf() {
        pages[0]@.cells
    } else {
        tail_cells(pages, 0)
    }
}

/// Every key the tree holds, in ascending order.
pub open spec fn table_keys(pages: Seq<Page>) -> Seq<u32> {
    leaf_keys(table_cells(pages))
}

/// The whole tree splits at child index `i` into the cells before it and the
/// cells from it on.
pub proof fn lemma_cells_split_at(pages: Seq<Page>, i: int)
    requires
        0 <= i <= pages[0]@.children.len() + 1,
    ensures
        tail_cells(pages, 0) == head_cells(pages, i) + tail_cells(pages, i),
    decreases i,
{
    if i == 0 {
        assert(tail_cells(pages, 0) =~= head_cells(pages, 0) + tail_cells(pages, 0));
    } else {
        lemma_cells_split_at(pages, i - 1);
        assert(head_cells(pages, i - 1) + (child_page(pages, i - 1).cells + tail_cells(pages, i))
            =~= head_cells(pages, i) + tail_cells(pages, i));
    }
}

/// Every key among `cs` is below `k`.
pub open spec fn cells_keys_lt(cs: Seq<LeafCellV>, k: u32) -> bool {
    forall|j: int| 0 <= j < cs.len() ==> (#[trigger] cs[j]).key < k
}

/// Every key among `cs` is above `k`.
pub open spec fn cells_keys_gt(cs: Seq<LeafCellV>, k: u32) -> bool {
    forall|j: int| 0 <= j < cs.len() ==> (#[trigger] cs[j]).key > k
}

/// Every key among `cs` is at most `k`.
pub open spec fn cells_keys_le(cs: Seq<LeafCellV>, k: u32) -> bool {
    forall|j: int| 0 <= j < cs.len() ==> (#[trigger] cs[j]).key <= k
}

/// Mapping the keys out distributes over concatenation.
pub proof fn lemma_leaf_keys_add(a: Seq<LeafCellV>, b: Seq<LeafCellV>)
    ensures
        leaf_keys(a + b) == leaf_keys(a) + leaf_keys(b),
{
    assert(leaf_keys(a + b) =~= leaf_keys(a) + leaf_keys(b));
}

/// Two sorted runs separated by a bound concatenate into a sorted run.
pub proof fn lemma_sorted_concat(a: Seq<u32>, b: Seq<u32>, bound: u32)
    requires
        sorted_keys(a),
        sorted_keys(b),
        forall|i: int| 0 <= i < a.len() ==> a[i] <= bound,
        forall|j: int| 0 <= j < b.len() ==> b[j] > bound,
    ensures
        sorted_keys(a + b),
{
    assert forall|i: int, j: int| 0 <= i < j < (a + b).len() implies (a + b)[i] < (a + b)[j] by {
        if j < a.len() {
            assert((a + b)[i] == a[i] && (a + b)[j] == a[j]);
        } else if i >= a.len() {
            assert((a + b)[i] == b[i - a.len()] && (a + b)[j] == b[j - a.len()]);
        } else {
            assert((a + b)[i] == a[i] && (a + b)[j] == b[j - a.len()]);
        }
    }
}

/// The lower bound in a concatenation: in the left run if it falls there,
/// else past it in the right run.
pub proof fn lemma_lower_bound_concat(a: Seq<u32>, b: Seq<u32>, key: u32)
    ensures
        lower_bound(a + b, key) == if lower_bound(a, key) < a.len() {
            lower_bound(a, key)
        } else {
            a.len() + lower_bound(b, key)
        },
{
    lemma_lower_bound(a, key);
    lemma_lower_bound(b, key);
    let la = lower_bound(a, key);
    let lb = lower_bound(b, key);
    if la < a.len() {
        assert forall|j: int| 0 <= j < la implies (a + b)[j] < key by {
            assert((a + b)[j] == a[j]);
        }
        assert((a + b)[la] == a[la]);
        lemma_lower_bound_unique(a + b, key, la);
    } else {
        assert forall|j: int| 0 <= j < a.len() + lb implies (a + b)[j] < key by {
            if j < a.len() {
                assert((a + b)[j] == a[j]);
            } else {
                assert((a + b)[j] == b[j - a.len()]);
            }
        }
        if a.len() + lb < (a + b).len() {
            assert((a + b)[a.len() + lb] == b[lb]);
        }
        lemma_lower_bound_unique(a + b, key, a.len() + lb);
    }
}

/// In a sorted run the key is present exactly when it sits at its lower
/// bound.
pub proof fn lemma_lower_bound_contains(s: Seq<u32>, key: u32)
    requires
        sorted_keys(s),
    ensures
        s.contains(key) <==> (lower_bound(s, key) < s.len() && s[lower_bound(s, key)] == key),
{
    lemma_lower_bound(s, key);
    let lb = lower_bound(s, key);
    if s.contains(key) {
        let j = choose|j: int| 0 <= j < s.len() && s[j] == key;
        if j < lb {
            assert(s[j] < key);
        } else if j > lb {
            assert(s[lb] < s[j]);
        }
    }
}

/// From child index `i` on, the tree's cells are sorted, and all their keys
/// lie above the separator before `i`.
pub proof fn lemma_tail_cells_sorted(pages: Seq<Page>, i: int)
    requires
        wf_root_internal(pages),
        0 <= i <= pages[0]@.children.len() + 1,
    ensures
        sorted_keys(leaf_keys(tail_cells(pages, i))),
        1 <= i <= pages[0]@.children.len() ==> cells_keys_gt(
            tail_cells(pages, i),
            pages[0]@.children[i - 1].key,
        ),
    decreases pages[0]@.children.len() + 1 - i,
{
    let root = pages[0]@;
    let nk = root.children.len() as int;
    if i == nk + 1 {
        assert(sorted_keys(leaf_keys(tail_cells(pages, i))));
    } else {
        lemma_tail_cells_sorted(pages, i + 1);
        assert(wf_child(pages, i));
        let ci = child_page(pages, i).cells;
        let rest = tail_cells(pages, i + 1);
        lemma_leaf_keys_add(ci, rest);
        // every key of child i is at most its separator (or unconstrained for
        // the rightmost child, whose tail is empty)
        let bound = if i < nk {
            root.children[i].key
        } else {
            child_page(pages, i).max_key()
        };
        assert forall|j: int| 0 <= j < ci.len() implies (#[trigger] ci[j]).key <= bound by {
            assert(leaf_keys(ci)[j] == ci[j].key);
            assert(leaf_keys(ci)[ci.len() - 1] == ci[ci.len() - 1].key);
            if j < ci.len() - 1 {
                assert(leaf_keys(ci)[j] < leaf_keys(ci)[ci.len() - 1]);
            }
        };
        assert forall|j: int| 0 <= j < leaf_keys(ci).len() implies leaf_keys(ci)[j] <= bound by {
            assert(leaf_keys(ci)[j] == ci[j].key);
        };
        if i == nk {
            assert(rest =~= Seq::<LeafCellV>::empty());
        }
        assert forall|j: int| 0 <= j < leaf_keys(rest).len() implies leaf_keys(rest)[j] > bound by {
            assert(leaf_keys(rest)[j] == rest[j].key);
        };
        lemma_sorted_concat(leaf_keys(ci), leaf_keys(rest), bound);
        if 1 <= i {
            let prev = root.children[i - 1].key;
            assert forall|j: int| 0 <= j < tail_cells(pages, i).len() implies (#[trigger]
            tail_cells(pages, i)[j]).key > prev by {
                if j < ci.len() {
                    assert(tail_cells(pages, i)[j] == ci[j]);
                    assert(leaf_keys(ci)[0] == ci[0].key);
                    assert(leaf_keys(ci)[j] == ci[j].key);
                    if j > 0 {
                        assert(leaf_keys(ci)[0] < leaf_keys(ci)[j]);
                    }
                } else {
                    assert(tail_cells(pages, i)[j] == rest[j - ci.len()]);
                    assert(root.children[i - 1].key < root.children[i].key) by {
                        assert(internal_keys(root.children)[i - 1] == root.children[i - 1].key);
                        assert(internal_keys(root.children)[i] == root.children[i].key);
                    }
                }
            };
        }
    }
}

/// Every key of child `i` is at most its separator.
pub proof fn lemma_child_cells_le(pages: Seq<Page>, i: int)
    requires
        wf_root_internal(pages),
        0 <= i < pages[0]@.children.len(),
    ensures
        cells_keys_le(child_page(pages, i).cells, pages[0]@.children[i].key),
{
    assert(wf_child(pages, i));
    let ci = child_page(pages, i).cells;
    assert forall|j: int| 0 <= j < ci.len() implies (#[trigger] ci[j]).key
        <= pages[0]@.children[i].key by {
        assert(leaf_keys(ci)[j] == ci[j].key);
        assert(leaf_keys(ci)[ci.len() - 1] == ci[ci.len() - 1].key);
        if j < ci.len() - 1 {
            assert(leaf_keys(ci)[j] < leaf_keys(ci)[ci.len() - 1]);
        }
    };
}

/// When every separator before child `i` is below `key`, so is every cell key
/// before child `i`.
pub proof fn lemma_head_cells_lt(pages: Seq<Page>, i: int, key: u32)
    requires
        wf_root_internal(pages),
        0 <= i <= pages[0]@.children.len(),
        forall|j: int| 0 <= j < i ==> internal_keys(pages[0]@.children)[j] < key,
    ensures
        cells_keys_lt(head_cells(pages, i), key),
    decreases i,
{
    if i > 0 {
        lemma_head_cells_lt(pages, i - 1, key);
        lemma_child_cells_le(pages, i - 1);
        assert(internal_keys(pages[0]@.children)[i - 1] == pages[0]@.children[i - 1].key);
        let h = head_cells(pages, i - 1);
        let c = child_page(pages, i - 1).cells;
        assert forall|j: int| 0 <= j < (h + c).len() implies (#[trigger] (h + c)[j]).key < key by {
            if j < h.len() {
                assert((h + c)[j] == h[j]);
            } else {
                assert((h + c)[j] == c[j - h.len()]);
            }
        };
    }
}

/// Where `find` lands for `key` under an internal root: the tree's cells
/// split around the chosen leaf, everything before it is below `key`,
/// everything after it is above, the global insertion point is the local one
/// shifted by the cells before the leaf, and the key is present in the tree
/// exactly when the local search hits it.
pub proof fn lemma_find_position(pages: Seq<Page>, key: u32)
    requires
        wf_root_internal(pages),
        1 <= pages.len() <= TABLE_MAX_PAGES,
    ensures
        ({
            let root = pages[0]@;
            let ci = lower_bound(internal_keys(root.children), key);
            let lcells = child_page(pages, ci).cells;
            let l = lower_bound(leaf_keys(lcells), key);
            &&& 0 <= ci <= root.children.len()
            &&& table_cells(pages) == head_cells(pages, ci) + lcells + tail_cells(pages, ci + 1)
            &&& cells_keys_lt(head_cells(pages, ci), key)
            &&& forall|j: int|
                0 <= j < tail_cells(pages, ci + 1).len() ==> (#[trigger] tail_cells(
                    pages,
                    ci + 1,
                )[j]).key > key
            &&& lower_bound(table_keys(pages), key) == head_cells(pages, ci).len() + l
            &&& (table_keys(pages).contains(key) <==> (l < lcells.len() && lcells[l].key == key))
        }),
{
    let root = pages[0]@;
    let nk = root.children.len() as int;
    let keys = internal_keys(root.children);
    let ci = lower_bound(keys, key);
    lemma_lower_bound(keys, key);
    assert(wf_child(pages, ci));
    let lcells = child_page(pages, ci).cells;
    let l = lower_bound(leaf_keys(lcells), key);
    let head = head_cells(pages, ci);
    let tail = tail_cells(pages, ci + 1);

    lemma_cells_split_at(pages, ci);
    assert(tail_cells(pages, ci) == lcells + tail);
    assert(table_cells(pages) == head + (lcells + tail));
    assert(table_cells(pages) =~= head + lcells + tail);

    lemma_head_cells_lt(pages, ci, key);

    lemma_tail_cells_sorted(pages, ci + 1);
    assert forall|j: int| 0 <= j < tail.len() implies (#[trigger] tail[j]).key > key by {
        assert(ci < nk);
        assert(keys[ci] == root.children[ci].key);
    };

    // the global lower bound is the local one shifted by the head
    let hk = leaf_keys(head);
    let lk = leaf_keys(lcells);
    let tk = leaf_keys(tail);
    lemma_leaf_keys_add(head, lcells + tail);
    lemma_leaf_keys_add(lcells, tail);
    assert(table_keys(pages) == hk + (lk + tk));
    lemma_lower_bound_concat(hk, lk + tk, key);
    assert forall|j: int| 0 <= j < hk.len() implies hk[j] < key by {
        assert(hk[j] == head[j].key);
    };
    lemma_lower_bound_unique(hk, key, hk.len() as int);
    lemma_lower_bound_concat(lk, tk, key);
    lemma_lower_bound(lk, key);
    if lower_bound(lk, key) == lk.len() {
        assert forall|j: int| 0 <= j < 0 implies tk[j] < key by {}
        if 0 < tk.len() {
            assert(tk[0] == tail[0].key);
        }
        lemma_lower_bound_unique(tk, key, 0);
    }
    assert(lower_bound(table_keys(pages), key) == hk.len() + l);

    // presence in the tree is exactly a local hit
    lemma_table_sorted(pages);
    lemma_lower_bound_contains(table_keys(pages), key);
    let g = lower_bound(table_keys(pages), key);
    if l < lcells.len() {
        assert(table_keys(pages)[g] == (lk + tk)[l]);
        assert((lk + tk)[l] == lk[l]);
        assert(lk[l] == lcells[l].key);
    } else {
        if g < table_keys(pages).len() {
            assert(table_keys(pages)[g] == (lk + tk)[l]);
            assert((lk + tk)[l] == tk[0]);
            assert(tk[0] == tail[0].key);
        }
    }
}

/// The keys a well-formed tree holds are strictly ascending: leaves are
/// sorted, separators partition them, and no key repeats.
pub proof fn lemma_table_sorted(pages: Seq<Page>)
    requires
        wf_pages(pages),
    ensures
        sorted_keys(table_keys(pages)),
{
    if !pages[0]@.is_leaf() {
        lemma_tail_cells_sorted(pages, 0);
    }
}

/// Tails taken over two states agree when the remaining children agree
/// pairwise, allowing for an index shift.
pub proof fn lemma_tail_cells_shift(p: Seq<Page>, q: Seq<Page>, ip: int, iq: int)
    requires
        ip >= 0,
        iq >= 0,
        p[0]@.children.len() - ip == q[0]@.children.len() - iq,
        forall|k: int|
            0 <= k <= p[0]@.children.len() - ip ==> #[trigger] child_page(q, iq + k).cells
                == child_page(p, ip + k).cells,
    ensures
        tail_cells(q, iq) == tail_cells(p, ip),
    decreases p[0]@.children.len() + 1 - ip,
{
    if ip > p[0]@.children.len() {
        assert(tail_cells(q, iq) =~= tail_cells(p, ip));
    } else {
        assert(child_page(q, iq + 0).cells == child_page(p, ip + 0).cells);
        assert forall|k: int| 0 <= k <= p[0]@.children.len() - (ip + 1) implies #[trigger]
        child_page(q, iq + 1 + k).cells == child_page(p, ip + 1 + k).cells by {
            assert(child_page(q, iq + (k + 1)).cells == child_page(p, ip + (k + 1)).cells);
        }
        lemma_tail_cells_shift(p, q, ip + 1, iq + 1);
    }
}

/// Heads taken over two states agree when the children before them agree
/// pairwise.
pub proof fn lemma_head_cells_eq(p: Seq<Page>, q: Seq<Page>, i: int)
    requires
        forall|k: int| 0 <= k < i ==> #[trigger] child_page(q, k).cells == child_page(p, k).cells,
    ensures
        head_cells(q, i) == head_cells(p, i),
    decreases i,
{
    if i > 0 {
        lemma_head_cells_eq(p, q, i - 1);
    }
}

/// No page is listed twice among the root's children: two children would
/// otherwise hold the same non-empty key range on both sides of a separator.
pub proof fn lemma_children_distinct(pages: Seq<Page>)
    requires
        wf_root_internal(pages),
    ensures
        forall|i: int, j: int|
            0 <= i < j <= pages[0]@.children.len() ==> pages[0]@.child_at(i) != pages[0]@.child_at(
                j,
            ),
{
    let root = pages[0]@;
    let nk = root.children.len() as int;
    assert forall|i: int, j: int| 0 <= i < j <= nk implies root.child_at(i) != root.child_at(
        j,
    ) by {
        assert(wf_child(pages, i));
        assert(wf_child(pages, j));
        if root.child_at(i) == root.child_at(j) {
            let c = child_page(pages, i).cells;
            lemma_child_cells_le(pages, i);
            // the same first cell would lie at or below separator i and
            // strictly above separator j-1 >= separator i
            assert(c[0].key <= root.children[i].key);
            assert(child_page(pages, j).cells.first().key > root.children[j - 1].key);
            if i < j - 1 {
                assert(internal_keys(root.children)[i] < internal_keys(root.children)[j - 1]);
            }
        }
    }
}

/// Inserting a key at its lower bound keeps a sorted run sorted.
pub proof fn lemma_sorted_insert_key(keys: Seq<u32>, l: int, k: u32)
    requires
        sorted_keys(keys),
        0 <= l <= keys.len(),
        forall|j: int| 0 <= j < l ==> keys[j] < k,
        forall|j: int| l <= j < keys.len() ==> keys[j] > k,
    ensures
        sorted_keys(keys.insert(l, k)),
{
    let s = keys.insert(l, k);
    assert forall|i: int, j: int| 0 <= i < j < s.len() implies s[i] < s[j] by {
        let oi = if i < l {
            i
        } else {
            i - 1
        };
        let oj = if j < l {
            j
        } else {
            j - 1
        };
        if i != l && j != l {
            assert(s[i] == keys[oi] && s[j] == keys[oj]);
        } else if i == l {
            assert(s[j] == keys[oj]);
        } else {
            assert(s[i] == keys[oi]);
        }
    }
}

/// The keys of cells with one inserted are the keys with its key inserted.
pub proof fn lemma_leaf_keys_insert(cells: Seq<LeafCellV>, l: int, cell: LeafCellV)
    requires
        0 <= l <= cells.len(),
    ensures
        leaf_keys(cells.insert(l, cell)) == leaf_keys(cells).insert(l, cell.key),
{
    assert(leaf_keys(cells.insert(l, cell)) =~= leaf_keys(cells).insert(l, cell.key));
}

/// Cell `j` of child `ci` sits in the whole tree at its head offset plus `j`.
pub proof fn lemma_cell_at_child(pages: Seq<Page>, ci: int, j: int)
    requires
        wf_root_internal(pages),
        0 <= ci <= pages[0]@.children.len(),
        0 <= j < child_page(pages, ci).cells.len(),
    ensures
        0 <= head_cells(pages, ci).len() + j < table_cells(pages).len(),
        table_cells(pages)[head_cells(pages, ci).len() + j] == child_page(pages, ci).cells[j],
{
    lemma_cells_split_at(pages, ci);
    assert(tail_cells(pages, ci) == child_page(pages, ci).cells + tail_cells(pages, ci + 1));
    assert(table_cells(pages) == head_cells(pages, ci) + (child_page(pages, ci).cells
        + tail_cells(pages, ci + 1)));
}

/// The tree's cells are exactly the children's cells laid end to end; in
/// particular the count past the last child is the total.
pub proof fn lemma_cells_total(pages: Seq<Page>)
    requires
        wf_root_internal(pages),
    ensures
        table_cells(pages).len() == head_cells(pages, pages[0]@.children.len() as int).len()
            + child_page(pages, pages[0]@.children.len() as int).cells.len(),
{
    let nk = pages[0]@.children.len() as int;
    lemma_cells_split_at(pages, nk + 1);
    assert(tail_cells(pages, nk + 1) =~= Seq::<LeafCellV>::empty());
    assert(head_cells(pages, nk + 1) == head_cells(pages, nk) + child_page(pages, nk).cells);
}

/// Inserting in the middle run of a concatenation inserts in the whole.
pub proof fn lemma_insert_middle(
    a: Seq<LeafCellV>,
    b: Seq<LeafCellV>,
    c: Seq<LeafCellV>,
    l: int,
    x: LeafCellV,
)
    requires
        0 <= l <= b.len(),
    ensures
        (a + b + c).insert(a.len() + l, x) == a + b.insert(l, x) + c,
{
    assert((a + b + c).insert(a.len() + l, x) =~= a + b.insert(l, x) + c);
}

/// A fresh key inserted at its lower bound keeps a leaf sorted; the cells
/// around the bound flank the key strictly.
pub proof fn lemma_leaf_insert_sorted(cells: Seq<LeafCellV>, key: u32, row: RowV, l: int)
    requires
        sorted_keys(leaf_keys(cells)),
        l == lower_bound(leaf_keys(cells), key),
        !(l < cells.len() && cells[l].key == key),
    ensures
        0 <= l <= cells.len(),
        sorted_keys(leaf_keys(cells.insert(l, LeafCellV { key, row }))),
        cells_keys_lt(cells.take(l), key),
        cells_keys_gt(cells.skip(l), key),
{
    let keys = leaf_keys(cells);
    lemma_lower_bound(keys, key);
    assert forall|j: int| 0 <= j < cells.take(l).len() implies (#[trigger] cells.take(l)[j]).key
        < key by {
        assert(keys[j] == cells[j].key);
    };
    assert forall|j: int| 0 <= j < cells.skip(l).len() implies (#[trigger] cells.skip(l)[j]).key
        > key by {
        assert(keys[l] == cells[l].key);
        assert(keys[l + j] == cells[l + j].key);
        if j > 0 {
            assert(keys[l] < keys[l + j]);
        }
    };
    assert forall|j: int| l <= j < keys.len() implies keys[j] > key by {
        assert(cells.skip(l)[j - l] == cells[j]);
        assert(keys[j] == cells[j].key);
    };
    lemma_sorted_insert_key(keys, l, key);
    lemma_leaf_keys_insert(cells, l, LeafCellV { key, row });
}

/// The views of a cell vector with one inserted.
pub proof fn lemma_cell_views_insert(cells: Seq<LeafCell>, l: int, cell: LeafCell)
    requires
        0 <= l <= cells.len(),
    ensures
        cells.insert(l, cell).map_values(|c: LeafCell| c@) == cells.map_values(
            |c: LeafCell| c@,
        ).insert(l, cell@),
{
    assert(cells.insert(l, cell).map_values(|c: LeafCell| c@) =~= cells.map_values(
        |c: LeafCell| c@,
    ).insert(l, cell@));
}

/// Cutting a sorted run of cells leaves two sorted halves whose border keys
/// keep their order.
pub proof fn lemma_split_halves(comb: Seq<LeafCellV>, at: int)
    requires
        sorted_keys(leaf_keys(comb)),
        0 < at < comb.len(),
    ensures
        comb.take(at) + comb.skip(at) == comb,
        sorted_keys(leaf_keys(comb.take(at))),
        sorted_keys(leaf_keys(comb.skip(at))),
        comb.take(at).last() == comb[at - 1],
        comb.skip(at).first() == comb[at],
        comb.skip(at).last() == comb.last(),
        comb[at - 1].key < comb[at].key,
        forall|j: int| 0 <= j < at ==> comb.take(at)[j] == comb[j],
        forall|j: int| 0 <= j < comb.len() - at ==> comb.skip(at)[j] == comb[at + j],
        cells_keys_le(comb.take(at), comb[at - 1].key),
        cells_keys_gt(comb.skip(at), comb[at - 1].key),
{
    assert(comb.take(at) + comb.skip(at) =~= comb);
    let a = comb.take(at);
    let b = comb.skip(at);
    assert forall|i: int, j: int|
        0 <= i < j < leaf_keys(a).len() implies leaf_keys(a)[i] < leaf_keys(a)[j] by {
        assert(leaf_keys(a)[i] == a[i].key && leaf_keys(a)[j] == a[j].key);
        assert(leaf_keys(comb)[i] == comb[i].key && leaf_keys(comb)[j] == comb[j].key);
    };
    assert forall|i: int, j: int|
        0 <= i < j < leaf_keys(b).len() implies leaf_keys(b)[i] < leaf_keys(b)[j] by {
        assert(leaf_keys(b)[i] == b[i].key && leaf_keys(b)[j] == b[j].key);
        assert(leaf_keys(comb)[at + i] == comb[at + i].key && leaf_keys(comb)[at + j] == comb[at
            + j].key);
    };
    assert(leaf_keys(comb)[at - 1] == comb[at - 1].key);
    assert(leaf_keys(comb)[at] == comb[at].key);
    assert forall|j: int| 0 <= j < a.len() implies (#[trigger] a[j]).key <= comb[at - 1].key by {
        if j < at - 1 {
            assert(leaf_keys(comb)[j] == comb[j].key);
        }
    };
    assert forall|j: int| 0 <= j < b.len() implies (#[trigger] b[j]).key > comb[at - 1].key by {
        assert(leaf_keys(comb)[at + j] == comb[at + j].key);
    };
}

/// The table holds `(key, row)` at the key's ordered place, and all else as
/// before: what a successful insert leaves behind.
pub open spec fn cells_inserted(p: Seq<Page>, q: Seq<Page>, key: u32, row: RowV) -> bool {
    table_cells(q) == table_cells(p).insert(
        lower_bound(table_keys(p), key),
        LeafCellV { key, row },
    )
}

/// The page-level outcome of an insert into a leaf with room: only the leaf
/// at `target` changed, and its cell array is the old one with the new cell
/// spliced in at index `l`; every header field and every other page is
/// untouched.
pub open spec fn leaf_inserted_in_place(
    p: Seq<Page>,
    q: Seq<Page>,
    target: int,
    l: int,
    cell: LeafCellV,
) -> bool {
    &&& q.len() == p.len()
    &&& q == p.update(target, q[target])
    &&& q[target]@ == (PageV { cells: p[target]@.cells.insert(l, cell), ..p[target]@ })
}

/// The page-level outcome of a leaf split, as the layout fixes it. Of the
/// combined cells (the old leaf's with the new cell at index `l`), the first
/// `LEAF_NODE_LEFT_SPLIT_COUNT` stay left and the rest move to a fresh leaf
/// chained after it. When the old leaf was the root, the left half lands in
/// a new page copied from the root, the right half in the page allocated
/// first, and the root page becomes the internal node over the two; no other
/// page is touched either way.
pub open spec fn leaf_split_pages(
    p: Seq<Page>,
    q: Seq<Page>,
    target: int,
    l: int,
    cell: LeafCellV,
) -> bool {
    let comb = p[target]@.cells.insert(l, cell);
    let half = LEAF_NODE_LEFT_SPLIT_COUNT as int;
    if p[0]@.is_leaf() {
        &&& q.len() == 3
        &&& q[2]@ == (PageV {
            is_root: false,
            parent: 0,
            next_leaf: 1,
            cells: comb.take(half),
            ..p[0]@
        })
        &&& q[1]@ == (PageV {
            node_type: NodeType::NodeLeaf,
            is_root: false,
            parent: 0,
            next_leaf: p[0]@.next_leaf,
            cells: comb.skip(half),
            right_child: 0,
            children: Seq::empty(),
        })
        &&& q[0]@ == (PageV {
            node_type: NodeType::NodeInternal,
            is_root: true,
            parent: 0,
            next_leaf: 0,
            cells: Seq::empty(),
            right_child: 1,
            children: seq![InternalCell { child: 2, key: comb[half - 1].key }],
        })
    } else {
        &&& q.len() == p.len() + 1
        &&& forall|x: int| 1 <= x < p.len() && x != target ==> q[x] == p[x]
        &&& q[target]@ == (PageV {
            cells: comb.take(half),
            next_leaf: q[target]@.next_leaf,
            ..p[target]@
        })
        &&& q[target]@.next_leaf == p.len()
        &&& q[p.len() as int]@ == (PageV {
            node_type: NodeType::NodeLeaf,
            is_root: false,
            parent: p[target]@.parent,
            next_leaf: p[target]@.next_leaf,
            cells: comb.skip(half),
            right_child: 0,
            children: Seq::empty(),
        })
    }
}

/// The leaf that an insert of `key` lands in, and the cell index within it:
/// where `find` puts the cursor.
pub open spec fn insert_target(p: Seq<Page>, key: u32) -> int {
    if p[0]@.is_leaf() {
        0
    } else {
        p[0]@.child_at(lower_bound(internal_keys(p[0]@.children), key)) as int
    }
}

/// The whole effect of a successful insert: the ordered cell content gains
/// the new cell, and at page level the target leaf either took it in place
/// or was split as the layout fixes.
pub open spec fn insert_effect(p: Seq<Page>, q: Seq<Page>, key: u32, row: RowV) -> bool {
    let target = insert_target(p, key);
    let l = lower_bound(leaf_keys(p[target]@.cells), key);
    let cell = LeafCellV { key, row };
    &&& cells_inserted(p, q, key, row)
    &&& if p[target]@.cells.len() < LEAF_NODE_MAX_CELLS {
        leaf_inserted_in_place(p, q, target, l, cell)
    } else {
        leaf_split_pages(p, q, target, l, cell)
    }
}

/// The separator keys of internal cells with one inserted.
pub proof fn lemma_internal_keys_insert(children: Seq<InternalCell>, l: int, cell: InternalCell)
    requires
        0 <= l <= children.len(),
    ensures
        internal_keys(children.insert(l, cell)) == internal_keys(children).insert(l, cell.key),
{
    assert(internal_keys(children.insert(l, cell)) =~= internal_keys(children).insert(l, cell.key));
}

/// The child index at which a freshly split-off leaf, last page of the cache,
/// belongs: past every child when its keys exceed even the rightmost child's,
/// else where its largest key sorts among the separators.
pub open spec fn insert_child_pos(pages: Seq<Page>, child: int) -> int {
    let root = pages[0]@;
    let nk = root.children.len() as int;
    let cmax = pages[child]@.max_key();
    if cmax > child_page(pages, nk).max_key() {
        nk + 1
    } else {
        lower_bound(internal_keys(root.children), cmax)
    }
}

/// The state in which a new leaf, already linked into the next-leaf chain at
/// its ordered place, waits as the last page for the root to list it: all of
/// [`wf_root_internal`] except that the root does not yet know the child.
pub open spec fn pre_internal_insert(pages: Seq<Page>, child: int) -> bool {
    let root = pages[0]@;
    let nk = root.children.len() as int;
    let c = pages[child]@;
    let fpos = insert_child_pos(pages, child);
    &&& !root.is_leaf()
    &&& root.wf_internal()
    &&& root.is_root
    &&& root.parent == 0
    &&& nk + 3 == pages.len()
    &&& child == pages.len() - 1
    &&& pages.len() <= TABLE_MAX_PAGES
    &&& c.wf_leaf()
    &&& !c.is_root
    &&& c.parent == 0
    &&& c.cells.len() >= 1
    &&& forall|i: int| 0 <= i <= nk ==> #[trigger] wf_child(pages, i)
    &&& forall|i: int| 0 <= i <= nk ==> #[trigger] root.child_at(i) < child
    &&& forall|i: int|
        0 <= i < nk ==> (#[trigger] child_page(pages, i)).max_key() == root.children[i].key
    &&& forall|i: int|
        1 <= i <= nk ==> (#[trigger] child_page(pages, i)).cells.first().key > root.children[i
            - 1].key
    &&& forall|q: int| 1 <= q < child ==> #[trigger] is_child_of_root(pages, q)
    &&& 1 <= fpos
    &&& (fpos <= nk ==> c.cells.first().key > root.children[fpos - 1].key)
    &&& (fpos == nk + 1 ==> c.cells.first().key > child_page(pages, nk).max_key())
    &&& (fpos <= nk ==> child_page(pages, fpos).cells.first().key > c.max_key())
    &&& (fpos < nk ==> c.max_key() < root.children[fpos].key)
    &&& forall|i: int|
        0 <= i < nk && i != fpos - 1 ==> (#[trigger] child_page(pages, i)).next_leaf
            == root.child_at(i + 1)
    &&& (fpos <= nk ==> {
        &&& child_page(pages, fpos - 1).next_leaf == child
        &&& c.next_leaf == root.child_at(fpos)
        &&& child_page(pages, nk).next_leaf == 0
    })
    &&& (fpos == nk + 1 ==> {
        &&& child_page(pages, nk).next_leaf == child
        &&& c.next_leaf == 0
    })
}

/// In a sorted non-empty leaf the first key is at most the largest.
pub proof fn lemma_first_le_max(c: PageV)
    requires
        c.wf_leaf(),
        c.cells.len() >= 1,
    ensures
        c.cells.first().key <= c.max_key(),
{
    let keys = leaf_keys(c.cells);
    assert(keys[0] == c.cells[0].key);
    assert(keys[c.cells.len() - 1] == c.cells[c.cells.len() - 1].key);
    if c.cells.len() > 1 {
        assert(keys[0] < keys[c.cells.len() - 1]);
    }
}

impl Table {
    /// Links an already-chained new leaf, the last page of the cache, into
    /// the root at its ordered place. When its keys exceed even the rightmost
    /// child's it becomes the right child and the former right child gets a
    /// separator cell; otherwise its cell is spliced in where it sorts.
    #[verifier::rlimit(100)]
    #[verifier::spinoff_prover]
    pub fn internal_node_insert(&mut self, parent_page_num: usize, child_page_num: usize)
        requires
            old(self).root_page_num == 0,
            parent_page_num == 0,
            pre_internal_insert(old(self)@, child_page_num as int),
            old(self)@[0]@.children.len() < INTERNAL_NODE_MAX_CELLS,
        ensures
            final(self).root_page_num == old(self).root_page_num,
            final(self).wf(),
            final(self)@.len() == old(self)@.len(),
            forall|x: int| 1 <= x < final(self)@.len() ==> final(self)@[x] == old(self)@[x],
            table_cells(final(self)@) == ({
                let p = old(self)@;
                let fpos = insert_child_pos(p, child_page_num as int);
                if fpos == p[0]@.children.len() + 1 {
                    table_cells(p) + p[child_page_num as int]@.cells
                } else {
                    head_cells(p, fpos) + p[child_page_num as int]@.cells + tail_cells(p, fpos)
                }
            }),
    {
        let ghost p = self@;
        let ghost root = p[0]@;
        let ghost nk = root.children.len() as int;
        let ghost c = p[child_page_num as int]@;
        let ghost fpos = insert_child_pos(p, child_page_num as int);
        let ghost oc = root.children;

        let child_max_key = {
            let cpage = self.pager.get_page_view(child_page_num);
            cpage.get_node_max_key()
        };
        let right_child_page_num = {
            let parent = self.pager.get_page_view(parent_page_num);
            parent.get_internal_node_right_child()
        };
        proof {
            assert(wf_child(p, nk));
            assert(root.child_at(nk) == root.right_child);
        }
        let right_child_max_key = {
            let rc = self.pager.get_page_view(right_child_page_num);
            rc.get_node_max_key()
        };
        proof {
            lemma_first_le_max(c);
            lemma_first_le_max(child_page(p, nk));
            lemma_lower_bound(internal_keys(oc), child_max_key);
            if fpos <= nk {
                assert(wf_child(p, fpos));
                lemma_first_le_max(child_page(p, fpos));
            }
        }
        let parent = self.pager.get_page(parent_page_num);
        let origin_num_keys = parent.get_internal_node_num_keys();
        let cell_index = parent.internal_node_find_child(child_max_key);
        parent.increase_internal_node_num_keys(1);
        let ghost blank = InternalCell { child: 0, key: 0 };
        proof {
            assert(parent@.children =~= oc.push(blank));
        }
        if child_max_key > right_child_max_key {
            // the new leaf holds the largest keys: it becomes the right child
            // and the former right child gets the last separator cell
            parent.set_internal_node_right_child(child_page_num);
            parent.set_internal_node_child(origin_num_keys, right_child_page_num);
            parent.set_internal_node_key(origin_num_keys, right_child_max_key);
            proof {
                assert(fpos == nk + 1);
                assert(parent@.children =~= oc.push(
                    InternalCell { child: right_child_page_num, key: right_child_max_key },
                ));
            }
        } else {
            // shift the cells from the insertion point one slot right, then
            // write the new cell
            proof {
                assert(fpos == cell_index as int);
                assert(fpos <= nk);
            }
            let mut i = origin_num_keys;
            while i > cell_index
                invariant
                    cell_index <= i <= origin_num_keys == nk,
                    parent@.children.len() == nk + 1,
                    forall|j: int| 0 <= j <= i && j < nk ==> parent@.children[j] == oc[j],
                    forall|j: int| i < j <= nk ==> parent@.children[j] == oc[j - 1],
                    parent@ == (PageV { children: parent@.children, ..p[0]@ }),
                decreases i,
            {
                let cell = parent.internal_node_cell(i - 1);
                parent.set_internal_node_cell(i, cell);
                i = i - 1;
            }
            parent.set_internal_node_child(cell_index, child_page_num);
            parent.set_internal_node_key(cell_index, child_max_key);
            proof {
                oc.insert_ensures(fpos, InternalCell { child: child_page_num, key: child_max_key });
                assert(parent@.children =~= oc.insert(
                    fpos,
                    InternalCell { child: child_page_num, key: child_max_key },
                ));
            }
        }
        proof {
            let q = self@;
            let root2 = q[0]@;
            let nk2 = root2.children.len() as int;
            let newcell = InternalCell { child: child_page_num, key: c.max_key() };
            let rccell = InternalCell { child: root.right_child, key: child_page(p, nk).max_key() };
            assert(q =~= p.update(0, q[0]));
            assert(forall|x: int| 1 <= x < q.len() ==> q[x] == p[x]);
            assert(nk2 == nk + 1);

            // the new separator run is sorted
            if fpos == nk + 1 {
                assert(root2.children == oc.push(rccell));
                assert(internal_keys(root2.children) =~= internal_keys(oc).push(rccell.key));
                assert(internal_keys(oc).push(rccell.key) =~= internal_keys(oc).insert(
                    nk,
                    rccell.key,
                ));
                assert forall|j: int| 0 <= j < nk implies internal_keys(oc)[j] < rccell.key by {
                    assert(child_page(p, nk).cells.first().key > oc[nk - 1].key);
                    assert(internal_keys(oc)[nk - 1] == oc[nk - 1].key);
                    if j < nk - 1 {
                        assert(internal_keys(oc)[j] < internal_keys(oc)[nk - 1]);
                    }
                }
                lemma_sorted_insert_key(internal_keys(oc), nk, rccell.key);
            } else {
                assert(root2.children == oc.insert(fpos, newcell));
                lemma_internal_keys_insert(oc, fpos, newcell);
                assert forall|j: int| 0 <= j < fpos implies internal_keys(oc)[j] < newcell.key by {
                    lemma_lower_bound(internal_keys(oc), c.max_key());
                }
                assert forall|j: int|
                    fpos <= j < nk implies internal_keys(oc)[j] > newcell.key by {
                    assert(internal_keys(oc)[fpos] == oc[fpos].key);
                    if j > fpos {
                        assert(internal_keys(oc)[fpos] < internal_keys(oc)[j]);
                    }
                }
                lemma_sorted_insert_key(internal_keys(oc), fpos, newcell.key);
                oc.insert_ensures(fpos, newcell);
            }

            // the child indices map across the splice
            assert forall|i: int| 0 <= i <= nk2 implies #[trigger] root2.child_at(i) == (if i < fpos {
                root.child_at(i) as int
            } else if i == fpos {
                child_page_num as int
            } else {
                root.child_at(i - 1) as int
            }) by {
                if fpos == nk + 1 {
                    if i < nk {
                        assert(root2.children[i] == oc[i]);
                    }
                } else {
                    if i < fpos {
                        assert(root2.children[i] == oc[i]);
                    } else if i > fpos && i <= nk {
                        assert(root2.children[i] == oc[i - 1]);
                    }
                }
            }

            // and so do the child pages themselves
            assert forall|i: int| 0 <= i <= nk2 implies #[trigger] child_page(q, i) == (if i
                == fpos {
                c
            } else if i < fpos {
                child_page(p, i)
            } else {
                child_page(p, i - 1)
            }) by {
                if i < fpos {
                    assert(wf_child(p, i));
                    assert(root2.child_at(i) == root.child_at(i));
                } else if i == fpos {
                    assert(root2.child_at(i) == child_page_num as int);
                } else {
                    assert(wf_child(p, i - 1));
                    assert(root2.child_at(i) == root.child_at(i - 1));
                }
            }

            // every child of the new root is a well-formed leaf in place
            assert forall|i: int| 0 <= i <= nk2 implies #[trigger] wf_child(q, i) by {
                if i < fpos {
                    assert(wf_child(p, i));
                    assert(child_page(q, i) == child_page(p, i));
                } else if i == fpos {
                    assert(q[root2.child_at(i) as int] == p[child_page_num as int]);
                } else {
                    assert(wf_child(p, i - 1));
                    assert(child_page(q, i) == child_page(p, i - 1));
                }
            }

            // separators still name each child's largest key
            assert forall|i: int|
                0 <= i < nk2 implies (#[trigger] child_page(q, i)).max_key()
                    == root2.children[i].key by {
                if i < fpos {
                    assert(wf_child(p, i));
                    assert(child_page(q, i) == child_page(p, i));
                    if fpos == nk + 1 {
                        if i < nk {
                            assert(root2.children[i] == oc[i]);
                        } else {
                            assert(child_page(p, nk).max_key() == rccell.key);
                        }
                    } else {
                        assert(root2.children[i] == oc[i]);
                    }
                } else if i == fpos {
                    assert(child_page(q, i) == c);
                } else {
                    assert(wf_child(p, i - 1));
                    assert(child_page(q, i) == child_page(p, i - 1));
                    assert(root2.children[i] == oc[i - 1]);
                }
            }

            // each child's first key clears the separator before it
            assert forall|i: int|
                1 <= i <= nk2 implies (#[trigger] child_page(q, i)).cells.first().key
                    > root2.children[i - 1].key by {
                if i < fpos {
                    assert(wf_child(p, i));
                    assert(child_page(q, i) == child_page(p, i));
                    assert(root2.children[i - 1] == oc[i - 1]);
                } else if i == fpos {
                    assert(child_page(q, i) == c);
                    if fpos == nk + 1 {
                        assert(root2.children[i - 1] == rccell);
                    } else {
                        assert(root2.children[i - 1] == oc[i - 1]);
                    }
                } else if i == fpos + 1 {
                    assert(child_page(q, i) == child_page(p, i - 1));
                    assert(root2.children[i - 1] == newcell);
                } else {
                    assert(child_page(q, i) == child_page(p, i - 1));
                    assert(root2.children[i - 1] == oc[i - 2]);
                    assert(child_page(p, i - 1).cells.first().key > oc[i - 2].key);
                }
            }

            // the chain runs through the children in their new order
            assert forall|i: int|
                0 <= i < nk2 implies (#[trigger] child_page(q, i)).next_leaf == root2.child_at(
                    i + 1,
                ) by {
                if i < fpos - 1 {
                    assert(child_page(q, i) == child_page(p, i));
                    assert(child_page(p, i).next_leaf == root.child_at(i + 1));
                } else if i == fpos - 1 {
                    assert(child_page(q, i) == child_page(p, i));
                    assert(child_page(p, fpos - 1).next_leaf == child_page_num as int);
                } else if i == fpos {
                    assert(child_page(q, i) == c);
                } else {
                    assert(child_page(q, i) == child_page(p, i - 1));
                    assert(child_page(p, i - 1).next_leaf == root.child_at(i));
                }
            }
            assert(child_page(q, nk2).next_leaf == 0) by {
                if fpos == nk + 1 {
                    assert(child_page(q, nk2) == c);
                } else {
                    assert(child_page(q, nk2) == child_page(p, nk));
                }
            }

            // every page below the root is some child
            assert forall|x: int| 1 <= x < q.len() implies #[trigger] is_child_of_root(q, x) by {
                if x == child_page_num as int {
                    assert(root2.child_at(fpos) == x);
                } else {
                    assert(is_child_of_root(p, x));
                    let w = choose|w: int| 0 <= w <= nk && root.child_at(w) == x;
                    if w < fpos {
                        assert(root2.child_at(w) == x);
                    } else {
                        assert(root2.child_at(w + 1) == x);
                    }
                }
            }
            assert(wf_root_internal(q));

            // the tree's cells gained the child's cells at its place
            if fpos == nk + 1 {
                lemma_cells_split_at(p, nk + 1);
                assert(tail_cells(p, nk + 1) =~= Seq::<LeafCellV>::empty());
                assert(table_cells(p) =~= head_cells(p, nk + 1));
                lemma_head_cells_eq(p, q, nk + 1);
                lemma_cells_split_at(q, nk + 1);
                assert(tail_cells(q, nk + 1) == child_page(q, nk + 1).cells + tail_cells(
                    q,
                    nk + 2,
                ));
                assert(tail_cells(q, nk + 2) =~= Seq::<LeafCellV>::empty());
                assert(child_page(q, nk + 1).cells == c.cells);
                assert(table_cells(q) =~= table_cells(p) + c.cells);
            } else {
                lemma_head_cells_eq(p, q, fpos);
                lemma_cells_split_at(q, fpos);
                assert(tail_cells(q, fpos) == child_page(q, fpos).cells + tail_cells(q, fpos + 1));
                assert(child_page(q, fpos).cells == c.cells);
                assert forall|k: int|
                    0 <= k <= p[0]@.children.len() - fpos implies #[trigger] child_page(
                    q,
                    fpos + 1 + k,
                ).cells == child_page(p, fpos + k).cells by {
                    assert(wf_child(p, fpos + k));
                    assert(root2.child_at(fpos + 1 + k) == root.child_at(fpos + k));
                    assert(child_page(q, fpos + 1 + k) == child_page(p, fpos + k));
                }
                lemma_tail_cells_shift(p, q, fpos, fpos + 1);
                assert(table_cells(q) =~= head_cells(p, fpos) + c.cells + tail_cells(p, fpos));
            }
        }
    }
}

/// The two leaf pages left behind by a leaf split under an internal root,
/// before the root learns the new child: the old leaf `cstar` (child `ci` of
/// the root) keeps the left half of its cells plus the new one, the new last
/// page holds the right half and is chained after it, and the root's
/// separator for `cstar`, if any, was renamed to the left half's largest key.
pub open spec fn split_mid_state(
    p: Seq<Page>,
    m: Seq<Page>,
    cstar: int,
    ci: int,
    l: int,
    cellv: LeafCellV,
) -> bool {
    let comb = p[cstar]@.cells.insert(l, cellv);
    let half = LEAF_NODE_LEFT_SPLIT_COUNT as int;
    let nk = p[0]@.children.len() as int;
    &&& m.len() == p.len() + 1
    &&& forall|x: int| 1 <= x < p.len() && x != cstar ==> m[x] == p[x]
    &&& m[cstar]@ == (PageV {
        cells: comb.take(half),
        next_leaf: m[cstar]@.next_leaf,
        ..p[cstar]@
    })
    &&& m[cstar]@.next_leaf == p.len()
    &&& m[p.len() as int]@ == (PageV {
        node_type: NodeType::NodeLeaf,
        is_root: false,
        parent: p[cstar]@.parent,
        next_leaf: p[cstar]@.next_leaf,
        cells: comb.skip(half),
        right_child: 0,
        children: Seq::empty(),
    })
    &&& m[0]@ == (if ci < nk {
        PageV {
            children: p[0]@.children.update(
                ci,
                InternalCell { child: p[0]@.children[ci].child, key: comb[half - 1].key },
            ),
            ..p[0]@
        }
    } else {
        p[0]@
    })
}

/// After a leaf split under an internal root, the mid state is ready for
/// [`Table::internal_node_insert`], and the new leaf belongs right after the
/// child that split.
#[verifier::rlimit(100)]
#[verifier::spinoff_prover]
pub proof fn split_pre_internal_insert_holds(
    p: Seq<Page>,
    m: Seq<Page>,
    cstar: int,
    ci: int,
    l: int,
    cellv: LeafCellV,
)
    requires
        wf_pages(p),
        !p[0]@.is_leaf(),
        ci == lower_bound(internal_keys(p[0]@.children), cellv.key),
        cstar == p[0]@.child_at(ci),
        l == lower_bound(leaf_keys(p[cstar]@.cells), cellv.key),
        !table_keys(p).contains(cellv.key),
        cellv.row.valid(),
        cellv.key == cellv.row.id,
        p[cstar]@.cells.len() == LEAF_NODE_MAX_CELLS,
        p.len() + 1 <= TABLE_MAX_PAGES,
        split_mid_state(p, m, cstar, ci, l, cellv),
    ensures
        pre_internal_insert(m, p.len() as int),
        m[0]@.children.len() < INTERNAL_NODE_MAX_CELLS,
        m[0]@.children.len() == p[0]@.children.len(),
        insert_child_pos(m, p.len() as int) == ci + 1,
{
    let root = p[0]@;
    let nk = root.children.len() as int;
    let oc = root.children;
    let keys = internal_keys(oc);
    let nn = p.len() as int;
    let lcells = p[cstar]@.cells;
    let comb = lcells.insert(l, cellv);
    let half = LEAF_NODE_LEFT_SPLIT_COUNT as int;
    let c = m[nn]@;
    let mroot = m[0]@;
    let mc = mroot.children;

    lemma_leaf_geometry();
    lemma_find_position(p, cellv.key);
    lemma_lower_bound(keys, cellv.key);
    assert(wf_child(p, ci));
    assert(wf_child(p, nk));
    lemma_leaf_insert_sorted(lcells, cellv.key, cellv.row, l);
    lcells.insert_ensures(l, cellv);
    lemma_split_halves(comb, half);
    lemma_children_distinct(p);
    lemma_first_le_max(child_page(p, nk));

    assert forall|j: int|
        0 <= j < comb.len() implies (#[trigger] comb[j]).row.valid() && (#[trigger] comb[j]).key
        == comb[j].row.id by {
        if j < l {
            assert(comb[j] == lcells[j]);
        } else if j > l {
            assert(comb[j] == lcells[j - 1]);
        }
    };

    let new_max = comb[half - 1].key;
    let cmax = comb[comb.len() - 1].key;
    if ci >= 1 {
        assert(comb[0].key > oc[ci - 1].key) by {
            if l == 0 {
                assert(comb[0] == cellv);
                assert(keys[ci - 1] == oc[ci - 1].key);
            } else {
                assert(comb[0] == lcells[0]);
                assert(child_page(p, ci).cells.first().key > oc[ci - 1].key);
            }
        }
        assert(new_max > oc[ci - 1].key) by {
            assert(leaf_keys(comb)[0] == comb[0].key);
            assert(leaf_keys(comb)[half - 1] == comb[half - 1].key);
        }
    }
    assert(c.cells == comb.skip(half));
    assert(c.max_key() == comb.skip(half).last().key);
    assert(c.max_key() == cmax);
    assert(c.cells.first() == comb[half]);
    assert(new_max < cmax) by {
        assert(leaf_keys(comb)[half - 1] == comb[half - 1].key);
        assert(leaf_keys(comb)[comb.len() - 1] == comb[comb.len() - 1].key);
    }

    // the child slots are unchanged: only a separator key was renamed
    assert forall|i: int| 0 <= i <= nk implies #[trigger] mroot.child_at(i) == root.child_at(
        i,
    ) by {
        if ci < nk && i < nk {
            if i == ci {
                assert(mc[i] == InternalCell { child: oc[ci].child, key: new_max });
            } else {
                assert(mc[i] == oc[i]);
            }
        }
    }
    assert forall|i: int| 0 <= i <= nk && i != ci implies #[trigger] child_page(m, i)
        == child_page(p, i) by {
        assert(wf_child(p, i));
        assert(root.child_at(i) != root.child_at(ci));
    }
    assert(child_page(m, ci) == m[cstar]@);
    assert(child_page(m, ci).cells == comb.take(half));
    assert(child_page(m, ci).max_key() == comb[half - 1].key);

    if ci < nk {
        // the key being displaced was child ci's separator; the new one is
        // strictly between its neighbours
        assert(keys[ci] == oc[ci].key);
        assert(oc[ci].key >= cellv.key);
        assert(child_page(p, ci).max_key() == oc[ci].key);
        assert(lcells.last().key == oc[ci].key);
        lemma_cell_at_child(p, ci, lcells.len() - 1);
        assert(table_keys(p)[head_cells(p, ci).len() + lcells.len() - 1] == lcells.last().key);
        assert(table_keys(p).contains(oc[ci].key));
        assert(oc[ci].key != cellv.key);
        assert(oc[ci].key > cellv.key);
        assert(l < lcells.len()) by {
            lemma_lower_bound(leaf_keys(lcells), cellv.key);
            if l == lcells.len() {
                assert(leaf_keys(lcells)[lcells.len() - 1] == lcells.last().key);
            }
        }
        assert(comb[comb.len() - 1] == lcells[lcells.len() - 1]);
        assert(cmax == oc[ci].key);
        assert(internal_keys(mc) =~= keys.update(ci, new_max));
        assert(sorted_keys(internal_keys(mc))) by {
            assert forall|i: int, j: int|
                0 <= i < j < nk implies internal_keys(mc)[i] < internal_keys(mc)[j] by {
                if i != ci && j != ci {
                    assert(internal_keys(mc)[i] == keys[i] && internal_keys(mc)[j] == keys[j]);
                } else if i == ci {
                    assert(internal_keys(mc)[j] == keys[j]);
                    assert(keys[j] > keys[ci]);
                    assert(keys[ci] == cmax);
                } else {
                    assert(internal_keys(mc)[i] == keys[i]);
                    assert(keys[i] < keys[ci]);
                    assert(keys[ci] == cmax);
                    assert(i <= ci - 1);
                    if i < ci - 1 {
                        assert(keys[i] < keys[ci - 1]);
                    }
                }
            }
        }
    } else {
        assert(mc == oc);
    }

    // where the new child sorts
    if ci == nk {
        assert(child_page(m, nk) == m[cstar]@);
        assert(child_page(m, nk).max_key() == new_max);
        assert(insert_child_pos(m, nn) == nk + 1);
    } else {
        assert(child_page(m, nk) == child_page(p, nk));
        assert(cmax < child_page(p, nk).max_key()) by {
            assert(child_page(p, nk).cells.first().key > oc[nk - 1].key);
            if ci < nk - 1 {
                assert(keys[ci] < keys[nk - 1]);
            }
        }
        assert forall|j: int| 0 <= j <= ci implies internal_keys(mc)[j] < cmax by {
            if j < ci {
                assert(internal_keys(mc)[j] == keys[j]);
                assert(keys[j] < keys[ci]);
            } else {
                assert(internal_keys(mc)[ci] == new_max);
            }
        }
        if ci + 1 < nk {
            assert(internal_keys(mc)[ci + 1] == keys[ci + 1]);
            assert(keys[ci + 1] > keys[ci]);
        }
        lemma_lower_bound_unique(internal_keys(mc), cmax, ci + 1);
        assert(insert_child_pos(m, nn) == ci + 1);
    }
    let fpos = ci + 1;

    // every old child is still a well-formed leaf in place
    assert forall|i: int| 0 <= i <= nk implies #[trigger] wf_child(m, i) by {
        assert(wf_child(p, i));
        if i == ci {
            assert forall|j: int|
                0 <= j < comb.take(half).len() implies (#[trigger] comb.take(
                half,
            )[j]).row.valid() && (#[trigger] comb.take(half)[j]).key == comb.take(
                half,
            )[j].row.id by {
                assert(comb.take(half)[j] == comb[j]);
            };
        }
    }
    assert(c.wf_leaf()) by {
        assert forall|j: int|
            0 <= j < comb.skip(half).len() implies (#[trigger] comb.skip(
            half,
        )[j]).row.valid() && (#[trigger] comb.skip(half)[j]).key == comb.skip(
            half,
        )[j].row.id by {
            assert(comb.skip(half)[j] == comb[half + j]);
        };
    }

    // separators still name each child's largest key
    assert forall|i: int|
        0 <= i < nk implies (#[trigger] child_page(m, i)).max_key() == mc[i].key by {
        if i != ci {
            assert(child_page(p, i).max_key() == oc[i].key);
            if ci < nk {
                assert(mc[i] == oc[i]);
            }
        }
    }

    // each child's first key clears the separator before it
    assert forall|i: int|
        1 <= i <= nk implies (#[trigger] child_page(m, i)).cells.first().key > mc[i - 1].key by {
        if i == ci {
            assert(child_page(m, ci).cells.first() == comb[0]);
            if ci < nk {
                assert(mc[i - 1] == oc[i - 1]);
            }
        } else if i == ci + 1 && ci < nk {
            assert(child_page(m, i) == child_page(p, i));
            assert(child_page(p, i).cells.first().key > oc[ci].key);
            assert(mc[ci].key == new_max);
            assert(new_max < cmax);
        } else {
            assert(child_page(m, i) == child_page(p, i));
            assert(child_page(p, i).cells.first().key > oc[i - 1].key);
            if ci < nk {
                assert(mc[i - 1] == oc[i - 1]);
            }
        }
    }

    // the chain already runs through the final order
    assert forall|i: int|
        0 <= i < nk && i != fpos - 1 implies (#[trigger] child_page(m, i)).next_leaf
            == mroot.child_at(i + 1) by {
        assert(child_page(m, i) == child_page(p, i));
        assert(child_page(p, i).next_leaf == root.child_at(i + 1));
    }
    if fpos <= nk {
        assert(child_page(m, fpos - 1).next_leaf == nn);
        assert(c.next_leaf == p[cstar]@.next_leaf);
        assert(child_page(p, ci).next_leaf == root.child_at(ci + 1));
        assert(child_page(m, nk).next_leaf == 0) by {
            assert(child_page(m, nk) == child_page(p, nk));
        }
    } else {
        assert(child_page(m, nk).next_leaf == nn);
        assert(c.next_leaf == 0) by {
            assert(child_page(p, nk).next_leaf == 0);
        }
    }

    // old children all lie below the new page
    assert forall|i: int| 0 <= i <= nk implies #[trigger] mroot.child_at(i) < nn by {
        assert(wf_child(p, i));
        assert(mroot.child_at(i) == root.child_at(i));
    }

    // coverage: nothing moved
    assert forall|q: int| 1 <= q < nn implies #[trigger] is_child_of_root(m, q) by {
        assert(is_child_of_root(p, q));
        let w = choose|w: int| 0 <= w <= nk && root.child_at(w) == q;
        assert(mroot.child_at(w) == q);
    }

    assert(pre_internal_insert(m, nn));
}

/// After the root has learnt the new child, the tree holds the original
/// cells with the new cell at its ordered place.
#[verifier::rlimit(100)]
#[verifier::spinoff_prover]
pub proof fn split_post_cells(
    p: Seq<Page>,
    m: Seq<Page>,
    q: Seq<Page>,
    cstar: int,
    ci: int,
    l: int,
    cellv: LeafCellV,
)
    requires
        wf_pages(p),
        !p[0]@.is_leaf(),
        ci == lower_bound(internal_keys(p[0]@.children), cellv.key),
        cstar == p[0]@.child_at(ci),
        l == lower_bound(leaf_keys(p[cstar]@.cells), cellv.key),
        !table_keys(p).contains(cellv.key),
        cellv.row.valid(),
        cellv.key == cellv.row.id,
        p[cstar]@.cells.len() == LEAF_NODE_MAX_CELLS,
        p.len() + 1 <= TABLE_MAX_PAGES,
        split_mid_state(p, m, cstar, ci, l, cellv),
        q.len() == m.len(),
        forall|x: int| 1 <= x < q.len() ==> q[x] == m[x],
        table_cells(q) == ({
            let fpos = insert_child_pos(m, p.len() as int);
            if fpos == m[0]@.children.len() + 1 {
                table_cells(m) + m[p.len() as int]@.cells
            } else {
                head_cells(m, fpos) + m[p.len() as int]@.cells + tail_cells(m, fpos)
            }
        }),
    ensures
        cells_inserted(p, q, cellv.key, cellv.row),
{
    let root = p[0]@;
    let nk = root.children.len() as int;
    let nn = p.len() as int;
    let lcells = p[cstar]@.cells;
    let comb = lcells.insert(l, cellv);
    let half = LEAF_NODE_LEFT_SPLIT_COUNT as int;
    let fpos = ci + 1;

    lemma_leaf_geometry();
    split_pre_internal_insert_holds(p, m, cstar, ci, l, cellv);
    lemma_find_position(p, cellv.key);
    assert(wf_child(p, ci)) by {
        lemma_lower_bound(internal_keys(p[0]@.children), cellv.key);
    }
    lemma_leaf_insert_sorted(lcells, cellv.key, cellv.row, l);
    lemma_split_halves(comb, half);
    lemma_children_distinct(p);

    let head = head_cells(p, ci);
    let tail = tail_cells(p, ci + 1);
    let g = lower_bound(table_keys(p), cellv.key);
    assert(g == head.len() + l);
    assert(table_cells(p) == head + lcells + tail);
    lemma_insert_middle(head, lcells, tail, l, cellv);

    // heads and tails around the split child are those of the old tree
    assert forall|i: int| 0 <= i <= nk implies #[trigger] m[0]@.child_at(i) == root.child_at(
        i,
    ) by {
        if ci < nk && i < nk {
            if i == ci {
                assert(m[0]@.children[i] == InternalCell {
                    child: root.children[ci].child,
                    key: comb[half - 1].key,
                });
            } else {
                assert(m[0]@.children[i] == root.children[i]);
            }
        }
    }
    assert forall|k: int| 0 <= k < ci implies #[trigger] child_page(m, k).cells == child_page(
        p,
        k,
    ).cells by {
        assert(wf_child(p, k));
        assert(root.child_at(k) != root.child_at(ci));
        assert(m[0]@.child_at(k) == root.child_at(k));
    }
    lemma_head_cells_eq(p, m, ci);
    assert(head_cells(m, ci + 1) == head_cells(m, ci) + child_page(m, ci).cells);
    assert(child_page(m, ci) == m[cstar]@);
    assert(child_page(m, ci).cells == comb.take(half));
    assert forall|k: int|
        0 <= k <= p[0]@.children.len() - (ci + 1) implies #[trigger] child_page(
        m,
        ci + 1 + k,
    ).cells == child_page(p, ci + 1 + k).cells by {
        assert(wf_child(p, ci + 1 + k));
        assert(root.child_at(ci + 1 + k) != root.child_at(ci));
        assert(m[0]@.child_at(ci + 1 + k) == root.child_at(ci + 1 + k));
    }
    lemma_tail_cells_shift(p, m, ci + 1, ci + 1);

    if ci == nk {
        // the new leaf went past every child: the old cells end with the
        // left half
        lemma_cells_split_at(m, nk);
        assert(tail_cells(m, nk) == child_page(m, nk).cells + tail_cells(m, nk + 1));
        assert(tail_cells(m, nk + 1) =~= Seq::<LeafCellV>::empty());
        assert(tail =~= Seq::<LeafCellV>::empty());
        assert(head_cells(m, nk) == head_cells(p, nk));
        assert(table_cells(m) =~= head_cells(p, nk) + comb.take(half));
        assert(table_cells(q) =~= head + comb.take(half) + comb.skip(half));
        assert(table_cells(q) =~= head + comb + tail);
        assert(table_cells(q) == table_cells(p).insert(g, LeafCellV { key: cellv.key, row: cellv.row }));
    } else {
        assert(insert_child_pos(m, nn) == fpos && fpos <= m[0]@.children.len());
        assert(table_cells(q) == head_cells(m, fpos) + m[nn]@.cells + tail_cells(m, fpos));
        assert(head_cells(m, fpos) == head + comb.take(half));
        assert(tail_cells(m, fpos) == tail);
        assert(m[nn]@.cells == comb.skip(half));
        assert(table_cells(q) =~= head + comb + tail);
        assert(table_cells(q) == table_cells(p).insert(g, LeafCellV { key: cellv.key, row: cellv.row }));
    }
    assert(LeafCellV { key: cellv.key, row: cellv.row } =~= cellv);
}

/// A fresh empty database: page 0 is an empty root leaf.
pub fn db_init() -> (t: Table)
    ensures
        t.wf(),
        t@.len() == 1,
        table_cells(t@).len() == 0,
{
    let mut page = Page::new();
    page.initialize_leaf_node();
    page.set_node_root(true);
    let mut pager = Pager::new();
    pager.push_page(page);
    Table::new(pager)
}

/// Sorted leaf: within every leaf of a well-formed tree, adjacent cells
/// carry strictly ascending keys.
pub proof fn lemma_sorted_leaf(pages: Seq<Page>, q: int)
    requires
        wf_pages(pages),
        0 <= q < pages.len(),
        pages[q]@.is_leaf(),
    ensures
        sorted_keys(leaf_keys(pages[q]@.cells)),
        forall|i: int|
            0 <= i && i + 1 < pages[q]@.cells.len() ==> (#[trigger] pages[q]@.cells[i]).key
                < pages[q]@.cells[i + 1].key,
{
    if q >= 1 {
        assert(is_child_of_root(pages, q));
        let w = choose|w: int|
            0 <= w <= pages[0]@.children.len() && pages[0]@.child_at(w) == q;
        assert(wf_child(pages, w));
    }
    assert forall|i: int|
        0 <= i && i + 1 < pages[q]@.cells.len() implies (#[trigger] pages[q]@.cells[i]).key
        < pages[q]@.cells[i + 1].key by {
        assert(leaf_keys(pages[q]@.cells)[i] == pages[q]@.cells[i].key);
        assert(leaf_keys(pages[q]@.cells)[i + 1] == pages[q]@.cells[i + 1].key);
    }
}

/// Separator correctness: below an internal root, every key of child `i` is
/// at most separator `i`, and every key of the child after it is above it.
pub proof fn lemma_separator_correct(pages: Seq<Page>, i: int)
    requires
        wf_pages(pages),
        !pages[0]@.is_leaf(),
        0 <= i < pages[0]@.children.len(),
    ensures
        cells_keys_le(child_page(pages, i).cells, pages[0]@.children[i].key),
        cells_keys_gt(child_page(pages, i + 1).cells, pages[0]@.children[i].key),
{
    lemma_child_cells_le(pages, i);
    assert(wf_child(pages, i + 1));
    let c = child_page(pages, i + 1).cells;
    assert forall|j: int| 0 <= j < c.len() implies (#[trigger] c[j]).key > pages[0]@.children[i].key
        by {
        assert(leaf_keys(c)[0] == c[0].key);
        assert(leaf_keys(c)[j] == c[j].key);
        if j > 0 {
            assert(leaf_keys(c)[0] < leaf_keys(c)[j]);
        }
    }
}

/// Parent linkage: every page but the root is listed as a child of the root,
/// and its parent pointer names the root.
pub proof fn lemma_parent_linkage(pages: Seq<Page>, q: int)
    requires
        wf_pages(pages),
        1 <= q < pages.len(),
    ensures
        is_child_of_root(pages, q),
        pages[q]@.parent == 0,
        pages[0]@.is_root,
{
    assert(is_child_of_root(pages, q));
    let w = choose|w: int| 0 <= w <= pages[0]@.children.len() && pages[0]@.child_at(w) == q;
    assert(wf_child(pages, w));
}

/// Next-leaf chain: under an internal root, child `i`'s next-leaf pointer
/// steps to child `i + 1` (0 past the last), no earlier child is revisited,
/// every leaf is some child, and the keys ascend strictly across the step; a
/// root leaf alone carries 0.
pub proof fn lemma_next_leaf_chain(pages: Seq<Page>, i: int)
    requires
        wf_pages(pages),
        !pages[0]@.is_leaf() ==> 0 <= i <= pages[0]@.children.len(),
    ensures
        pages[0]@.is_leaf() ==> pages[0]@.next_leaf == 0,
        !pages[0]@.is_leaf() ==> ({
            let root = pages[0]@;
            let nk = root.children.len() as int;
            &&& (i < nk ==> child_page(pages, i).next_leaf == root.child_at(i + 1))
            &&& (i == nk ==> child_page(pages, i).next_leaf == 0)
            &&& (i < nk ==> child_page(pages, i).max_key() < child_page(
                pages,
                i + 1,
            ).cells.first().key)
            &&& forall|j: int| 0 <= j < i ==> root.child_at(j) != root.child_at(i)
            &&& forall|q: int| 1 <= q < pages.len() ==> #[trigger] is_child_of_root(pages, q)
        }),
{
    if !pages[0]@.is_leaf() {
        let root = pages[0]@;
        let nk = root.children.len() as int;
        lemma_children_distinct(pages);
        if i < nk {
            assert(wf_child(pages, i));
            assert(child_page(pages, i).max_key() == root.children[i].key);
            assert(child_page(pages, i + 1).cells.first().key > root.children[i].key);
        }
    }
}

/// Every cell of the root's children from index `i` on is keyed by its own
/// row's id and holds a storable row.
pub proof fn lemma_tail_cells_keyed(pages: Seq<Page>, i: int)
    requires
        wf_root_internal(pages),
        0 <= i <= pages[0]@.children.len() + 1,
    ensures
        forall|j: int|
            0 <= j < tail_cells(pages, i).len() ==> (#[trigger] tail_cells(pages, i)[j]).key
                == tail_cells(pages, i)[j].row.id && tail_cells(pages, i)[j].row.valid(),
    decreases pages[0]@.children.len() + 1 - i,
{
    let nk = pages[0]@.children.len() as int;
    if i <= nk {
        lemma_tail_cells_keyed(pages, i + 1);
        assert(wf_child(pages, i));
        let ci = child_page(pages, i).cells;
        let rest = tail_cells(pages, i + 1);
        assert forall|j: int|
            0 <= j < tail_cells(pages, i).len() implies (#[trigger] tail_cells(pages, i)[j]).key
            == tail_cells(pages, i)[j].row.id && tail_cells(pages, i)[j].row.valid() by {
            if j < ci.len() {
                assert(tail_cells(pages, i)[j] == ci[j]);
            } else {
                assert(tail_cells(pages, i)[j] == rest[j - ci.len()]);
            }
        }
    }
}

/// Every cell a well-formed tree holds is keyed by its own row's id and
/// holds a storable row: select hands rows back in ascending id order.
pub proof fn lemma_table_cells_keyed(pages: Seq<Page>)
    requires
        wf_pages(pages),
    ensures
        forall|j: int|
            0 <= j < table_cells(pages).len() ==> (#[trigger] table_cells(pages)[j]).key
                == table_cells(pages)[j].row.id && table_cells(pages)[j].row.valid(),
{
    if !pages[0]@.is_leaf() {
        lemma_tail_cells_keyed(pages, 0);
    }
}

/// A successful insert adds exactly the new key, at its ordered place, to
/// the keys the tree holds; together with [`lemma_no_duplicate_keys`], every
/// accepted insert contributes its key exactly once.
pub proof fn lemma_keys_after_insert(p: Seq<Page>, q: Seq<Page>, key: u32, row: RowV)
    requires
        cells_inserted(p, q, key, row),
    ensures
        table_keys(q) == table_keys(p).insert(lower_bound(table_keys(p), key), key),
{
    let g = lower_bound(table_keys(p), key);
    lemma_lower_bound(table_keys(p), key);
    lemma_leaf_keys_insert(table_cells(p), g, LeafCellV { key, row });
}

/// Splitting internal nodes is not implemented and is never needed: under
/// the page cap, an internal root holds at most `TABLE_MAX_PAGES - 2`
/// separators, so the separator limit that would be fatal to exceed is out of
/// reach of every reachable state.
pub proof fn lemma_internal_never_full(pages: Seq<Page>)
    requires
        wf_pages(pages),
        !pages[0]@.is_leaf(),
    ensures
        pages[0]@.children.len() + 2 <= TABLE_MAX_PAGES,
        pages[0]@.children.len() < INTERNAL_NODE_MAX_CELLS,
{
}

/// No duplicates: a well-formed tree never holds a key twice, so the keys it
/// holds form a set that each accepted insert extends by exactly one.
pub proof fn lemma_no_duplicate_keys(pages: Seq<Page>)
    requires
        wf_pages(pages),
    ensures
        table_keys(pages).no_duplicates(),
        forall|x: u32|
            table_keys(pages).to_multiset().contains(x) ==> table_keys(pages).to_multiset().count(
                x,
            ) == 1,
{
    lemma_table_sorted(pages);
    let keys = table_keys(pages);
    assert(keys.no_duplicates()) by {
        assert forall|i: int, j: int|
            0 <= i < keys.len() && 0 <= j < keys.len() && i != j implies keys[i] != keys[j] by {
            if i < j {
                assert(keys[i] < keys[j]);
            } else {
                assert(keys[j] < keys[i]);
            }
        }
    }
    keys.lemma_multiset_has_no_duplicates();
}

impl Table {
    /// A table over an already-initialized page cache.
    pub fn new(pager: Pager) -> (t: Table)
        ensures
            t.root_page_num == 0,
            t@ == pager@,
    {
        Table { pager, root_page_num: 0 }
    }

    /// Locates `key`: the leaf page it lives in or would be inserted into,
    /// and the cell index inside that leaf.
    pub fn find(&self, key: u32) -> (r: (usize, usize))
        requires
            self.wf(),
        ensures
            ({
                let pages = self@;
                let root = pages[0]@;
                &&& r.0 < pages.len()
                &&& pages[r.0 as int]@.is_leaf()
                &&& (root.is_leaf() ==> r.0 == 0)
                &&& (!root.is_leaf() ==> r.0 == root.child_at(
                    lower_bound(internal_keys(root.children), key),
                ))
                &&& r.1 == lower_bound(leaf_keys(pages[r.0 as int]@.cells), key)
            }),
    {
        let root_page_num = self.root_page_num;
        let page = self.pager.get_page_view(root_page_num);
        if page.is_leaf_node() {
            (root_page_num, page.leaf_node_find(key))
        } else {
            self.internal_node_find(page, key)
        }
    }

    /// Locates `key` below an internal root page: picks the child by binary
    /// search over the separators and searches that leaf.
    pub fn internal_node_find(&self, page: &Page, key: u32) -> (r: (usize, usize))
        requires
            self.wf(),
            !page@.is_leaf(),
            page == self@[0],
        ensures
            ({
                let pages = self@;
                let root = pages[0]@;
                &&& r.0 < pages.len()
                &&& pages[r.0 as int]@.is_leaf()
                &&& r.0 == root.child_at(lower_bound(internal_keys(root.children), key))
                &&& r.1 == lower_bound(leaf_keys(pages[r.0 as int]@.cells), key)
            }),
    {
        let cell_index = page.internal_node_find_child(key);
        proof {
            lemma_lower_bound(internal_keys(page@.children), key);
            assert(wf_child(self@, cell_index as int));
        }
        let child_page_num = page.get_internal_node_child(cell_index);
        let child = self.pager.get_page_view(child_page_num);
        let cell_num = child.leaf_node_find(key);
        (child_page_num, cell_num)
    }
}


/// One line of the `.btree` listing: what to print and how deep to indent.
#[derive(Debug, PartialEq, Eq, Structural, Clone, Copy)]
pub enum TreeEntry {
    LeafHeader { indent: usize, num_cells: usize },
    LeafKey { indent: usize, key: u32 },
    InternalHeader { indent: usize, num_keys: usize },
    InternalKey { indent: usize, key: u32 },
}

/// The listing of one leaf: its header, then its keys one level deeper.
pub open spec fn spec_leaf_entries(p: PageV, indent: usize) -> Seq<TreeEntry> {
    seq![TreeEntry::LeafHeader { indent, num_cells: p.cells.len() as usize }] + Seq::new(
        p.cells.len(),
        |i: int| TreeEntry::LeafKey { indent: (indent + 1) as usize, key: p.cells[i].key },
    )
}

/// The listing of the root's children from index `i` on: each child's leaf
/// listing, interleaved with the separator keys.
pub open spec fn spec_children_entries(pages: Seq<Page>, i: int) -> Seq<TreeEntry>
    decreases pages[0]@.children.len() + 1 - i,
{
    let nk = pages[0]@.children.len() as int;
    if i < 0 || i > nk {
        Seq::empty()
    } else if i == nk {
        spec_leaf_entries(child_page(pages, i), 1)
    } else {
        spec_leaf_entries(child_page(pages, i), 1) + seq![
            TreeEntry::InternalKey { indent: 1, key: pages[0]@.children[i].key },
        ] + spec_children_entries(pages, i + 1)
    }
}

/// The `.btree` listing of the whole tree, in print order.
pub open spec fn spec_tree_entries(pages: Seq<Page>) -> Seq<TreeEntry> {
    if pages[0]@.is_leaf() {
        spec_leaf_entries(pages[0]@, 0)
    } else {
        seq![
            TreeEntry::InternalHeader {
                indent: 0,
                num_keys: pages[0]@.children.len() as usize,
            },
        ] + spec_children_entries(pages, 0)
    }
}

/// Lists one leaf page.
fn leaf_entries(page: &Page, indent: usize, out: &mut Vec<TreeEntry>)
    requires
        page@.is_leaf(),
        indent < 8,
    ensures
        final(out)@ == old(out)@ + spec_leaf_entries(page@, indent),
{
    let num_cells = page.leaf_node_num_cells();
    out.push(TreeEntry::LeafHeader { indent, num_cells });
    let mut i: usize = 0;
    while i < num_cells
        invariant
            num_cells == page@.cells.len(),
            indent < 8,
            i <= num_cells,
            out@ == old(out)@ + seq![
                TreeEntry::LeafHeader { indent, num_cells },
            ] + Seq::new(
                i as nat,
                |j: int| TreeEntry::LeafKey { indent: (indent + 1) as usize, key: page@.cells[j].key },
            ),
        decreases num_cells - i,
    {
        let key = page.leaf_node_key(i);
        out.push(TreeEntry::LeafKey { indent: indent + 1, key });
        proof {
            assert(out@ =~= old(out)@ + seq![
                TreeEntry::LeafHeader { indent, num_cells },
            ] + Seq::new(
                (i + 1) as nat,
                |j: int| TreeEntry::LeafKey {
                    indent: (indent + 1) as usize,
                    key: page@.cells[j].key,
                },
            ));
        }
        i = i + 1;
    }
    proof {
        assert(old(out)@ + seq![TreeEntry::LeafHeader { indent, num_cells }] + Seq::new(
            num_cells as nat,
            |j: int| TreeEntry::LeafKey { indent: (indent + 1) as usize, key: page@.cells[j].key },
        ) =~= old(out)@ + spec_leaf_entries(page@, indent));
    }
}

impl Table {
    /// The `.btree` listing: depth-first from the root, children interleaved
    /// with separator keys, each entry tagged with its indentation depth.
    pub fn tree_entries(&self) -> (out: Vec<TreeEntry>)
        requires
            self.wf(),
        ensures
            out@ == spec_tree_entries(self@),
    {
        let mut out: Vec<TreeEntry> = Vec::new();
        let root = self.pager.get_page_view(0);
        if root.is_leaf_node() {
            leaf_entries(root, 0, &mut out);
            out
        } else {
            let num_keys = root.get_internal_node_num_keys();
            out.push(TreeEntry::InternalHeader { indent: 0, num_keys });
            let ghost header = seq![TreeEntry::InternalHeader { indent: 0, num_keys }];
            let mut i: usize = 0;
            while i < num_keys
                invariant
                    self.wf(),
                    !self@[0]@.is_leaf(),
                    num_keys == self@[0]@.children.len(),
                    root == self@[0],
                    header == seq![TreeEntry::InternalHeader { indent: 0, num_keys }],
                    i <= num_keys,
                    out@ + spec_children_entries(self@, i as int) == header
                        + spec_children_entries(self@, 0),
                decreases num_keys - i,
            {
                proof {
                    assert(wf_child(self@, i as int));
                }
                let child = root.get_internal_node_child(i);
                let child_page_ref = self.pager.get_page_view(child);
                leaf_entries(child_page_ref, 1, &mut out);
                let key = root.get_internal_node_key(i);
                out.push(TreeEntry::InternalKey { indent: 1, key });
                proof {
                    assert(out@ + spec_children_entries(self@, i + 1) =~= header
                        + spec_children_entries(self@, 0));
                }
                i = i + 1;
            }
            proof {
                assert(wf_child(self@, num_keys as int));
            }
            let right = root.get_internal_node_child(num_keys);
            let right_page = self.pager.get_page_view(right);
            leaf_entries(right_page, 1, &mut out);
            proof {
                assert(out@ =~= header + spec_children_entries(self@, 0));
            }
            out
        }
    }
}

} // verus!

verus! {

impl Table {
    /// Whether the cache holds a well-formed tree. Everything the engine
    /// writes does; a foreign file may not, and can be refused at open.
    #[verifier::rlimit(100)]
    #[verifier::spinoff_prover]
    pub fn wf_check(&self) -> (ok: bool)
        ensures
            ok == self.wf(),
    {
        if self.root_page_num != 0 {
            return false;
        }
        let n = self.pager.num_pages();
        if n < 1 || n > TABLE_MAX_PAGES {
            return false;
        }
        let root = self.pager.get_page_view(0);
        if root.is_leaf_node() {
            if n != 1 {
                return false;
            }
            if !root.is_node_root() {
                return false;
            }
            if root.get_node_parent() != 0 {
                return false;
            }
            if root.get_leaf_node_next_leaf() != 0 {
                return false;
            }
            root.wf_leaf_check()
        } else {
            if !root.is_node_root() {
                return false;
            }
            if root.get_node_parent() != 0 {
                return false;
            }
            if !root.wf_internal_check() {
                return false;
            }
            let nk = root.get_internal_node_num_keys();
            if nk + 2 != n {
                return false;
            }
            let mut i: usize = 0;
            while i <= nk
                invariant
                    self.root_page_num == 0,
                    n == self@.len(),
                    1 <= n <= TABLE_MAX_PAGES,
                    root == self@[0],
                    !self@[0]@.is_leaf(),
                    self@[0]@.wf_internal(),
                    self@[0]@.is_root,
                    self@[0]@.parent == 0,
                    nk == self@[0]@.children.len(),
                    nk + 2 == n,
                    i <= nk + 1,
                    forall|k: int| 0 <= k < i ==> #[trigger] wf_child(self@, k),
                    forall|k: int|
                        0 <= k < i && k < nk ==> (#[trigger] child_page(self@, k)).max_key()
                            == self@[0]@.children[k].key,
                    forall|k: int|
                        1 <= k < i ==> (#[trigger] child_page(self@, k)).cells.first().key
                            > self@[0]@.children[k - 1].key,
                    forall|k: int|
                        0 <= k < i && k < nk ==> (#[trigger] child_page(self@, k)).next_leaf
                            == self@[0]@.child_at(k + 1),
                    i > nk ==> child_page(self@, nk as int).next_leaf == 0,
                decreases nk + 1 - i,
            {
                let c = root.get_internal_node_child(i);
                if c < 1 || c >= n {
                    proof {
                        if wf_pages(self@) {
                            assert(wf_child(self@, i as int));
                        }
                    }
                    return false;
                }
                let child = self.pager.get_page_view(c);
                proof {
                    assert(child_page(self@, i as int) == self@[c as int]@);
                }
                if !child.wf_leaf_check() || child.is_node_root() || child.get_node_parent() != 0
                    || child.leaf_node_num_cells() == 0 {
                    proof {
                        if wf_pages(self@) {
                            assert(wf_child(self@, i as int));
                        }
                    }
                    return false;
                }
                if i < nk {
                    if child.get_node_max_key() != root.get_internal_node_key(i) {
                        return false;
                    }
                    if child.get_leaf_node_next_leaf() != root.get_internal_node_child(i + 1) {
                        return false;
                    }
                } else {
                    if child.get_leaf_node_next_leaf() != 0 {
                        return false;
                    }
                }
                if i >= 1 {
                    if !(child.leaf_node_key(0) > root.get_internal_node_key(i - 1)) {
                        proof {
                            assert(child_page(self@, i as int).cells.first() == self@[c as int]@.cells[0]);
                        }
                        return false;
                    }
                    proof {
                        assert(child_page(self@, i as int).cells.first() == self@[c as int]@.cells[0]);
                    }
                }
                i = i + 1;
            }
            // every page below the root must appear among the children
            let mut marks: Vec<bool> = Vec::new();
            let mut j: usize = 0;
            while j < n
                invariant
                    j <= n,
                    marks@.len() == j,
                    forall|x: int| 0 <= x < j ==> !(#[trigger] marks@[x]),
                decreases n - j,
            {
                marks.push(false);
                j = j + 1;
            }
            let mut i: usize = 0;
            while i <= nk
                invariant
                    n == self@.len(),
                    root == self@[0],
                    nk == self@[0]@.children.len(),
                    nk + 2 == n,
                    i <= nk + 1,
                    marks@.len() == n,
                    forall|k: int| 0 <= k <= nk ==> #[trigger] wf_child(self@, k),
                    forall|x: int|
                        0 <= x < n && #[trigger] marks@[x] ==> is_child_of_root(self@, x),
                    forall|k: int| 0 <= k < i ==> marks@[self@[0]@.child_at(k) as int],
                decreases nk + 1 - i,
            {
                proof {
                    assert(wf_child(self@, i as int));
                }
                let c = root.get_internal_node_child(i);
                marks.set(c, true);
                proof {
                    assert(self@[0]@.child_at(i as int) == c);
                    assert(is_child_of_root(self@, c as int));
                    assert forall|k: int|
                        0 <= k < i + 1 implies marks@[self@[0]@.child_at(k) as int] by {
                        assert(wf_child(self@, k));
                    }
                }
                i = i + 1;
            }
            let mut q: usize = 1;
            while q < n
                invariant
                    n == self@.len(),
                    root == self@[0],
                    !self@[0]@.is_leaf(),
                    nk == self@[0]@.children.len(),
                    nk + 2 == n,
                    marks@.len() == n,
                    1 <= q <= n,
                    forall|k: int| 0 <= k <= nk ==> marks@[self@[0]@.child_at(k) as int],
                    forall|x: int|
                        0 <= x < n && #[trigger] marks@[x] ==> is_child_of_root(self@, x),
                    forall|x: int| 1 <= x < q ==> #[trigger] is_child_of_root(self@, x),
                decreases n - q,
            {
                if !marks[q] {
                    proof {
                        if wf_pages(self@) {
                            assert(wf_root_internal(self@));
                            assert(1 <= q < self@.len());
                            assert(is_child_of_root(self@, q as int));
                            let w = choose|w: int|
                                0 <= w <= self@[0]@.children.len() && self@[0]@.child_at(w)
                                    == q as int;
                            assert(marks@[self@[0]@.child_at(w) as int]);
                        }
                    }
                    return false;
                }
                q = q + 1;
            }
            proof {
                assert(wf_root_internal(self@));
            }
            true
        }
    }
}

} // verus!

verus! {

/// The views of the pages, slot by slot.
pub open spec fn views_of(pages: Seq<Page>) -> Seq<PageV> {
    pages.map_values(|p: Page| p@)
}

/// The view reached through child index `i` of the root, over views alone.
pub open spec fn child_view(vs: Seq<PageV>, i: int) -> PageV {
    vs[vs[0].child_at(i) as int]
}

/// [`wf_child`], stated over the page views alone.
pub open spec fn wf_child_views(vs: Seq<PageV>, i: int) -> bool {
    let c = vs[0].child_at(i);
    &&& 1 <= c < vs.len()
    &&& child_view(vs, i).wf_leaf()
    &&& !child_view(vs, i).is_root
    &&& child_view(vs, i).parent == 0
    &&& child_view(vs, i).cells.len() >= 1
}

/// [`is_child_of_root`], stated over the page views alone.
pub open spec fn is_child_in_views(vs: Seq<PageV>, q: int) -> bool {
    exists|i: int| 0 <= i <= vs[0].children.len() && vs[0].child_at(i) == q
}

/// [`wf_root_leaf`], stated over the page views alone.
pub open spec fn wf_root_leaf_views(vs: Seq<PageV>) -> bool {
    &&& vs.len() == 1
    &&& vs[0].wf_leaf()
    &&& vs[0].is_root
    &&& vs[0].parent == 0
    &&& vs[0].next_leaf == 0
}

/// [`wf_root_internal`], stated over the page views alone.
pub open spec fn wf_root_internal_views(vs: Seq<PageV>) -> bool {
    let root = vs[0];
    let nk = root.children.len() as int;
    &&& root.wf_internal()
    &&& root.is_root
    &&& root.parent == 0
    &&& nk + 2 == vs.len()
    &&& forall|i: int| 0 <= i <= nk ==> #[trigger] wf_child_views(vs, i)
    &&& forall|i: int|
        0 <= i < nk ==> (#[trigger] child_view(vs, i)).max_key() == root.children[i].key
    &&& forall|i: int|
        1 <= i <= nk ==> (#[trigger] child_view(vs, i)).cells.first().key > root.children[i
            - 1].key
    &&& forall|i: int|
        0 <= i < nk ==> (#[trigger] child_view(vs, i)).next_leaf == root.child_at(i + 1)
    &&& child_view(vs, nk).next_leaf == 0
    &&& forall|q: int| 1 <= q < vs.len() ==> #[trigger] is_child_in_views(vs, q)
}

/// The shape invariant, stated over the page views alone: what a file image
/// must decode to in order to be accepted at open.
pub open spec fn wf_page_views(vs: Seq<PageV>) -> bool {
    &&& 1 <= vs.len() <= TABLE_MAX_PAGES
    &&& vs[0].is_leaf() ==> wf_root_leaf_views(vs)
    &&& !vs[0].is_leaf() ==> wf_root_internal_views(vs)
}

/// The shape invariant reads nothing but the page views.
pub proof fn lemma_wf_views(pages: Seq<Page>)
    ensures
        wf_pages(pages) <==> wf_page_views(views_of(pages)),
{
    let vs = views_of(pages);
    assert(vs.len() == pages.len());
    if pages.len() >= 1 {
        assert(vs[0] == pages[0]@);
        let nk = pages[0]@.children.len() as int;
        if wf_pages(pages) && !pages[0]@.is_leaf() {
            assert forall|i: int| 0 <= i <= nk implies #[trigger] wf_child_views(vs, i) by {
                assert(wf_child(pages, i));
                assert(child_view(vs, i) == child_page(pages, i));
            }
            assert forall|i: int| 0 <= i <= nk implies #[trigger] child_view(vs, i) == child_page(
                pages,
                i,
            ) by {
                assert(wf_child(pages, i));
            }
            assert forall|q: int| 1 <= q < vs.len() implies #[trigger] is_child_in_views(
                vs,
                q,
            ) by {
                assert(is_child_of_root(pages, q));
                let w = choose|w: int| 0 <= w <= nk && pages[0]@.child_at(w) == q;
                assert(vs[0].child_at(w) == q);
            }
            assert(wf_root_internal_views(vs));
        }
        if wf_page_views(vs) && !pages[0]@.is_leaf() {
            assert forall|i: int| 0 <= i <= nk implies #[trigger] wf_child(pages, i) by {
                assert(wf_child_views(vs, i));
                assert(child_page(pages, i) == child_view(vs, i));
            }
            assert forall|i: int| 0 <= i <= nk implies #[trigger] child_page(pages, i)
                == child_view(vs, i) by {
                assert(wf_child_views(vs, i));
            }
            assert forall|q: int| 1 <= q < pages.len() implies #[trigger] is_child_of_root(
                pages,
                q,
            ) by {
                assert(is_child_in_views(vs, q));
                let w = choose|w: int| 0 <= w <= nk && vs[0].child_at(w) == q;
                assert(pages[0]@.child_at(w) == q);
            }
            assert(wf_root_internal(pages));
        }
    }
}

} // verus!
