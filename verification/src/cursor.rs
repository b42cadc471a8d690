//! A positioned iterator over the tree.
//!
//! A cursor addresses one cell by page number and cell index and carries, as
//! ghost state, the root child index of the leaf it stands in; its position
//! in the whole table is that child's head offset plus the cell index. It is
//! used for scans (start of table, advance, read) and for insertion at the
//! position `find` returns.

use vstd::prelude::*;
use crate::constant::{LEAF_NODE_LEFT_SPLIT_COUNT, LEAF_NODE_MAX_CELLS};
use crate::page::{
    clone_cells, internal_keys, leaf_keys, lemma_lower_bound, lower_bound, sorted_keys,
    InternalCell, LeafCell, LeafCellV, NodeType, Page, PageV,
};
use crate::row::Row;
use crate::table::{
    cells_inserted, child_page, head_cells, is_child_of_root, leaf_inserted_in_place,
    leaf_split_pages, lemma_cell_at_child,
    lemma_cell_views_insert, lemma_cells_split_at, lemma_cells_total, lemma_children_distinct,
    lemma_find_position, lemma_first_le_max, lemma_head_cells_eq, lemma_insert_middle,
    lemma_leaf_insert_sorted, lemma_lower_bound_contains, lemma_split_halves,
    lemma_tail_cells_shift, split_mid_state, split_post_cells, split_pre_internal_insert_holds,
    table_cells, table_keys, tail_cells, wf_child, Table,
};

verus! {

/// A position in the tree: a page, a cell within it, and whether the scan has
/// run past the last cell. `child_index` is the ghost root child index of the
/// page (0 when the root itself is the leaf).
pub struct Cursor {
    pub page_num: usize,
    pub cell_num: usize,
    pub end_of_table: bool,
    pub child_index: Ghost<int>,
}

impl Cursor {
    /// The cursor's index into [`table_cells`].
    pub open spec fn pos(self, pages: Seq<Page>) -> int {
        if pages[0]@.is_leaf() {
            self.cell_num as int
        } else {
            head_cells(pages, self.child_index@).len() + self.cell_num
        }
    }

    /// The cursor addresses a cell slot of a leaf that is in the tree, and
    /// stands on a real cell unless it has reached the end.
    pub open spec fn ok(self, pages: Seq<Page>) -> bool {
        &&& if pages[0]@.is_leaf() {
            &&& self.page_num == 0
            &&& self.child_index@ == 0
            &&& self.cell_num <= pages[0]@.cells.len()
        } else {
            &&& 0 <= self.child_index@ <= pages[0]@.children.len()
            &&& self.page_num == pages[0]@.child_at(self.child_index@)
            &&& self.cell_num <= child_page(pages, self.child_index@).cells.len()
        }
        &&& !self.end_of_table ==> self.cell_num < pages[self.page_num as int]@.cells.len()
    }

    /// A cursor on the first cell of the leftmost leaf; the end flag is set
    /// when the table holds nothing at all.
    pub fn table_start(table: &Table) -> (cur: Cursor)
        requires
            table.wf(),
        ensures
            cur.ok(table@),
            cur.pos(table@) == 0,
            cur.end_of_table <==> table_cells(table@).len() == 0,
    {
        let root_page_num = table.root_page_num;
        proof {
            if !table@[0]@.is_leaf() {
                assert(wf_child(table@, 0));
            }
        }
        let leaf_page_num = table.pager.get_leftmost_leaf_page_num(root_page_num);
        let leaf_node = table.pager.get_page_view(leaf_page_num);
        let num_cells = leaf_node.leaf_node_num_cells();
        let cur = Cursor {
            page_num: leaf_page_num,
            cell_num: 0,
            end_of_table: num_cells == 0,
            child_index: Ghost(0),
        };
        proof {
            if !table@[0]@.is_leaf() {
                lemma_cell_at_child(table@, 0, 0);
            }
        }
        cur
    }

    /// The row under the cursor.
    pub fn cursor_value(&self, table: &Table) -> (r: Row)
        requires
            table.wf(),
            self.ok(table@),
            !self.end_of_table,
        ensures
            0 <= self.pos(table@) < table_cells(table@).len(),
            r@ == table_cells(table@)[self.pos(table@)].row,
    {
        proof {
            if !table@[0]@.is_leaf() {
                lemma_cell_at_child(table@, self.child_index@, self.cell_num as int);
            }
        }
        let page = self.get_page_view(table);
        let cell_num = self.cell_num;
        page.leaf_node_value(cell_num).clone()
    }

    /// A read-only handle to the cursor's page.
    pub fn get_page_view<'a>(&self, table: &'a Table) -> (p: &'a Page)
        requires
            table.wf(),
            self.ok(table@),
        ensures
            p == table@[self.page_num as int],
    {
        proof {
            if !table@[0]@.is_leaf() {
                assert(wf_child(table@, self.child_index@));
            }
        }
        table.pager.get_page_view(self.page_num)
    }

    /// A mutable handle to the cursor's page.
    pub fn get_page<'a>(&self, table: &'a mut Table) -> (p: &'a mut Page)
        requires
            old(table).wf(),
            self.ok(old(table)@),
        ensures
            *p == old(table)@[self.page_num as int],
            final(table)@ == old(table)@.update(self.page_num as int, *final(p)),
            final(table).root_page_num == old(table).root_page_num,
    {
        proof {
            if !table@[0]@.is_leaf() {
                assert(wf_child(table@, self.child_index@));
            }
        }
        table.pager.get_page(self.page_num)
    }

    /// The cursor stands exactly where [`Table::find`] puts it for `key`.
    pub open spec fn at_find_position(self, pages: Seq<Page>, key: u32) -> bool {
        &&& (pages[0]@.is_leaf() ==> self.page_num == 0 && self.child_index@ == 0)
        &&& (!pages[0]@.is_leaf() ==> {
            &&& self.child_index@ == lower_bound(internal_keys(pages[0]@.children), key)
            &&& self.page_num == pages[0]@.child_at(self.child_index@)
        })
        &&& self.cell_num == lower_bound(leaf_keys(pages[self.page_num as int]@.cells), key)
    }

    /// Inserts a fresh `key` with its row at the cursor, which must stand at
    /// the position `find` returned for `key`. A full leaf is split; splitting
    /// must fit under the page cap, which the caller checks beforehand.
    pub fn leaf_node_insert(&self, table: &mut Table, key: u32, value: &Row)
        requires
            old(table).wf(),
            value@.valid(),
            key == value@.id,
            self.at_find_position(old(table)@, key),
            !table_keys(old(table)@).contains(key),
            old(table)@[self.page_num as int]@.cells.len() >= LEAF_NODE_MAX_CELLS ==> old(
                table,
            )@.len() + (if old(table)@[0]@.is_leaf() {
                2int
            } else {
                1int
            }) <= crate::constant::TABLE_MAX_PAGES,
        ensures
            final(table).wf(),
            cells_inserted(old(table)@, final(table)@, key, value@),
            old(table)@[self.page_num as int]@.cells.len() < LEAF_NODE_MAX_CELLS
                ==> leaf_inserted_in_place(
                old(table)@,
                final(table)@,
                self.page_num as int,
                self.cell_num as int,
                LeafCellV { key, row: value@ },
            ),
            old(table)@[self.page_num as int]@.cells.len() >= LEAF_NODE_MAX_CELLS
                ==> leaf_split_pages(
                old(table)@,
                final(table)@,
                self.page_num as int,
                self.cell_num as int,
                LeafCellV { key, row: value@ },
            ),
    {
        let ghost p = table@;
        let ghost rootleaf = p[0]@.is_leaf();
        let ghost ci = self.child_index@;
        let ghost l = self.cell_num as int;
        let ghost cellv = LeafCellV { key, row: value@ };
        let ghost lcells = p[self.page_num as int]@.cells;
        proof {
            if rootleaf {
                lemma_lower_bound_contains(leaf_keys(lcells), key);
                lemma_leaf_insert_sorted(lcells, key, value@, l);
            } else {
                assert(wf_child(p, ci)) by {
                    lemma_lower_bound(internal_keys(p[0]@.children), key);
                }
                lemma_find_position(p, key);
                lemma_leaf_insert_sorted(lcells, key, value@, l);
            }
        }
        let num_cells = {
            let page = table.pager.get_page_view(self.page_num);
            page.leaf_node_num_cells()
        };
        if num_cells >= LEAF_NODE_MAX_CELLS {
            self.leaf_node_split_and_insert(table, key, value);
            return;
        }
        let cell = LeafCell { key, row: value.clone() };
        let page = table.pager.get_page(self.page_num);
        page.cells.insert(self.cell_num, cell);
        proof {
            let q = table@;
            let inserted = lcells.insert(l, cellv);
            lemma_cell_views_insert(p[self.page_num as int].cells@, l, cell);
            assert(q[self.page_num as int]@.cells == inserted);
            lcells.insert_ensures(l, cellv);
            assert forall|j: int|
                0 <= j < inserted.len() implies (#[trigger] inserted[j]).row.valid() && (
                #[trigger] inserted[j]).key == inserted[j].row.id by {
                if j < l {
                    assert(inserted[j] == lcells[j]);
                } else if j > l {
                    assert(inserted[j] == lcells[j - 1]);
                }
            };
            if rootleaf {
                assert(q =~= p.update(0, q[0]));
                assert(table_cells(q) == inserted);
                assert(cells_inserted(p, q, key, value@));
                assert(q[self.page_num as int]@ =~= (PageV {
                    cells: inserted,
                    ..p[self.page_num as int]@
                }));
                assert(leaf_inserted_in_place(p, q, self.page_num as int, l, cellv));
                assert(final(table).wf());
            } else {
                let root = p[0]@;
                let nk = root.children.len() as int;
                let c = self.page_num as int;
                let head = head_cells(p, ci);
                let tail = tail_cells(p, ci + 1);
                lemma_children_distinct(p);
                assert(q[0] == p[0]);
                assert forall|k: int| 0 <= k <= nk && k != ci implies #[trigger] child_page(q, k)
                    == child_page(p, k) by {
                    assert(wf_child(p, k));
                }
                assert(child_page(q, ci).cells == inserted);
                // the key is new, so if it lands before the leaf's last cell the
                // leaf's largest key is untouched
                if ci < nk {
                    assert(lcells[lcells.len() - 1].key == root.children[ci].key);
                    lemma_cell_at_child(p, ci, lcells.len() - 1);
                    assert(table_keys(p)[head.len() + lcells.len() - 1] == root.children[ci].key);
                    assert(table_keys(p).contains(root.children[ci].key));
                    lemma_lower_bound(internal_keys(p[0]@.children), key);
                    assert(internal_keys(root.children)[ci] == root.children[ci].key);
                    assert(root.children[ci].key > key);
                    assert(leaf_keys(lcells)[lcells.len() - 1] == lcells[lcells.len() - 1].key);
                    assert(l < lcells.len()) by {
                        lemma_lower_bound(leaf_keys(lcells), key);
                    }
                    assert(inserted[inserted.len() - 1] == lcells[lcells.len() - 1]);
                    assert(child_page(q, ci).max_key() == root.children[ci].key);
                }
                if ci >= 1 {
                    lemma_lower_bound(internal_keys(p[0]@.children), key);
                    assert(internal_keys(root.children)[ci - 1] == root.children[ci - 1].key);
                    if l == 0 {
                        assert(inserted[0] == cellv);
                    } else {
                        assert(inserted[0] == lcells[0]);
                    }
                }
                // every wf clause survives the single-leaf update
                assert forall|k: int| 0 <= k <= nk implies #[trigger] wf_child(q, k) by {
                    assert(wf_child(p, k));
                }
                assert forall|qq: int| 1 <= qq < q.len() implies #[trigger] is_child_of_root(
                    q,
                    qq,
                ) by {
                    assert(is_child_of_root(p, qq));
                    let w = choose|w: int|
                        0 <= w <= root.children.len() && root.child_at(w) == qq;
                    assert(q[0]@.child_at(w) == qq);
                }
                assert(crate::table::wf_root_internal(q));
                assert(final(table).wf());
                // the tree's cells gained exactly the new cell at its place
                lemma_cells_split_at(q, ci);
                lemma_head_cells_eq(p, q, ci);
                lemma_tail_cells_shift(p, q, ci + 1, ci + 1);
                assert(table_cells(q) == head + (inserted + tail));
                assert(table_cells(q) =~= head + inserted + tail);
                lemma_insert_middle(head, lcells, tail, l, cellv);
                assert(cells_inserted(p, q, key, value@));
                assert(q =~= p.update(self.page_num as int, q[self.page_num as int]));
                assert(q[self.page_num as int]@ =~= (PageV {
                    cells: inserted,
                    ..p[self.page_num as int]@
                }));
                assert(leaf_inserted_in_place(p, q, self.page_num as int, l, cellv));
            }
        }
    }

    /// Splits a full leaf to make room for a fresh `key`: the leaf's cells
    /// plus the new cell are cut into halves, the right half moves to a new
    /// page chained after the old leaf, and the parent learns the new child
    /// (creating a new root when the old leaf was the root).
    #[verifier::rlimit(100)]
    #[verifier::spinoff_prover]
    pub fn leaf_node_split_and_insert(&self, table: &mut Table, key: u32, value: &Row)
        requires
            old(table).wf(),
            value@.valid(),
            key == value@.id,
            self.at_find_position(old(table)@, key),
            !table_keys(old(table)@).contains(key),
            old(table)@[self.page_num as int]@.cells.len() == LEAF_NODE_MAX_CELLS,
            old(table)@.len() + (if old(table)@[0]@.is_leaf() {
                2int
            } else {
                1int
            }) <= crate::constant::TABLE_MAX_PAGES,
        ensures
            final(table).wf(),
            cells_inserted(old(table)@, final(table)@, key, value@),
            final(table)@.len() == old(table)@.len() + (if old(table)@[0]@.is_leaf() {
                2int
            } else {
                1int
            }),
            leaf_split_pages(
                old(table)@,
                final(table)@,
                self.page_num as int,
                self.cell_num as int,
                LeafCellV { key, row: value@ },
            ),
    {
        let ghost p = table@;
        let ghost rootleaf = p[0]@.is_leaf();
        let ghost ci = self.child_index@;
        let ghost l = self.cell_num as int;
        let ghost cellv = LeafCellV { key, row: value@ };
        let ghost lcells = p[self.page_num as int]@.cells;
        let ghost comb = lcells.insert(l, cellv);
        let ghost half = LEAF_NODE_LEFT_SPLIT_COUNT as int;

        proof {
            crate::constant::lemma_leaf_geometry();
            if rootleaf {
                lemma_lower_bound_contains(leaf_keys(lcells), key);
            } else {
                assert(wf_child(p, ci)) by {
                    lemma_lower_bound(internal_keys(p[0]@.children), key);
                }
                lemma_find_position(p, key);
            }
            lemma_leaf_insert_sorted(lcells, key, value@, l);
            lcells.insert_ensures(l, cellv);
            lemma_split_halves(comb, half);
        }

        let new_page_num = table.pager.get_unused_page_num();
        let (old_max, old_next, parent_num, is_root, mut combined) = {
            let old_node = table.pager.get_page_view(self.page_num);
            (
                old_node.get_node_max_key(),
                old_node.get_leaf_node_next_leaf(),
                old_node.get_node_parent(),
                old_node.is_node_root(),
                clone_cells(&old_node.cells),
            )
        };
        proof {
            assert(combined@.map_values(|c: LeafCell| c@) =~= lcells);
        }
        combined.insert(self.cell_num, LeafCell { key, row: value.clone() });
        proof {
            lemma_cell_views_insert(combined@.remove(l), l, combined@[l]);
            assert(combined@.remove(l).insert(l, combined@[l]) =~= combined@);
            assert(combined@.map_values(|c: LeafCell| c@) =~= comb);
        }
        let right_cells = combined.split_off(LEAF_NODE_LEFT_SPLIT_COUNT);
        proof {
            assert(combined@.map_values(|c: LeafCell| c@) =~= comb.take(half));
            assert(right_cells@.map_values(|c: LeafCell| c@) =~= comb.skip(half));
        }

        let mut new_node = Page::new();
        new_node.initialize_leaf_node();
        new_node.set_node_parent(parent_num);
        new_node.cells = right_cells;
        new_node.set_leaf_node_next_leaf(old_next);
        table.pager.push_page(new_node);

        let old_node = table.pager.get_page(self.page_num);
        old_node.cells = combined;
        old_node.set_leaf_node_next_leaf(new_page_num);
        proof {
            let q = table@;
            assert(q.len() == p.len() + 1);
            assert(q[self.page_num as int]@ =~= (PageV {
                cells: comb.take(half),
                next_leaf: new_page_num,
                ..p[self.page_num as int]@
            }));
            assert(q[new_page_num as int]@ =~= (PageV {
                node_type: crate::page::NodeType::NodeLeaf,
                is_root: false,
                parent: p[self.page_num as int]@.parent,
                next_leaf: p[self.page_num as int]@.next_leaf,
                cells: comb.skip(half),
                right_child: 0,
                children: Seq::empty(),
            }));
            assert(forall|x: int|
                0 <= x < p.len() && x != self.page_num ==> q[x] == p[x]);
        }

        let ghost m = table@;
        if is_root {
            proof {
                assert(p.len() == 1);
                assert forall|j: int|
                    0 <= j < comb.len() implies (#[trigger] comb[j]).row.valid() && (
                #[trigger] comb[j]).key == comb[j].row.id by {
                    if j < l {
                        assert(comb[j] == lcells[j]);
                    } else if j > l {
                        assert(comb[j] == lcells[j - 1]);
                    }
                };
                assert forall|j: int|
                    0 <= j < comb.take(half).len() implies (#[trigger] comb.take(
                    half,
                )[j]).row.valid() && (#[trigger] comb.take(half)[j]).key == comb.take(
                    half,
                )[j].row.id by {
                    assert(comb.take(half)[j] == comb[j]);
                };
                assert forall|j: int|
                    0 <= j < comb.skip(half).len() implies (#[trigger] comb.skip(
                    half,
                )[j]).row.valid() && (#[trigger] comb.skip(half)[j]).key == comb.skip(
                    half,
                )[j].row.id by {
                    assert(comb.skip(half)[j] == comb[half + j]);
                };
                assert(m[0]@.wf_leaf());
                assert(m[1]@.wf_leaf());
                assert(m[0]@.max_key() == comb[half - 1].key);
                assert(m[1]@.cells.first() == comb[half]);
                assert(m[0]@.max_key() < m[1]@.cells.first().key) by {
                    assert(leaf_keys(comb)[half - 1] == comb[half - 1].key);
                    assert(leaf_keys(comb)[half] == comb[half].key);
                }
            }
            self.create_new_node(table, new_page_num);
            proof {
                assert(table_cells(table@) == m[0]@.cells + m[1]@.cells);
                assert(m[0]@.cells + m[1]@.cells =~= comb);
                assert(table_cells(p) == lcells);
                assert(cells_inserted(p, table@, key, value@));
                let q = table@;
                assert(q[2]@ =~= (PageV {
                    is_root: false,
                    parent: 0,
                    next_leaf: 1,
                    cells: comb.take(half),
                    ..p[0]@
                }));
                assert(q[1]@ =~= (PageV {
                    node_type: NodeType::NodeLeaf,
                    is_root: false,
                    parent: 0,
                    next_leaf: p[0]@.next_leaf,
                    cells: comb.skip(half),
                    right_child: 0,
                    children: Seq::empty(),
                }));
                assert(seq![InternalCell { child: 2, key: m[0]@.max_key() }] =~= seq![
                    InternalCell { child: 2, key: comb[half - 1].key },
                ]);
                assert(leaf_split_pages(p, q, self.page_num as int, l, cellv));
            }
        } else {
            let new_max = {
                let o = table.pager.get_page_view(self.page_num);
                o.get_node_max_key()
            };
            proof {
                assert(new_max == comb[half - 1].key);
            }
            let parent = table.pager.get_page(parent_num);
            parent.update_internal_node_key(old_max, new_max);
            proof {
                let q = table@;
                let root = p[0]@;
                let nk = root.children.len() as int;
                let oc = root.children;
                let keys = internal_keys(oc);
                lemma_lower_bound(keys, old_max);
                // the separator being renamed is exactly child ci's, or none
                // when the rightmost child split
                if ci < nk {
                    assert(keys[ci] == oc[ci].key);
                    assert forall|j: int| 0 <= j < ci implies keys[j] < old_max by {
                        assert(keys[j] < keys[ci]);
                    }
                    crate::page::lemma_lower_bound_unique(keys, old_max, ci);
                } else {
                    assert forall|j: int| 0 <= j < nk implies keys[j] < old_max by {
                        assert(wf_child(p, j));
                        assert(child_page(p, j).max_key() == oc[j].key);
                        assert(child_page(p, nk).cells.first().key > oc[nk - 1].key);
                        lemma_first_le_max(child_page(p, nk));
                        if j < nk - 1 {
                            assert(keys[j] < keys[nk - 1]);
                        }
                    }
                    crate::page::lemma_lower_bound_unique(keys, old_max, nk);
                }
            }
            let ghost m2 = table@;
            proof {
                assert(split_mid_state(p, m2, self.page_num as int, ci, l, cellv));
                split_pre_internal_insert_holds(p, m2, self.page_num as int, ci, l, cellv);
            }
            table.internal_node_insert(parent_num, new_page_num);
            proof {
                split_post_cells(p, m2, table@, self.page_num as int, ci, l, cellv);
                let q = table@;
                assert(q[self.page_num as int] == m2[self.page_num as int]);
                assert(q[p.len() as int] == m2[p.len() as int]);
                assert forall|x: int|
                    1 <= x < p.len() && x != self.page_num implies q[x] == p[x] by {
                    assert(m2[x] == p[x]);
                }
                assert(leaf_split_pages(p, q, self.page_num as int, l, cellv));
            }
        }
    }

    /// Splits the root leaf's pages into a fresh internal root: the root's
    /// cells (already cut down to the left half, chained to the new right
    /// leaf) are copied into a new left-child page, and the root page is
    /// reinitialized as an internal node over the two leaves. The root page
    /// number never changes.
    fn create_new_node(&self, table: &mut Table, right_child_page_num: usize)
        requires
            old(table).root_page_num == 0,
            self.page_num == 0,
            old(table)@.len() == 2,
            old(table)@.len() + 1 <= crate::constant::TABLE_MAX_PAGES,
            right_child_page_num == 1,
            old(table)@[0]@.is_leaf(),
            old(table)@[0]@.is_root,
            old(table)@[0]@.parent == 0,
            old(table)@[0]@.wf_leaf(),
            old(table)@[0]@.cells.len() >= 1,
            old(table)@[0]@.next_leaf == 1,
            old(table)@[1]@.wf_leaf(),
            !old(table)@[1]@.is_root,
            old(table)@[1]@.parent == 0,
            old(table)@[1]@.cells.len() >= 1,
            old(table)@[1]@.next_leaf == 0,
            old(table)@[0]@.max_key() < old(table)@[1]@.cells.first().key,
        ensures
            final(table).wf(),
            final(table).root_page_num == 0,
            final(table)@.len() == 3,
            table_cells(final(table)@) == old(table)@[0]@.cells + old(table)@[1]@.cells,
            // the new-root layout: a fresh left page copies the old root,
            // the right page keeps its cells, and the root page becomes the
            // internal node over the two
            final(table)@[2]@ == (PageV { is_root: false, parent: 0, ..old(table)@[0]@ }),
            final(table)@[1]@ == (PageV { parent: 0, ..old(table)@[1]@ }),
            final(table)@[0]@ == (PageV {
                node_type: NodeType::NodeInternal,
                is_root: true,
                parent: 0,
                next_leaf: 0,
                cells: Seq::empty(),
                right_child: 1,
                children: seq![InternalCell { child: 2, key: old(table)@[0]@.max_key() }],
            }),
    {
        let ghost p = table@;
        let left_child_page_num = table.pager.get_unused_page_num();
        let mut left_child = {
            let root_view = table.pager.get_page_view(self.page_num);
            root_view.clone()
        };
        left_child.set_node_root(false);
        let node_max_key = left_child.get_node_max_key();
        left_child.set_node_parent(self.page_num);
        table.pager.push_page(left_child);

        let root = table.pager.get_page(self.page_num);
        root.initialize_internal_node();
        root.set_node_root(true);
        root.set_internal_node_num_keys(1);
        root.set_internal_node_child(0, left_child_page_num);
        root.set_internal_node_key(0, node_max_key);
        root.set_internal_node_right_child(right_child_page_num);

        let root_page_num = table.root_page_num;
        {
            let left = table.pager.get_page(left_child_page_num);
            left.set_node_parent(root_page_num);
        }
        {
            let right = table.pager.get_page(right_child_page_num);
            right.set_node_parent(root_page_num);
        }
        proof {
            let q = table@;
            let root2 = q[0]@;
            assert(q.len() == 3);
            assert(root2.children =~= Seq::<InternalCell>::empty().push(
                InternalCell { child: 0, key: 0 },
            ).update(0, InternalCell { child: left_child_page_num, key: node_max_key }).update(
                0,
                InternalCell { child: left_child_page_num, key: node_max_key },
            ));
            assert(root2.children.len() == 1);
            assert(root2.children[0] == InternalCell {
                child: left_child_page_num,
                key: node_max_key,
            });
            assert(root2.child_at(0) == 2 && root2.child_at(1) == 1);
            assert(q[2]@ =~= (PageV { is_root: false, parent: 0, ..p[0]@ }));
            assert(q[1]@ =~= (PageV { parent: 0, ..p[1]@ }));
            assert(sorted_keys(internal_keys(root2.children)));
            assert(wf_child(q, 0));
            assert(wf_child(q, 1));
            assert(child_page(q, 0) == q[2]@);
            assert(child_page(q, 1) == q[1]@);
            assert forall|x: int| 1 <= x < q.len() implies #[trigger] is_child_of_root(q, x) by {
                if x == 1 {
                    assert(root2.child_at(1) == x);
                } else {
                    assert(root2.child_at(0) == x);
                }
            }
            assert(crate::table::wf_root_internal(q));
            assert(q[0]@ =~= (PageV {
                node_type: NodeType::NodeInternal,
                is_root: true,
                parent: 0,
                next_leaf: 0,
                cells: Seq::empty(),
                right_child: 1,
                children: seq![InternalCell { child: 2, key: p[0]@.max_key() }],
            }));
            assert(tail_cells(q, 2) =~= Seq::<LeafCellV>::empty());
            assert(tail_cells(q, 1) == child_page(q, 1).cells + tail_cells(q, 2));
            assert(tail_cells(q, 0) == child_page(q, 0).cells + tail_cells(q, 1));
            assert(table_cells(q) =~= p[0]@.cells + p[1]@.cells);
        }
    }

    /// Steps to the next cell: onward within the leaf, else to the head of
    /// the next leaf in the chain, else past the end.
    pub fn advance(&mut self, table: &Table)
        requires
            table.wf(),
            old(self).ok(table@),
            !old(self).end_of_table,
        ensures
            final(self).ok(table@),
            old(self).pos(table@) + 1 < table_cells(table@).len() ==> {
                &&& !final(self).end_of_table
                &&& final(self).pos(table@) == old(self).pos(table@) + 1
            },
            old(self).pos(table@) + 1 == table_cells(table@).len() ==> final(self).end_of_table,
    {
        let ghost pages = table@;
        let ghost ci = self.child_index@;
        proof {
            if !pages[0]@.is_leaf() {
                lemma_cell_at_child(pages, ci, self.cell_num as int);
                lemma_cells_total(pages);
            }
        }
        let page = self.get_page_view(table);
        let num_cells = page.leaf_node_num_cells();
        self.cell_num = self.cell_num + 1;
        if self.cell_num >= num_cells {
            let next_page_num = page.get_leaf_node_next_leaf();
            if next_page_num == 0 {
                self.end_of_table = true;
                proof {
                    if !pages[0]@.is_leaf() {
                        // a zero next pointer happens only at the last child
                        if ci < pages[0]@.children.len() {
                            assert(wf_child(pages, ci + 1));
                        }
                        lemma_cells_split_at(pages, ci + 1);
                    }
                }
            } else {
                self.page_num = next_page_num;
                self.cell_num = 0;
                proof {
                    self.child_index@ = ci + 1;
                }
                proof {
                    assert(wf_child(pages, ci + 1));
                    lemma_cell_at_child(pages, ci + 1, 0);
                    assert(head_cells(pages, ci + 1) == head_cells(pages, ci) + child_page(
                        pages,
                        ci,
                    ).cells);
                }
            }
        } else {
            proof {
                if !pages[0]@.is_leaf() {
                    lemma_cell_at_child(pages, ci, self.cell_num as int);
                }
            }
        }
    }
}

} // verus!
