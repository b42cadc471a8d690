//! Typed view of one 4096-byte node page.
//!
//! A page is either a leaf, whose body is a packed array of `(key, row)`
//! cells sorted strictly by key, or an internal node, whose body is a packed
//! array of `(child page, separator key)` cells plus a rightmost child. The
//! common header carries the node type, the is-root flag and the parent page
//! number. This module holds the accessors, the node initializers and the
//! intra-node binary searches; the byte image of a page is the codec's job.

use vstd::prelude::*;
use vstd::slice::slice_to_vec;
use crate::constant::{INTERNAL_NODE_MAX_CELLS, LEAF_NODE_MAX_CELLS};
use crate::row::{Row, RowV};

verus! {

#[derive(Debug, PartialEq, Eq, Structural, Clone, Copy)]
pub enum NodeType {
    NodeInternal,
    NodeLeaf,
}

/// One leaf cell: a key and the row stored under it.
#[derive(Debug, PartialEq, Eq)]
pub struct LeafCell {
    pub key: u32,
    pub row: Row,
}

/// Mathematical content of a leaf cell: the view of [`LeafCell`].
#[verifier::ext_equal]
pub struct LeafCellV {
    pub key: u32,
    pub row: RowV,
}

impl View for LeafCell {
    type V = LeafCellV;

    open spec fn view(&self) -> LeafCellV {
        LeafCellV { key: self.key, row: self.row@ }
    }
}

impl Clone for LeafCell {
    fn clone(&self) -> (r: Self)
        ensures
            r@ == self@,
    {
        LeafCell { key: self.key, row: self.row.clone() }
    }
}

/// One internal cell: a child page number and the separator key that bounds
/// the keys of that child's subtree from above.
#[derive(Debug, PartialEq, Eq, Structural, Clone, Copy)]
pub struct InternalCell {
    pub child: usize,
    pub key: u32,
}

/// One node page, decoded. A leaf uses `next_leaf` and `cells`; an internal
/// node uses `right_child` and `children`; the unused side stays blank.
pub struct Page {
    pub node_type: NodeType,
    pub is_root: bool,
    pub parent: usize,
    pub next_leaf: usize,
    pub cells: Vec<LeafCell>,
    pub right_child: usize,
    pub children: Vec<InternalCell>,
}

/// Mathematical content of a page: the view of [`Page`].
#[verifier::ext_equal]
pub struct PageV {
    pub node_type: NodeType,
    pub is_root: bool,
    pub parent: usize,
    pub next_leaf: usize,
    pub cells: Seq<LeafCellV>,
    pub right_child: usize,
    pub children: Seq<InternalCell>,
}

impl View for Page {
    type V = PageV;

    open spec fn view(&self) -> PageV {
        PageV {
            node_type: self.node_type,
            is_root: self.is_root,
            parent: self.parent,
            next_leaf: self.next_leaf,
            cells: self.cells@.map_values(|c: LeafCell| c@),
            right_child: self.right_child,
            children: self.children@,
        }
    }
}

/// Strictly ascending keys: the order within every node.
pub open spec fn sorted_keys(keys: Seq<u32>) -> bool {
    forall|i: int, j: int| 0 <= i < j < keys.len() ==> keys[i] < keys[j]
}

/// The keys of a sequence of leaf cells, in cell order.
pub open spec fn leaf_keys(cells: Seq<LeafCellV>) -> Seq<u32> {
    cells.map_values(|c: LeafCellV| c.key)
}

/// The separator keys of a sequence of internal cells, in cell order.
pub open spec fn internal_keys(children: Seq<InternalCell>) -> Seq<u32> {
    children.map_values(|c: InternalCell| c.key)
}

/// The index of the first key that is at least `key`, or `keys.len()` if none
/// is: the position at which `key` lives or would be inserted.
pub open spec fn lower_bound(keys: Seq<u32>, key: u32) -> int
    decreases keys.len(),
{
    if keys.len() == 0 {
        0
    } else if keys.first() >= key {
        0
    } else {
        1 + lower_bound(keys.drop_first(), key)
    }
}

/// `lower_bound` sits past every smaller key and, within range, on a key at
/// least `key`; those two facts pin it down uniquely.
pub proof fn lemma_lower_bound(keys: Seq<u32>, key: u32)
    ensures
        0 <= lower_bound(keys, key) <= keys.len(),
        forall|j: int| 0 <= j < lower_bound(keys, key) ==> keys[j] < key,
        lower_bound(keys, key) < keys.len() ==> keys[lower_bound(keys, key)] >= key,
    decreases keys.len(),
{
    if keys.len() > 0 && keys.first() < key {
        let rest = keys.drop_first();
        let lb = lower_bound(keys, key);
        lemma_lower_bound(rest, key);
        assert forall|j: int| 0 <= j < lb implies keys[j] < key by {
            if j >= 1 {
                assert(keys[j] == rest[j - 1]);
            }
        }
        if lb < keys.len() {
            assert(keys[lb] == rest[lb - 1]);
        }
    }
}

/// An index past every smaller key and, within range, on a key at least
/// `key`, is the lower bound.
pub proof fn lemma_lower_bound_unique(keys: Seq<u32>, key: u32, r: int)
    requires
        0 <= r <= keys.len(),
        forall|j: int| 0 <= j < r ==> keys[j] < key,
        r < keys.len() ==> keys[r] >= key,
    ensures
        r == lower_bound(keys, key),
{
    lemma_lower_bound(keys, key);
    let lb = lower_bound(keys, key);
    if r < lb {
        assert(keys[r] < key);
    } else if lb < r {
        assert(keys[lb] < key);
    }
}

impl PageV {
    /// A page fresh from [`Page::new`] or decoded from an all-zero image.
    pub open spec fn blank() -> PageV {
        PageV {
            node_type: NodeType::NodeInternal,
            is_root: false,
            parent: 0,
            next_leaf: 0,
            cells: Seq::empty(),
            right_child: 0,
            children: Seq::empty(),
        }
    }

    pub open spec fn is_leaf(self) -> bool {
        self.node_type is NodeLeaf
    }

    /// The child page addressed by index `i`: the `i`-th cell for
    /// `i < num_keys`, the rightmost child for `i == num_keys`.
    pub open spec fn child_at(self, i: int) -> usize
        recommends
            0 <= i <= self.children.len(),
    {
        if i < self.children.len() {
            self.children[i].child
        } else {
            self.right_child
        }
    }

    /// The largest key of the node itself: the last leaf key, or the last
    /// separator key.
    pub open spec fn max_key(self) -> u32
        recommends
            self.is_leaf() ==> self.cells.len() > 0,
            !self.is_leaf() ==> self.children.len() > 0,
    {
        if self.is_leaf() {
            self.cells.last().key
        } else {
            self.children.last().key
        }
    }

    /// A well-formed leaf: sorted within capacity, every row storable and
    /// keyed by its own id, the internal-node side blank.
    pub open spec fn wf_leaf(self) -> bool {
        &&& self.is_leaf()
        &&& self.cells.len() <= LEAF_NODE_MAX_CELLS
        &&& sorted_keys(leaf_keys(self.cells))
        &&& forall|i: int| 0 <= i < self.cells.len() ==> (#[trigger] self.cells[i]).row.valid()
        &&& forall|i: int|
            0 <= i < self.cells.len() ==> (#[trigger] self.cells[i]).key == self.cells[i].row.id
        &&& self.children.len() == 0
        &&& self.right_child == 0
    }

    /// A well-formed internal node: sorted separators within capacity, at
    /// least one of them, the leaf side blank.
    pub open spec fn wf_internal(self) -> bool {
        &&& !self.is_leaf()
        &&& 1 <= self.children.len() <= INTERNAL_NODE_MAX_CELLS
        &&& sorted_keys(internal_keys(self.children))
        &&& self.cells.len() == 0
        &&& self.next_leaf == 0
    }
}

/// A fresh vector holding the same cells.
pub fn clone_cells(cells: &Vec<LeafCell>) -> (r: Vec<LeafCell>)
    ensures
        r@.len() == cells@.len(),
        forall|j: int| 0 <= j < cells@.len() ==> r@[j]@ == cells@[j]@,
{
    let mut r: Vec<LeafCell> = Vec::new();
    let mut i: usize = 0;
    while i < cells.len()
        invariant
            i <= cells@.len(),
            r@.len() == i,
            forall|j: int| 0 <= j < i ==> r@[j]@ == cells@[j]@,
        decreases cells@.len() - i,
    {
        r.push(cells[i].clone());
        i = i + 1;
    }
    r
}

impl Clone for Page {
    fn clone(&self) -> (r: Self)
        ensures
            r@ == self@,
    {
        let r = Page {
            node_type: self.node_type,
            is_root: self.is_root,
            parent: self.parent,
            next_leaf: self.next_leaf,
            cells: clone_cells(&self.cells),
            right_child: self.right_child,
            children: slice_to_vec(self.children.as_slice()),
        };
        proof {
            assert(r@.cells =~= self@.cells);
            assert(r@ =~= self@);
        }
        r
    }
}

impl Page {
    /// A blank page: all fields as an all-zero image decodes them.
    pub fn new() -> (p: Self)
        ensures
            p@ == PageV::blank(),
    {
        let p = Page {
            node_type: NodeType::NodeInternal,
            is_root: false,
            parent: 0,
            next_leaf: 0,
            cells: Vec::new(),
            right_child: 0,
            children: Vec::new(),
        };
        proof {
            assert(p@ =~= PageV::blank());
        }
        p
    }

    /// Makes the page an empty non-root leaf; only the parent pointer is kept.
    pub fn initialize_leaf_node(&mut self)
        ensures
            final(self)@ == (PageV {
                node_type: NodeType::NodeLeaf,
                is_root: false,
                parent: old(self)@.parent,
                ..PageV::blank()
            }),
    {
        self.node_type = NodeType::NodeLeaf;
        self.is_root = false;
        self.next_leaf = 0;
        self.cells = Vec::new();
        self.right_child = 0;
        self.children = Vec::new();
        proof {
            assert(self@ =~= (PageV {
                node_type: NodeType::NodeLeaf,
                is_root: false,
                parent: self@.parent,
                ..PageV::blank()
            }));
        }
    }

    /// Makes the page an empty non-root internal node; only the parent
    /// pointer is kept.
    pub fn initialize_internal_node(&mut self)
        ensures
            final(self)@ == (PageV { parent: old(self)@.parent, ..PageV::blank() }),
    {
        self.node_type = NodeType::NodeInternal;
        self.is_root = false;
        self.next_leaf = 0;
        self.cells = Vec::new();
        self.right_child = 0;
        self.children = Vec::new();
        proof {
            assert(self@ =~= (PageV { parent: self@.parent, ..PageV::blank() }));
        }
    }

    pub fn is_leaf_node(&self) -> (r: bool)
        ensures
            r == self@.is_leaf(),
    {
        match self.node_type {
            NodeType::NodeLeaf => true,
            NodeType::NodeInternal => false,
        }
    }

    pub fn is_node_root(&self) -> (r: bool)
        ensures
            r == self@.is_root,
    {
        self.is_root
    }

    pub fn set_node_root(&mut self, is_root: bool)
        ensures
            final(self)@ == (PageV { is_root, ..old(self)@ }),
    {
        self.is_root = is_root;
    }

    pub fn get_node_parent(&self) -> (r: usize)
        ensures
            r == self@.parent,
    {
        self.parent
    }

    pub fn set_node_parent(&mut self, parent_page_num: usize)
        ensures
            final(self)@ == (PageV { parent: parent_page_num, ..old(self)@ }),
    {
        self.parent = parent_page_num;
    }

    pub fn get_leaf_node_next_leaf(&self) -> (r: usize)
        ensures
            r == self@.next_leaf,
    {
        self.next_leaf
    }

    pub fn set_leaf_node_next_leaf(&mut self, next_leaf: usize)
        ensures
            final(self)@ == (PageV { next_leaf, ..old(self)@ }),
    {
        self.next_leaf = next_leaf;
    }

    pub fn leaf_node_num_cells(&self) -> (n: usize)
        ensures
            n == self@.cells.len(),
    {
        self.cells.len()
    }

    /// The leaf cell at `cell_num`.
    pub fn leaf_node_cell(&self, cell_num: usize) -> (c: &LeafCell)
        requires
            cell_num < self@.cells.len(),
        ensures
            c@ == self@.cells[cell_num as int],
    {
        &self.cells[cell_num]
    }

    pub fn leaf_node_key(&self, cell_num: usize) -> (k: u32)
        requires
            cell_num < self@.cells.len(),
        ensures
            k == self@.cells[cell_num as int].key,
    {
        self.cells[cell_num].key
    }

    /// The row region of the cell at `cell_num`.
    pub fn leaf_node_value(&self, cell_num: usize) -> (r: &Row)
        requires
            cell_num < self@.cells.len(),
        ensures
            r@ == self@.cells[cell_num as int].row,
    {
        &self.cells[cell_num].row
    }

    /// Whether a leaf has reached its cell capacity.
    pub fn is_full(&self) -> (r: bool)
        ensures
            r == (self@.cells.len() >= LEAF_NODE_MAX_CELLS),
    {
        self.cells.len() >= LEAF_NODE_MAX_CELLS
    }

    pub fn get_internal_node_num_keys(&self) -> (n: usize)
        ensures
            n == self@.children.len(),
    {
        self.children.len()
    }

    /// Exposes exactly `num_keys` internal cells: truncates, or pads with
    /// blank cells, as the byte page exposes zero bytes.
    pub fn set_internal_node_num_keys(&mut self, num_keys: usize)
        ensures
            final(self)@ == (PageV {
                children: if num_keys <= old(self)@.children.len() {
                    old(self)@.children.take(num_keys as int)
                } else {
                    old(self)@.children + Seq::new(
                        (num_keys - old(self)@.children.len()) as nat,
                        |i: int| InternalCell { child: 0, key: 0 },
                    )
                },
                ..old(self)@
            }),
    {
        if num_keys <= self.children.len() {
            self.children.truncate(num_keys);
            proof {
                assert(self@ =~= (PageV {
                    children: old(self)@.children.take(num_keys as int),
                    ..old(self)@
                }));
            }
        } else {
            proof {
                assert(self@ =~= (PageV {
                    children: old(self)@.children + Seq::new(
                        0,
                        |i: int| InternalCell { child: 0, key: 0 },
                    ),
                    ..old(self)@
                }));
            }
            while self.children.len() < num_keys
                invariant
                    old(self)@.children.len() <= self@.children.len() <= num_keys,
                    self@ == (PageV {
                        children: old(self)@.children + Seq::new(
                            (self@.children.len() - old(self)@.children.len()) as nat,
                            |i: int| InternalCell { child: 0, key: 0 },
                        ),
                        ..old(self)@
                    }),
                decreases num_keys - self.children.len(),
            {
                let ghost before = self@.children;
                self.children.push(InternalCell { child: 0, key: 0 });
                proof {
                    assert(self@.children =~= old(self)@.children + Seq::new(
                        (before.len() + 1 - old(self)@.children.len()) as nat,
                        |i: int| InternalCell { child: 0, key: 0 },
                    ));
                    assert(self@ =~= (PageV {
                        children: old(self)@.children + Seq::new(
                            (self@.children.len() - old(self)@.children.len()) as nat,
                            |i: int| InternalCell { child: 0, key: 0 },
                        ),
                        ..old(self)@
                    }));
                }
            }
        }
    }

    /// Grows `num_keys` by `incr`, exposing blank cells.
    pub fn increase_internal_node_num_keys(&mut self, incr: usize)
        requires
            old(self)@.children.len() + incr <= usize::MAX,
        ensures
            final(self)@ == (PageV {
                children: old(self)@.children + Seq::new(
                    incr as nat,
                    |i: int| InternalCell { child: 0, key: 0 },
                ),
                ..old(self)@
            }),
    {
        let origin_num_keys = self.children.len();
        self.set_internal_node_num_keys(origin_num_keys + incr);
    }

    pub fn get_internal_node_right_child(&self) -> (r: usize)
        ensures
            r == self@.right_child,
    {
        self.right_child
    }

    pub fn set_internal_node_right_child(&mut self, internal_node_right_child: usize)
        ensures
            final(self)@ == (PageV { right_child: internal_node_right_child, ..old(self)@ }),
    {
        self.right_child = internal_node_right_child;
    }

    /// The internal cell at `cell_num`: its child page and separator key.
    pub fn internal_node_cell(&self, cell_num: usize) -> (c: InternalCell)
        requires
            cell_num < self@.children.len(),
        ensures
            c == self@.children[cell_num as int],
    {
        self.children[cell_num]
    }

    pub fn set_internal_node_cell(&mut self, cell_num: usize, cell: InternalCell)
        requires
            cell_num < old(self)@.children.len(),
        ensures
            final(self)@ == (PageV {
                children: old(self)@.children.update(cell_num as int, cell),
                ..old(self)@
            }),
    {
        self.children.set(cell_num, cell);
    }

    /// The child page at index `child_num`; index `num_keys` addresses the
    /// rightmost child.
    pub fn get_internal_node_child(&self, child_num: usize) -> (r: usize)
        requires
            child_num <= self@.children.len(),
        ensures
            r == self@.child_at(child_num as int),
    {
        if child_num == self.children.len() {
            self.right_child
        } else {
            self.children[child_num].child
        }
    }

    /// Points the child slot at index `child_num` at `child_page_num`; index
    /// `num_keys` addresses the rightmost child.
    pub fn set_internal_node_child(&mut self, child_num: usize, child_page_num: usize)
        requires
            child_num <= old(self)@.children.len(),
        ensures
            child_num == old(self)@.children.len() ==> final(self)@ == (PageV {
                right_child: child_page_num,
                ..old(self)@
            }),
            child_num < old(self)@.children.len() ==> final(self)@ == (PageV {
                children: old(self)@.children.update(
                    child_num as int,
                    InternalCell {
                        child: child_page_num,
                        key: old(self)@.children[child_num as int].key,
                    },
                ),
                ..old(self)@
            }),
    {
        if child_num == self.children.len() {
            self.right_child = child_page_num;
        } else {
            let key = self.children[child_num].key;
            self.children.set(child_num, InternalCell { child: child_page_num, key });
        }
    }

    pub fn get_internal_node_key(&self, cell_num: usize) -> (k: u32)
        requires
            cell_num < self@.children.len(),
        ensures
            k == self@.children[cell_num as int].key,
    {
        self.children[cell_num].key
    }

    pub fn set_internal_node_key(&mut self, key_num: usize, key_val: u32)
        requires
            key_num < old(self)@.children.len(),
        ensures
            final(self)@ == (PageV {
                children: old(self)@.children.update(
                    key_num as int,
                    InternalCell { child: old(self)@.children[key_num as int].child, key: key_val },
                ),
                ..old(self)@
            }),
    {
        let child = self.children[key_num].child;
        self.children.set(key_num, InternalCell { child, key: key_val });
    }

    /// The largest key stored in the node itself.
    pub fn get_node_max_key(&self) -> (k: u32)
        requires
            self@.is_leaf() ==> self@.cells.len() > 0,
            !self@.is_leaf() ==> self@.children.len() > 0,
        ensures
            k == self@.max_key(),
    {
        match self.node_type {
            NodeType::NodeInternal => self.children[self.children.len() - 1].key,
            NodeType::NodeLeaf => self.cells[self.cells.len() - 1].key,
        }
    }

    /// The index of the child which should contain the given key; index
    /// `num_keys` means the rightmost child.
    pub fn internal_node_find_child(&self, key: u32) -> (idx: usize)
        requires
            sorted_keys(internal_keys(self@.children)),
        ensures
            idx == lower_bound(internal_keys(self@.children), key),
    {
        let ghost keys = internal_keys(self@.children);
        let num_keys = self.children.len();
        let mut min_cell: usize = 0;
        let mut max_cell: usize = num_keys;
        while min_cell < max_cell
            invariant
                min_cell <= max_cell <= num_keys == self@.children.len(),
                keys == internal_keys(self@.children),
                sorted_keys(keys),
                forall|j: int| 0 <= j < min_cell ==> keys[j] < key,
                forall|j: int| max_cell <= j < num_keys ==> keys[j] >= key,
            decreases max_cell - min_cell,
        {
            let cell_num = (max_cell - min_cell) / 2 + min_cell;
            let cell_key_value = self.children[cell_num].key;
            proof {
                assert(cell_key_value == keys[cell_num as int]);
            }
            if cell_key_value >= key {
                max_cell = cell_num;
            } else {
                min_cell = cell_num + 1;
            }
        }
        proof {
            lemma_lower_bound_unique(keys, key, min_cell as int);
        }
        min_cell
    }

    /// The cell at which `key` lives, or at which it would be inserted to
    /// keep the leaf sorted.
    pub fn leaf_node_find(&self, key: u32) -> (idx: usize)
        requires
            sorted_keys(leaf_keys(self@.cells)),
        ensures
            idx == lower_bound(leaf_keys(self@.cells), key),
    {
        let ghost keys = leaf_keys(self@.cells);
        let num_cells = self.cells.len();
        let mut min_index: usize = 0;
        let mut one_past_max_index: usize = num_cells;
        while one_past_max_index != min_index
            invariant
                min_index <= one_past_max_index <= num_cells == self@.cells.len(),
                keys == leaf_keys(self@.cells),
                sorted_keys(keys),
                forall|j: int| 0 <= j < min_index ==> keys[j] < key,
                forall|j: int| one_past_max_index <= j < num_cells ==> keys[j] >= key,
            decreases one_past_max_index - min_index,
        {
            let index = min_index + (one_past_max_index - min_index) / 2;
            let key_at_index = self.cells[index].key;
            proof {
                assert(key_at_index == keys[index as int]);
            }
            if key_at_index == key {
                proof {
                    lemma_lower_bound_unique(keys, key, index as int);
                }
                return index;
            } else if key_at_index > key {
                one_past_max_index = index;
            } else {
                min_index = index + 1;
            }
        }
        proof {
            lemma_lower_bound_unique(keys, key, min_index as int);
        }
        min_index
    }

    /// Overwrites the separator under which `old_key` would descend. When
    /// `old_key` lies past every separator it belongs to the rightmost
    /// subtree, which needs none, and the call changes nothing.
    pub fn update_internal_node_key(&mut self, old_key: u32, new_key: u32)
        requires
            sorted_keys(internal_keys(old(self)@.children)),
        ensures
            final(self)@ == ({
                let i = lower_bound(internal_keys(old(self)@.children), old_key);
                if i < old(self)@.children.len() {
                    PageV {
                        children: old(self)@.children.update(
                            i,
                            InternalCell { child: old(self)@.children[i].child, key: new_key },
                        ),
                        ..old(self)@
                    }
                } else {
                    old(self)@
                }
            }),
    {
        proof {
            lemma_lower_bound(internal_keys(self@.children), old_key);
        }
        let old_child_index = self.internal_node_find_child(old_key);
        if old_child_index < self.children.len() {
            self.set_internal_node_key(old_child_index, new_key);
        }
    }
}

} // verus!

verus! {

/// Strict order of every adjacent pair gives strict order overall.
pub proof fn lemma_sorted_from_adjacent(keys: Seq<u32>, i: int, j: int)
    requires
        forall|k: int| 0 <= k && k + 1 < keys.len() ==> #[trigger] keys[k] < keys[k + 1],
        0 <= i < j < keys.len(),
    ensures
        keys[i] < keys[j],
    decreases j - i,
{
    if i + 1 < j {
        lemma_sorted_from_adjacent(keys, i + 1, j);
    }
}

impl Page {
    /// Whether the page is a well-formed leaf: sorted within capacity, every
    /// row storable, the internal-node side blank.
    pub fn wf_leaf_check(&self) -> (ok: bool)
        ensures
            ok == self@.wf_leaf(),
    {
        if !self.is_leaf_node() {
            return false;
        }
        if self.cells.len() > LEAF_NODE_MAX_CELLS {
            return false;
        }
        if self.children.len() != 0 || self.right_child != 0 {
            return false;
        }
        let n = self.cells.len();
        let mut i: usize = 0;
        while i < n
            invariant
                n == self@.cells.len(),
                i <= n,
                forall|k: int| 0 <= k < i && k + 1 < n ==> (#[trigger] leaf_keys(self@.cells)[k])
                    < leaf_keys(self@.cells)[k + 1],
                forall|k: int| 0 <= k < i ==> (#[trigger] self@.cells[k]).row.valid(),
                forall|k: int|
                    0 <= k < i ==> (#[trigger] self@.cells[k]).key == self@.cells[k].row.id,
            decreases n - i,
        {
            proof {
                assert(self@.cells[i as int] == self.cells@[i as int]@);
            }
            if !crate::row::row_valid_check(&self.cells[i].row) {
                return false;
            }
            if self.cells[i].key != self.cells[i].row.id {
                return false;
            }
            if i + 1 < n {
                if self.cells[i].key >= self.cells[i + 1].key {
                    proof {
                        assert(leaf_keys(self@.cells)[i as int] == self@.cells[i as int].key);
                        assert(leaf_keys(self@.cells)[i + 1] == self@.cells[i + 1].key);
                        assert(!sorted_keys(leaf_keys(self@.cells)));
                    }
                    return false;
                }
            }
            proof {
                assert(leaf_keys(self@.cells)[i as int] == self@.cells[i as int].key);
                if i + 1 < n {
                    assert(leaf_keys(self@.cells)[i + 1] == self@.cells[i + 1].key);
                }
            }
            i = i + 1;
        }
        proof {
            assert forall|a: int, b: int|
                0 <= a < b < leaf_keys(self@.cells).len() implies leaf_keys(self@.cells)[a]
                < leaf_keys(self@.cells)[b] by {
                lemma_sorted_from_adjacent(leaf_keys(self@.cells), a, b);
            }
        }
        true
    }

    /// Whether the page is a well-formed internal node: sorted separators
    /// within capacity, at least one, the leaf side blank.
    pub fn wf_internal_check(&self) -> (ok: bool)
        ensures
            ok == self@.wf_internal(),
    {
        if self.is_leaf_node() {
            return false;
        }
        if self.children.len() < 1 || self.children.len() > INTERNAL_NODE_MAX_CELLS {
            return false;
        }
        if self.cells.len() != 0 || self.next_leaf != 0 {
            return false;
        }
        let n = self.children.len();
        let mut i: usize = 0;
        while i + 1 < n
            invariant
                n == self@.children.len(),
                i < n,
                forall|k: int|
                    0 <= k < i && k + 1 < n ==> (#[trigger] internal_keys(self@.children)[k])
                        < internal_keys(self@.children)[k + 1],
            decreases n - i,
        {
            if self.children[i].key >= self.children[i + 1].key {
                proof {
                    assert(internal_keys(self@.children)[i as int] == self@.children[i as int].key);
                    assert(internal_keys(self@.children)[i + 1] == self@.children[i + 1].key);
                    assert(!sorted_keys(internal_keys(self@.children)));
                }
                return false;
            }
            proof {
                assert(internal_keys(self@.children)[i as int] == self@.children[i as int].key);
                assert(internal_keys(self@.children)[i + 1] == self@.children[i + 1].key);
            }
            i = i + 1;
        }
        proof {
            assert forall|a: int, b: int|
                0 <= a < b < internal_keys(self@.children).len() implies internal_keys(
                self@.children,
            )[a] < internal_keys(self@.children)[b] by {
                lemma_sorted_from_adjacent(internal_keys(self@.children), a, b);
            }
        }
        true
    }
}

} // verus!
