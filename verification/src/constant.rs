//! Byte-layout constants of the file format.
//!
//! A row occupies `ROW_SIZE` bytes: the id as a little-endian `u32`, then the
//! username and email as zero-padded byte arrays. Every page is `PAGE_SIZE`
//! bytes and starts with a common header (node type, is-root flag, parent
//! page number); page numbers are stored as little-endian `u64`.

use vstd::prelude::*;

verus! {

pub const ID_SIZE: usize = 4;

pub const USERNAME_SIZE: usize = 32;

pub const EMAIL_SIZE: usize = 255;

pub const ID_OFFSET: usize = 0;

pub const USERNAME_OFFSET: usize = ID_OFFSET + ID_SIZE;

pub const EMAIL_OFFSET: usize = USERNAME_OFFSET + USERNAME_SIZE;

pub const ROW_SIZE: usize = ID_SIZE + USERNAME_SIZE + EMAIL_SIZE;

pub const PAGE_SIZE: usize = 4096;

pub const TABLE_MAX_PAGES: usize = 100;

/// Common node header: node type (1 byte) | is-root (1 byte) | parent (8 bytes).
pub const NODE_TYPE_SIZE: usize = 1;

pub const NODE_TYPE_OFFSET: usize = 0;

pub const IS_ROOT_SIZE: usize = 1;

pub const IS_ROOT_OFFSET: usize = NODE_TYPE_SIZE;

pub const PARENT_POINTER_SIZE: usize = 8;

pub const PARENT_POINTER_OFFSET: usize = IS_ROOT_OFFSET + IS_ROOT_SIZE;

pub const COMMON_NODE_HEADER_SIZE: usize = NODE_TYPE_SIZE + IS_ROOT_SIZE + PARENT_POINTER_SIZE;

/// Leaf node header: common header | num_cells (8 bytes) | next_leaf (8 bytes).
pub const LEAF_NODE_NUM_CELLS_SIZE: usize = 8;

pub const LEAF_NODE_NUM_CELLS_OFFSET: usize = COMMON_NODE_HEADER_SIZE;

pub const LEAF_NODE_NEXT_LEAF_SIZE: usize = 8;

pub const LEAF_NODE_NEXT_LEAF_OFFSET: usize = LEAF_NODE_NUM_CELLS_OFFSET + LEAF_NODE_NUM_CELLS_SIZE;

pub const LEAF_NODE_HEADER_SIZE: usize = COMMON_NODE_HEADER_SIZE + LEAF_NODE_NUM_CELLS_SIZE
    + LEAF_NODE_NEXT_LEAF_SIZE;

/// Leaf node body: packed cells of key (4 bytes) | row (`ROW_SIZE` bytes).
pub const LEAF_NODE_KEY_SIZE: usize = 4;

pub const LEAF_NODE_VALUE_SIZE: usize = ROW_SIZE;

pub const LEAF_NODE_CELL_SIZE: usize = LEAF_NODE_KEY_SIZE + LEAF_NODE_VALUE_SIZE;

pub const LEAF_NODE_SPACE_FOR_CELLS: usize = PAGE_SIZE - LEAF_NODE_HEADER_SIZE;

pub const LEAF_NODE_MAX_CELLS: usize = LEAF_NODE_SPACE_FOR_CELLS / LEAF_NODE_CELL_SIZE;

pub const LEAF_NODE_RIGHT_SPLIT_COUNT: usize = (LEAF_NODE_MAX_CELLS + 1) / 2;

pub const LEAF_NODE_LEFT_SPLIT_COUNT: usize = (LEAF_NODE_MAX_CELLS + 1)
    - LEAF_NODE_RIGHT_SPLIT_COUNT;

/// Internal node header: common header | num_keys (8 bytes) | right child (8 bytes).
pub const INTERNAL_NODE_NUM_KEYS_SIZE: usize = 8;

pub const INTERNAL_NODE_NUM_KEYS_OFFSET: usize = COMMON_NODE_HEADER_SIZE;

pub const INTERNAL_NODE_RIGHT_CHILD_SIZE: usize = 8;

pub const INTERNAL_NODE_RIGHT_CHILD_OFFSET: usize = INTERNAL_NODE_NUM_KEYS_OFFSET
    + INTERNAL_NODE_NUM_KEYS_SIZE;

pub const INTERNAL_NODE_HEADER_SIZE: usize = COMMON_NODE_HEADER_SIZE + INTERNAL_NODE_NUM_KEYS_SIZE
    + INTERNAL_NODE_RIGHT_CHILD_SIZE;

/// Internal node body: packed cells of child page (8 bytes) | key (4 bytes).
pub const INTERNAL_NODE_KEY_SIZE: usize = 4;

pub const INTERNAL_NODE_CHILD_SIZE: usize = 8;

pub const INTERNAL_NODE_CELL_SIZE: usize = INTERNAL_NODE_KEY_SIZE + INTERNAL_NODE_CHILD_SIZE;

/// Ceiling on separators in an internal node; splitting internal nodes is
/// not implemented, so growth beyond it is refused.
pub const INTERNAL_NODE_MAX_CELLS: usize = 100;

/// The leaf geometry the layout implies: 13 cells per leaf, splitting 7/7.
pub proof fn lemma_leaf_geometry()
    ensures
        LEAF_NODE_MAX_CELLS == 13,
        LEAF_NODE_LEFT_SPLIT_COUNT == 7,
        LEAF_NODE_RIGHT_SPLIT_COUNT == 7,
{
    assert(LEAF_NODE_SPACE_FOR_CELLS == 4070);
    assert(LEAF_NODE_CELL_SIZE == 295);
    assert(4070int / 295int == 13int) by (nonlinear_arith);
    assert((13int + 1) / 2 == 7int);
}

} // verus!
