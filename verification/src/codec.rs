//! The byte image of pages and of the whole database file.
//!
//! A page is stored in exactly [`PAGE_SIZE`] bytes: the common header (node
//! type, is-root flag, parent page number), then the node header and the
//! packed cells, then zero padding. Page numbers and cell counts are stored
//! as little-endian `u64`, keys as little-endian `u32`, rows through the row
//! codec. A database file is the pages laid end to end, page `n` at offset
//! `n * PAGE_SIZE`; [`lemma_page_codec_round_trip`] shows that decoding an
//! encoded well-formed page gives it back, which carries a database across a
//! close and reopen unchanged.

use vstd::prelude::*;
use vstd::bytes::{
    spec_u32_from_le_bytes, spec_u32_to_le_bytes, spec_u64_from_le_bytes, spec_u64_to_le_bytes,
    u32_from_le_bytes, u32_to_le_bytes, u64_from_le_bytes, u64_to_le_bytes,
};
use vstd::slice::slice_subrange;
use crate::constant::{
    INTERNAL_NODE_CELL_SIZE, INTERNAL_NODE_HEADER_SIZE, INTERNAL_NODE_MAX_CELLS,
    LEAF_NODE_CELL_SIZE, LEAF_NODE_HEADER_SIZE, LEAF_NODE_MAX_CELLS, PAGE_SIZE,
};
use crate::page::{InternalCell, LeafCell, LeafCellV, NodeType, Page, PageV};
use crate::row::{
    deserialize_row, lemma_row_codec_round_trip, serialize_row, spec_deserialize_row,
    spec_serialize_row, zero_pad,
};

verus! {

/// The byte that stores a node type: 0 internal, 1 leaf.
pub open spec fn node_type_byte(t: NodeType) -> u8 {
    match t {
        NodeType::NodeInternal => 0,
        NodeType::NodeLeaf => 1,
    }
}

/// The common header: node type, is-root flag, parent page number.
pub open spec fn spec_encode_common(p: PageV) -> Seq<u8> {
    seq![node_type_byte(p.node_type)] + seq![
        if p.is_root {
            1u8
        } else {
            0u8
        },
    ] + spec_u64_to_le_bytes(p.parent as u64)
}

/// One leaf cell: the key, then the row image.
pub open spec fn spec_encode_leaf_cell(c: LeafCellV) -> Seq<u8> {
    spec_u32_to_le_bytes(c.key) + spec_serialize_row(c.row)
}

/// The packed leaf cells, in order.
pub open spec fn spec_encode_leaf_cells(cells: Seq<LeafCellV>) -> Seq<u8>
    decreases cells.len(),
{
    if cells.len() == 0 {
        Seq::empty()
    } else {
        spec_encode_leaf_cell(cells.first()) + spec_encode_leaf_cells(cells.drop_first())
    }
}

/// One internal cell: the child page number, then the separator key.
pub open spec fn spec_encode_internal_cell(c: InternalCell) -> Seq<u8> {
    spec_u64_to_le_bytes(c.child as u64) + spec_u32_to_le_bytes(c.key)
}

/// The packed internal cells, in order.
pub open spec fn spec_encode_internal_cells(children: Seq<InternalCell>) -> Seq<u8>
    decreases children.len(),
{
    if children.len() == 0 {
        Seq::empty()
    } else {
        spec_encode_internal_cell(children.first()) + spec_encode_internal_cells(
            children.drop_first(),
        )
    }
}

/// The full `PAGE_SIZE`-byte image of a page.
pub open spec fn spec_encode_page(p: PageV) -> Seq<u8> {
    zero_pad(
        spec_encode_common(p) + if p.is_leaf() {
            spec_u64_to_le_bytes(p.cells.len() as u64) + spec_u64_to_le_bytes(p.next_leaf as u64)
                + spec_encode_leaf_cells(p.cells)
        } else {
            spec_u64_to_le_bytes(p.children.len() as u64) + spec_u64_to_le_bytes(
                p.right_child as u64,
            ) + spec_encode_internal_cells(p.children)
        },
        PAGE_SIZE as int,
    )
}

/// A stored page number, brought back into address range.
pub open spec fn spec_clamp_usize(v: u64) -> usize {
    if v <= usize::MAX as u64 {
        v as usize
    } else {
        usize::MAX
    }
}

/// A stored cell count, held to the node's capacity.
pub open spec fn spec_clamp_count(v: u64, cap: usize) -> usize {
    if v <= cap as u64 {
        v as usize
    } else {
        cap
    }
}

/// The page read from a `PAGE_SIZE`-byte image. Counts beyond a node's
/// capacity are cut to it, so that a foreign file cannot address bytes
/// outside the page.
pub open spec fn spec_decode_page(b: Seq<u8>) -> PageV {
    let node_type = if b[0] == 1 {
        NodeType::NodeLeaf
    } else {
        NodeType::NodeInternal
    };
    let is_root = b[1] == 1;
    let parent = spec_clamp_usize(spec_u64_from_le_bytes(b.subrange(2, 10)));
    if b[0] == 1 {
        let num_cells = spec_clamp_count(
            spec_u64_from_le_bytes(b.subrange(10, 18)),
            LEAF_NODE_MAX_CELLS,
        );
        let next_leaf = spec_clamp_usize(spec_u64_from_le_bytes(b.subrange(18, 26)));
        PageV {
            node_type,
            is_root,
            parent,
            next_leaf,
            cells: Seq::new(
                num_cells as nat,
                |i: int|
                    LeafCellV {
                        key: spec_u32_from_le_bytes(
                            b.subrange(
                                LEAF_NODE_HEADER_SIZE + i * LEAF_NODE_CELL_SIZE,
                                LEAF_NODE_HEADER_SIZE + i * LEAF_NODE_CELL_SIZE + 4,
                            ),
                        ),
                        row: spec_deserialize_row(
                            b.subrange(
                                LEAF_NODE_HEADER_SIZE + i * LEAF_NODE_CELL_SIZE + 4,
                                LEAF_NODE_HEADER_SIZE + (i + 1) * LEAF_NODE_CELL_SIZE,
                            ),
                        ),
                    },
            ),
            right_child: 0,
            children: Seq::empty(),
        }
    } else {
        let num_keys = spec_clamp_count(
            spec_u64_from_le_bytes(b.subrange(10, 18)),
            INTERNAL_NODE_MAX_CELLS,
        );
        let right_child = spec_clamp_usize(spec_u64_from_le_bytes(b.subrange(18, 26)));
        PageV {
            node_type,
            is_root,
            parent,
            next_leaf: 0,
            cells: Seq::empty(),
            right_child,
            children: Seq::new(
                num_keys as nat,
                |i: int|
                    InternalCell {
                        child: spec_clamp_usize(
                            spec_u64_from_le_bytes(
                                b.subrange(
                                    INTERNAL_NODE_HEADER_SIZE + i * INTERNAL_NODE_CELL_SIZE,
                                    INTERNAL_NODE_HEADER_SIZE + i * INTERNAL_NODE_CELL_SIZE + 8,
                                ),
                            ),
                        ),
                        key: spec_u32_from_le_bytes(
                            b.subrange(
                                INTERNAL_NODE_HEADER_SIZE + i * INTERNAL_NODE_CELL_SIZE + 8,
                                INTERNAL_NODE_HEADER_SIZE + (i + 1) * INTERNAL_NODE_CELL_SIZE,
                            ),
                        ),
                    },
            ),
        }
    }
}

/// Appending one cell appends its image.
pub proof fn lemma_encode_leaf_cells_push(cells: Seq<LeafCellV>, c: LeafCellV)
    ensures
        spec_encode_leaf_cells(cells.push(c)) == spec_encode_leaf_cells(cells)
            + spec_encode_leaf_cell(c),
    decreases cells.len(),
{
    if cells.len() == 0 {
        assert(cells.push(c).drop_first() =~= Seq::<LeafCellV>::empty());
        assert(cells.push(c).first() == c);
        assert(spec_encode_leaf_cells(Seq::<LeafCellV>::empty()) =~= Seq::<u8>::empty());
        assert(spec_encode_leaf_cells(cells.push(c)) =~= spec_encode_leaf_cell(c));
        assert(spec_encode_leaf_cells(cells) + spec_encode_leaf_cell(c) =~= spec_encode_leaf_cell(
            c,
        ));
    } else {
        assert(cells.push(c).first() == cells.first());
        assert(cells.push(c).drop_first() =~= cells.drop_first().push(c));
        lemma_encode_leaf_cells_push(cells.drop_first(), c);
        assert(spec_encode_leaf_cell(cells.first()) + (spec_encode_leaf_cells(cells.drop_first())
            + spec_encode_leaf_cell(c)) =~= spec_encode_leaf_cells(cells) + spec_encode_leaf_cell(
            c,
        ));
    }
}

/// Appending one internal cell appends its image.
pub proof fn lemma_encode_internal_cells_push(children: Seq<InternalCell>, c: InternalCell)
    ensures
        spec_encode_internal_cells(children.push(c)) == spec_encode_internal_cells(children)
            + spec_encode_internal_cell(c),
    decreases children.len(),
{
    if children.len() == 0 {
        assert(children.push(c).drop_first() =~= Seq::<InternalCell>::empty());
        assert(children.push(c).first() == c);
        assert(spec_encode_internal_cells(Seq::<InternalCell>::empty()) =~= Seq::<u8>::empty());
        assert(spec_encode_internal_cells(children.push(c)) =~= spec_encode_internal_cell(c));
        assert(spec_encode_internal_cells(children) + spec_encode_internal_cell(c)
            =~= spec_encode_internal_cell(c));
    } else {
        assert(children.push(c).first() == children.first());
        assert(children.push(c).drop_first() =~= children.drop_first().push(c));
        lemma_encode_internal_cells_push(children.drop_first(), c);
        assert(spec_encode_internal_cell(children.first()) + (spec_encode_internal_cells(
            children.drop_first(),
        ) + spec_encode_internal_cell(c)) =~= spec_encode_internal_cells(children)
            + spec_encode_internal_cell(c));
    }
}

/// The image of `n` leaf cells takes `n * LEAF_NODE_CELL_SIZE` bytes, cell
/// `i`'s image starting at `i * LEAF_NODE_CELL_SIZE`.
pub proof fn lemma_encode_leaf_cells_index(cells: Seq<LeafCellV>, i: int)
    requires
        0 <= i < cells.len(),
        forall|j: int| 0 <= j < cells.len() ==> (#[trigger] cells[j]).row.valid(),
    ensures
        spec_encode_leaf_cells(cells).len() == cells.len() * LEAF_NODE_CELL_SIZE,
        spec_encode_leaf_cells(cells).subrange(
            i * LEAF_NODE_CELL_SIZE,
            (i + 1) * LEAF_NODE_CELL_SIZE,
        ) == spec_encode_leaf_cell(cells[i]),
    decreases cells.len(),
{
    assert(LEAF_NODE_CELL_SIZE == 295);
    assert((i + 1) * LEAF_NODE_CELL_SIZE == i * LEAF_NODE_CELL_SIZE + LEAF_NODE_CELL_SIZE)
        by (nonlinear_arith);
    assert(cells.len() * LEAF_NODE_CELL_SIZE == (cells.len() - 1) * LEAF_NODE_CELL_SIZE
        + LEAF_NODE_CELL_SIZE) by (nonlinear_arith)
        requires cells.len() >= 1,
    ;
    lemma_encode_leaf_cells_len(cells);
    let head = spec_encode_leaf_cell(cells.first());
    assert(head.len() == LEAF_NODE_CELL_SIZE) by {
        assert(cells[0].row.valid());
        crate::row::lemma_serialize_row_len(cells.first().row);
        vstd::bytes::lemma_auto_spec_u32_to_from_le_bytes();
    }
    assert forall|j: int|
        0 <= j < cells.drop_first().len() implies (#[trigger] cells.drop_first()[
    j]).row.valid() by {
        assert(cells.drop_first()[j] == cells[j + 1]);
    }
    if i == 0 {
        lemma_encode_leaf_cells_len(cells.drop_first());
        assert(spec_encode_leaf_cells(cells).subrange(0, LEAF_NODE_CELL_SIZE as int) =~= head);
    } else {
        lemma_encode_leaf_cells_index(cells.drop_first(), i - 1);
        assert(cells.drop_first()[i - 1] == cells[i]);
        assert(spec_encode_leaf_cells(cells).subrange(
            i * LEAF_NODE_CELL_SIZE,
            (i + 1) * LEAF_NODE_CELL_SIZE,
        ) =~= spec_encode_leaf_cells(cells.drop_first()).subrange(
            (i - 1) * LEAF_NODE_CELL_SIZE,
            i * LEAF_NODE_CELL_SIZE,
        ));
    }
}

/// The image of `n` storable leaf cells takes `n * LEAF_NODE_CELL_SIZE`
/// bytes.
pub proof fn lemma_encode_leaf_cells_len(cells: Seq<LeafCellV>)
    requires
        forall|j: int| 0 <= j < cells.len() ==> (#[trigger] cells[j]).row.valid(),
    ensures
        spec_encode_leaf_cells(cells).len() == cells.len() * LEAF_NODE_CELL_SIZE,
    decreases cells.len(),
{
    if cells.len() > 0 {
        assert(cells.len() * LEAF_NODE_CELL_SIZE == (cells.len() - 1) * LEAF_NODE_CELL_SIZE
            + LEAF_NODE_CELL_SIZE) by (nonlinear_arith);
        assert forall|j: int|
            0 <= j < cells.drop_first().len() implies (#[trigger] cells.drop_first()[
        j]).row.valid() by {
            assert(cells.drop_first()[j] == cells[j + 1]);
        }
        lemma_encode_leaf_cells_len(cells.drop_first());
        assert(spec_encode_leaf_cell(cells.first()).len() == LEAF_NODE_CELL_SIZE) by {
            assert(cells[0].row.valid());
            crate::row::lemma_serialize_row_len(cells.first().row);
            assert(spec_u32_to_le_bytes(cells.first().key).len() == 4) by {
                vstd::bytes::lemma_auto_spec_u32_to_from_le_bytes();
            }
        }
    }
}

/// The image of `n` internal cells takes `n * INTERNAL_NODE_CELL_SIZE`
/// bytes, cell `i`'s image starting at `i * INTERNAL_NODE_CELL_SIZE`.
pub proof fn lemma_encode_internal_cells_index(children: Seq<InternalCell>, i: int)
    requires
        0 <= i < children.len(),
    ensures
        spec_encode_internal_cells(children).len() == children.len() * INTERNAL_NODE_CELL_SIZE,
        spec_encode_internal_cells(children).subrange(
            i * INTERNAL_NODE_CELL_SIZE,
            (i + 1) * INTERNAL_NODE_CELL_SIZE,
        ) == spec_encode_internal_cell(children[i]),
    decreases children.len(),
{
    assert(INTERNAL_NODE_CELL_SIZE == 12);
    assert((i + 1) * INTERNAL_NODE_CELL_SIZE == i * INTERNAL_NODE_CELL_SIZE
        + INTERNAL_NODE_CELL_SIZE) by (nonlinear_arith);
    assert(children.len() * INTERNAL_NODE_CELL_SIZE == (children.len() - 1)
        * INTERNAL_NODE_CELL_SIZE + INTERNAL_NODE_CELL_SIZE) by (nonlinear_arith)
        requires children.len() >= 1,
    ;
    lemma_encode_internal_cells_len(children);
    assert(spec_encode_internal_cell(children.first()).len() == INTERNAL_NODE_CELL_SIZE) by {
        vstd::bytes::lemma_auto_spec_u64_to_from_le_bytes();
        vstd::bytes::lemma_auto_spec_u32_to_from_le_bytes();
    }
    if i == 0 {
        lemma_encode_internal_cells_len(children.drop_first());
        assert(spec_encode_internal_cells(children).subrange(
            0,
            INTERNAL_NODE_CELL_SIZE as int,
        ) =~= spec_encode_internal_cell(children.first()));
    } else {
        lemma_encode_internal_cells_index(children.drop_first(), i - 1);
        assert(children.drop_first()[i - 1] == children[i]);
        assert(spec_encode_internal_cells(children).subrange(
            i * INTERNAL_NODE_CELL_SIZE,
            (i + 1) * INTERNAL_NODE_CELL_SIZE,
        ) =~= spec_encode_internal_cells(children.drop_first()).subrange(
            (i - 1) * INTERNAL_NODE_CELL_SIZE,
            i * INTERNAL_NODE_CELL_SIZE,
        ));
    }
}

/// The image of `n` internal cells takes `n * INTERNAL_NODE_CELL_SIZE` bytes.
pub proof fn lemma_encode_internal_cells_len(children: Seq<InternalCell>)
    ensures
        spec_encode_internal_cells(children).len() == children.len() * INTERNAL_NODE_CELL_SIZE,
    decreases children.len(),
{
    if children.len() > 0 {
        assert(children.len() * INTERNAL_NODE_CELL_SIZE == (children.len() - 1)
            * INTERNAL_NODE_CELL_SIZE + INTERNAL_NODE_CELL_SIZE) by (nonlinear_arith);
        lemma_encode_internal_cells_len(children.drop_first());
        assert(spec_encode_internal_cell(children.first()).len() == INTERNAL_NODE_CELL_SIZE) by {
            vstd::bytes::lemma_auto_spec_u64_to_from_le_bytes();
            assert(spec_u32_to_le_bytes(children.first().key).len() == 4) by {
                vstd::bytes::lemma_auto_spec_u32_to_from_le_bytes();
            }
        }
    }
}


/// Decoding an encoded well-formed page gives it back: what keeps a database
/// intact across flush and reopen.
#[verifier::rlimit(100)]
#[verifier::spinoff_prover]
pub proof fn lemma_page_codec_round_trip(v: PageV)
    requires
        v.wf_leaf() || v.wf_internal(),
    ensures
        spec_decode_page(spec_encode_page(v)) == v,
{
    vstd::bytes::lemma_auto_spec_u32_to_from_le_bytes();
    vstd::bytes::lemma_auto_spec_u64_to_from_le_bytes();
    crate::constant::lemma_leaf_geometry();
    let common = spec_encode_common(v);
    assert(common.len() == 10);
    assert(common[0] == node_type_byte(v.node_type));
    assert(common[1] == if v.is_root { 1u8 } else { 0u8 });
    assert(common.subrange(2, 10) =~= spec_u64_to_le_bytes(v.parent as u64));
    if v.is_leaf() {
        let cells = v.cells;
        let n = cells.len() as int;
        assert(LEAF_NODE_CELL_SIZE == 295);
        assert(n * LEAF_NODE_CELL_SIZE <= 13 * LEAF_NODE_CELL_SIZE) by (nonlinear_arith)
            requires n <= 13,
        ;
        lemma_encode_leaf_cells_len(cells);
        let hdr = spec_u64_to_le_bytes(n as u64) + spec_u64_to_le_bytes(v.next_leaf as u64);
        let raw = common + (hdr + spec_encode_leaf_cells(cells));
        assert(spec_encode_page(v) == zero_pad(raw, PAGE_SIZE as int));
        assert(raw.len() == 26 + n * LEAF_NODE_CELL_SIZE);
        let b = spec_encode_page(v);
        assert(b.len() == PAGE_SIZE);
        assert forall|k: int| 0 <= k < raw.len() implies b[k] == raw[k] by {}
        assert(b[0] == 1);
        assert(b[1] == common[1]);
        assert(b.subrange(2, 10) =~= spec_u64_to_le_bytes(v.parent as u64));
        assert(b.subrange(10, 18) =~= spec_u64_to_le_bytes(n as u64));
        assert(b.subrange(18, 26) =~= spec_u64_to_le_bytes(v.next_leaf as u64));
        let d = spec_decode_page(b);
        assert(d.node_type == v.node_type);
        assert(d.is_root == v.is_root);
        assert(d.parent == v.parent);
        assert(d.next_leaf == v.next_leaf);
        assert(d.cells.len() == n);
        assert forall|i: int| 0 <= i < n implies d.cells[i] == cells[i] by {
            lemma_encode_leaf_cells_index(cells, i);
            assert((i + 1) * LEAF_NODE_CELL_SIZE == i * LEAF_NODE_CELL_SIZE
                + LEAF_NODE_CELL_SIZE) by (nonlinear_arith);
            assert(i * LEAF_NODE_CELL_SIZE + LEAF_NODE_CELL_SIZE <= n * LEAF_NODE_CELL_SIZE)
                by (nonlinear_arith)
                requires i + 1 <= n,
            ;
            let enc = spec_encode_leaf_cell(cells[i]);
            crate::row::lemma_serialize_row_len(cells[i].row);
            assert(b.subrange(
                LEAF_NODE_HEADER_SIZE + i * LEAF_NODE_CELL_SIZE,
                LEAF_NODE_HEADER_SIZE + (i + 1) * LEAF_NODE_CELL_SIZE,
            ) =~= enc);
            assert(enc.subrange(0, 4) =~= spec_u32_to_le_bytes(cells[i].key));
            assert(enc.subrange(4, 295) =~= spec_serialize_row(cells[i].row));
            assert(b.subrange(
                LEAF_NODE_HEADER_SIZE + i * LEAF_NODE_CELL_SIZE,
                LEAF_NODE_HEADER_SIZE + i * LEAF_NODE_CELL_SIZE + 4,
            ) =~= spec_u32_to_le_bytes(cells[i].key));
            assert(b.subrange(
                LEAF_NODE_HEADER_SIZE + i * LEAF_NODE_CELL_SIZE + 4,
                LEAF_NODE_HEADER_SIZE + (i + 1) * LEAF_NODE_CELL_SIZE,
            ) =~= spec_serialize_row(cells[i].row));
            assert(cells[i].row.valid());
            lemma_row_codec_round_trip(cells[i].row);
        }
        assert(d.cells =~= cells);
        assert(d =~= v);
    } else {
        let children = v.children;
        let n = children.len() as int;
        assert(INTERNAL_NODE_CELL_SIZE == 12);
        assert(n * INTERNAL_NODE_CELL_SIZE <= 100 * INTERNAL_NODE_CELL_SIZE) by (nonlinear_arith)
            requires n <= 100,
        ;
        lemma_encode_internal_cells_len(children);
        let hdr = spec_u64_to_le_bytes(n as u64) + spec_u64_to_le_bytes(v.right_child as u64);
        let raw = common + (hdr + spec_encode_internal_cells(children));
        assert(spec_encode_page(v) == zero_pad(raw, PAGE_SIZE as int));
        assert(raw.len() == 26 + n * INTERNAL_NODE_CELL_SIZE);
        let b = spec_encode_page(v);
        assert(b.len() == PAGE_SIZE);
        assert forall|k: int| 0 <= k < raw.len() implies b[k] == raw[k] by {}
        assert(b[0] == 0);
        assert(b[1] == common[1]);
        assert(b.subrange(2, 10) =~= spec_u64_to_le_bytes(v.parent as u64));
        assert(b.subrange(10, 18) =~= spec_u64_to_le_bytes(n as u64));
        assert(b.subrange(18, 26) =~= spec_u64_to_le_bytes(v.right_child as u64));
        let d = spec_decode_page(b);
        assert(d.node_type == v.node_type);
        assert(d.is_root == v.is_root);
        assert(d.parent == v.parent);
        assert(d.right_child == v.right_child);
        assert(d.children.len() == n);
        assert forall|i: int| 0 <= i < n implies d.children[i] == children[i] by {
            lemma_encode_internal_cells_index(children, i);
            assert((i + 1) * INTERNAL_NODE_CELL_SIZE == i * INTERNAL_NODE_CELL_SIZE
                + INTERNAL_NODE_CELL_SIZE) by (nonlinear_arith);
            assert(i * INTERNAL_NODE_CELL_SIZE + INTERNAL_NODE_CELL_SIZE <= n
                * INTERNAL_NODE_CELL_SIZE) by (nonlinear_arith)
                requires i + 1 <= n,
            ;
            let enc = spec_encode_internal_cell(children[i]);
            assert(b.subrange(
                INTERNAL_NODE_HEADER_SIZE + i * INTERNAL_NODE_CELL_SIZE,
                INTERNAL_NODE_HEADER_SIZE + (i + 1) * INTERNAL_NODE_CELL_SIZE,
            ) =~= enc);
            assert(enc.subrange(0, 8) =~= spec_u64_to_le_bytes(children[i].child as u64));
            assert(enc.subrange(8, 12) =~= spec_u32_to_le_bytes(children[i].key));
            assert(b.subrange(
                INTERNAL_NODE_HEADER_SIZE + i * INTERNAL_NODE_CELL_SIZE,
                INTERNAL_NODE_HEADER_SIZE + i * INTERNAL_NODE_CELL_SIZE + 8,
            ) =~= spec_u64_to_le_bytes(children[i].child as u64));
            assert(b.subrange(
                INTERNAL_NODE_HEADER_SIZE + i * INTERNAL_NODE_CELL_SIZE + 8,
                INTERNAL_NODE_HEADER_SIZE + (i + 1) * INTERNAL_NODE_CELL_SIZE,
            ) =~= spec_u32_to_le_bytes(children[i].key));
        }
        assert(d.children =~= children);
        assert(d =~= v);
    }
}


/// Brings a stored `u64` page number back into address range.
fn clamp_usize(v: u64) -> (r: usize)
    ensures
        r == spec_clamp_usize(v),
{
    if v <= usize::MAX as u64 {
        v as usize
    } else {
        usize::MAX
    }
}

/// Holds a stored cell count to the node's capacity.
fn clamp_count(v: u64, cap: usize) -> (r: usize)
    ensures
        r == spec_clamp_count(v, cap),
{
    if v <= cap as u64 {
        v as usize
    } else {
        cap
    }
}

/// Writes the `PAGE_SIZE`-byte image of a page.
pub fn page_to_bytes(page: &Page) -> (b: Vec<u8>)
    requires
        page@.is_leaf() ==> page@.cells.len() <= LEAF_NODE_MAX_CELLS && (forall|j: int|
            0 <= j < page@.cells.len() ==> (#[trigger] page@.cells[j]).row.valid()),
        !page@.is_leaf() ==> page@.children.len() <= INTERNAL_NODE_MAX_CELLS,
    ensures
        b@ == spec_encode_page(page@),
        b@.len() == PAGE_SIZE,
{
    let ghost v = page@;
    let mut b: Vec<u8> = Vec::new();
    match page.node_type {
        NodeType::NodeInternal => b.push(0),
        NodeType::NodeLeaf => b.push(1),
    }
    if page.is_root {
        b.push(1);
    } else {
        b.push(0);
    }
    let mut parent_bytes = u64_to_le_bytes(page.parent as u64);
    b.append(&mut parent_bytes);
    proof {
        vstd::bytes::lemma_auto_spec_u64_to_from_le_bytes();
        assert(b@ =~= spec_encode_common(v));
    }
    let ghost common = spec_encode_common(v);
    if matches!(page.node_type, NodeType::NodeLeaf) {
        let mut count_bytes = u64_to_le_bytes(page.cells.len() as u64);
        b.append(&mut count_bytes);
        let mut next_bytes = u64_to_le_bytes(page.next_leaf as u64);
        b.append(&mut next_bytes);
        let ghost hdr = spec_u64_to_le_bytes(v.cells.len() as u64) + spec_u64_to_le_bytes(
            v.next_leaf as u64,
        );
        proof {
            assert(b@ =~= common + hdr);
            assert(spec_encode_leaf_cells(v.cells.take(0)) =~= Seq::<u8>::empty());
            assert(b@ =~= common + hdr + spec_encode_leaf_cells(v.cells.take(0)));
        }
        let mut i: usize = 0;
        while i < page.cells.len()
            invariant
                i <= v.cells.len() <= LEAF_NODE_MAX_CELLS,
                page@ == v,
                forall|j: int| 0 <= j < v.cells.len() ==> (#[trigger] v.cells[j]).row.valid(),
                b@ == common + hdr + spec_encode_leaf_cells(v.cells.take(i as int)),
            decreases v.cells.len() - i,
        {
            proof {
                assert(v.cells[i as int].row.valid());
            }
            let mut key_bytes = u32_to_le_bytes(page.cells[i].key);
            b.append(&mut key_bytes);
            let mut row_bytes = serialize_row(&page.cells[i].row);
            b.append(&mut row_bytes);
            proof {
                lemma_encode_leaf_cells_push(v.cells.take(i as int), v.cells[i as int]);
                assert(v.cells.take(i as int).push(v.cells[i as int]) =~= v.cells.take(i + 1));
                assert(b@ =~= common + hdr + spec_encode_leaf_cells(v.cells.take(i + 1)));
            }
            i = i + 1;
        }
        proof {
            assert(v.cells.take(v.cells.len() as int) =~= v.cells);
        }
    } else {
        let mut count_bytes = u64_to_le_bytes(page.children.len() as u64);
        b.append(&mut count_bytes);
        let mut right_bytes = u64_to_le_bytes(page.right_child as u64);
        b.append(&mut right_bytes);
        let ghost hdr = spec_u64_to_le_bytes(v.children.len() as u64) + spec_u64_to_le_bytes(
            v.right_child as u64,
        );
        proof {
            assert(b@ =~= common + hdr);
            assert(spec_encode_internal_cells(v.children.take(0)) =~= Seq::<u8>::empty());
            assert(b@ =~= common + hdr + spec_encode_internal_cells(v.children.take(0)));
        }
        let mut i: usize = 0;
        while i < page.children.len()
            invariant
                i <= v.children.len() <= INTERNAL_NODE_MAX_CELLS,
                page@ == v,
                b@ == common + hdr + spec_encode_internal_cells(v.children.take(i as int)),
            decreases v.children.len() - i,
        {
            let mut child_bytes = u64_to_le_bytes(page.children[i].child as u64);
            b.append(&mut child_bytes);
            let mut key_bytes = u32_to_le_bytes(page.children[i].key);
            b.append(&mut key_bytes);
            proof {
                lemma_encode_internal_cells_push(v.children.take(i as int), v.children[i as int]);
                assert(v.children.take(i as int).push(v.children[i as int]) =~= v.children.take(
                    i + 1,
                ));
                assert(b@ =~= common + hdr + spec_encode_internal_cells(v.children.take(i + 1)));
            }
            i = i + 1;
        }
        proof {
            assert(v.children.take(v.children.len() as int) =~= v.children);
        }
    }
    let ghost raw = b@;
    proof {
        if v.is_leaf() {
            lemma_encode_leaf_cells_len(v.cells);
            crate::constant::lemma_leaf_geometry();
            assert(v.cells.len() * LEAF_NODE_CELL_SIZE <= 13 * 295) by (nonlinear_arith)
                requires
                    v.cells.len() <= 13,
                    LEAF_NODE_CELL_SIZE == 295,
            ;
        } else {
            lemma_encode_internal_cells_len(v.children);
            assert(v.children.len() * INTERNAL_NODE_CELL_SIZE <= 100 * 12) by (nonlinear_arith)
                requires
                    v.children.len() <= 100,
                    INTERNAL_NODE_CELL_SIZE == 12,
            ;
        }
        assert(raw.len() <= PAGE_SIZE);
        assert(raw + Seq::new(0, |j: int| 0u8) =~= raw);
    }
    while b.len() < PAGE_SIZE
        invariant
            raw.len() <= PAGE_SIZE,
            raw.len() <= b@.len() <= PAGE_SIZE,
            b@ == raw + Seq::new((b@.len() - raw.len()) as nat, |j: int| 0u8),
        decreases PAGE_SIZE - b@.len(),
    {
        b.push(0);
        proof {
            assert(b@ =~= raw + Seq::new((b@.len() - raw.len()) as nat, |j: int| 0u8));
        }
    }
    proof {
        assert(b@ =~= zero_pad(raw, PAGE_SIZE as int));
    }
    b
}

/// Reads the page stored in a `PAGE_SIZE`-byte image.
pub fn page_from_bytes(b: &[u8]) -> (p: Page)
    requires
        b@.len() == PAGE_SIZE,
    ensures
        p@ == spec_decode_page(b@),
{
    let node_byte = *vstd::slice::slice_index_get(b, 0);
    let root_byte = *vstd::slice::slice_index_get(b, 1);
    let parent = clamp_usize(u64_from_le_bytes(slice_subrange(b, 2, 10)));
    if node_byte == 1 {
        let num_cells = clamp_count(
            u64_from_le_bytes(slice_subrange(b, 10, 18)),
            LEAF_NODE_MAX_CELLS,
        );
        let next_leaf = clamp_usize(u64_from_le_bytes(slice_subrange(b, 18, 26)));
        proof {
            crate::constant::lemma_leaf_geometry();
        }
        let mut cells: Vec<LeafCell> = Vec::new();
        let mut i: usize = 0;
        while i < num_cells
            invariant
                num_cells <= 13,
                b@.len() == PAGE_SIZE,
                cells@.len() == i <= num_cells,
                LEAF_NODE_CELL_SIZE == 295,
                forall|j: int|
                    0 <= j < i ==> (#[trigger] cells@[j])@ == (LeafCellV {
                        key: spec_u32_from_le_bytes(
                            b@.subrange(
                                LEAF_NODE_HEADER_SIZE + j * LEAF_NODE_CELL_SIZE,
                                LEAF_NODE_HEADER_SIZE + j * LEAF_NODE_CELL_SIZE + 4,
                            ),
                        ),
                        row: spec_deserialize_row(
                            b@.subrange(
                                LEAF_NODE_HEADER_SIZE + j * LEAF_NODE_CELL_SIZE + 4,
                                LEAF_NODE_HEADER_SIZE + (j + 1) * LEAF_NODE_CELL_SIZE,
                            ),
                        ),
                    }),
            decreases num_cells - i,
        {
            proof {
                assert(i * 295 <= 12 * 295) by (nonlinear_arith)
                    requires i <= 12,
                ;
                assert((i + 1) * LEAF_NODE_CELL_SIZE == i * LEAF_NODE_CELL_SIZE
                    + LEAF_NODE_CELL_SIZE) by (nonlinear_arith);
            }
            let off = LEAF_NODE_HEADER_SIZE + i * LEAF_NODE_CELL_SIZE;
            let key = u32_from_le_bytes(slice_subrange(b, off, off + 4));
            let row = deserialize_row(slice_subrange(b, off + 4, off + LEAF_NODE_CELL_SIZE));
            cells.push(LeafCell { key, row });
            i = i + 1;
        }
        let p = Page {
            node_type: NodeType::NodeLeaf,
            is_root: root_byte == 1,
            parent,
            next_leaf,
            cells,
            right_child: 0,
            children: Vec::new(),
        };
        proof {
            assert(p@.cells =~= spec_decode_page(b@).cells);
            assert(p@ =~= spec_decode_page(b@));
        }
        p
    } else {
        let num_keys = clamp_count(
            u64_from_le_bytes(slice_subrange(b, 10, 18)),
            INTERNAL_NODE_MAX_CELLS,
        );
        let right_child = clamp_usize(u64_from_le_bytes(slice_subrange(b, 18, 26)));
        let mut children: Vec<InternalCell> = Vec::new();
        let mut i: usize = 0;
        while i < num_keys
            invariant
                num_keys <= 100,
                b@.len() == PAGE_SIZE,
                children@.len() == i <= num_keys,
                INTERNAL_NODE_CELL_SIZE == 12,
                forall|j: int|
                    0 <= j < i ==> (#[trigger] children@[j]) == (InternalCell {
                        child: spec_clamp_usize(
                            spec_u64_from_le_bytes(
                                b@.subrange(
                                    INTERNAL_NODE_HEADER_SIZE + j * INTERNAL_NODE_CELL_SIZE,
                                    INTERNAL_NODE_HEADER_SIZE + j * INTERNAL_NODE_CELL_SIZE + 8,
                                ),
                            ),
                        ),
                        key: spec_u32_from_le_bytes(
                            b@.subrange(
                                INTERNAL_NODE_HEADER_SIZE + j * INTERNAL_NODE_CELL_SIZE + 8,
                                INTERNAL_NODE_HEADER_SIZE + (j + 1) * INTERNAL_NODE_CELL_SIZE,
                            ),
                        ),
                    }),
            decreases num_keys - i,
        {
            proof {
                assert(i * 12 <= 99 * 12) by (nonlinear_arith)
                    requires i <= 99,
                ;
                assert((i + 1) * INTERNAL_NODE_CELL_SIZE == i * INTERNAL_NODE_CELL_SIZE
                    + INTERNAL_NODE_CELL_SIZE) by (nonlinear_arith);
            }
            let off = INTERNAL_NODE_HEADER_SIZE + i * INTERNAL_NODE_CELL_SIZE;
            let child = clamp_usize(u64_from_le_bytes(slice_subrange(b, off, off + 8)));
            let key = u32_from_le_bytes(slice_subrange(b, off + 8, off + INTERNAL_NODE_CELL_SIZE));
            children.push(InternalCell { child, key });
            i = i + 1;
        }
        let p = Page {
            node_type: NodeType::NodeInternal,
            is_root: root_byte == 1,
            parent,
            next_leaf: 0,
            cells: Vec::new(),
            right_child,
            children,
        };
        proof {
            assert(p@.children =~= spec_decode_page(b@).children);
            assert(p@ =~= spec_decode_page(b@));
        }
        p
    }
}


/// The `PAGE_SIZE`-byte slice of a file image that holds page `i`.
pub open spec fn spec_page_image(bytes: Seq<u8>, i: int) -> Seq<u8> {
    bytes.subrange(i * PAGE_SIZE, (i + 1) * PAGE_SIZE)
}

/// Writes the whole database file image: the pages laid end to end.
pub fn table_to_bytes(table: &crate::table::Table) -> (b: Vec<u8>)
    requires
        table.wf(),
    ensures
        b@.len() == table@.len() * PAGE_SIZE,
        forall|i: int|
            0 <= i < table@.len() ==> #[trigger] spec_page_image(b@, i) == spec_encode_page(
                table@[i]@,
            ),
{
    let ghost pages = table@;
    let mut b: Vec<u8> = Vec::new();
    let n = table.pager.num_pages();
    let mut i: usize = 0;
    while i < n
        invariant
            n == pages.len() <= crate::constant::TABLE_MAX_PAGES,
            table@ == pages,
            table.wf(),
            i <= n,
            b@.len() == i * PAGE_SIZE,
            forall|j: int|
                0 <= j < i ==> #[trigger] spec_page_image(b@, j) == spec_encode_page(pages[j]@),
        decreases n - i,
    {
        proof {
            assert((i + 1) * PAGE_SIZE == i * PAGE_SIZE + PAGE_SIZE) by (nonlinear_arith);
            assert(i * PAGE_SIZE <= 100 * PAGE_SIZE) by (nonlinear_arith)
                requires i <= 100,
            ;
            if i >= 1 {
                crate::table::lemma_parent_linkage(pages, i as int);
                let w = choose|w: int|
                    0 <= w <= pages[0]@.children.len() && pages[0]@.child_at(w) == i as int;
                assert(crate::table::wf_child(pages, w));
            }
        }
        let mut page_bytes = page_to_bytes(table.pager.get_page_view(i));
        let ghost before = b@;
        b.append(&mut page_bytes);
        proof {
            assert forall|j: int|
                0 <= j < i + 1 implies #[trigger] spec_page_image(b@, j) == spec_encode_page(
                pages[j]@,
            ) by {
                assert((j + 1) * PAGE_SIZE == j * PAGE_SIZE + PAGE_SIZE) by (nonlinear_arith);
                if j < i {
                    assert(spec_page_image(b@, j) =~= spec_page_image(before, j));
                } else {
                    assert(spec_page_image(b@, j) =~= spec_encode_page(pages[j]@));
                }
            }
        }
        i = i + 1;
    }
    b
}

/// Reads a file image back into a page cache, page `i` from offset
/// `i * PAGE_SIZE`. The image must be a whole number of pages.
pub fn pages_from_bytes(b: &[u8]) -> (pager: crate::pager::Pager)
    requires
        b@.len() % (PAGE_SIZE as nat) == 0,
        b@.len() <= crate::constant::TABLE_MAX_PAGES * PAGE_SIZE,
    ensures
        pager@.len() == b@.len() / (PAGE_SIZE as nat),
        forall|i: int|
            0 <= i < pager@.len() ==> (#[trigger] pager@[i])@ == spec_decode_page(
                spec_page_image(b@, i),
            ),
{
    let n = b.len() / PAGE_SIZE;
    proof {
        assert(n * PAGE_SIZE == b@.len());
        assert(n <= crate::constant::TABLE_MAX_PAGES) by (nonlinear_arith)
            requires
                n * PAGE_SIZE == b@.len(),
                b@.len() <= crate::constant::TABLE_MAX_PAGES * PAGE_SIZE,
                PAGE_SIZE == 4096,
        ;
    }
    let mut pages: Vec<Page> = Vec::new();
    let mut i: usize = 0;
    while i < n
        invariant
            n <= crate::constant::TABLE_MAX_PAGES,
            n * PAGE_SIZE == b@.len(),
            i <= n,
            pages@.len() == i,
            forall|j: int|
                0 <= j < i ==> (#[trigger] pages@[j])@ == spec_decode_page(spec_page_image(b@, j)),
        decreases n - i,
    {
        proof {
            assert((i + 1) * PAGE_SIZE == i * PAGE_SIZE + PAGE_SIZE) by (nonlinear_arith);
            assert((i + 1) * PAGE_SIZE <= n * PAGE_SIZE) by (nonlinear_arith)
                requires i + 1 <= n,
            ;
            assert(i * PAGE_SIZE <= 100 * PAGE_SIZE) by (nonlinear_arith)
                requires i <= 100,
            ;
        }
        let off = i * PAGE_SIZE;
        let page = page_from_bytes(slice_subrange(b, off, off + PAGE_SIZE));
        pages.push(page);
        i = i + 1;
    }
    crate::pager::Pager::from_pages(pages)
}

/// Two page caches whose pages decode alike hold the same tree: the shape
/// invariant and the cells it represents read nothing but the views.
pub proof fn lemma_pages_view_eq(p: Seq<Page>, q: Seq<Page>)
    requires
        p.len() == q.len(),
        forall|i: int| 0 <= i < p.len() ==> (#[trigger] p[i])@ == q[i]@,
    ensures
        crate::table::wf_pages(p) ==> crate::table::wf_pages(q),
        crate::table::wf_pages(p) ==> crate::table::table_cells(p) == crate::table::table_cells(q),
{
    if crate::table::wf_pages(p) {
        if p[0]@.is_leaf() {
            assert(q[0]@ == p[0]@);
            assert(crate::table::wf_pages(q));
            assert(crate::table::table_cells(p) == crate::table::table_cells(q));
        } else {
            let root = p[0]@;
            let nk = root.children.len() as int;
            assert(q[0]@ == root);
            assert forall|i: int|
                0 <= i <= nk implies #[trigger] crate::table::child_page(q, i)
                == crate::table::child_page(p, i) by {
                assert(crate::table::wf_child(p, i));
            }
            assert forall|i: int| 0 <= i <= nk implies #[trigger] crate::table::wf_child(q, i) by {
                assert(crate::table::wf_child(p, i));
            }
            assert forall|x: int|
                1 <= x < q.len() implies #[trigger] crate::table::is_child_of_root(q, x) by {
                assert(crate::table::is_child_of_root(p, x));
                let w = choose|w: int| 0 <= w <= nk && root.child_at(w) == x;
                assert(q[0]@.child_at(w) == x);
            }
            assert(crate::table::wf_root_internal(q));
            assert forall|k: int|
                0 <= k <= nk implies #[trigger] crate::table::child_page(q, 0 + k).cells
                == crate::table::child_page(p, 0 + k).cells by {
                assert(crate::table::child_page(q, k) == crate::table::child_page(p, k));
            }
            crate::table::lemma_tail_cells_shift(p, q, 0, 0);
        }
    }
}

/// Persistence: every page of a well-formed tree survives the byte codec, so
/// the image written at close decodes at reopen to the same tree.
pub proof fn lemma_persistence(pages: Seq<Page>, i: int)
    requires
        crate::table::wf_pages(pages),
        0 <= i < pages.len(),
    ensures
        spec_decode_page(spec_encode_page(pages[i]@)) == pages[i]@,
{
    if i == 0 {
        assert(pages[0]@.wf_leaf() || pages[0]@.wf_internal());
    } else {
        assert(crate::table::is_child_of_root(pages, i));
        let w = choose|w: int|
            0 <= w <= pages[0]@.children.len() && pages[0]@.child_at(w) == i;
        assert(crate::table::wf_child(pages, w));
    }
    lemma_page_codec_round_trip(pages[i]@);
}

/// Opens a database from its file image: an empty file makes a fresh
/// single-leaf database, anything else is decoded page by page.
pub fn db_open_from_image(b: &[u8]) -> (t: crate::table::Table)
    requires
        b@.len() % (PAGE_SIZE as nat) == 0,
        b@.len() <= crate::constant::TABLE_MAX_PAGES * PAGE_SIZE,
    ensures
        b@.len() == 0 ==> t.wf() && crate::table::table_cells(t@).len() == 0,
        b@.len() > 0 ==> {
            &&& t@.len() == b@.len() / (PAGE_SIZE as nat)
            &&& forall|i: int|
                0 <= i < t@.len() ==> (#[trigger] t@[i])@ == spec_decode_page(
                    spec_page_image(b@, i),
                )
        },
        t.root_page_num == 0,
{
    if b.len() == 0 {
        crate::table::db_init()
    } else {
        let pager = pages_from_bytes(b);
        crate::table::Table::new(pager)
    }
}

} // verus!

verus! {

/// The pages a file image decodes to, as views.
pub open spec fn decoded_page_views(b: Seq<u8>) -> Seq<PageV> {
    Seq::new((b.len() / (PAGE_SIZE as nat)) as nat, |i: int| spec_decode_page(spec_page_image(b, i)))
}

/// Opens a database from its file image and validates it. An empty image
/// makes a fresh database; a non-empty one is accepted exactly when its
/// decoded pages form a well-formed tree ([`wf_page_views`]), which
/// [`lemma_own_image_accepted`] shows every image the engine wrote does.
pub fn db_open_checked(b: &[u8]) -> (r: Option<crate::table::Table>)
    requires
        b@.len() % (PAGE_SIZE as nat) == 0,
        b@.len() <= crate::constant::TABLE_MAX_PAGES * PAGE_SIZE,
    ensures
        b@.len() == 0 ==> r is Some,
        b@.len() > 0 ==> (r is Some <==> crate::table::wf_page_views(decoded_page_views(b@))),
        match r {
            Option::Some(t) => {
                &&& t.wf()
                &&& (b@.len() == 0 ==> crate::table::table_cells(t@).len() == 0)
                &&& (b@.len() > 0 ==> {
                    &&& t@.len() == b@.len() / (PAGE_SIZE as nat)
                    &&& forall|i: int|
                        0 <= i < t@.len() ==> (#[trigger] t@[i])@ == spec_decode_page(
                            spec_page_image(b@, i),
                        )
                })
            },
            Option::None => b@.len() > 0,
        },
{
    let t = db_open_from_image(b);
    proof {
        if b@.len() > 0 {
            assert(crate::table::views_of(t@) =~= decoded_page_views(b@));
            crate::table::lemma_wf_views(t@);
        }
    }
    if t.wf_check() {
        Option::Some(t)
    } else {
        Option::None
    }
}

/// An image the engine wrote is accepted at reopen: its pages decode back to
/// the tree's own views, which are well-formed.
pub proof fn lemma_own_image_accepted(pages: Seq<Page>, b: Seq<u8>)
    requires
        crate::table::wf_pages(pages),
        b.len() == pages.len() * PAGE_SIZE,
        forall|i: int|
            0 <= i < pages.len() ==> #[trigger] spec_page_image(b, i) == spec_encode_page(
                pages[i]@,
            ),
    ensures
        crate::table::wf_page_views(decoded_page_views(b)),
{
    assert(b.len() / (PAGE_SIZE as nat) == pages.len()) by (nonlinear_arith)
        requires
            b.len() == pages.len() * PAGE_SIZE,
            PAGE_SIZE == 4096,
    ;
    assert forall|i: int|
        0 <= i < pages.len() implies decoded_page_views(b)[i] == pages[i]@ by {
        lemma_persistence(pages, i);
    }
    assert(decoded_page_views(b) =~= crate::table::views_of(pages));
    crate::table::lemma_wf_views(pages);
}

} // verus!
