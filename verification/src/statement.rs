//! Prepared statements and their execution.
//!
//! A statement is either an insert carrying the row to store, or a select.
//! Executing an insert locates the key, refuses duplicates and a full table
//! without touching a page, and otherwise stores the row at its ordered
//! place; executing a select walks the leaf chain and hands back every row in
//! ascending key order. Printing is the caller's business.

use vstd::prelude::*;
use vstd::string::StringSliceAdditionalSpecFns;
use crate::constant::{LEAF_NODE_MAX_CELLS, TABLE_MAX_PAGES};
use crate::cursor::Cursor;
use crate::page::{internal_keys, leaf_keys, lemma_lower_bound, lower_bound};
use crate::result::{ExecuteResult, PrepareResult};
use crate::row::Row;
use crate::table::{
    child_page, insert_effect, insert_target, lemma_find_position, lemma_lower_bound_contains,
    table_cells, table_keys, wf_child, Table,
};

verus! {

#[derive(Debug, PartialEq, Eq, Structural, Clone, Copy)]
pub enum StatementType {
    StatementInsert,
    StatementSelect,
    StatementUnsupported,
}

/// A parsed data statement: its kind, and for an insert the row to store.
#[derive(Debug)]
pub struct Statement {
    pub stmt_type: StatementType,
    pub row_to_insert: Option<Row>,
}

impl Statement {
    /// The row carried by an insert fits the fixed cell layout.
    pub open spec fn valid(self) -> bool {
        match self.row_to_insert {
            Option::Some(row) => row@.valid(),
            Option::None => true,
        }
    }
}

/// The leaf that `key` lands in is full, and splitting it would outgrow the
/// page cap: the one condition under which an insert is refused as full.
pub open spec fn insert_would_overflow(pages: Seq<crate::page::Page>, key: u32) -> bool {
    let leaf = if pages[0]@.is_leaf() {
        pages[0]@
    } else {
        child_page(pages, lower_bound(internal_keys(pages[0]@.children), key))
    };
    &&& leaf.cells.len() >= LEAF_NODE_MAX_CELLS
    &&& pages.len() + (if pages[0]@.is_leaf() {
        2int
    } else {
        1int
    }) > TABLE_MAX_PAGES
}

/// Stores the statement's row under its id. A duplicate id or a full table
/// is refused with the table untouched; otherwise the row enters the tree at
/// its ordered place.
pub fn execute_insert(statement: &Statement, table: &mut Table) -> (r: ExecuteResult)
    requires
        old(table).wf(),
        statement.valid(),
    ensures
        final(table).wf(),
        ({
            let p = old(table)@;
            match statement.row_to_insert {
                Option::Some(row) => {
                    if table_keys(p).contains(row.id) {
                        &&& r == ExecuteResult::ExecuteDuplicateKey
                        &&& *final(table) == *old(table)
                    } else if insert_would_overflow(p, row.id) {
                        &&& r == ExecuteResult::ExecuteTableFull
                        &&& *final(table) == *old(table)
                    } else {
                        &&& r == ExecuteResult::ExecuteSuccess
                        &&& insert_effect(p, final(table)@, row.id, row@)
                    }
                },
                Option::None => r == ExecuteResult::ExecuteFail && *final(table) == *old(table),
            }
        }),
{
    match &statement.row_to_insert {
        Option::Some(row_to_insert) => {
            let ghost p = table@;
            let key_to_insert = row_to_insert.id;
            let find_result = table.find(key_to_insert);
            let page_num = find_result.0;
            let cell_num = find_result.1;
            proof {
                if p[0]@.is_leaf() {
                    lemma_lower_bound_contains(leaf_keys(p[0]@.cells), key_to_insert);
                } else {
                    lemma_find_position(p, key_to_insert);
                    assert(wf_child(p, lower_bound(internal_keys(p[0]@.children), key_to_insert)))
                        by {
                        lemma_lower_bound(internal_keys(p[0]@.children), key_to_insert);
                    }
                }
                lemma_lower_bound(leaf_keys(p[page_num as int]@.cells), key_to_insert);
            }
            let duplicate = {
                let page = table.pager.get_page_view(page_num);
                cell_num < page.leaf_node_num_cells() && page.leaf_node_key(cell_num)
                    == key_to_insert
            };
            if duplicate {
                return ExecuteResult::ExecuteDuplicateKey;
            }
            let leaf_full = {
                let page = table.pager.get_page_view(page_num);
                page.leaf_node_num_cells() >= LEAF_NODE_MAX_CELLS
            };
            if leaf_full {
                let root_is_leaf = {
                    let root = table.pager.get_page_view(0);
                    root.is_leaf_node()
                };
                let needed: usize = if root_is_leaf {
                    2
                } else {
                    1
                };
                if table.pager.num_pages() + needed > TABLE_MAX_PAGES {
                    return ExecuteResult::ExecuteTableFull;
                }
            }
            let cursor = Cursor {
                page_num,
                cell_num,
                end_of_table: false,
                child_index: Ghost(
                    if p[0]@.is_leaf() {
                        0
                    } else {
                        lower_bound(internal_keys(p[0]@.children), key_to_insert)
                    },
                ),
            };
            proof {
                assert(page_num as int == insert_target(p, key_to_insert));
            }
            cursor.leaf_node_insert(table, key_to_insert, row_to_insert);
            ExecuteResult::ExecuteSuccess
        },
        Option::None => ExecuteResult::ExecuteFail,
    }
}

/// Collects every row of the table, in ascending id order.
pub fn execute_select(table: &Table) -> (rows: Vec<Row>)
    requires
        table.wf(),
    ensures
        rows@.len() == table_cells(table@).len(),
        forall|i: int| 0 <= i < rows@.len() ==> (#[trigger] rows@[i])@ == table_cells(table@)[i].row,
        forall|i: int| 0 <= i < rows@.len() ==> (#[trigger] rows@[i])@.id == table_keys(table@)[i],
{
    let mut cursor = Cursor::table_start(table);
    let mut rows: Vec<Row> = Vec::new();
    while !cursor.end_of_table
        invariant
            table.wf(),
            cursor.ok(table@),
            rows@.len() <= table_cells(table@).len(),
            !cursor.end_of_table ==> cursor.pos(table@) == rows@.len(),
            cursor.end_of_table ==> rows@.len() == table_cells(table@).len(),
            forall|i: int|
                0 <= i < rows@.len() ==> (#[trigger] rows@[i])@ == table_cells(table@)[i].row,
        decreases table_cells(table@).len() - rows@.len(),
    {
        let row = cursor.cursor_value(table);
        rows.push(row);
        cursor.advance(table);
    }
    proof {
        crate::table::lemma_table_cells_keyed(table@);
        assert forall|i: int|
            0 <= i < rows@.len() implies (#[trigger] rows@[i])@.id == table_keys(table@)[i] by {
            assert(table_cells(table@)[i].key == table_cells(table@)[i].row.id);
            assert(table_keys(table@)[i] == table_cells(table@)[i].key);
        }
    }
    rows
}

/// Runs a prepared statement: an insert stores its row, a select hands back
/// the rows in id order; anything else fails. The returned vector is empty
/// except for a select.
pub fn execute_statement(statement: Statement, table: &mut Table) -> (r: (ExecuteResult, Vec<Row>))
    requires
        old(table).wf(),
        statement.valid(),
    ensures
        final(table).wf(),
        ({
            let p = old(table)@;
            match statement.stmt_type {
                StatementType::StatementInsert => {
                    &&& r.1@.len() == 0
                    &&& match statement.row_to_insert {
                        Option::Some(row) => {
                            if table_keys(p).contains(row.id) {
                                &&& r.0 == ExecuteResult::ExecuteDuplicateKey
                                &&& *final(table) == *old(table)
                            } else if insert_would_overflow(p, row.id) {
                                &&& r.0 == ExecuteResult::ExecuteTableFull
                                &&& *final(table) == *old(table)
                            } else {
                                &&& r.0 == ExecuteResult::ExecuteSuccess
                                &&& insert_effect(p, final(table)@, row.id, row@)
                            }
                        },
                        Option::None => r.0 == ExecuteResult::ExecuteFail && *final(table)
                            == *old(table),
                    }
                },
                StatementType::StatementSelect => {
                    &&& r.0 == ExecuteResult::ExecuteSuccess
                    &&& *final(table) == *old(table)
                    &&& r.1@.len() == table_cells(p).len()
                    &&& forall|i: int|
                        0 <= i < r.1@.len() ==> (#[trigger] r.1@[i])@ == table_cells(p)[i].row
                },
                StatementType::StatementUnsupported => r.0 == ExecuteResult::ExecuteFail
                    && *final(table) == *old(table),
            }
        }),
{
    match statement.stmt_type {
        StatementType::StatementInsert => {
            let r = execute_insert(&statement, table);
            (r, Vec::new())
        },
        StatementType::StatementSelect => {
            let rows = execute_select(table);
            (ExecuteResult::ExecuteSuccess, rows)
        },
        StatementType::StatementUnsupported => (ExecuteResult::ExecuteFail, Vec::new()),
    }
}


/// The bytes of the keyword `insert`.
pub open spec fn insert_keyword() -> Seq<u8> {
    seq![105u8, 110u8, 115u8, 101u8, 114u8, 116u8]
}

/// The bytes of the keyword `select`.
pub open spec fn select_keyword() -> Seq<u8> {
    seq![115u8, 101u8, 108u8, 101u8, 99u8, 116u8]
}

/// ASCII whitespace. Argument trimming strips exactly these bytes; unlike
/// `str::trim`, Unicode-only whitespace (a non-breaking space, say) is kept
/// and makes its token part of the value, or a non-numeral for the id.
pub open spec fn is_ws(c: u8) -> bool {
    c == 0x20 || c == 0x09 || c == 0x0a || c == 0x0b || c == 0x0c || c == 0x0d
}

/// `s` without leading whitespace.
pub open spec fn trim_start(s: Seq<u8>) -> Seq<u8>
    decreases s.len(),
{
    if s.len() > 0 && is_ws(s.first()) {
        trim_start(s.drop_first())
    } else {
        s
    }
}

/// `s` without trailing whitespace.
pub open spec fn trim_end(s: Seq<u8>) -> Seq<u8>
    decreases s.len(),
{
    if s.len() > 0 && is_ws(s.last()) {
        trim_end(s.drop_last())
    } else {
        s
    }
}

/// `s` without leading or trailing ASCII whitespace (see [`is_ws`]).
pub open spec fn trim_ws(s: Seq<u8>) -> Seq<u8> {
    trim_end(trim_start(s))
}

/// The index of the first space in `s`, or `s.len()` if none.
pub open spec fn first_space(s: Seq<u8>) -> int
    decreases s.len(),
{
    if s.len() == 0 {
        0
    } else if s.first() == 0x20 {
        0
    } else {
        1 + first_space(s.drop_first())
    }
}

/// `s` cut at every space, exactly as `split(" ")` cuts it: consecutive
/// spaces make empty fields.
pub open spec fn split_sp(s: Seq<u8>) -> Seq<Seq<u8>>
    decreases s.len(),
    via split_sp_decreases
{
    let k = first_space(s);
    if k >= s.len() {
        seq![s]
    } else {
        seq![s.take(k)] + split_sp(s.skip(k + 1))
    }
}

#[via_fn]
proof fn split_sp_decreases(s: Seq<u8>) {
    lemma_first_space(s);
}

/// `first_space` sits past every non-space and, within range, on a space.
pub proof fn lemma_first_space(s: Seq<u8>)
    ensures
        0 <= first_space(s) <= s.len(),
        forall|j: int| 0 <= j < first_space(s) ==> s[j] != 0x20,
        first_space(s) < s.len() ==> s[first_space(s)] == 0x20,
    decreases s.len(),
{
    if s.len() > 0 && s.first() != 0x20 {
        lemma_first_space(s.drop_first());
        let rest = s.drop_first();
        assert forall|j: int| 0 <= j < first_space(s) implies s[j] != 0x20 by {
            if j >= 1 {
                assert(s[j] == rest[j - 1]);
            }
        }
        if first_space(s) < s.len() {
            assert(s[first_space(s)] == rest[first_space(s) - 1]);
        }
    }
}

/// The value of a string of decimal digits, most significant first.
pub open spec fn dec_value(s: Seq<u8>) -> int
    decreases s.len(),
{
    if s.len() == 0 {
        0
    } else {
        dec_value(s.drop_last()) * 10 + (s.last() - 0x30)
    }
}

/// Every byte of `s` is a decimal digit.
pub open spec fn all_digits(s: Seq<u8>) -> bool {
    forall|j: int| 0 <= j < s.len() ==> 0x30 <= #[trigger] s[j] <= 0x39
}

/// The digits of a numeral: an optional leading `+` is dropped.
pub open spec fn numeral_digits(s: Seq<u8>) -> Seq<u8> {
    if s.len() >= 1 && s.first() == 0x2b {
        s.drop_first()
    } else {
        s
    }
}

/// What `parse::<u32>` accepts: at least one digit after an optional `+`,
/// with a value that fits.
pub open spec fn spec_parse_u32(s: Seq<u8>) -> Option<u32> {
    let d = numeral_digits(s);
    if d.len() >= 1 && all_digits(d) && dec_value(d) <= u32::MAX {
        Option::Some(dec_value(d) as u32)
    } else {
        Option::None
    }
}

/// A digit string's value is non-negative.
pub proof fn lemma_dec_value_nonneg(s: Seq<u8>)
    requires
        all_digits(s),
    ensures
        dec_value(s) >= 0,
    decreases s.len(),
{
    if s.len() > 0 {
        assert forall|j: int| 0 <= j < s.drop_last().len() implies 0x30 <= #[trigger] s.drop_last()[j] <= 0x39 by {
            assert(s.drop_last()[j] == s[j]);
        }
        lemma_dec_value_nonneg(s.drop_last());
    }
}

/// A digit string is worth at least any of its prefixes.
pub proof fn lemma_dec_value_prefix(s: Seq<u8>, i: int)
    requires
        all_digits(s),
        0 <= i <= s.len(),
    ensures
        dec_value(s.take(i)) <= dec_value(s),
    decreases s.len() - i,
{
    assert forall|k: int, j: int|
        0 <= k <= s.len() && 0 <= j < s.take(k).len() implies 0x30 <= #[trigger] s.take(k)[j]
        <= 0x39 by {
        assert(s.take(k)[j] == s[j]);
    }
    if i < s.len() {
        lemma_dec_value_prefix(s, i + 1);
        assert(s.take(i + 1).drop_last() =~= s.take(i));
        assert(dec_value(s.take(i + 1)) == dec_value(s.take(i)) * 10 + (s[i] - 0x30));
        lemma_dec_value_nonneg(s.take(i));
    } else {
        assert(s.take(i) =~= s);
    }
}


/// An index past every non-space and, within range, on a space, is the first
/// space.
pub proof fn lemma_first_space_unique(s: Seq<u8>, r: int)
    requires
        0 <= r <= s.len(),
        forall|j: int| 0 <= j < r ==> s[j] != 0x20,
        r < s.len() ==> s[r] == 0x20,
    ensures
        r == first_space(s),
{
    lemma_first_space(s);
    let k = first_space(s);
    if r < k {
        assert(s[r] != 0x20);
    } else if k < r {
        assert(s[k] != 0x20);
    }
}

/// The index of the first space, or the length if none.
fn find_space(b: &[u8]) -> (k: usize)
    ensures
        k == first_space(b@),
{
    let n = b.len();
    let mut i: usize = 0;
    while i < n
        invariant
            i <= n == b@.len(),
            forall|j: int| 0 <= j < i ==> b@[j] != 0x20,
        decreases n - i,
    {
        if *vstd::slice::slice_index_get(b, i) == 0x20 {
            proof {
                lemma_first_space_unique(b@, i as int);
            }
            return i;
        }
        i = i + 1;
    }
    proof {
        lemma_first_space_unique(b@, n as int);
    }
    n
}

/// Cuts `b` at every space, exactly as `split(" ")` cuts a string.
fn split_spaces(b: &[u8]) -> (toks: Vec<Vec<u8>>)
    ensures
        toks@.map_values(|t: Vec<u8>| t@) == split_sp(b@),
{
    let mut toks: Vec<Vec<u8>> = Vec::new();
    let mut rest: &[u8] = b;
    loop
        invariant_except_break
            split_sp(b@) == toks@.map_values(|t: Vec<u8>| t@) + split_sp(rest@),
        ensures
            toks@.map_values(|t: Vec<u8>| t@) == split_sp(b@),
        decreases rest@.len(),
    {
        let ghost before = toks@;
        let k = find_space(rest);
        proof {
            lemma_first_space(rest@);
        }
        if k == rest.len() {
            toks.push(vstd::slice::slice_to_vec(rest));
            proof {
                assert(split_sp(rest@) =~= seq![rest@]);
                assert(toks@.map_values(|t: Vec<u8>| t@) =~= before.map_values(|t: Vec<u8>| t@)
                    + seq![rest@]);
            }
            break;
        }
        let head = vstd::slice::slice_to_vec(vstd::slice::slice_subrange(rest, 0, k));
        toks.push(head);
        let next = vstd::slice::slice_subrange(rest, k + 1, rest.len());
        proof {
            assert(split_sp(rest@) == seq![rest@.take(k as int)] + split_sp(next@));
            assert(toks@.map_values(|t: Vec<u8>| t@) =~= before.map_values(|t: Vec<u8>| t@)
                + seq![rest@.take(k as int)]);
            assert(toks@.map_values(|t: Vec<u8>| t@) + split_sp(next@) =~= (before.map_values(
                |t: Vec<u8>| t@,
            ) + seq![rest@.take(k as int)]) + split_sp(next@));
            assert((before.map_values(|t: Vec<u8>| t@) + seq![rest@.take(k as int)]) + split_sp(
                next@,
            ) =~= before.map_values(|t: Vec<u8>| t@) + (seq![rest@.take(k as int)] + split_sp(
                next@,
            )));
        }
        rest = next;
    }
    toks
}

/// Whether a byte is whitespace as `trim` strips it.
fn is_ws_byte(c: u8) -> (r: bool)
    ensures
        r == is_ws(c),
{
    c == 0x20 || c == 0x09 || c == 0x0a || c == 0x0b || c == 0x0c || c == 0x0d
}

/// `b` without leading or trailing whitespace, as a fresh vector.
fn trim_bytes(b: &[u8]) -> (r: Vec<u8>)
    ensures
        r@ == trim_ws(b@),
{
    let n = b.len();
    let mut start: usize = 0;
    proof {
        assert(b@.skip(0) =~= b@);
    }
    while start < n && is_ws_byte(*vstd::slice::slice_index_get(b, start))
        invariant
            start <= n == b@.len(),
            trim_start(b@) == trim_start(b@.skip(start as int)),
        decreases n - start,
    {
        proof {
            assert(b@.skip(start as int).drop_first() =~= b@.skip(start + 1));
        }
        start = start + 1;
    }
    proof {
        assert(trim_start(b@) == b@.skip(start as int));
    }
    let mut end: usize = n;
    while end > start && is_ws_byte(*vstd::slice::slice_index_get(b, end - 1))
        invariant
            start <= end <= n == b@.len(),
            trim_start(b@) == b@.skip(start as int),
            trim_end(b@.skip(start as int)) == trim_end(
                b@.subrange(start as int, end as int),
            ),
        decreases end,
    {
        proof {
            assert(b@.subrange(start as int, end as int).drop_last() =~= b@.subrange(
                start as int,
                end - 1,
            ));
            assert(b@.subrange(start as int, end as int).last() == b@[end - 1]);
        }
        end = end - 1;
    }
    proof {
        if end > start {
            assert(b@.subrange(start as int, end as int).last() == b@[end - 1]);
        }
        assert(trim_end(b@.subrange(start as int, end as int)) == b@.subrange(
            start as int,
            end as int,
        ));
    }
    vstd::slice::slice_to_vec(vstd::slice::slice_subrange(b, start, end))
}

/// Parses a `u32` as `parse::<u32>` does: optional `+`, then decimal digits
/// whose value fits.
fn parse_u32_bytes(t: &[u8]) -> (r: Option<u32>)
    ensures
        r == spec_parse_u32(t@),
{
    let d: &[u8] = if t.len() >= 1 && *vstd::slice::slice_index_get(t, 0) == 0x2b {
        vstd::slice::slice_subrange(t, 1, t.len())
    } else {
        t
    };
    proof {
        assert(d@ =~= numeral_digits(t@));
    }
    if d.len() == 0 {
        return Option::None;
    }
    let n = d.len();
    let mut val: u32 = 0;
    let mut i: usize = 0;
    proof {
        assert(d@.take(0) =~= Seq::<u8>::empty());
    }
    while i < n
        invariant
            i <= n == d@.len(),
            n >= 1,
            all_digits(d@.take(i as int)),
            val == dec_value(d@.take(i as int)),
            d@ == numeral_digits(t@),
        decreases n - i,
    {
        let c = *vstd::slice::slice_index_get(d, i);
        if c < 0x30 || c > 0x39 {
            return Option::None;
        }
        let digit = (c - 0x30) as u32;
        let next = val as u64 * 10 + digit as u64;
        proof {
            assert(d@.take(i + 1).drop_last() =~= d@.take(i as int));
            assert(d@.take(i + 1).last() == d@[i as int]);
            assert(dec_value(d@.take(i + 1)) == dec_value(d@.take(i as int)) * 10 + (c - 0x30));
        }
        if next > u32::MAX as u64 {
            proof {
                if all_digits(d@) {
                    lemma_dec_value_prefix(d@, i + 1);
                }
            }
            return Option::None;
        }
        val = next as u32;
        proof {
            assert forall|j: int| 0 <= j < i + 1 implies 0x30 <= #[trigger] d@.take(i + 1)[j]
                <= 0x39 by {
                if j < i {
                    assert(d@.take(i as int)[j] == d@.take(i + 1)[j]);
                }
            }
        }
        i = i + 1;
    }
    proof {
        assert(d@.take(n as int) =~= d@);
    }
    Option::Some(val)
}

/// Whether the command starts with the keyword `insert`.
fn starts_with_insert(b: &[u8]) -> (r: bool)
    ensures
        r == (b@.len() >= 6 && b@.take(6) == insert_keyword()),
{
    let r = b.len() >= 6 && *vstd::slice::slice_index_get(b, 0) == 105
        && *vstd::slice::slice_index_get(b, 1) == 110 && *vstd::slice::slice_index_get(b, 2) == 115
        && *vstd::slice::slice_index_get(b, 3) == 101 && *vstd::slice::slice_index_get(b, 4) == 114
        && *vstd::slice::slice_index_get(b, 5) == 116;
    proof {
        if r {
            assert(b@.take(6) =~= insert_keyword());
        } else if b@.len() >= 6 && b@.take(6) == insert_keyword() {
            assert(b@[0] == insert_keyword()[0] && b@[1] == insert_keyword()[1] && b@[2]
                == insert_keyword()[2] && b@[3] == insert_keyword()[3] && b@[4]
                == insert_keyword()[4] && b@[5] == insert_keyword()[5]) by {
                assert(forall|j: int| 0 <= j < 6 ==> b@.take(6)[j] == b@[j]);
            }
        }
    }
    r
}

/// Whether the command starts with the keyword `select`.
fn starts_with_select(b: &[u8]) -> (r: bool)
    ensures
        r == (b@.len() >= 6 && b@.take(6) == select_keyword()),
{
    let r = b.len() >= 6 && *vstd::slice::slice_index_get(b, 0) == 115
        && *vstd::slice::slice_index_get(b, 1) == 101 && *vstd::slice::slice_index_get(b, 2) == 108
        && *vstd::slice::slice_index_get(b, 3) == 101 && *vstd::slice::slice_index_get(b, 4) == 99
        && *vstd::slice::slice_index_get(b, 5) == 116;
    proof {
        if r {
            assert(b@.take(6) =~= select_keyword());
        } else if b@.len() >= 6 && b@.take(6) == select_keyword() {
            assert(b@[0] == select_keyword()[0] && b@[1] == select_keyword()[1] && b@[2]
                == select_keyword()[2] && b@[3] == select_keyword()[3] && b@[4]
                == select_keyword()[4] && b@[5] == select_keyword()[5]) by {
                assert(forall|j: int| 0 <= j < 6 ==> b@.take(6)[j] == b@[j]);
            }
        }
    }
    r
}


/// Parses one command line. `insert <id> <username> <email>` needs all three
/// arguments, split on single spaces and trimmed of ASCII whitespace (not of
/// Unicode-only whitespace — see [`is_ws`]): a `u32` id and strings under
/// their field sizes; trailing zero bytes of a string are dropped, as storing
/// would drop them. `select` takes none. The first word decides, as a
/// prefix: anything else is unrecognized.
pub fn prepare_statement(command: &str) -> (r: Result<Box<Option<Statement>>, PrepareResult>)
    ensures
        ({
            let b = command.spec_bytes();
            let toks = split_sp(b);
            if b.len() >= 6 && b.take(6) == insert_keyword() {
                if toks.len() < 4 {
                    r == Result::<Box<Option<Statement>>, PrepareResult>::Err(
                        PrepareResult::PrepareSyntaxErr,
                    )
                } else if spec_parse_u32(trim_ws(toks[1])) is None {
                    r == Result::<Box<Option<Statement>>, PrepareResult>::Err(
                        PrepareResult::PrepareInvalidId,
                    )
                } else if trim_ws(toks[2]).len() >= crate::constant::USERNAME_SIZE || trim_ws(
                    toks[3],
                ).len() >= crate::constant::EMAIL_SIZE {
                    r == Result::<Box<Option<Statement>>, PrepareResult>::Err(
                        PrepareResult::PrepareStringTooLong,
                    )
                } else {
                    &&& r is Ok
                    &&& (*r->Ok_0) is Some
                    &&& (*r->Ok_0)->0.stmt_type == StatementType::StatementInsert
                    &&& (*r->Ok_0)->0.row_to_insert is Some
                    &&& ({
                        let row = (*r->Ok_0)->0.row_to_insert->0;
                        &&& row@.id == spec_parse_u32(trim_ws(toks[1]))->0
                        &&& row@.username == crate::row::trim_zeros(trim_ws(toks[2]))
                        &&& row@.email == crate::row::trim_zeros(trim_ws(toks[3]))
                        &&& row@.valid()
                    })
                }
            } else if b.len() >= 6 && b.take(6) == select_keyword() {
                &&& r is Ok
                &&& (*r->Ok_0) is Some
                &&& (*r->Ok_0)->0.stmt_type == StatementType::StatementSelect
                &&& (*r->Ok_0)->0.row_to_insert is None
            } else {
                r == Result::<Box<Option<Statement>>, PrepareResult>::Err(
                    PrepareResult::PrepareUnrecognized,
                )
            }
        }),
{
    let b = command.as_bytes();
    if starts_with_insert(b) {
        let args = split_spaces(b);
        proof {
            assert(args@.map_values(|t: Vec<u8>| t@).len() == args@.len());
        }
        if args.len() < 4 {
            return Result::Err(PrepareResult::PrepareSyntaxErr);
        }
        proof {
            assert(args@.map_values(|t: Vec<u8>| t@)[1] == args@[1]@);
            assert(args@.map_values(|t: Vec<u8>| t@)[2] == args@[2]@);
            assert(args@.map_values(|t: Vec<u8>| t@)[3] == args@[3]@);
        }
        let id_token = trim_bytes(args[1].as_slice());
        let id = match parse_u32_bytes(id_token.as_slice()) {
            Option::Some(v) => v,
            Option::None => {
                return Result::Err(PrepareResult::PrepareInvalidId);
            },
        };
        let username_token = trim_bytes(args[2].as_slice());
        if username_token.len() >= crate::constant::USERNAME_SIZE {
            return Result::Err(PrepareResult::PrepareStringTooLong);
        }
        let email_token = trim_bytes(args[3].as_slice());
        if email_token.len() >= crate::constant::EMAIL_SIZE {
            return Result::Err(PrepareResult::PrepareStringTooLong);
        }
        let username = crate::row::trim_trailing_zeros(username_token.as_slice());
        let email = crate::row::trim_trailing_zeros(email_token.as_slice());
        proof {
            crate::row::lemma_trim_zeros_props(username_token@);
            crate::row::lemma_trim_zeros_props(email_token@);
        }
        Result::Ok(
            Box::new(
                Option::Some(
                    Statement {
                        stmt_type: StatementType::StatementInsert,
                        row_to_insert: Option::Some(Row { id, username, email }),
                    },
                ),
            ),
        )
    } else if starts_with_select(b) {
        Result::Ok(
            Box::new(
                Option::Some(
                    Statement {
                        stmt_type: StatementType::StatementSelect,
                        row_to_insert: Option::None,
                    },
                ),
            ),
        )
    } else {
        Result::Err(PrepareResult::PrepareUnrecognized)
    }
}

} // verus!
