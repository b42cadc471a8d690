//! A single-table storage engine: a fixed-page-size B+tree that indexes rows
//! by a 32-bit primary key, together with the page cache, the row and page
//! codecs, and the statement layer of a small line-based database.
//!
//! Pages are 4096-byte units of persistence; page 0 is always the root.
//! Leaves hold `(key, row)` cells sorted strictly by key and form a singly
//! linked list in key order; the internal root holds `(child page, separator
//! key)` pairs plus a rightmost child. All file handling lives outside this
//! crate: the library works on decoded pages and hands back their byte images.

pub mod codec;
pub mod constant;
pub mod cursor;
pub mod page;
pub mod pager;
pub mod result;
pub mod row;
pub mod statement;
pub mod table;
