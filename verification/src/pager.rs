//! The page cache.
//!
//! Slot `i` of the pager holds page `i`, decoded; allocating a page appends a
//! slot. The pager owns no file: it is built from decoded pages and hands
//! them back to be flushed, so every read and write of the database file
//! stays outside the verified library.

use vstd::prelude::*;
use crate::page::{Page, PageV};

verus! {

/// A fixed array of decoded pages, indexed by page number.
pub struct Pager {
    pub pages: Vec<Page>,
}

impl View for Pager {
    type V = Seq<Page>;

    open spec fn view(&self) -> Seq<Page> {
        self.pages@
    }
}

impl Pager {
    /// An empty cache: no pages yet.
    pub fn new() -> (p: Pager)
        ensures
            p@.len() == 0,
    {
        Pager { pages: Vec::new() }
    }

    /// Rebuilds a cache from decoded pages, page `i` of the file at slot `i`.
    pub fn from_pages(pages: Vec<Page>) -> (p: Pager)
        ensures
            p@ == pages@,
    {
        Pager { pages }
    }

    pub fn num_pages(&self) -> (n: usize)
        ensures
            n == self@.len(),
    {
        self.pages.len()
    }

    /// A read-only handle to page `page_num`.
    pub fn get_page_view(&self, page_num: usize) -> (p: &Page)
        requires
            page_num < self@.len(),
        ensures
            p == self@[page_num as int],
    {
        &self.pages[page_num]
    }

    /// A mutable handle to page `page_num`.
    pub fn get_page(&mut self, page_num: usize) -> (p: &mut Page)
        requires
            page_num < old(self)@.len(),
        ensures
            *p == old(self)@[page_num as int],
            final(self)@ == old(self)@.update(page_num as int, *final(p)),
    {
        &mut self.pages[page_num]
    }

    /// Materializes `page` at the next free page number.
    pub fn push_page(&mut self, page: Page)
        ensures
            final(self)@ == old(self)@.push(page),
    {
        self.pages.push(page);
    }

    /// The page number the next allocation will use.
    pub fn get_unused_page_num(&self) -> (n: usize)
        ensures
            n == self@.len(),
    {
        self.pages.len()
    }

    /// Descends along child 0 from `page_num` until a leaf is reached. The
    /// tree is at most two levels deep (internal nodes never split), so one
    /// step suffices.
    pub fn get_leftmost_leaf_page_num(&self, page_num: usize) -> (r: usize)
        requires
            page_num < self@.len(),
            !self@[page_num as int]@.is_leaf() ==> {
                let child = self@[page_num as int]@.child_at(0);
                &&& child < self@.len()
                &&& self@[child as int]@.is_leaf()
            },
        ensures
            r < self@.len(),
            self@[r as int]@.is_leaf(),
            self@[page_num as int]@.is_leaf() ==> r == page_num,
            !self@[page_num as int]@.is_leaf() ==> r == self@[page_num as int]@.child_at(0),
    {
        let p = self.get_page_view(page_num);
        if p.is_leaf_node() {
            return page_num;
        }
        let child_page_num = p.get_internal_node_child(0);
        child_page_num
    }
}

} // verus!
