//! Files of pages.
//!
//! A page file is a value of the library. It remembers which pages were written,
//! in order, so that whoever owns the file on disk can write them there.

use super::error::StorageError;
use vstd::prelude::*;

verus! {

/// No file has more pages than this; page offsets then fit in 64 bits with
/// room to spare.
pub const MAX_PAGES: u64 = 0x4_0000_0000_0000;

/// A file that is read and written page by page.
pub struct PageFile<P> {
    pages: Vec<P>,
    written: Vec<u64>,
}

impl<P> View for PageFile<P> {
    type V = Seq<P>;

    closed spec fn view(&self) -> Seq<P> {
        self.pages@
    }
}

impl<P: Copy> PageFile<P> {
    /// The ids of the pages that were written since they were last taken, the
    /// earliest first.
    pub closed spec fn written(&self) -> Seq<u64> {
        self.written@
    }

    /// A file with the given pages.
    pub fn new(pages: Vec<P>) -> (file: PageFile<P>)
        ensures
            file@ == pages@,
            file.written() == Seq::<u64>::empty(),
    {
        PageFile { pages, written: Vec::new() }
    }

    /// The number of pages.
    pub fn len(&self) -> (n: u64)
        requires
            self@.len() <= u64::MAX,
        ensures
            n == self@.len(),
    {
        self.pages.len() as u64
    }

    pub fn is_empty(&self) -> (b: bool)
        ensures
            b == (self@.len() == 0),
    {
        self.pages.len() == 0
    }

    /// Reads a page.
    pub fn read(&self, id: u64) -> (r: Result<P, StorageError>)
        ensures
            r == (if id < self@.len() {
                Ok::<P, StorageError>(self@[id as int])
            } else {
                Err::<P, StorageError>(StorageError::ShortRead)
            }),
    {
        let total: usize = self.pages.len();
        if id < total as u64 {
            Ok(self.pages[id as usize])
        } else {
            Err(StorageError::ShortRead)
        }
    }

    /// Writes a page of the file.
    pub fn write(&mut self, id: u64, page: P)
        requires
            id < old(self)@.len(),
        ensures
            final(self)@ == old(self)@.update(id as int, page),
            final(self).written() == old(self).written().push(id),
    {
        assert(id < self.pages.len());
        let i: usize = id as usize;
        self.pages.set(i, page);
        self.written.push(id);
    }

    /// Adds a page at the end of the file.
    pub fn extend(&mut self, page: P)
        requires
            old(self)@.len() < MAX_PAGES,
        ensures
            final(self)@ == old(self)@.push(page),
            final(self).written() == old(self).written().push(old(self)@.len() as u64),
    {
        let id: u64 = self.pages.len() as u64;
        self.pages.push(page);
        self.written.push(id);
    }

    /// Hands out the ids of the written pages.
    pub fn take_written(&mut self) -> (ids: Vec<u64>)
        ensures
            ids@ == old(self).written(),
            final(self)@ == old(self)@,
            final(self).written() == Seq::<u64>::empty(),
    {
        let mut ids: Vec<u64> = Vec::new();
        std::mem::swap(&mut ids, &mut self.written);
        ids
    }
}

} // verus!
