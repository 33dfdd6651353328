use vstd::prelude::*;

use crate::buffer_pool_manager::{unpin_page_done, same_except_frames_nodes, BufferPoolManager};
use crate::config::{PageId, BUSTUB_PAGE_SIZE};
use crate::page::{overwrite, PageView};

verus! {

/// A pinned page handed out by the buffer pool, with a note of whether it was
/// written through this guard.
///
/// Releasing the guard with `drop` unpins the page once, passing that note on
/// as the dirty flag. `drop` and the upgrades take the guard by value, so one
/// guard can release its pin at most once.
#[derive(Debug)]
pub struct BasicPageGuard {
    page_id: PageId,
    is_dirty: bool,
}

impl BasicPageGuard {
    /// The page this guard pins.
    pub closed spec fn id(&self) -> PageId {
        self.page_id
    }

    /// True once the page was written through this guard.
    pub closed spec fn dirty(&self) -> bool {
        self.is_dirty
    }

    /// A guard over a page the caller has already pinned.
    pub fn new(page_id: PageId) -> (r: Self)
        ensures
            r.id() == page_id,
            !r.dirty(),
    {
        BasicPageGuard { page_id, is_dirty: false }
    }

    /// Unpins the page, dirty when it was written through this guard.
    pub fn drop(self, bpm: &mut BufferPoolManager) -> (r: bool)
        requires
            old(bpm).wf(),
        ensures
            final(bpm).wf(),
            unpin_page_done(*old(bpm), *final(bpm), self.id(), self.dirty(), r),
    {
        bpm.unpin_page(self.page_id, self.is_dirty)
    }

    /// The same pin, now allowing reads only.
    pub fn upgrade_read(self) -> (r: ReadPageGuard)
        ensures
            r.id() == self.id(),
            r.dirty() == self.dirty(),
    {
        ReadPageGuard { guard: self }
    }

    /// The same pin, now allowing reads and writes.
    pub fn upgrade_write(self) -> (r: WritePageGuard)
        ensures
            r.id() == self.id(),
            r.dirty() == self.dirty(),
    {
        WritePageGuard { guard: self }
    }

    pub fn page_id(&self) -> (r: PageId)
        ensures
            r == self.id(),
    {
        self.page_id
    }

    /// The bytes of the guarded page.
    pub fn get_data<'a>(&self, bpm: &'a BufferPoolManager) -> (r: &'a [u8])
        requires
            bpm.wf(),
            bpm.resident(self.id()),
        ensures
            r@ == bpm.frames()[bpm.table()[self.id()] as int].data,
    {
        let f = match bpm.lookup(self.page_id) {
            Some(f) => f,
            None => {
                assert(false);
                0
            },
        };
        let pages = bpm.get_pages();
        pages[f].get_data()
    }

    /// Writes `bytes` into the guarded page from byte `offset` on and notes
    /// that the page is dirty.
    pub fn get_data_mut(&mut self, bpm: &mut BufferPoolManager, offset: usize, bytes: &[u8]) -> (r: bool)
        requires
            old(bpm).wf(),
            offset + bytes@.len() <= BUSTUB_PAGE_SIZE,
        ensures
            final(bpm).wf(),
            final(self).id() == old(self).id(),
            final(self).dirty(),
            r == old(bpm).resident(old(self).id()),
            !r ==> *final(bpm) == *old(bpm),
            r ==> {
                let f = old(bpm).table()[old(self).id()];
                let pv = old(bpm).frames()[f as int];
                &&& final(bpm).frames() == old(bpm).frames().update(
                    f as int,
                    PageView { data: overwrite(pv.data, offset as int, bytes@), ..pv },
                )
                &&& final(bpm).nodes() == old(bpm).nodes()
                &&& final(bpm).requests() == old(bpm).requests()
                &&& same_except_frames_nodes(*old(bpm), *final(bpm))
            },
    {
        self.is_dirty = true;
        bpm.write_page_data(self.page_id, offset, bytes)
    }
}

/// A pinned page that may only be read while the guard lives.
#[derive(Debug)]
pub struct ReadPageGuard {
    guard: BasicPageGuard,
}

impl ReadPageGuard {
    pub closed spec fn id(&self) -> PageId {
        self.guard.id()
    }

    pub closed spec fn dirty(&self) -> bool {
        self.guard.dirty()
    }

    pub fn new(page_id: PageId) -> (r: Self)
        ensures
            r.id() == page_id,
            !r.dirty(),
    {
        ReadPageGuard { guard: BasicPageGuard::new(page_id) }
    }

    /// Unpins the page.
    pub fn drop(self, bpm: &mut BufferPoolManager) -> (r: bool)
        requires
            old(bpm).wf(),
        ensures
            final(bpm).wf(),
            unpin_page_done(*old(bpm), *final(bpm), self.id(), self.dirty(), r),
    {
        self.guard.drop(bpm)
    }

    pub fn page_id(&self) -> (r: PageId)
        ensures
            r == self.id(),
    {
        self.guard.page_id()
    }

    pub fn get_data<'a>(&self, bpm: &'a BufferPoolManager) -> (r: &'a [u8])
        requires
            bpm.wf(),
            bpm.resident(self.id()),
        ensures
            r@ == bpm.frames()[bpm.table()[self.id()] as int].data,
    {
        self.guard.get_data(bpm)
    }
}

/// A pinned page that may be read and written while the guard lives.
#[derive(Debug)]
pub struct WritePageGuard {
    guard: BasicPageGuard,
}

impl WritePageGuard {
    pub closed spec fn id(&self) -> PageId {
        self.guard.id()
    }

    pub closed spec fn dirty(&self) -> bool {
        self.guard.dirty()
    }

    pub fn new(page_id: PageId) -> (r: Self)
        ensures
            r.id() == page_id,
            !r.dirty(),
    {
        WritePageGuard { guard: BasicPageGuard::new(page_id) }
    }

    /// Unpins the page, dirty when it was written through this guard.
    pub fn drop(self, bpm: &mut BufferPoolManager) -> (r: bool)
        requires
            old(bpm).wf(),
        ensures
            final(bpm).wf(),
            unpin_page_done(*old(bpm), *final(bpm), self.id(), self.dirty(), r),
    {
        self.guard.drop(bpm)
    }

    pub fn page_id(&self) -> (r: PageId)
        ensures
            r == self.id(),
    {
        self.guard.page_id()
    }

    pub fn get_data<'a>(&self, bpm: &'a BufferPoolManager) -> (r: &'a [u8])
        requires
            bpm.wf(),
            bpm.resident(self.id()),
        ensures
            r@ == bpm.frames()[bpm.table()[self.id()] as int].data,
    {
        self.guard.get_data(bpm)
    }

    /// Writes `bytes` into the page from byte `offset` on and notes that the
    /// page is dirty.
    pub fn get_data_mut(&mut self, bpm: &mut BufferPoolManager, offset: usize, bytes: &[u8]) -> (r: bool)
        requires
            old(bpm).wf(),
            offset + bytes@.len() <= BUSTUB_PAGE_SIZE,
        ensures
            final(bpm).wf(),
            final(self).id() == old(self).id(),
            final(self).dirty(),
            r == old(bpm).resident(old(self).id()),
            !r ==> *final(bpm) == *old(bpm),
            r ==> {
                let f = old(bpm).table()[old(self).id()];
                let pv = old(bpm).frames()[f as int];
                &&& final(bpm).frames() == old(bpm).frames().update(
                    f as int,
                    PageView { data: overwrite(pv.data, offset as int, bytes@), ..pv },
                )
                &&& final(bpm).nodes() == old(bpm).nodes()
                &&& final(bpm).requests() == old(bpm).requests()
                &&& same_except_frames_nodes(*old(bpm), *final(bpm))
            },
    {
        self.guard.get_data_mut(bpm, offset, bytes)
    }
}

} // verus!
