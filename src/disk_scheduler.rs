use vstd::prelude::*;

use crate::config::{FrameId, PageId};

verus! {

/// A read or write of one page that the disk must carry out.
#[derive(Debug)]
pub enum DiskRequest {
    /// Read page `page_id` from disk into frame `frame_id`.
    Read { page_id: PageId, frame_id: FrameId },
    /// Write `data` to disk as page `page_id`.
    Write { page_id: PageId, data: Vec<u8> },
}

/// True when `r` writes `data` as page `page_id`.
pub open spec fn is_write_of(r: DiskRequest, page_id: PageId, data: Seq<u8>) -> bool {
    match r {
        DiskRequest::Write { page_id: p, data: d } => p == page_id && d@ == data,
        DiskRequest::Read { .. } => false,
    }
}

/// True when `r` reads page `page_id` into frame `frame_id`.
pub open spec fn is_read_of(r: DiskRequest, page_id: PageId, frame_id: FrameId) -> bool {
    r == (DiskRequest::Read { page_id, frame_id })
}

/// The disk's pages after carrying out `r`: a write stores its bytes, a read
/// changes nothing.
pub open spec fn apply_request(disk: Map<PageId, Seq<u8>>, r: DiskRequest) -> Map<PageId, Seq<u8>> {
    match r {
        DiskRequest::Write { page_id, data } => disk.insert(page_id, data@),
        DiskRequest::Read { .. } => disk,
    }
}

/// The disk's pages after carrying out `reqs` in order.
pub open spec fn apply_requests(disk: Map<PageId, Seq<u8>>, reqs: Seq<DiskRequest>) -> Map<PageId, Seq<u8>>
    decreases reqs.len(),
{
    if reqs.len() == 0 {
        disk
    } else {
        apply_request(apply_requests(disk, reqs.drop_last()), reqs.last())
    }
}

/// The queue of disk requests, served first in, first out.
///
/// Whoever owns the disk takes requests with `next_request` in the order they
/// were scheduled, carries each out, and hands the bytes of each read back to
/// the buffer pool.
#[derive(Debug)]
pub struct DiskScheduler {
    request_queue: Vec<DiskRequest>,
}

impl DiskScheduler {
    /// The requests not yet taken, oldest first.
    pub closed spec fn pending(&self) -> Seq<DiskRequest> {
        self.request_queue@
    }

    pub fn new() -> (r: Self)
        ensures
            r.pending() == Seq::<DiskRequest>::empty(),
    {
        DiskScheduler { request_queue: Vec::new() }
    }

    /// Appends `r` to the queue.
    pub fn schedule(&mut self, r: DiskRequest)
        ensures
            final(self).pending() == old(self).pending().push(r),
    {
        self.request_queue.push(r);
    }

    /// Takes the oldest request, if any.
    pub fn next_request(&mut self) -> (r: Option<DiskRequest>)
        ensures
            old(self).pending().len() == 0 ==> r is None && final(self).pending() == old(
                self,
            ).pending(),
            old(self).pending().len() > 0 ==> r == Some(old(self).pending()[0])
                && final(self).pending() == old(self).pending().drop_first(),
    {
        if self.request_queue.len() == 0 {
            None
        } else {
            let r = self.request_queue.remove(0);
            assert(self.request_queue@ =~= old(self).request_queue@.drop_first());
            Some(r)
        }
    }

    /// Number of requests not yet taken.
    pub fn len(&self) -> (r: usize)
        ensures
            r == self.pending().len(),
    {
        self.request_queue.len()
    }
}

} // verus!
