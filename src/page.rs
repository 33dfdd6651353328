use vstd::prelude::*;

use vstd::bytes::spec_u64_to_le_bytes;

use crate::config::{Lsn, PageId, BUSTUB_PAGE_SIZE};

verus! {

/// The contents and bookkeeping of one frame of the buffer pool.
pub ghost struct PageView {
    pub page_id: Option<PageId>,
    pub pin_count: u32,
    pub is_dirty: bool,
    pub data: Seq<u8>,
}

/// Offset of the log sequence number within a page.
pub const OFFSET_LSN: usize = 4;

/// `x` as eight bytes, most significant first.
pub open spec fn u64_be_bytes(x: u64) -> Seq<u8> {
    Seq::new(8, |i: int| spec_u64_to_le_bytes(x)[7 - i])
}

/// `b` is `x` as eight bytes in one of the two byte orders a machine can have.
pub open spec fn encodes_u64(b: Seq<u8>, x: u64) -> bool {
    b == spec_u64_to_le_bytes(x) || b == u64_be_bytes(x)
}

/// Relies on `u64::to_ne_bytes`: the eight bytes of `x` in the machine's
/// byte order, which is little- or big-endian.
#[verifier::external_body]
fn u64_to_ne_bytes(x: u64) -> (r: Vec<u8>)
    ensures
        encodes_u64(r@, x),
{
    x.to_ne_bytes().to_vec()
}

/// Relies on `u64::from_ne_bytes`: the integer whose bytes, in the machine's
/// byte order, are `b`.
#[verifier::external_body]
fn u64_from_ne_bytes(b: &[u8]) -> (r: u64)
    requires
        b@.len() == 8,
    ensures
        encodes_u64(b@, r),
{
    let mut a = [0u8; 8];
    a.copy_from_slice(b);
    u64::from_ne_bytes(a)
}

/// A page's worth of zero bytes.
pub open spec fn zeroed() -> Seq<u8> {
    Seq::new(BUSTUB_PAGE_SIZE as nat, |i: int| 0u8)
}

/// A frame that holds no page.
pub open spec fn blank() -> PageView {
    PageView { page_id: None, pin_count: 0, is_dirty: false, data: zeroed() }
}

/// `data` with the bytes from `offset` on replaced by `bytes`.
pub open spec fn overwrite(data: Seq<u8>, offset: int, bytes: Seq<u8>) -> Seq<u8> {
    data.subrange(0, offset) + bytes + data.subrange(offset + bytes.len(), data.len() as int)
}

/// A vector of `n` zero bytes.
pub fn zero_bytes(n: usize) -> (r: Vec<u8>)
    ensures
        r@ == Seq::new(n as nat, |i: int| 0u8),
{
    let mut v: Vec<u8> = Vec::with_capacity(n);
    let mut i: usize = 0;
    while i < n
        invariant
            i <= n,
            v@ == Seq::new(i as nat, |j: int| 0u8),
        decreases n - i,
    {
        v.push(0u8);
        i = i + 1;
        assert(v@ =~= Seq::new(i as nat, |j: int| 0u8));
    }
    v
}

/// A copy of `src`.
pub fn copy_bytes(src: &[u8]) -> (r: Vec<u8>)
    ensures
        r@ == src@,
{
    let mut v: Vec<u8> = Vec::with_capacity(src.len());
    let mut i: usize = 0;
    while i < src.len()
        invariant
            i <= src@.len(),
            v@ == src@.subrange(0, i as int),
        decreases src@.len() - i,
    {
        v.push(src[i]);
        i = i + 1;
        assert(v@ =~= src@.subrange(0, i as int));
    }
    assert(v@ =~= src@);
    v
}

/// A fixed-size page of bytes and the metadata the buffer pool keeps on it:
/// the id of the page it holds, its pin count and its dirty flag.
#[derive(Debug)]
pub struct Page {
    data: Vec<u8>,
    page_id: Option<PageId>,
    pin_count: u32,
    is_dirty: bool,
}

impl View for Page {
    type V = PageView;

    closed spec fn view(&self) -> PageView {
        PageView {
            page_id: self.page_id,
            pin_count: self.pin_count,
            is_dirty: self.is_dirty,
            data: self.data@,
        }
    }
}

impl Page {
    /// The data always spans exactly one page.
    pub open spec fn wf(&self) -> bool {
        self@.data.len() == BUSTUB_PAGE_SIZE
    }

    /// A zeroed page that holds no page id.
    pub fn new() -> (r: Page)
        ensures
            r.wf(),
            r@ == blank(),
    {
        Page { data: zero_bytes(BUSTUB_PAGE_SIZE), page_id: None, pin_count: 0, is_dirty: false }
    }

    /// Zeroes the data and clears the metadata.
    pub fn reset(&mut self)
        ensures
            final(self).wf(),
            final(self)@ == blank(),
    {
        self.data = zero_bytes(BUSTUB_PAGE_SIZE);
        self.page_id = None;
        self.pin_count = 0;
        self.is_dirty = false;
    }

    /// The page's bytes.
    pub fn get_data(&self) -> (r: &[u8])
        ensures
            r@ == self@.data,
    {
        self.data.as_slice()
    }

    /// Writes `bytes` into the page from byte `offset` on.
    pub fn write_data(&mut self, offset: usize, bytes: &[u8])
        requires
            old(self).wf(),
            offset + bytes@.len() <= BUSTUB_PAGE_SIZE,
        ensures
            final(self).wf(),
            final(self)@ == (PageView {
                data: overwrite(old(self)@.data, offset as int, bytes@),
                ..old(self)@
            }),
    {
        let mut i: usize = 0;
        while i < bytes.len()
            invariant
                self.wf(),
                offset + bytes@.len() <= BUSTUB_PAGE_SIZE,
                i <= bytes@.len(),
                self.page_id == old(self).page_id,
                self.pin_count == old(self).pin_count,
                self.is_dirty == old(self).is_dirty,
                forall|j: int|
                    0 <= j < BUSTUB_PAGE_SIZE ==> #[trigger] self.data@[j] == if offset <= j < offset
                        + i {
                        bytes@[j - offset]
                    } else {
                        old(self).data@[j]
                    },
            decreases bytes@.len() - i,
        {
            self.data.set(offset + i, bytes[i]);
            i = i + 1;
        }
        assert(self.data@ =~= overwrite(old(self).data@, offset as int, bytes@));
    }

    /// Replaces the whole of the data by `bytes`.
    pub fn set_data(&mut self, bytes: &[u8])
        requires
            old(self).wf(),
            bytes@.len() == BUSTUB_PAGE_SIZE,
        ensures
            final(self).wf(),
            final(self)@ == (PageView { data: bytes@, ..old(self)@ }),
    {
        self.write_data(0, bytes);
        assert(overwrite(old(self)@.data, 0, bytes@) =~= bytes@);
    }

    pub fn set_page_id(&mut self, page_id: PageId)
        ensures
            final(self)@ == (PageView { page_id: Some(page_id), ..old(self)@ }),
            final(self).wf() == old(self).wf(),
    {
        self.page_id = Some(page_id);
    }

    pub fn get_page_id(&self) -> (r: Option<PageId>)
        ensures
            r == self@.page_id,
    {
        self.page_id
    }

    pub fn get_pin_count(&self) -> (r: u32)
        ensures
            r == self@.pin_count,
    {
        self.pin_count
    }

    pub fn pin(&mut self)
        requires
            old(self)@.pin_count < u32::MAX,
        ensures
            final(self)@ == (PageView { pin_count: (old(self)@.pin_count + 1) as u32, ..old(self)@ }),
            final(self).wf() == old(self).wf(),
    {
        self.pin_count = self.pin_count + 1;
    }

    pub fn unpin(&mut self)
        requires
            old(self)@.pin_count > 0,
        ensures
            final(self)@ == (PageView { pin_count: (old(self)@.pin_count - 1) as u32, ..old(self)@ }),
            final(self).wf() == old(self).wf(),
    {
        self.pin_count = self.pin_count - 1;
    }

    /// True when the page in memory may differ from its copy on disk.
    pub fn is_dirty(&self) -> (r: bool)
        ensures
            r == self@.is_dirty,
    {
        self.is_dirty
    }

    pub fn set_dirty(&mut self, is_dirty: bool)
        ensures
            final(self)@ == (PageView { is_dirty, ..old(self)@ }),
            final(self).wf() == old(self).wf(),
    {
        self.is_dirty = is_dirty;
    }
    /// The log sequence number stored in the page header, read in the
    /// machine's byte order.
    pub fn get_lsn(&self) -> (r: Lsn)
        requires
            self.wf(),
        ensures
            encodes_u64(self@.data.subrange(OFFSET_LSN as int, OFFSET_LSN + 8), r),
    {
        let bytes = self.data.as_slice();
        let mut b: Vec<u8> = Vec::with_capacity(8);
        let mut i: usize = 0;
        while i < 8
            invariant
                i <= 8,
                bytes@ == self@.data,
                bytes@.len() == BUSTUB_PAGE_SIZE,
                b@ == bytes@.subrange(OFFSET_LSN as int, OFFSET_LSN + i),
            decreases 8 - i,
        {
            b.push(bytes[OFFSET_LSN + i]);
            i = i + 1;
            assert(b@ =~= bytes@.subrange(OFFSET_LSN as int, OFFSET_LSN + i));
        }
        u64_from_ne_bytes(b.as_slice())
    }

    /// Stores `lsn` in the page header in the machine's byte order; the rest
    /// of the page is untouched.
    pub fn set_lsn(&mut self, lsn: Lsn)
        requires
            old(self).wf(),
        ensures
            final(self).wf(),
            final(self)@.page_id == old(self)@.page_id,
            final(self)@.pin_count == old(self)@.pin_count,
            final(self)@.is_dirty == old(self)@.is_dirty,
            encodes_u64(final(self)@.data.subrange(OFFSET_LSN as int, OFFSET_LSN + 8), lsn),
            forall|j: int|
                0 <= j < BUSTUB_PAGE_SIZE && !(OFFSET_LSN <= j < OFFSET_LSN + 8) ==> (#[trigger] final(self)@.data[j]) == old(self)@.data[j],
    {
        let bytes = u64_to_ne_bytes(lsn);
        assert(bytes@.len() == 8) by {
            vstd::bytes::lemma_auto_spec_u64_to_from_le_bytes();
        }
        self.write_data(OFFSET_LSN, bytes.as_slice());
        assert(self@.data.subrange(OFFSET_LSN as int, OFFSET_LSN + 8) =~= bytes@);
    }
}

} // verus!
