use std::collections::HashMap;

use vstd::prelude::*;

use crate::config::{FrameId, PageId, BUSTUB_PAGE_SIZE};
use crate::disk_scheduler::{
    apply_requests, is_read_of, is_write_of, DiskRequest, DiskScheduler,
};
use crate::lru_k_replacer::{
    evictable_count, is_victim, lemma_count_push, lemma_count_remove, lemma_count_update,
    lemma_count_zero, push_access, tracks, LRUKReplacer, NodeView,
};
use crate::page_guard::{BasicPageGuard, ReadPageGuard, WritePageGuard};
use crate::page::{blank, copy_bytes, overwrite, zeroed, Page, PageView};

verus! {

broadcast use vstd::std_specs::hash::group_hash_axioms;

/// The buffer pool: a fixed array of frames that hold disk pages in memory.
///
/// Pages are found through the page table; frames come from the free list or,
/// when it is empty, from the LRU-K replacer, which only offers frames whose
/// pin count is zero. Disk work is not done here: every read or write the
/// pool needs is appended to its disk scheduler's queue, and the bytes of a
/// read come back through `complete_read`.
#[derive(Debug)]
pub struct BufferPoolManager {
    pool_size: usize,
    next_page_id: PageId,
    pages: Vec<Page>,
    disk_scheduler: DiskScheduler,
    page_table: HashMap<PageId, FrameId>,
    replacer: LRUKReplacer,
    free_list: Vec<FrameId>,
}

impl BufferPoolManager {
    pub closed spec fn pool(&self) -> nat {
        self.pool_size as nat
    }

    /// The frames, indexed by frame id.
    pub closed spec fn frames(&self) -> Seq<PageView> {
        self.pages@.map_values(|p: Page| p@)
    }

    /// Resident page id to frame id.
    pub closed spec fn table(&self) -> Map<PageId, FrameId> {
        self.page_table@
    }

    /// Free frames; the last one is handed out first.
    pub closed spec fn free(&self) -> Seq<FrameId> {
        self.free_list@
    }

    /// What the replacer tracks.
    pub closed spec fn nodes(&self) -> Seq<NodeView> {
        self.replacer.nodes()
    }

    pub closed spec fn lookback(&self) -> nat {
        self.replacer.lookback()
    }

    /// The replacer's next timestamp.
    pub closed spec fn clock(&self) -> u64 {
        self.replacer.clock()
    }

    /// Disk requests scheduled and not yet taken, oldest first.
    pub closed spec fn requests(&self) -> Seq<DiskRequest> {
        self.disk_scheduler.pending()
    }

    /// The id the next new page gets.
    pub closed spec fn next_id(&self) -> PageId {
        self.next_page_id
    }

    pub open spec fn resident(&self, p: PageId) -> bool {
        self.table().contains_key(p)
    }

    /// True when the replacer could offer a frame.
    pub open spec fn has_evictable(&self) -> bool {
        exists|i: int| 0 <= i < self.nodes().len() && (#[trigger] self.nodes()[i]).evictable
    }

    /// Frames that `new_page` or `fetch_page` could still take: the free ones
    /// and the resident ones with pin count zero.
    pub open spec fn available(&self) -> nat {
        self.free().len() + evictable_count(self.nodes())
    }

    /// The invariant, except that frame `hole` (when in range) is blank and
    /// belongs nowhere yet: not free, not in the table, not in the replacer.
    closed spec fn inv(&self, hole: int) -> bool {
        &&& self.pages@.len() == self.pool_size
        &&& forall|f: int| 0 <= f < self.pool_size ==> (#[trigger] self.pages@[f]).wf()
        &&& self.replacer.wf()
        &&& self.replacer.capacity() == self.pool_size
        &&& forall|i: int|
            0 <= i < self.free_list@.len() ==> {
                let f = #[trigger] self.free_list@[i];
                &&& f < self.pool_size
                &&& f != hole
                &&& self.pages@[f as int]@ == blank()
            }
        &&& forall|i: int, j: int|
            0 <= i < j < self.free_list@.len() ==> self.free_list@[i] != self.free_list@[j]
        &&& forall|p: PageId|
            #[trigger] self.page_table@.contains_key(p) ==> {
                let f = self.page_table@[p];
                &&& f < self.pool_size
                &&& f != hole
                &&& self.pages@[f as int]@.page_id == Some(p)
                &&& p < self.next_page_id
            }
        &&& forall|f: int|
            0 <= f < self.pool_size ==> match (#[trigger] self.pages@[f])@.page_id {
                Some(p) => self.page_table@.contains_key(p) && self.page_table@[p] == f
                    && tracks(self.replacer.nodes(), f as FrameId),
                None => f == hole || self.free_list@.contains(f as FrameId),
            }
        &&& 0 <= hole < self.pool_size ==> self.pages@[hole]@ == blank()
        &&& forall|i: int|
            0 <= i < self.replacer.nodes().len() ==> {
                let n = #[trigger] self.replacer.nodes()[i];
                &&& n.frame_id < self.pool_size
                &&& self.pages@[n.frame_id as int]@.page_id is Some
                &&& (n.evictable <==> self.pages@[n.frame_id as int]@.pin_count == 0)
            }
        &&& forall|i: int|
            0 <= i < self.disk_scheduler.pending().len() ==> match #[trigger] self.disk_scheduler.pending()[i] {
                DiskRequest::Write { data, .. } => data@.len() == BUSTUB_PAGE_SIZE,
                DiskRequest::Read { .. } => true,
            }
    }

    pub closed spec fn wf(&self) -> bool {
        self.inv(-1)
    }

    /// A pool of `pool_size` free frames whose replacer looks back `replacer_k`
    /// accesses.
    pub fn new(pool_size: usize, replacer_k: usize) -> (r: Self)
        requires
            replacer_k >= 1,
        ensures
            r.wf(),
            r.pool() == pool_size,
            r.lookback() == replacer_k,
            r.frames() == Seq::new(pool_size as nat, |f: int| blank()),
            r.free() == Seq::new(pool_size as nat, |i: int| (pool_size - 1 - i) as FrameId),
            r.table() == Map::<PageId, FrameId>::empty(),
            r.nodes() == Seq::<NodeView>::empty(),
            r.requests() == Seq::<DiskRequest>::empty(),
            r.next_id() == 0,
            r.clock() == 0,
            r.available() == pool_size,
    {
        let mut free_list: Vec<FrameId> = Vec::with_capacity(pool_size);
        let mut pages: Vec<Page> = Vec::with_capacity(pool_size);
        let mut i: usize = 0;
        while i < pool_size
            invariant
                i <= pool_size,
                free_list@ == Seq::new(i as nat, |j: int| (pool_size - 1 - j) as FrameId),
                pages@.len() == i,
                forall|f: int| 0 <= f < i ==> (#[trigger] pages@[f]).wf() && pages@[f]@ == blank(),
            decreases pool_size - i,
        {
            free_list.push(pool_size - 1 - i);
            pages.push(Page::new());
            i = i + 1;
            assert(free_list@ =~= Seq::new(i as nat, |j: int| (pool_size - 1 - j) as FrameId));
        }
        let r = BufferPoolManager {
            pool_size,
            next_page_id: 0,
            pages,
            disk_scheduler: DiskScheduler::new(),
            page_table: HashMap::new(),
            replacer: LRUKReplacer::new(pool_size, replacer_k),
            free_list,
        };
        proof {
            assert(r.frames() =~= Seq::new(pool_size as nat, |f: int| blank()));
            assert forall|f: int| 0 <= f < r.pool_size implies match (#[trigger] r.pages@[f])@.page_id {
                Some(p) => r.page_table@.contains_key(p) && r.page_table@[p] == f && tracks(
                    r.replacer.nodes(),
                    f as FrameId,
                ),
                None => f == -1 || r.free_list@.contains(f as FrameId),
            } by {
                let j = pool_size - 1 - f;
                assert(r.free_list@[j] == f);
            }
        }
        r
    }

    /// Takes a frame for a new resident page: the last free one, else the
    /// replacer's victim, whose page is written back first when dirty and
    /// dropped from the table. The frame comes back blank and unowned.
    fn acquire_frame(&mut self) -> (r: Option<FrameId>)
        requires
            old(self).wf(),
        ensures
            r is None ==> *final(self) == *old(self) && old(self).free().len() == 0
                && !old(self).has_evictable(),
            r matches Some(f) ==> {
                &&& final(self).inv(f as int)
                &&& f < old(self).pool()
                &&& frame_choice(*old(self), f)
                &&& final(self).pool() == old(self).pool()
                &&& final(self).next_id() == old(self).next_id()
                &&& final(self).clock() == old(self).clock()
                &&& final(self).lookback() == old(self).lookback()
                &&& final(self).frames() == old(self).frames().update(f as int, blank())
                &&& final(self).free() == release_free(*old(self))
                &&& final(self).table() == release_table(*old(self), f)
                &&& final(self).nodes() == release_nodes(*old(self), f)
                &&& wrote_back(*old(self), final(self).requests(), f)
            },
    {
        if self.free_list.len() > 0 {
            let f = match self.free_list.pop() {
                Some(f) => f,
                None => {
                    assert(false);
                    0
                },
            };
            proof {
                let fl = old(self).free_list@;
                assert(fl.contains(f));
                assert(self.frames() =~= old(self).frames().update(f as int, blank()));
                assert(old(self).frames()[f as int] == old(self).pages@[f as int]@);
                assert(fl[fl.len() - 1] == f);
                assert(self.free_list@ =~= fl.drop_last());
                assert(!tracks(old(self).nodes(), f)) by {
                    if tracks(old(self).nodes(), f) {
                        let i = choose|i: int| 0 <= i < old(self).nodes().len() && old(self).nodes()[i].frame_id == f;
                        assert(old(self).replacer.nodes()[i].frame_id == f);
                    }
                }
                assert forall|i: int| 0 <= i < self.free_list@.len() implies (#[trigger] self.free_list@[i]) != f by {
                    assert(fl[i] != fl[fl.len() - 1]);
                }
                assert forall|g: int| 0 <= g < self.pool_size implies match (#[trigger] self.pages@[g])@.page_id {
                    Some(p) => self.page_table@.contains_key(p) && self.page_table@[p] == g
                        && tracks(self.replacer.nodes(), g as FrameId),
                    None => g == f || self.free_list@.contains(g as FrameId),
                } by {
                    if self.pages@[g]@.page_id is None && g != f {
                        let i = choose|i: int| 0 <= i < fl.len() && fl[i] == g;
                        assert(self.free_list@[i] == g);
                    }
                }
            }
            return Some(f);
        }
        match self.replacer.evict() {
            None => None,
            Some(f) => {
                let ghost vi = choose|i: int|
                    is_victim(old(self).nodes(), old(self).lookback(), i)
                        && old(self).nodes()[i].frame_id == f && self.nodes() == old(
                        self,
                    ).nodes().remove(i);
                assert(old(self).replacer.nodes()[vi].frame_id == f);
                let ghost q = old(self).pages@[f as int]@.page_id.unwrap();
                let pid = match self.pages[f].get_page_id() {
                    Some(pid) => pid,
                    None => {
                        assert(false);
                        0
                    },
                };
                if self.pages[f].is_dirty() {
                    let data = copy_bytes(self.pages[f].get_data());
                    assert(data@.len() == BUSTUB_PAGE_SIZE) by {
                        assert(old(self).pages@[f as int].wf());
                    }
                    self.disk_scheduler.schedule(DiskRequest::Write { page_id: pid, data });
                    assert(self.requests().drop_last() =~= old(self).requests());
                }
                self.page_table.remove(&pid);
                self.pages[f].reset();
                proof {
                    assert(self.frames() =~= old(self).frames().update(f as int, blank()));
                    assert(old(self).frames()[f as int] == old(self).pages@[f as int]@);
                    assert(self.page_table@ =~= old(self).page_table@.remove(q));
                    assert forall|i: int|
                        0 <= i < self.replacer.nodes().len() implies {
                        let n = #[trigger] self.replacer.nodes()[i];
                        &&& n.frame_id < self.pool_size
                        &&& self.pages@[n.frame_id as int]@.page_id is Some
                        &&& (n.evictable <==> self.pages@[n.frame_id as int]@.pin_count == 0)
                    } by {
                        let io = if i < vi { i } else { i + 1 };
                        assert(self.replacer.nodes()[i] == old(self).replacer.nodes()[io]);
                        if old(self).replacer.nodes()[io].frame_id == f {
                            old(self).replacer.lemma_unique_frames(io, vi);
                        }
                    }
                    assert forall|g: int| 0 <= g < self.pool_size implies match (#[trigger] self.pages@[g])@.page_id {
                        Some(p) => self.page_table@.contains_key(p) && self.page_table@[p] == g
                            && tracks(self.replacer.nodes(), g as FrameId),
                        None => g == f || self.free_list@.contains(g as FrameId),
                    } by {
                        if g != f {
                            assert(self.pages@[g] == old(self).pages@[g]);
                            if let Some(p) = self.pages@[g]@.page_id {
                                let on = old(self).replacer.nodes();
                                let j = choose|j: int| 0 <= j < on.len() && on[j].frame_id == g;
                                assert(j != vi);
                                let jn = if j < vi { j } else { j - 1 };
                                assert(self.replacer.nodes()[jn] == on[j]);
                            }
                        }
                    }
                    assert forall|i: int|
                        0 <= i < self.disk_scheduler.pending().len() implies match #[trigger] self.disk_scheduler.pending()[i] {
                        DiskRequest::Write { data, .. } => data@.len() == BUSTUB_PAGE_SIZE,
                        DiskRequest::Read { .. } => true,
                    } by {
                        if i < old(self).disk_scheduler.pending().len() {
                            assert(self.disk_scheduler.pending()[i] == old(self).disk_scheduler.pending()[i]);
                        }
                    }
                    assert(old(self).frames()[f as int] == old(self).pages@[f as int]@);
                    old(self).replacer.lemma_unique_frames(vi, vi);
                    assert forall|i: int| 0 <= i < old(self).nodes().len() && old(self).nodes()[i].frame_id == f implies i == vi by {
                        old(self).replacer.lemma_unique_frames(i, vi);
                    }
                    assert(release_nodes(*old(self), f) == self.nodes());
                }
                Some(f)
            },
        }
    }
    /// Hands out a fresh page id.
    fn allocate_page(&mut self, Ghost(hole): Ghost<int>) -> (r: PageId)
        requires
            old(self).inv(hole),
            old(self).next_id() < u32::MAX,
        ensures
            final(self).inv(hole),
            r == old(self).next_id(),
            final(self).next_id() == old(self).next_id() + 1,
            final(self).pool() == old(self).pool(),
            final(self).clock() == old(self).clock(),
            final(self).lookback() == old(self).lookback(),
            final(self).frames() == old(self).frames(),
            final(self).free() == old(self).free(),
            final(self).table() == old(self).table(),
            final(self).nodes() == old(self).nodes(),
            final(self).requests() == old(self).requests(),
    {
        let r = self.next_page_id;
        self.next_page_id = r + 1;
        r
    }

    /// Puts page `p` into the blank frame `f`, pinned once, with one recorded
    /// access and not evictable.
    fn install(&mut self, f: FrameId, p: PageId)
        requires
            old(self).inv(f as int),
            f < old(self).pool(),
            !old(self).table().contains_key(p),
            p < old(self).next_id(),
            old(self).clock() < u64::MAX,
        ensures
            final(self).wf(),
            final(self).frames() == old(self).frames().update(f as int, pinned_once(p)),
            final(self).table() == old(self).table().insert(p, f),
            final(self).nodes() == old(self).nodes().push(
                NodeView { frame_id: f, history: seq![old(self).clock()], evictable: false },
            ),
            final(self).clock() == old(self).clock() + 1,
            final(self).pool() == old(self).pool(),
            final(self).lookback() == old(self).lookback(),
            final(self).next_id() == old(self).next_id(),
            final(self).free() == old(self).free(),
            final(self).requests() == old(self).requests(),
    {
        proof {
            assert(old(self).pages@[f as int]@ == blank());
            assert(!tracks(old(self).nodes(), f)) by {
                if tracks(old(self).nodes(), f) {
                    let i = choose|i: int| 0 <= i < old(self).nodes().len() && old(self).nodes()[i].frame_id == f;
                    assert(old(self).replacer.nodes()[i].frame_id == f);
                }
            }
        }
        self.pages[f].set_page_id(p);
        self.pages[f].pin();
        self.page_table.insert(p, f);
        let ghost mid = self.replacer.nodes();
        self.replacer.record_access(f);
        assert(self.replacer.nodes()[mid.len() as int].frame_id == f);
        self.replacer.set_evictable(f, false);
        proof {
            let n = mid.len() as int;
            let nv = NodeView { frame_id: f, history: seq![old(self).clock()], evictable: false };
            assert(self.nodes() =~= mid.push(nv));
            assert(self.frames() =~= old(self).frames().update(f as int, pinned_once(p)));
            assert forall|g: int| 0 <= g < self.pool_size implies (#[trigger] self.pages@[g]).wf() by {
                if g != f {
                    assert(self.pages@[g] == old(self).pages@[g]);
                }
            }
            assert forall|i: int|
                0 <= i < self.free_list@.len() implies {
                let g = #[trigger] self.free_list@[i];
                &&& g < self.pool_size
                &&& g != -1
                &&& self.pages@[g as int]@ == blank()
            } by {
                let g = self.free_list@[i];
                assert(self.pages@[g as int] == old(self).pages@[g as int]);
            }
            assert forall|q: PageId| #[trigger] self.page_table@.contains_key(q) implies {
                let g = self.page_table@[q];
                &&& g < self.pool_size
                &&& g != -1
                &&& self.pages@[g as int]@.page_id == Some(q)
                &&& q < self.next_page_id
            } by {
                if q != p {
                    let g = old(self).page_table@[q];
                    assert(self.pages@[g as int] == old(self).pages@[g as int]);
                }
            }
            assert forall|g: int| 0 <= g < self.pool_size implies match (#[trigger] self.pages@[g])@.page_id {
                Some(q) => self.page_table@.contains_key(q) && self.page_table@[q] == g && tracks(
                    self.replacer.nodes(),
                    g as FrameId,
                ),
                None => g == -1 || self.free_list@.contains(g as FrameId),
            } by {
                if g != f {
                    assert(self.pages@[g] == old(self).pages@[g]);
                    if let Some(q) = self.pages@[g]@.page_id {
                        let j = choose|j: int| 0 <= j < mid.len() && mid[j].frame_id == g;
                        assert(self.replacer.nodes()[j] == mid[j]);
                    }
                } else {
                    assert(self.replacer.nodes()[n].frame_id == f);
                }
            }
            assert forall|i: int|
                0 <= i < self.replacer.nodes().len() implies {
                let nd = #[trigger] self.replacer.nodes()[i];
                &&& nd.frame_id < self.pool_size
                &&& self.pages@[nd.frame_id as int]@.page_id is Some
                &&& (nd.evictable <==> self.pages@[nd.frame_id as int]@.pin_count == 0)
            } by {
                if i < n {
                    assert(self.replacer.nodes()[i] == old(self).replacer.nodes()[i]);
                    let g = mid[i].frame_id;
                    assert(g != f);
                    assert(self.pages@[g as int] == old(self).pages@[g as int]);
                }
            }
        }
    }

    /// Creates a page with a fresh id in a free frame, or else in the frame
    /// the replacer evicts, writing the evicted page back first when it is
    /// dirty. The page comes zeroed and pinned once. `None` when every frame
    /// is pinned; the pool is then unchanged.
    pub fn new_page(&mut self) -> (r: Option<PageId>)
        requires
            old(self).wf(),
            old(self).next_id() < u32::MAX,
            old(self).clock() < u64::MAX,
        ensures
            final(self).wf(),
            new_page_done(*old(self), *final(self), r),

    {
        let f = match self.acquire_frame() {
            Some(f) => f,
            None => {
                return None;
            },
        };
        let ghost taken = *self;
        let p = self.allocate_page(Ghost(f as int));
        assert(!self.table().contains_key(p));
        self.install(f, p);
        proof {
            assert(self.requests() == taken.requests());
            assert(self.frames() =~= old(self).frames().update(f as int, pinned_once(p)));
            let pv = old(self).frames()[f as int];
            let n = old(self).requests().len() + if pv.is_dirty && pv.page_id is Some { 1int } else { 0int };
            assert(self.requests().len() == n);
            assert(self.requests().subrange(0, n) =~= self.requests());
            assert(took_frame_for(*old(self), *self, f, p));
        }
        Some(p)
    }
    /// The frame that holds page `page_id`, if it is resident.
    pub fn lookup(&self, page_id: PageId) -> (r: Option<FrameId>)
        requires
            self.wf(),
        ensures
            r is None <==> !self.resident(page_id),
            r matches Some(f) ==> f == self.table()[page_id] && f < self.pool()
                && self.frames()[f as int].page_id == Some(page_id),
    {
        match self.page_table.get(&page_id) {
            Some(f) => Some(*f),
            None => None,
        }
    }

    /// Position in the replacer of resident frame `f`.
    proof fn lemma_tracked(&self, f: FrameId) -> (i: int)
        requires
            self.wf(),
            f < self.pool(),
            self.frames()[f as int].page_id is Some,
        ensures
            0 <= i < self.nodes().len(),
            self.nodes()[i].frame_id == f,
            forall|j: int| 0 <= j < self.nodes().len() && (#[trigger] self.nodes()[j]).frame_id == f ==> j == i,
    {
        assert(self.pages@[f as int]@.page_id is Some);
        let i = choose|i: int| 0 <= i < self.nodes().len() && self.nodes()[i].frame_id == f;
        assert forall|j: int| 0 <= j < self.nodes().len() && (#[trigger] self.nodes()[j]).frame_id == f implies j == i by {
            self.replacer.lemma_unique_frames(i, j);
        }
        i
    }

    /// Pins page `page_id` and returns its frame. A resident page gets one more
    /// pin and an access. Otherwise a frame is taken as `new_page` takes one,
    /// the page is installed there pinned once, and a read of it from disk is
    /// queued; its bytes arrive through `complete_read`. `None` when the page
    /// is not resident and every frame is pinned; the pool is then unchanged.
    pub fn fetch_page(&mut self, page_id: PageId) -> (r: Option<FrameId>)
        requires
            old(self).wf(),
            page_id < old(self).next_id(),
            old(self).clock() < u64::MAX,
            old(self).resident(page_id) ==> old(self).frames()[old(self).table()[page_id] as int].pin_count
                < u32::MAX,
        ensures
            final(self).wf(),
            fetch_page_done(*old(self), *final(self), page_id, r),

    {
        if let Some(f) = self.lookup(page_id) {
            let ghost i = self.lemma_tracked(f);
            let ghost pv = old(self).frames()[f as int];
            assert(old(self).pages@[f as int]@ == pv);
            self.pages[f].pin();
            self.replacer.record_access(f);
            let ghost mid = self.replacer.nodes();
            assert(mid[i].frame_id == f);
            self.replacer.set_evictable(f, false);
            proof {
                let nv = NodeView {
                    frame_id: f,
                    history: push_access(old(self).nodes()[i].history, old(self).clock(), old(self).lookback()),
                    evictable: false,
                };
                assert(self.nodes() =~= old(self).nodes().update(i, nv));
                assert(self.frames() =~= old(self).frames().update(
                    f as int,
                    PageView { pin_count: (pv.pin_count + 1) as u32, ..pv },
                ));
                assert forall|g: int| 0 <= g < self.pool_size implies (#[trigger] self.pages@[g]).wf() by {
                    if g != f {
                        assert(self.pages@[g] == old(self).pages@[g]);
                    }
                }
                assert forall|j: int|
                    0 <= j < self.free_list@.len() implies {
                    let g = #[trigger] self.free_list@[j];
                    &&& g < self.pool_size
                    &&& g != -1
                    &&& self.pages@[g as int]@ == blank()
                } by {
                    let g = self.free_list@[j];
                    assert(old(self).pages@[g as int]@ == blank());
                    assert(self.pages@[g as int] == old(self).pages@[g as int]);
                }
                assert forall|q: PageId| #[trigger] self.page_table@.contains_key(q) implies {
                    let g = self.page_table@[q];
                    &&& g < self.pool_size
                    &&& g != -1
                    &&& self.pages@[g as int]@.page_id == Some(q)
                    &&& q < self.next_page_id
                } by {
                    let g = old(self).page_table@[q];
                    assert(old(self).pages@[g as int]@.page_id == Some(q));
                    if g != f {
                        assert(self.pages@[g as int] == old(self).pages@[g as int]);
                    }
                }
                assert forall|g: int| 0 <= g < self.pool_size implies match (#[trigger] self.pages@[g])@.page_id {
                    Some(q) => self.page_table@.contains_key(q) && self.page_table@[q] == g && tracks(
                        self.replacer.nodes(),
                        g as FrameId,
                    ),
                    None => g == -1 || self.free_list@.contains(g as FrameId),
                } by {
                    assert(old(self).pages@[g]@.page_id == self.pages@[g]@.page_id);
                    if let Some(q) = self.pages@[g]@.page_id {
                        let on = old(self).nodes();
                        assert(tracks(on, g as FrameId));
                        let j = choose|j: int| 0 <= j < on.len() && on[j].frame_id == g;
                        assert(self.replacer.nodes()[j].frame_id == g);
                    }
                }
                assert forall|j: int|
                    0 <= j < self.replacer.nodes().len() implies {
                    let nd = #[trigger] self.replacer.nodes()[j];
                    &&& nd.frame_id < self.pool_size
                    &&& self.pages@[nd.frame_id as int]@.page_id is Some
                    &&& (nd.evictable <==> self.pages@[nd.frame_id as int]@.pin_count == 0)
                } by {
                    let on = old(self).replacer.nodes();
                    assert(on[j] == old(self).replacer.nodes()[j]);
                    if j != i {
                        assert(self.replacer.nodes()[j] == on[j]);
                        assert(on[j].frame_id != f);
                        assert(self.pages@[on[j].frame_id as int] == old(self).pages@[on[j].frame_id as int]);
                    }
                }
            }
            return Some(f);
        }
        let f = match self.acquire_frame() {
            Some(f) => f,
            None => {
                return None;
            },
        };
        assert(!self.table().contains_key(page_id));
        self.install(f, page_id);
        let ghost before = self.requests();
        self.disk_scheduler.schedule(DiskRequest::Read { page_id, frame_id: f });
        proof {
            assert(self.requests().drop_last() =~= before);
            let pv = old(self).frames()[f as int];
            let n = old(self).requests().len() + if pv.is_dirty && pv.page_id is Some { 1int } else { 0int };
            assert(self.requests().subrange(0, n) =~= self.requests().drop_last());
            assert(self.frames() =~= old(self).frames().update(f as int, pinned_once(page_id)));
            assert(took_frame_for(*old(self), *self, f, page_id));
            assert forall|i: int|
                0 <= i < self.disk_scheduler.pending().len() implies match #[trigger] self.disk_scheduler.pending()[i] {
                DiskRequest::Write { data, .. } => data@.len() == BUSTUB_PAGE_SIZE,
                DiskRequest::Read { .. } => true,
            } by {
                if i < self.disk_scheduler.pending().len() - 1 {
                    assert(self.disk_scheduler.pending()[i] == self.disk_scheduler.pending().drop_last()[i]);
                }
            }
        }
        Some(f)
    }
    /// The invariant survives a change confined to resident frame `f`, to the
    /// evictable flags that follow its pin count, and to whole-page writes
    /// queued on the disk.
    proof fn lemma_resident_update(old: Self, new: Self, f: FrameId)
        requires
            old.wf(),
            f < old.pool_size,
            old.pages@[f as int]@.page_id is Some,
            new.pool_size == old.pool_size,
            new.next_page_id == old.next_page_id,
            new.free_list@ == old.free_list@,
            new.page_table@ == old.page_table@,
            new.replacer.wf(),
            new.replacer.capacity() == old.replacer.capacity(),
            new.pages@.len() == old.pages@.len(),
            forall|g: int| 0 <= g < old.pool_size && g != f ==> new.pages@[g] == old.pages@[g],
            new.pages@[f as int].wf(),
            new.pages@[f as int]@.page_id == old.pages@[f as int]@.page_id,
            new.replacer.nodes().len() == old.replacer.nodes().len(),
            forall|i: int|
                0 <= i < old.replacer.nodes().len() ==> (#[trigger] new.replacer.nodes()[i]).frame_id
                    == old.replacer.nodes()[i].frame_id,
            forall|i: int|
                0 <= i < new.replacer.nodes().len() ==> ((#[trigger] new.replacer.nodes()[i]).evictable
                    <==> new.pages@[new.replacer.nodes()[i].frame_id as int]@.pin_count == 0),
            forall|i: int|
                0 <= i < new.disk_scheduler.pending().len() ==> match #[trigger] new.disk_scheduler.pending()[i] {
                    DiskRequest::Write { data, .. } => data@.len() == BUSTUB_PAGE_SIZE,
                    DiskRequest::Read { .. } => true,
                },
        ensures
            new.wf(),
    {
        assert forall|g: int| 0 <= g < new.pool_size implies (#[trigger] new.pages@[g]).wf() by {
            if g != f {
                assert(old.pages@[g].wf());
            }
        }
        assert forall|j: int| 0 <= j < new.free_list@.len() implies {
            let g = #[trigger] new.free_list@[j];
            &&& g < new.pool_size
            &&& g != -1
            &&& new.pages@[g as int]@ == blank()
        } by {
            let g = old.free_list@[j];
            assert(old.pages@[g as int]@ == blank());
        }
        assert forall|q: PageId| #[trigger] new.page_table@.contains_key(q) implies {
            let g = new.page_table@[q];
            &&& g < new.pool_size
            &&& g != -1
            &&& new.pages@[g as int]@.page_id == Some(q)
            &&& q < new.next_page_id
        } by {
            assert(old.page_table@.contains_key(q));
        }
        assert forall|g: int| 0 <= g < new.pool_size implies match (#[trigger] new.pages@[g])@.page_id {
            Some(q) => new.page_table@.contains_key(q) && new.page_table@[q] == g && tracks(
                new.replacer.nodes(),
                g as FrameId,
            ),
            None => g == -1 || new.free_list@.contains(g as FrameId),
        } by {
            assert(old.pages@[g]@.page_id == new.pages@[g]@.page_id);
            if let Some(q) = new.pages@[g]@.page_id {
                let on = old.replacer.nodes();
                assert(tracks(on, g as FrameId));
                let j = choose|j: int| 0 <= j < on.len() && on[j].frame_id == g;
                assert(new.replacer.nodes()[j].frame_id == g);
            }
        }
        assert forall|i: int| 0 <= i < new.replacer.nodes().len() implies {
            let nd = #[trigger] new.replacer.nodes()[i];
            &&& nd.frame_id < new.pool_size
            &&& new.pages@[nd.frame_id as int]@.page_id is Some
            &&& (nd.evictable <==> new.pages@[nd.frame_id as int]@.pin_count == 0)
        } by {
            let g = old.replacer.nodes()[i].frame_id;
            assert(new.replacer.nodes()[i].frame_id == g);
            assert(old.pages@[g as int]@.page_id == new.pages@[g as int]@.page_id);
        }
    }

    /// Drops one pin of page `page_id`, marking it dirty when `is_dirty` (the
    /// flag is never cleared here). When the count reaches zero the frame
    /// becomes evictable. `false`, with nothing changed, when the page is not
    /// resident or not pinned.
    pub fn unpin_page(&mut self, page_id: PageId, is_dirty: bool) -> (r: bool)
        requires
            old(self).wf(),
        ensures
            final(self).wf(),
            unpin_page_done(*old(self), *final(self), page_id, is_dirty, r),

    {
        let f = match self.lookup(page_id) {
            Some(f) => f,
            None => {
                return false;
            },
        };
        if self.pages[f].get_pin_count() == 0 {
            return false;
        }
        let ghost i = self.lemma_tracked(f);
        let ghost pv = old(self).frames()[f as int];
        assert(old(self).pages@[f as int]@ == pv);
        if is_dirty {
            self.pages[f].set_dirty(true);
        }
        self.pages[f].unpin();
        if self.pages[f].get_pin_count() == 0 {
            self.replacer.set_evictable(f, true);
        }
        proof {
            assert(self.frames() =~= old(self).frames().update(
                f as int,
                PageView { pin_count: (pv.pin_count - 1) as u32, is_dirty: pv.is_dirty || is_dirty, ..pv },
            ));
            Self::lemma_resident_update(*old(self), *self, f);
        }
        true
    }

    /// Queues a write of page `page_id`'s bytes, dirty or not, and clears its
    /// dirty flag; the pin count is untouched. `false`, with nothing changed,
    /// when the page is not resident.
    pub fn flush_page(&mut self, page_id: PageId) -> (r: bool)
        requires
            old(self).wf(),
        ensures
            final(self).wf(),
            flush_page_done(*old(self), *final(self), page_id, r),
    {
        let f = match self.lookup(page_id) {
            Some(f) => f,
            None => {
                return false;
            },
        };
        self.write_back(f);
        true
    }

    /// Queues a write of the page in resident frame `f` and clears its dirty flag.
    fn write_back(&mut self, f: FrameId)
        requires
            old(self).wf(),
            f < old(self).pool(),
            old(self).frames()[f as int].page_id is Some,
        ensures
            final(self).wf(),
            final(self).frames() == old(self).frames().update(
                f as int,
                PageView { is_dirty: false, ..old(self).frames()[f as int] },
            ),
            final(self).nodes() == old(self).nodes(),
            final(self).requests().len() == old(self).requests().len() + 1,
            final(self).requests().drop_last() == old(self).requests(),
            is_write_of(
                final(self).requests().last(),
                old(self).frames()[f as int].page_id.unwrap(),
                old(self).frames()[f as int].data,
            ),
            same_except_frames_nodes(*old(self), *final(self)),
    {
        let ghost pv = old(self).frames()[f as int];
        assert(old(self).pages@[f as int]@ == pv);
        assert(old(self).pages@[f as int].wf());
        let page_id = match self.pages[f].get_page_id() {
            Some(p) => p,
            None => {
                assert(false);
                0
            },
        };
        let data = copy_bytes(self.pages[f].get_data());
        self.disk_scheduler.schedule(DiskRequest::Write { page_id, data });
        self.pages[f].set_dirty(false);
        proof {
            assert(self.requests().drop_last() =~= old(self).requests());
            assert(self.frames() =~= old(self).frames().update(f as int, PageView { is_dirty: false, ..pv }));
            assert forall|i: int|
                0 <= i < self.disk_scheduler.pending().len() implies match #[trigger] self.disk_scheduler.pending()[i] {
                DiskRequest::Write { data, .. } => data@.len() == BUSTUB_PAGE_SIZE,
                DiskRequest::Read { .. } => true,
            } by {
                if i < old(self).disk_scheduler.pending().len() {
                    assert(self.disk_scheduler.pending()[i] == old(self).disk_scheduler.pending()[i]);
                }
            }
            Self::lemma_resident_update(*old(self), *self, f);
        }
    }

    /// Stores the bytes a disk read brought for page `page_id` in frame
    /// `frame_id`. `false`, with nothing changed, when that frame no longer
    /// holds that page or `data` is not one page long.
    pub fn complete_read(&mut self, frame_id: FrameId, page_id: PageId, data: &[u8]) -> (r: bool)
        requires
            old(self).wf(),
        ensures
            final(self).wf(),
            r == (frame_id < old(self).pool() && old(self).frames()[frame_id as int].page_id == Some(page_id)
                && data@.len() == BUSTUB_PAGE_SIZE),
            !r ==> *final(self) == *old(self),
            r ==> final(self).frames() == old(self).frames().update(
                frame_id as int,
                PageView { data: data@, ..old(self).frames()[frame_id as int] },
            ),
            r ==> final(self).nodes() == old(self).nodes(),
            r ==> final(self).requests() == old(self).requests(),
            r ==> same_except_frames_nodes(*old(self), *final(self)),
    {
        if frame_id >= self.pages.len() || data.len() != BUSTUB_PAGE_SIZE {
            return false;
        }
        match self.pages[frame_id].get_page_id() {
            Some(p) => {
                if p != page_id {
                    return false;
                }
            },
            None => {
                return false;
            },
        }
        let ghost pv = old(self).frames()[frame_id as int];
        assert(old(self).pages@[frame_id as int]@ == pv);
        self.pages[frame_id].set_data(data);
        proof {
            assert(self.frames() =~= old(self).frames().update(frame_id as int, PageView { data: data@, ..pv }));
            Self::lemma_resident_update(*old(self), *self, frame_id);
        }
        true
    }
    /// Removes unpinned page `page_id` from the pool: its frame leaves the
    /// table and the replacer, is zeroed and goes back on the free list; its
    /// bytes are dropped, dirty or not. `true` when the page was not resident
    /// to begin with; `false` when it is pinned. In both cases nothing changes.
    pub fn delete_page(&mut self, page_id: PageId) -> (r: bool)
        requires
            old(self).wf(),
        ensures
            final(self).wf(),
            delete_page_done(*old(self), *final(self), page_id, r),

    {
        let f = match self.lookup(page_id) {
            Some(f) => f,
            None => {
                return true;
            },
        };
        if self.pages[f].get_pin_count() > 0 {
            return false;
        }
        let ghost i = self.lemma_tracked(f);
        assert(old(self).replacer.nodes()[i].frame_id == f);
        self.page_table.remove(&page_id);
        self.replacer.remove(f);
        self.free_list.push(f);
        self.pages[f].reset();
        self.deallocate_page(page_id);
        proof {
            let on = old(self).replacer.nodes();
            assert(self.frames() =~= old(self).frames().update(f as int, blank()));
            assert(self.page_table@ =~= old(self).page_table@.remove(page_id));
            assert forall|g: int| 0 <= g < self.pool_size implies (#[trigger] self.pages@[g]).wf() by {
                if g != f {
                    assert(self.pages@[g] == old(self).pages@[g]);
                }
            }
            assert forall|j: int| 0 <= j < self.free_list@.len() implies {
                let g = #[trigger] self.free_list@[j];
                &&& g < self.pool_size
                &&& g != -1
                &&& self.pages@[g as int]@ == blank()
            } by {
                if j < old(self).free_list@.len() {
                    let g = old(self).free_list@[j];
                    assert(self.free_list@[j] == g);
                    assert(old(self).pages@[g as int]@ == blank());
                    assert(g != f);
                    assert(self.pages@[g as int] == old(self).pages@[g as int]);
                }
            }
            assert forall|a: int, b: int| 0 <= a < b < self.free_list@.len() implies self.free_list@[a] != self.free_list@[b] by {
                if b == old(self).free_list@.len() {
                    let g = old(self).free_list@[a];
                    assert(old(self).pages@[g as int]@ == blank());
                }
            }
            assert forall|q: PageId| #[trigger] self.page_table@.contains_key(q) implies {
                let g = self.page_table@[q];
                &&& g < self.pool_size
                &&& g != -1
                &&& self.pages@[g as int]@.page_id == Some(q)
                &&& q < self.next_page_id
            } by {
                let g = old(self).page_table@[q];
                assert(old(self).pages@[g as int]@.page_id == Some(q));
                assert(g != f);
                assert(self.pages@[g as int] == old(self).pages@[g as int]);
            }
            assert forall|g: int| 0 <= g < self.pool_size implies match (#[trigger] self.pages@[g])@.page_id {
                Some(q) => self.page_table@.contains_key(q) && self.page_table@[q] == g && tracks(
                    self.replacer.nodes(),
                    g as FrameId,
                ),
                None => g == -1 || self.free_list@.contains(g as FrameId),
            } by {
                if g == f {
                    assert(self.free_list@[self.free_list@.len() - 1] == f);
                } else {
                    assert(self.pages@[g] == old(self).pages@[g]);
                    match self.pages@[g]@.page_id {
                        Some(q) => {
                            assert(tracks(on, g as FrameId));
                            let j = choose|j: int| 0 <= j < on.len() && on[j].frame_id == g;
                            assert(j != i);
                            let jn = if j < i { j } else { j - 1 };
                            assert(self.replacer.nodes()[jn] == on[j]);
                        },
                        None => {
                            let j = choose|j: int| 0 <= j < old(self).free_list@.len() && old(self).free_list@[j] == g;
                            assert(self.free_list@[j] == g);
                        },
                    }
                }
            }
            assert forall|j: int| 0 <= j < self.replacer.nodes().len() implies {
                let nd = #[trigger] self.replacer.nodes()[j];
                &&& nd.frame_id < self.pool_size
                &&& self.pages@[nd.frame_id as int]@.page_id is Some
                &&& (nd.evictable <==> self.pages@[nd.frame_id as int]@.pin_count == 0)
            } by {
                let jo = if j < i { j } else { j + 1 };
                assert(self.replacer.nodes()[j] == on[jo]);
                assert(old(self).replacer.nodes()[jo] == on[jo]);
                if on[jo].frame_id == f {
                    old(self).replacer.lemma_unique_frames(jo, i);
                }
                assert(self.pages@[on[jo].frame_id as int] == old(self).pages@[on[jo].frame_id as int]);
            }
            assert(tracks(old(self).nodes(), f));
            assert(release_nodes(*old(self), f) == self.nodes());
        }
        true
    }

    /// Gives page `page_id` back on disk. Ids are never reused, so there is
    /// nothing to do.
    fn deallocate_page(&self, page_id: PageId) {
    }

    /// Queues a write of every dirty page, in frame order, and marks them clean.
    pub fn flush_all_pages(&mut self)
        requires
            old(self).wf(),
        ensures
            final(self).wf(),
            final(self).frames() == old(self).frames().map_values(|pv: PageView| PageView { is_dirty: false, ..pv }),
            final(self).nodes() == old(self).nodes(),
            final(self).requests().subrange(0, old(self).requests().len() as int) == old(self).requests(),
            final(self).requests().len() == old(self).requests().len() + dirty_frames(old(self).frames(), old(self).pool() as int).len(),
            forall|j: int| 0 <= j < dirty_frames(old(self).frames(), old(self).pool() as int).len() ==> {
                let g = #[trigger] dirty_frames(old(self).frames(), old(self).pool() as int)[j];
                is_write_of(
                    final(self).requests()[old(self).requests().len() + j],
                    old(self).frames()[g].page_id.unwrap(),
                    old(self).frames()[g].data,
                )
            },
            same_except_frames_nodes(*old(self), *final(self)),
    {
        let ghost of = old(self).frames();
        let ghost n0 = old(self).requests().len();
        let n = self.pages.len();
        let mut i: usize = 0;
        while i < n
            invariant
                self.wf(),
                n == self.pool_size,
                n == of.len(),
                i <= n,
                same_except_frames_nodes(*old(self), *self),
                self.nodes() == old(self).nodes(),
                self.frames().len() == of.len(),
                forall|g: int| 0 <= g < n ==> #[trigger] self.frames()[g] == if g < i {
                    PageView { is_dirty: false, ..of[g] }
                } else {
                    of[g]
                },
                self.requests().subrange(0, n0 as int) == old(self).requests(),
                self.requests().len() == n0 + dirty_frames(of, i as int).len(),
                forall|j: int| 0 <= j < dirty_frames(of, i as int).len() ==> {
                    let g = #[trigger] dirty_frames(of, i as int)[j];
                    is_write_of(self.requests()[n0 + j], of[g].page_id.unwrap(), of[g].data)
                },
            decreases n - i,
        {
            proof {
                lemma_dirty_frames_bounded(of, i as int);
            }
            if self.pages[i].is_dirty() {
                assert(self.frames()[i as int] == self.pages@[i as int]@);
                proof {
                    if self.pages@[i as int]@.page_id is None {
                        let j = choose|j: int| 0 <= j < self.free_list@.len() && self.free_list@[j] == i;
                        assert(self.pages@[self.free_list@[j] as int]@ == blank());
                    }
                }
                let ghost before = *self;
                self.write_back(i);
                proof {
                    let d = dirty_frames(of, i as int);
                    assert(dirty_frames(of, i as int + 1) == d.push(i as int));
                    assert(self.requests().subrange(0, n0 as int) =~= before.requests().subrange(0, n0 as int));
                    assert forall|j: int| 0 <= j < dirty_frames(of, i as int + 1).len() implies {
                        let g = #[trigger] dirty_frames(of, i as int + 1)[j];
                        is_write_of(self.requests()[n0 + j], of[g].page_id.unwrap(), of[g].data)
                    } by {
                        if j < d.len() {
                            assert(self.requests()[n0 + j] == before.requests()[n0 + j]);
                            assert(dirty_frames(of, i as int + 1)[j] == d[j]);
                        }
                    }
                    assert forall|g: int| 0 <= g < n implies #[trigger] self.frames()[g] == if g < i + 1 {
                        PageView { is_dirty: false, ..of[g] }
                    } else {
                        of[g]
                    } by {
                        assert(before.frames()[g] == if g < i { PageView { is_dirty: false, ..of[g] } } else { of[g] });
                    }
                }
            } else {
                proof {
                    assert(self.frames()[i as int] == self.pages@[i as int]@);
                    assert(dirty_frames(of, i as int + 1) == dirty_frames(of, i as int));
                    assert forall|g: int| 0 <= g < n implies #[trigger] self.frames()[g] == if g < i + 1 {
                        PageView { is_dirty: false, ..of[g] }
                    } else {
                        of[g]
                    } by {
                        if g == i {
                            assert(self.frames()[g] == of[g]);
                            assert(!of[g].is_dirty);
                            assert(PageView { is_dirty: false, ..of[g] } == of[g]);
                        }
                    }
                }
            }
            i = i + 1;
        }
        assert(self.frames() =~= of.map_values(|pv: PageView| PageView { is_dirty: false, ..pv }));
    }
    /// Number of frames.
    pub fn get_pool_size(&self) -> (r: usize)
        ensures
            r == self.pool(),
    {
        self.pool_size
    }

    /// The frames, indexed by frame id.
    pub fn get_pages(&self) -> (r: &Vec<Page>)
        requires
            self.wf(),
        ensures
            r@.len() == self.pool(),
            forall|f: int| 0 <= f < r@.len() ==> (#[trigger] r@[f])@ == self.frames()[f],
    {
        &self.pages
    }

    /// The id the next new page gets.
    pub fn next_page_id(&self) -> (r: PageId)
        ensures
            r == self.next_id(),
    {
        self.next_page_id
    }

    /// The replacer's next timestamp.
    pub fn replacer_clock(&self) -> (r: u64)
        ensures
            r == self.clock(),
    {
        self.replacer.current_timestamp()
    }

    /// Takes the oldest disk request not yet carried out.
    pub fn next_request(&mut self) -> (r: Option<DiskRequest>)
        requires
            old(self).wf(),
        ensures
            final(self).wf(),
            final(self).frames() == old(self).frames(),
            final(self).nodes() == old(self).nodes(),
            same_except_frames_nodes(*old(self), *final(self)),
            old(self).requests().len() == 0 ==> r is None && final(self).requests() == old(self).requests(),
            old(self).requests().len() > 0 ==> r == Some(old(self).requests()[0])
                && final(self).requests() == old(self).requests().drop_first(),
            r matches Some(DiskRequest::Write { data, .. }) ==> data@.len() == BUSTUB_PAGE_SIZE,
    {
        let r = self.disk_scheduler.next_request();
        proof {
            assert forall|i: int|
                0 <= i < self.disk_scheduler.pending().len() implies match #[trigger] self.disk_scheduler.pending()[i] {
                DiskRequest::Write { data, .. } => data@.len() == BUSTUB_PAGE_SIZE,
                DiskRequest::Read { .. } => true,
            } by {
                assert(self.disk_scheduler.pending()[i] == old(self).disk_scheduler.pending()[i + 1]);
            }
            if old(self).requests().len() > 0 {
                assert(old(self).disk_scheduler.pending()[0] == old(self).requests()[0]);
            }
        }
        r
    }

    /// Writes `bytes` into resident page `page_id` from byte `offset` on. The
    /// dirty flag is left alone: whoever writes says so when unpinning.
    /// `false`, with nothing changed, when the page is not resident.
    pub fn write_page_data(&mut self, page_id: PageId, offset: usize, bytes: &[u8]) -> (r: bool)
        requires
            old(self).wf(),
            offset + bytes@.len() <= BUSTUB_PAGE_SIZE,
        ensures
            final(self).wf(),
            r == old(self).resident(page_id),
            !r ==> *final(self) == *old(self),
            r ==> {
                let f = old(self).table()[page_id];
                let pv = old(self).frames()[f as int];
                &&& final(self).frames() == old(self).frames().update(
                    f as int,
                    PageView { data: overwrite(pv.data, offset as int, bytes@), ..pv },
                )
                &&& final(self).nodes() == old(self).nodes()
                &&& final(self).requests() == old(self).requests()
                &&& same_except_frames_nodes(*old(self), *final(self))
            },
    {
        let f = match self.lookup(page_id) {
            Some(f) => f,
            None => {
                return false;
            },
        };
        let ghost pv = old(self).frames()[f as int];
        assert(old(self).pages@[f as int]@ == pv);
        assert(old(self).pages@[f as int].wf());
        self.pages[f].write_data(offset, bytes);
        proof {
            assert(self.frames() =~= old(self).frames().update(
                f as int,
                PageView { data: overwrite(pv.data, offset as int, bytes@), ..pv },
            ));
            Self::lemma_resident_update(*old(self), *self, f);
        }
        true
    }
    /// `new_page`, handing the new page out in a guard; its id also goes to
    /// `page_id`.
    pub fn new_page_guarded(&mut self, page_id: &mut Option<PageId>) -> (r: Option<BasicPageGuard>)
        requires
            old(self).wf(),
            old(self).next_id() < u32::MAX,
            old(self).clock() < u64::MAX,
        ensures
            final(self).wf(),
            new_page_done(*old(self), *final(self), *final(page_id)),
            r is Some <==> (*final(page_id)) is Some,
            r matches Some(g) ==> Some(g.id()) == *final(page_id) && !g.dirty(),
    {
        let p = self.new_page();
        *page_id = p;
        match p {
            Some(id) => Some(BasicPageGuard::new(id)),
            None => None,
        }
    }

    /// `fetch_page`, handing the page out in a guard.
    pub fn fetch_page_basic(&mut self, page_id: PageId) -> (r: Option<BasicPageGuard>)
        requires
            old(self).wf(),
            page_id < old(self).next_id(),
            old(self).clock() < u64::MAX,
            old(self).resident(page_id) ==> old(self).frames()[old(self).table()[page_id] as int].pin_count
                < u32::MAX,
        ensures
            final(self).wf(),
            exists|fr: Option<FrameId>|
                fetch_page_done(*old(self), *final(self), page_id, fr) && (r is Some <==> fr is Some),
            r matches Some(g) ==> g.id() == page_id && !g.dirty(),
    {
        match self.fetch_page(page_id) {
            Some(_) => Some(BasicPageGuard::new(page_id)),
            None => None,
        }
    }

    /// `fetch_page`, handing the page out in a guard that only reads.
    pub fn fetch_page_read(&mut self, page_id: PageId) -> (r: Option<ReadPageGuard>)
        requires
            old(self).wf(),
            page_id < old(self).next_id(),
            old(self).clock() < u64::MAX,
            old(self).resident(page_id) ==> old(self).frames()[old(self).table()[page_id] as int].pin_count
                < u32::MAX,
        ensures
            final(self).wf(),
            exists|fr: Option<FrameId>|
                fetch_page_done(*old(self), *final(self), page_id, fr) && (r is Some <==> fr is Some),
            r matches Some(g) ==> g.id() == page_id && !g.dirty(),
    {
        match self.fetch_page(page_id) {
            Some(_) => Some(ReadPageGuard::new(page_id)),
            None => None,
        }
    }

    /// `fetch_page`, handing the page out in a guard that reads and writes.
    pub fn fetch_page_write(&mut self, page_id: PageId) -> (r: Option<WritePageGuard>)
        requires
            old(self).wf(),
            page_id < old(self).next_id(),
            old(self).clock() < u64::MAX,
            old(self).resident(page_id) ==> old(self).frames()[old(self).table()[page_id] as int].pin_count
                < u32::MAX,
        ensures
            final(self).wf(),
            exists|fr: Option<FrameId>|
                fetch_page_done(*old(self), *final(self), page_id, fr) && (r is Some <==> fr is Some),
            r matches Some(g) ==> g.id() == page_id && !g.dirty(),
    {
        match self.fetch_page(page_id) {
            Some(_) => Some(WritePageGuard::new(page_id)),
            None => None,
        }
    }
    /// `new_page` fails exactly when no frame is available, and a page it
    /// creates takes exactly one available frame. With the `available()`
    /// count of a fresh pool being its size, `n` pages can be created and the
    /// next one fails while they stay pinned.
    pub proof fn lemma_new_page_takes_one_frame(old: Self, new: Self, r: Option<PageId>)
        requires
            old.wf(),
            new.wf(),
            new_page_done(old, new, r),
        ensures
            r is None <==> old.available() == 0,
            r is Some ==> new.available() + 1 == old.available(),
    {
        lemma_count_zero(old.nodes());
        if let Some(p) = r {
            let f = choose|f: FrameId|
                took_frame_for(old, new, f, p) && new.requests().len() == old.requests().len() + if old.frames()[f as int].is_dirty && old.frames()[f as int].page_id is Some {
                    1int
                } else {
                    0int
                };
            Self::lemma_release_one(old, f);
            let nv = NodeView { frame_id: f, history: seq![old.clock()], evictable: false };
            lemma_count_push(release_nodes(old, f), nv);
        }
    }

    /// A frame chosen by `frame_choice` leaves the free list or the evictable
    /// entries of the replacer, and only one of them.
    proof fn lemma_release_one(old: Self, f: FrameId)
        requires
            old.wf(),
            frame_choice(old, f),
        ensures
            release_free(old).len() + evictable_count(release_nodes(old, f)) + 1 == old.available(),
    {
        if old.free().len() > 0 {
            let j = old.free().len() - 1;
            assert(old.free_list@[j] == f);
            assert(old.pages@[f as int]@ == blank());
            assert(!tracks(old.nodes(), f)) by {
                if tracks(old.nodes(), f) {
                    let i = choose|i: int| 0 <= i < old.nodes().len() && old.nodes()[i].frame_id == f;
                    assert(old.replacer.nodes()[i].frame_id == f);
                }
            }
        } else {
            let i = choose|i: int| is_victim(old.nodes(), old.lookback(), i) && #[trigger] old.nodes()[i].frame_id == f;
            assert(tracks(old.nodes(), f));
            let c = choose|c: int| 0 <= c < old.nodes().len() && old.nodes()[c].frame_id == f;
            old.replacer.lemma_unique_frames(c, i);
            lemma_count_remove(old.nodes(), i);
        }
    }

    /// Unpinning gives back one available frame exactly when the pin count
    /// drops to zero, and changes nothing otherwise: unpinning `m` pages
    /// pinned once frees `m` frames for later `new_page` or `fetch_page` calls.
    pub proof fn lemma_unpin_gives_back_frame(old: Self, new: Self, page_id: PageId, is_dirty: bool, r: bool)
        requires
            old.wf(),
            new.wf(),
            unpin_page_done(old, new, page_id, is_dirty, r),
        ensures
            new.available() == old.available() + if r && old.frames()[old.table()[page_id] as int].pin_count == 1 {
                1nat
            } else {
                0nat
            },
    {
        if r {
            let f = old.table()[page_id];
            assert(old.pages@[f as int]@.page_id == Some(page_id));
            let i = old.lemma_tracked(f);
            assert(old.replacer.nodes()[i].frame_id == f);
            assert(old.frames()[f as int] == old.pages@[f as int]@);
            if old.frames()[f as int].pin_count == 1 {
                lemma_count_update(old.nodes(), i, NodeView { evictable: true, ..old.nodes()[i] });
            }
        }
    }

    /// Deleting an unpinned resident page frees its frame at once, and a
    /// later `fetch_page` of that id misses: it succeeds, taking a frame, and
    /// queues a read of the page from disk.
    pub proof fn lemma_deleted_page_is_read_again(
        b0: Self,
        b1: Self,
        b2: Self,
        page_id: PageId,
        deleted: bool,
        fetched: Option<FrameId>,
    )
        requires
            b0.wf(),
            b1.wf(),
            b0.resident(page_id),
            b0.frames()[b0.table()[page_id] as int].pin_count == 0,
            delete_page_done(b0, b1, page_id, deleted),
            fetch_page_done(b1, b2, page_id, fetched),
        ensures
            deleted,
            !b1.resident(page_id),
            b1.free() == b0.free().push(b0.table()[page_id]),
            fetched matches Some(f) && is_read_of(b2.requests().last(), page_id, f),
    {
    }
    /// While page `p` is left alone, creating a new page keeps `keeps_page`:
    /// the frame taken is either not `p`'s or holds `p` clean, so no write for
    /// `p` is queued and `p`'s bytes in memory do not change.
    proof fn lemma_new_page_keeps_page(
        b: Self,
        b2: Self,
        r: Option<PageId>,
        disk: Map<PageId, Seq<u8>>,
        p: PageId,
        d: Seq<u8>,
    )
        requires
            b.wf(),
            b2.wf(),
            new_page_done(b, b2, r),
            keeps_page(b, disk, p, d),
        ensures
            keeps_page(b2, disk, p, d),
    {
        if let Some(np) = r {
            let f = choose|f: FrameId|
                took_frame_for(b, b2, f, np) && b2.requests().len() == b.requests().len() + if b.frames()[f as int].is_dirty && b.frames()[f as int].page_id is Some {
                    1int
                } else {
                    0int
                };
            let pv = b.frames()[f as int];
            assert(pv == b.pages@[f as int]@);
            let x = if pv.is_dirty && pv.page_id is Some { 1int } else { 0int };
            assert(b2.requests().subrange(0, b.requests().len() + x) =~= b2.requests());
            if pv.page_id == Some(p) {
                assert(b.table()[p] == f);
            }
            Self::lemma_wrote_back_keeps(b, b2.requests(), f, disk, p);
            if b2.resident(p) {
                assert(release_table(b, f).contains_key(p));
                let g = b.table()[p];
                assert(b.pages@[g as int]@.page_id == Some(p));
                assert(g != f);
            }
        }
    }

    /// A write-back queued for frame `f` is for another page than `p` when
    /// `p`, if resident, is clean; the disk's bytes for `p` stay as they were.
    proof fn lemma_wrote_back_keeps(b: Self, reqs: Seq<DiskRequest>, f: FrameId, disk: Map<PageId, Seq<u8>>, p: PageId)
        requires
            b.wf(),
            f < b.pool(),
            wrote_back(b, reqs, f),
            b.resident(p) ==> !b.frames()[b.table()[p] as int].is_dirty,
        ensures
            stored_page(apply_requests(disk, reqs), p) == stored_page(apply_requests(disk, b.requests()), p),
    {
        let pv = b.frames()[f as int];
        assert(pv == b.pages@[f as int]@);
        if pv.is_dirty && pv.page_id is Some {
            let q = pv.page_id.unwrap();
            assert(b.table()[q] == f);
            assert(q != p);
            match reqs.last() {
                DiskRequest::Write { page_id, data } => {
                    assert(page_id == q);
                },
                DiskRequest::Read { .. } => {},
            }
        }
    }

    /// `keeps_page` along a run of `new_page` calls.
    proof fn lemma_new_pages_keep_page(pool: Seq<Self>, n: int, disk: Map<PageId, Seq<u8>>, p: PageId, d: Seq<u8>)
        requires
            0 <= n < pool.len(),
            forall|i: int| 0 <= i < pool.len() ==> (#[trigger] pool[i]).wf(),
            forall|i: int| 0 <= i < pool.len() - 1 ==> #[trigger] made_by_new_page(pool[i], pool[i + 1]),
            keeps_page(pool[0], disk, p, d),
        ensures
            keeps_page(pool[n], disk, p, d),
        decreases n,
    {
        if n > 0 {
            Self::lemma_new_pages_keep_page(pool, n - 1, disk, p, d);
            let i = n - 1;
            assert(made_by_new_page(pool[i], pool[i + 1]));
            assert(i + 1 == n);
            let r = choose|r: Option<PageId>| #[trigger] new_page_done(pool[i], pool[i + 1], r);
            Self::lemma_new_page_keeps_page(pool[n - 1], pool[n], r, disk, p, d);
        }
    }

    /// A page's bytes survive a round trip through the disk. Write them back
    /// with `flush_page`, create any number of new pages (which may evict the
    /// page), then `fetch_page` it: with a disk that carries out the queued
    /// requests in order, whatever it held before, the fetch either finds
    /// the page in memory with the same bytes or queues a read that the disk
    /// answers with exactly those bytes.
    pub proof fn lemma_flushed_page_round_trip(
        b0: Self,
        pool: Seq<Self>,
        bm: Self,
        page_id: PageId,
        fetched: Option<FrameId>,
        disk: Map<PageId, Seq<u8>>,
    )
        requires
            b0.wf(),
            b0.resident(page_id),
            pool.len() >= 1,
            forall|i: int| 0 <= i < pool.len() ==> (#[trigger] pool[i]).wf(),
            flush_page_done(b0, pool[0], page_id, true),
            forall|i: int| 0 <= i < pool.len() - 1 ==> #[trigger] made_by_new_page(pool[i], pool[i + 1]),
            bm.wf(),
            fetch_page_done(pool.last(), bm, page_id, fetched),
        ensures
            fetched matches Some(f) ==> {
                let d = b0.frames()[b0.table()[page_id] as int].data;
                &&& pool.last().resident(page_id) ==> bm.frames()[f as int].data == d
                &&& !pool.last().resident(page_id) ==> {
                    &&& is_read_of(bm.requests().last(), page_id, f)
                    &&& stored_page(apply_requests(disk, bm.requests().drop_last()), page_id) == d
                }
            },
    {
        let d = b0.frames()[b0.table()[page_id] as int].data;
        let b1 = pool[0];
        assert(b0.table()[page_id] < b0.pool_size);
        assert(apply_requests(disk, b1.requests()) == apply_requests(disk, b0.requests()).insert(page_id, d)) by {
            match b1.requests().last() {
                DiskRequest::Write { page_id: q, data } => {},
                DiskRequest::Read { .. } => {},
            }
        }
        assert(keeps_page(b1, disk, page_id, d));
        Self::lemma_new_pages_keep_page(pool, pool.len() - 1, disk, page_id, d);
        let bn = pool.last();
        if let Some(f) = fetched {
            if !bn.resident(page_id) {
                let pv = bn.frames()[f as int];
                let x = if pv.is_dirty && pv.page_id is Some { 1int } else { 0int };
                assert(bm.requests().subrange(0, bn.requests().len() + x) =~= bm.requests().drop_last());
                Self::lemma_wrote_back_keeps(bn, bm.requests().drop_last(), f, disk, page_id);
            }
        }
    }
}

/// The frame that `new_page` and `fetch_page` take when they need one: the
/// last free frame, else the one eviction must pick.
pub open spec fn frame_choice(b: BufferPoolManager, f: FrameId) -> bool {
    if b.free().len() > 0 {
        f == b.free().last()
    } else {
        exists|i: int| is_victim(b.nodes(), b.lookback(), i) && #[trigger] b.nodes()[i].frame_id == f
    }
}

/// What `new_page` does, returning `r`.
pub open spec fn new_page_done(old: BufferPoolManager, new: BufferPoolManager, r: Option<PageId>) -> bool {
    &&& new.pool() == old.pool()
    &&& new.lookback() == old.lookback()
    &&& r is None <==> old.free().len() == 0 && !old.has_evictable()
    &&& r is None ==> new == old
    &&& r matches Some(p) ==> {
        &&& p == old.next_id()
        &&& new.next_id() == p + 1
        &&& new.clock() == old.clock() + 1
        &&& new.free() == release_free(old)
        &&& exists|f: FrameId|
            took_frame_for(old, new, f, p) && new.requests().len() == old.requests().len() + if old.frames()[f as int].is_dirty && old.frames()[f as int].page_id is Some {
                1int
            } else {
                0int
            }
    }
}

/// What `fetch_page(page_id)` does, returning `r`.
pub open spec fn fetch_page_done(old: BufferPoolManager, new: BufferPoolManager, page_id: PageId, r: Option<FrameId>) -> bool {
    &&& new.pool() == old.pool()
    &&& new.lookback() == old.lookback()
    &&& new.next_id() == old.next_id()
    &&& r is None <==> !old.resident(page_id) && old.free().len() == 0 && !old.has_evictable()
    &&& r is None ==> new == old
    &&& r is Some ==> new.clock() == old.clock() + 1
    &&& old.resident(page_id) ==> {
        let f = old.table()[page_id];
        let pv = old.frames()[f as int];
        &&& r == Some(f)
        &&& new.frames() == old.frames().update(
            f as int,
            PageView { pin_count: (pv.pin_count + 1) as u32, ..pv },
        )
        &&& new.table() == old.table()
        &&& new.free() == old.free()
        &&& new.requests() == old.requests()
        &&& forall|i: int|
            0 <= i < old.nodes().len() && (#[trigger] old.nodes()[i]).frame_id == f
                ==> new.nodes() == old.nodes().update(
                i,
                NodeView {
                    frame_id: f,
                    history: push_access(
                        old.nodes()[i].history,
                        old.clock(),
                        old.lookback(),
                    ),
                    evictable: false,
                },
            )
    }
    &&& !old.resident(page_id) ==> (r matches Some(f) ==> {
        &&& took_frame_for(old, new, f, page_id)
        &&& new.free() == release_free(old)
        &&& new.requests().len() == old.requests().len() + (
        if old.frames()[f as int].is_dirty && old.frames()[f as int].page_id is Some {
            2int
        } else {
            1int
        })
        &&& is_read_of(new.requests().last(), page_id, f)
    })
}

/// The bytes a disk holds for page `p`; a page never written reads as zeros.
pub open spec fn stored_page(disk: Map<PageId, Seq<u8>>, p: PageId) -> Seq<u8> {
    if disk.contains_key(p) {
        disk[p]
    } else {
        zeroed()
    }
}

/// Page `p` has bytes `d`: it was handed out already, a disk that held `disk`
/// holds `d` for it once the queued requests are carried out, and while it
/// is resident its frame is clean and holds `d`.
pub open spec fn keeps_page(b: BufferPoolManager, disk: Map<PageId, Seq<u8>>, p: PageId, d: Seq<u8>) -> bool {
    &&& p < b.next_id()
    &&& stored_page(apply_requests(disk, b.requests()), p) == d
    &&& b.resident(p) ==> b.frames()[b.table()[p] as int].data == d && !b.frames()[b.table()[p] as int].is_dirty
}

/// `new` is what some call of `new_page` made of `old`.
pub open spec fn made_by_new_page(old: BufferPoolManager, new: BufferPoolManager) -> bool {
    exists|r: Option<PageId>| #[trigger] new_page_done(old, new, r)
}

/// What `flush_page(page_id)` does, returning `r`.
pub open spec fn flush_page_done(old: BufferPoolManager, new: BufferPoolManager, page_id: PageId, r: bool) -> bool {
    &&& r == old.resident(page_id)
    &&& !r ==> new == old
    &&& r ==> {
        let f = old.table()[page_id];
        let pv = old.frames()[f as int];
        &&& new.frames() == old.frames().update(f as int, PageView { is_dirty: false, ..pv })
        &&& new.nodes() == old.nodes()
        &&& new.requests().len() == old.requests().len() + 1
        &&& new.requests().drop_last() == old.requests()
        &&& is_write_of(new.requests().last(), page_id, pv.data)
        &&& same_except_frames_nodes(old, new)
    }
}

/// What `unpin_page(page_id, is_dirty)` does, returning `r`.
pub open spec fn unpin_page_done(old: BufferPoolManager, new: BufferPoolManager, page_id: PageId, is_dirty: bool, r: bool) -> bool {
    &&& r == (old.resident(page_id) && old.frames()[old.table()[page_id] as int].pin_count > 0)
    &&& !r ==> new == old
    &&& r ==> {
        let f = old.table()[page_id];
        let pv = old.frames()[f as int];
        &&& new.frames() == old.frames().update(
            f as int,
            PageView { pin_count: (pv.pin_count - 1) as u32, is_dirty: pv.is_dirty || is_dirty, ..pv },
        )
        &&& forall|i: int|
            0 <= i < old.nodes().len() && (#[trigger] old.nodes()[i]).frame_id == f
                ==> new.nodes() == if pv.pin_count == 1 {
                old.nodes().update(i, NodeView { evictable: true, ..old.nodes()[i] })
            } else {
                old.nodes()
            }
        &&& same_except_frames_nodes(old, new)
    }
}

/// What `delete_page(page_id)` does, returning `r`.
pub open spec fn delete_page_done(old: BufferPoolManager, new: BufferPoolManager, page_id: PageId, r: bool) -> bool {
    &&& r == (!old.resident(page_id) || old.frames()[old.table()[page_id] as int].pin_count == 0)
    &&& !old.resident(page_id) || !r ==> new == old
    &&& old.resident(page_id) && r ==> {
        let f = old.table()[page_id];
        &&& new.frames() == old.frames().update(f as int, blank())
        &&& new.table() == old.table().remove(page_id)
        &&& new.free() == old.free().push(f)
        &&& new.nodes() == release_nodes(old, f)
        &&& new.requests() == old.requests()
        &&& new.pool() == old.pool()
        &&& new.next_id() == old.next_id()
        &&& new.clock() == old.clock()
        &&& new.lookback() == old.lookback()
    }
}

/// Frame `f`, chosen as `new_page` and `fetch_page` choose, now holds page
/// `p` pinned once and zeroed: the page it held left the table and the
/// replacer (written back when dirty), and `p` got one access, not evictable.
pub open spec fn took_frame_for(old: BufferPoolManager, new: BufferPoolManager, f: FrameId, p: PageId) -> bool {
    &&& f < old.pool()
    &&& frame_choice(old, f)
    &&& new.frames() == old.frames().update(f as int, pinned_once(p))
    &&& new.table() == release_table(old, f).insert(p, f)
    &&& new.nodes() == release_nodes(old, f).push(
        NodeView { frame_id: f, history: seq![old.clock()], evictable: false },
    )
    &&& wrote_back(old, new.requests().subrange(0, old.requests().len() + if old.frames()[f as int].is_dirty && old.frames()[f as int].page_id is Some { 1int } else { 0int }), f)
}

/// Frames among the first `n` of `s` whose page is dirty, in order.
pub open spec fn dirty_frames(s: Seq<PageView>, n: int) -> Seq<int>
    decreases n,
{
    if n <= 0 {
        Seq::empty()
    } else if s[n - 1].is_dirty {
        dirty_frames(s, n - 1).push(n - 1)
    } else {
        dirty_frames(s, n - 1)
    }
}

proof fn lemma_dirty_frames_bounded(s: Seq<PageView>, n: int)
    ensures
        forall|j: int| 0 <= j < dirty_frames(s, n).len() ==> 0 <= #[trigger] dirty_frames(s, n)[j] < n,
        dirty_frames(s, n).len() <= if n < 0 { 0 } else { n },
    decreases n,
{
    if n > 0 {
        lemma_dirty_frames_bounded(s, n - 1);
    }
}

/// Pool size, next page id, free list, page table and replacer settings agree.
pub open spec fn same_except_frames_nodes(a: BufferPoolManager, b: BufferPoolManager) -> bool {
    &&& b.pool() == a.pool()
    &&& b.next_id() == a.next_id()
    &&& b.clock() == a.clock()
    &&& b.lookback() == a.lookback()
    &&& b.free() == a.free()
    &&& b.table() == a.table()
}

/// A frame holding page `p`, zeroed, pinned once, clean.
pub open spec fn pinned_once(p: PageId) -> PageView {
    PageView { page_id: Some(p), pin_count: 1, is_dirty: false, data: zeroed() }
}

/// The free list once a frame is taken.
pub open spec fn release_free(b: BufferPoolManager) -> Seq<FrameId> {
    if b.free().len() > 0 {
        b.free().drop_last()
    } else {
        b.free()
    }
}

/// The page table once frame `f` gives up the page it holds, if any.
pub open spec fn release_table(b: BufferPoolManager, f: FrameId) -> Map<PageId, FrameId> {
    match b.frames()[f as int].page_id {
        Some(q) => b.table().remove(q),
        None => b.table(),
    }
}

/// The replacer's entries once frame `f` is no longer tracked.
pub open spec fn release_nodes(b: BufferPoolManager, f: FrameId) -> Seq<NodeView> {
    if tracks(b.nodes(), f) {
        b.nodes().remove(choose|i: int| 0 <= i < b.nodes().len() && b.nodes()[i].frame_id == f)
    } else {
        b.nodes()
    }
}

/// `reqs` is the queue of `b` followed, when frame `f` holds a dirty page, by
/// the write of that page's bytes.
pub open spec fn wrote_back(b: BufferPoolManager, reqs: Seq<DiskRequest>, f: FrameId) -> bool {
    let pv = b.frames()[f as int];
    if pv.is_dirty && pv.page_id is Some {
        &&& reqs.len() == b.requests().len() + 1
        &&& reqs.drop_last() == b.requests()
        &&& is_write_of(reqs.last(), pv.page_id.unwrap(), pv.data)
    } else {
        reqs == b.requests()
    }
}

} // verus!
