use vstd::prelude::*;

use crate::config::FrameId;

verus! {

/// Backward k-distance of a frame.
///
/// `Inf(t)`: fewer than k accesses are recorded, the earliest of them at time `t`.
/// `Num(d)`: the k-th most recent access lies `d` ticks before the most recent one.
#[derive(PartialEq, Eq, Structural, Clone, Copy, Debug)]
pub enum Distance {
    Num(u64),
    Inf(u64),
}

/// True when a frame at distance `a` is a strictly better eviction victim than
/// one at distance `b`: infinite beats finite, among infinite distances the
/// earlier first access wins (plain LRU), among finite ones the larger gap wins.
pub open spec fn outranks(a: Distance, b: Distance) -> bool {
    match (a, b) {
        (Distance::Inf(x), Distance::Inf(y)) => x < y,
        (Distance::Inf(_), Distance::Num(_)) => true,
        (Distance::Num(_), Distance::Inf(_)) => false,
        (Distance::Num(x), Distance::Num(y)) => x > y,
    }
}

/// The backward k-distance of an access history (oldest first).
pub open spec fn distance_of(h: Seq<u64>, k: nat) -> Distance
    recommends
        h.len() > 0,
{
    if h.len() < k {
        Distance::Inf(h[0])
    } else {
        Distance::Num((h.last() - h[0]) as u64)
    }
}

/// The history after an access at time `t`: `t` is appended and only the
/// most recent `k` entries are kept.
pub open spec fn push_access(h: Seq<u64>, t: u64, k: nat) -> Seq<u64> {
    let h2 = h.push(t);
    if h2.len() > k {
        h2.subrange(h2.len() - k, h2.len() as int)
    } else {
        h2
    }
}

/// What the replacer knows of one frame.
pub ghost struct NodeView {
    pub frame_id: FrameId,
    pub history: Seq<u64>,
    pub evictable: bool,
}

/// Number of evictable entries in a sequence of nodes.
pub open spec fn evictable_count(s: Seq<NodeView>) -> nat
    decreases s.len(),
{
    if s.len() == 0 {
        0
    } else {
        evictable_count(s.drop_last()) + if s.last().evictable {
            1nat
        } else {
            0nat
        }
    }
}

/// True when some entry of `s` tracks frame `f`.
pub open spec fn tracks(s: Seq<NodeView>, f: FrameId) -> bool {
    exists|i: int| 0 <= i < s.len() && s[i].frame_id == f
}

/// True when entry `i` is the frame that eviction must pick: it is evictable,
/// no evictable entry outranks it, and it outranks every evictable entry
/// before it (the first one met among equals).
pub open spec fn is_victim(s: Seq<NodeView>, k: nat, i: int) -> bool {
    &&& 0 <= i < s.len()
    &&& s[i].evictable
    &&& forall|j: int|
        0 <= j < s.len() && s[j].evictable ==> !outranks(
            distance_of(#[trigger] s[j].history, k),
            distance_of(s[i].history, k),
        )
    &&& forall|j: int|
        0 <= j < i && s[j].evictable ==> outranks(
            distance_of(s[i].history, k),
            distance_of(#[trigger] s[j].history, k),
        )
}

/// There are no more evictable entries than entries.
pub proof fn lemma_count_bounded(s: Seq<NodeView>)
    ensures
        evictable_count(s) <= s.len(),
    decreases s.len(),
{
    if s.len() > 0 {
        lemma_count_bounded(s.drop_last());
    }
}

/// Appending an entry adds one to the count when it is evictable.
pub proof fn lemma_count_push(s: Seq<NodeView>, n: NodeView)
    ensures
        evictable_count(s.push(n)) == evictable_count(s) + if n.evictable {
            1nat
        } else {
            0nat
        },
{
    assert(s.push(n).drop_last() =~= s);
}

/// Replacing an entry changes the count by the change in its flag.
pub proof fn lemma_count_update(s: Seq<NodeView>, i: int, n: NodeView)
    requires
        0 <= i < s.len(),
    ensures
        evictable_count(s.update(i, n)) + (if s[i].evictable {
            1nat
        } else {
            0nat
        }) == evictable_count(s) + if n.evictable {
            1nat
        } else {
            0nat
        },
    decreases s.len(),
{
    if i == s.len() - 1 {
        assert(s.update(i, n).drop_last() =~= s.drop_last());
    } else {
        lemma_count_update(s.drop_last(), i, n);
        assert(s.update(i, n).drop_last() =~= s.drop_last().update(i, n));
    }
}

/// Removing an entry takes one off the count when it was evictable.
pub proof fn lemma_count_remove(s: Seq<NodeView>, i: int)
    requires
        0 <= i < s.len(),
    ensures
        evictable_count(s.remove(i)) + (if s[i].evictable {
            1nat
        } else {
            0nat
        }) == evictable_count(s),
    decreases s.len(),
{
    if i == s.len() - 1 {
        assert(s.remove(i) =~= s.drop_last());
    } else {
        lemma_count_remove(s.drop_last(), i);
        assert(s.remove(i).drop_last() =~= s.drop_last().remove(i));
    }
}

/// No evictable entry exactly when the count is zero.
pub proof fn lemma_count_zero(s: Seq<NodeView>)
    ensures
        (evictable_count(s) == 0) <==> (forall|i: int| 0 <= i < s.len() ==> !(#[trigger] s[i]).evictable),
    decreases s.len(),
{
    if s.len() > 0 {
        lemma_count_zero(s.drop_last());
        if evictable_count(s) == 0 {
            assert forall|i: int| 0 <= i < s.len() implies !(#[trigger] s[i]).evictable by {
                if i < s.len() - 1 {
                    assert(s[i] == s.drop_last()[i]);
                }
            }
        } else if forall|i: int| 0 <= i < s.len() ==> !(#[trigger] s[i]).evictable {
            assert forall|i: int| 0 <= i < s.drop_last().len() implies !(
            #[trigger] s.drop_last()[i]).evictable by {
                assert(s[i] == s.drop_last()[i]);
            }
            assert(!s[s.len() - 1].evictable);
        }
    }
}

/// Number of entries of `s` that are evictable and have at least one access.
pub open spec fn accessed_evictable_count(s: Seq<NodeView>) -> nat
    decreases s.len(),
{
    if s.len() == 0 {
        0
    } else {
        accessed_evictable_count(s.drop_last()) + if s.last().evictable && s.last().history.len()
            >= 1 {
            1nat
        } else {
            0nat
        }
    }
}

/// One `evict` that returned `f`: the victim's entry was dropped.
pub open spec fn evict_step(s: Seq<NodeView>, k: nat, s2: Seq<NodeView>, f: FrameId) -> bool {
    exists|i: int| is_victim(s, k, i) && #[trigger] s[i].frame_id == f && s2 == s.remove(i)
}

/// `out` is what repeated calls of `evict` return, starting from entries `s`,
/// until the first `None`.
pub open spec fn evict_run(s: Seq<NodeView>, k: nat, out: Seq<FrameId>) -> bool
    decreases out.len(),
{
    if out.len() == 0 {
        forall|i: int| 0 <= i < s.len() ==> !(#[trigger] s[i]).evictable
    } else {
        exists|s2: Seq<NodeView>| #[trigger] evict_step(s, k, s2, out[0]) && evict_run(s2, k, out.drop_first())
    }
}

/// True when no two entries of `s` track the same frame.
pub open spec fn frames_unique(s: Seq<NodeView>) -> bool {
    forall|i: int, j: int| 0 <= i < j < s.len() ==> s[i].frame_id != s[j].frame_id
}

/// When every entry has an access, both counts agree.
proof fn lemma_accessed_count(s: Seq<NodeView>)
    requires
        forall|i: int| 0 <= i < s.len() ==> (#[trigger] s[i]).history.len() >= 1,
    ensures
        accessed_evictable_count(s) == evictable_count(s),
    decreases s.len(),
{
    if s.len() > 0 {
        assert(s.last() == s[s.len() - 1]);
        lemma_accessed_count(s.drop_last());
    }
}

/// What a run of evictions hands out, by induction on its length.
proof fn lemma_drain(s: Seq<NodeView>, k: nat, out: Seq<FrameId>)
    requires
        frames_unique(s),
        evict_run(s, k, out),
    ensures
        out.len() == evictable_count(s),
        out.no_duplicates(),
        forall|f: FrameId|
            out.contains(f) <==> exists|i: int| 0 <= i < s.len() && s[i].evictable && s[i].frame_id == f,
    decreases out.len(),
{
    if out.len() == 0 {
        lemma_count_zero(s);
    } else {
        let s2 = choose|s2: Seq<NodeView>| #[trigger] evict_step(s, k, s2, out[0]) && evict_run(s2, k, out.drop_first());
        assert(evict_step(s, k, s2, out[0]));
        let i = choose|i: int| is_victim(s, k, i) && #[trigger] s[i].frame_id == out[0] && s2 == s.remove(i);
        let rest = out.drop_first();
        assert(0 <= i < s.len());
        assert(s2.len() == s.len() - 1);
        assert forall|a: int, b: int| 0 <= a < b < s2.len() implies s2[a].frame_id != s2[b].frame_id by {
            let ao = if a < i { a } else { a + 1 };
            let bo = if b < i { b } else { b + 1 };
            assert(s2[a] == s[ao]);
            assert(s2[b] == s[bo]);
        }
        lemma_drain(s2, k, rest);
        lemma_count_remove(s, i);
        assert(!rest.contains(out[0])) by {
            if rest.contains(out[0]) {
                let j = choose|j: int| 0 <= j < s2.len() && s2[j].evictable && s2[j].frame_id == out[0];
                let jo = if j < i { j } else { j + 1 };
                assert(s2[j] == s[jo]);
            }
        }
        assert forall|a: int, b: int| 0 <= a < out.len() && 0 <= b < out.len() && a != b implies out[a] != out[b] by {
            if a > 0 && b > 0 {
                assert(out[a] == rest[a - 1]);
                assert(out[b] == rest[b - 1]);
            } else if a == 0 {
                assert(out[b] == rest[b - 1]);
            } else {
                assert(out[a] == rest[a - 1]);
            }
        }
        assert forall|f: FrameId| out.contains(f) <==> exists|j: int| 0 <= j < s.len() && s[j].evictable && s[j].frame_id == f by {
            if out.contains(f) {
                if f != out[0] {
                    let x = choose|x: int| 0 <= x < out.len() && out[x] == f;
                    assert(rest[x - 1] == f);
                    assert(rest.contains(f));
                    let j = choose|j: int| 0 <= j < s2.len() && s2[j].evictable && s2[j].frame_id == f;
                    let jo = if j < i { j } else { j + 1 };
                    assert(s2[j] == s[jo]);
                }
            }
            if exists|j: int| 0 <= j < s.len() && s[j].evictable && s[j].frame_id == f {
                let j = choose|j: int| 0 <= j < s.len() && s[j].evictable && s[j].frame_id == f;
                if j == i {
                    assert(out[0] == f);
                } else {
                    let jn = if j < i { j } else { j - 1 };
                    assert(s2[jn] == s[j]);
                    assert(rest.contains(f));
                    let x = choose|x: int| 0 <= x < rest.len() && rest[x] == f;
                    assert(out[x + 1] == f);
                }
            }
        }
    }
}

/// Access history of one frame.
#[derive(Debug)]
pub struct LRUKNode {
    /// Timestamps of the last k accesses, least recent first.
    history: Vec<u64>,
    k: usize,
    frame_id: FrameId,
    is_evictable: bool,
}

impl View for LRUKNode {
    type V = NodeView;

    closed spec fn view(&self) -> NodeView {
        NodeView { frame_id: self.frame_id, history: self.history@, evictable: self.is_evictable }
    }
}

impl LRUKNode {
    pub closed spec fn lookback(&self) -> usize {
        self.k
    }

    /// A node for `frame_id` with no recorded access, evictable.
    pub fn new(frame_id: FrameId, k: usize) -> (r: Self)
        ensures
            r@ == (NodeView { frame_id, history: Seq::empty(), evictable: true }),
            r.lookback() == k,
    {
        LRUKNode { history: Vec::new(), k, frame_id, is_evictable: true }
    }

    fn backward_k_distance(&self) -> (r: Distance)
        requires
            self.history@.len() > 0,
            self.history@.first() <= self.history@.last(),
        ensures
            r == distance_of(self.history@, self.k as nat),
    {
        let n = self.history.len();
        if n < self.k {
            Distance::Inf(self.history[0])
        } else {
            Distance::Num(self.history[n - 1] - self.history[0])
        }
    }
}

fn outranks_exec(a: Distance, b: Distance) -> (r: bool)
    ensures
        r == outranks(a, b),
{
    match (a, b) {
        (Distance::Inf(x), Distance::Inf(y)) => x < y,
        (Distance::Inf(_), Distance::Num(_)) => true,
        (Distance::Num(_), Distance::Inf(_)) => false,
        (Distance::Num(x), Distance::Num(y)) => x > y,
    }
}

/// The LRU-K replacement policy.
///
/// Evicts the evictable frame whose backward k-distance is greatest. A frame
/// with fewer than k recorded accesses has infinite distance; among those the
/// one accessed first is chosen, as in classical LRU.
#[derive(Debug)]
pub struct LRUKReplacer {
    /// One node per tracked frame, in the order the frames were first seen.
    node_store: Vec<LRUKNode>,
    current_timestamp: u64,
    current_size: usize,
    replacer_size: usize,
    k: usize,
}

impl LRUKReplacer {
    /// The tracked frames, in the order they were first seen.
    pub closed spec fn nodes(&self) -> Seq<NodeView> {
        self.node_store@.map_values(|n: LRUKNode| n@)
    }

    /// The timestamp the next access will get.
    pub closed spec fn clock(&self) -> u64 {
        self.current_timestamp
    }

    /// Largest frame id the replacer accepts.
    pub closed spec fn capacity(&self) -> usize {
        self.replacer_size
    }

    pub closed spec fn lookback(&self) -> nat {
        self.k as nat
    }

    /// Invariant of one node: its lookback is the replacer's, it holds between
    /// one and k strictly increasing timestamps, all in the past.
    closed spec fn node_ok(&self, n: LRUKNode) -> bool {
        &&& n.k == self.k
        &&& 1 <= n.history@.len() <= self.k
        &&& n.frame_id <= self.replacer_size
        &&& forall|a: int, b: int| 0 <= a < b < n.history@.len() ==> n.history@[a] < n.history@[b]
        &&& forall|a: int| 0 <= a < n.history@.len() ==> n.history@[a] < self.current_timestamp
    }

    pub closed spec fn wf(&self) -> bool {
        &&& self.k >= 1
        &&& self.current_size == evictable_count(self.nodes())
        &&& forall|i: int| 0 <= i < self.node_store@.len() ==> self.node_ok(#[trigger] self.node_store@[i])
        &&& forall|i: int, j: int|
            0 <= i < j < self.node_store@.len() ==> self.node_store@[i].frame_id
                != self.node_store@[j].frame_id
    }

    /// No two tracked entries are for the same frame.
    pub proof fn lemma_unique_frames(&self, i: int, j: int)
        requires
            self.wf(),
            0 <= i < self.nodes().len(),
            0 <= j < self.nodes().len(),
            self.nodes()[i].frame_id == self.nodes()[j].frame_id,
        ensures
            i == j,
    {
        assert(self.nodes()[i] == self.node_store@[i]@);
        assert(self.nodes()[j] == self.node_store@[j]@);
        if i < j {
            assert(self.node_store@[i].frame_id != self.node_store@[j].frame_id);
        } else if j < i {
            assert(self.node_store@[j].frame_id != self.node_store@[i].frame_id);
        }
    }

    /// Position of the node that tracks `frame_id`.
    fn find(&self, frame_id: FrameId) -> (r: Option<usize>)
        requires
            self.wf(),
        ensures
            r is None ==> !tracks(self.nodes(), frame_id),
            r matches Some(i) ==> i < self.nodes().len() && self.nodes()[i as int].frame_id == frame_id,
            r matches Some(i) ==> forall|j: int|
                0 <= j < self.nodes().len() && (#[trigger] self.nodes()[j]).frame_id == frame_id ==> j == i,
    {
        let n = self.node_store.len();
        let mut i: usize = 0;
        while i < n
            invariant
                self.wf(),
                n == self.node_store@.len(),
                i <= n,
                forall|j: int| 0 <= j < i ==> (#[trigger] self.nodes()[j]).frame_id != frame_id,
            decreases n - i,
        {
            assert(self.nodes()[i as int] == self.node_store@[i as int]@);
            if self.node_store[i].frame_id == frame_id {
                proof {
                    assert forall|j: int|
                        0 <= j < self.nodes().len() && (#[trigger] self.nodes()[j]).frame_id
                            == frame_id implies j == i by {
                        self.lemma_unique_frames(j, i as int);
                    }
                }
                return Some(i);
            }
            i = i + 1;
        }
        None
    }

    /// A replacer for frames `0..=num_frames` with lookback window `k`.
    pub fn new(num_frames: usize, k: usize) -> (r: Self)
        requires
            k >= 1,
        ensures
            r.wf(),
            r.nodes() == Seq::<NodeView>::empty(),
            r.clock() == 0,
            r.capacity() == num_frames,
            r.lookback() == k,
    {
        let r = LRUKReplacer {
            node_store: Vec::new(),
            current_timestamp: 0,
            current_size: 0,
            replacer_size: num_frames,
            k,
        };
        assert(r.nodes() =~= Seq::<NodeView>::empty());
        r
    }

    /// Evicts the frame with the greatest backward k-distance among the
    /// evictable ones, dropping its history; `None` when no frame is evictable.
    pub fn evict(&mut self) -> (r: Option<FrameId>)
        requires
            old(self).wf(),
        ensures
            final(self).wf(),
            final(self).clock() == old(self).clock(),
            final(self).capacity() == old(self).capacity(),
            final(self).lookback() == old(self).lookback(),
            r is None <==> forall|i: int|
                0 <= i < old(self).nodes().len() ==> !(#[trigger] old(self).nodes()[i]).evictable,
            r is None ==> *final(self) == *old(self),
            r matches Some(f) ==> exists|i: int|
                is_victim(old(self).nodes(), old(self).lookback(), i) && old(self).nodes()[i].frame_id
                    == f && final(self).nodes() == old(self).nodes().remove(i),
    {
        let ghost s = self.nodes();
        let ghost k = self.k as nat;
        let mut best: Option<usize> = None;
        let mut best_distance = Distance::Num(0);
        let n = self.node_store.len();
        let mut i: usize = 0;
        while i < n
            invariant
                self.wf(),
                *self == *old(self),
                s == self.nodes(),
                k == self.k,
                n == s.len(),
                i <= n,
                best is None ==> forall|j: int| 0 <= j < i ==> !(#[trigger] s[j]).evictable,
                best matches Some(b) ==> {
                    &&& b < i
                    &&& s[b as int].evictable
                    &&& best_distance == distance_of(s[b as int].history, k)
                    &&& forall|j: int|
                        0 <= j < i && s[j].evictable ==> !outranks(
                            distance_of(#[trigger] s[j].history, k),
                            best_distance,
                        )
                    &&& forall|j: int|
                        0 <= j < b && s[j].evictable ==> outranks(
                            best_distance,
                            distance_of(#[trigger] s[j].history, k),
                        )
                },
            decreases n - i,
        {
            let node = &self.node_store[i];
            assert(s[i as int] == node@);
            if node.is_evictable {
                proof {
                    let h = node.history@;
                    if h.len() > 1 {
                        assert(h[0] < h[h.len() - 1]);
                    }
                }
                let d = node.backward_k_distance();
                match best {
                    None => {
                        best = Some(i);
                        best_distance = d;
                    },
                    Some(_) => {
                        if outranks_exec(d, best_distance) {
                            best = Some(i);
                            best_distance = d;
                        }
                    },
                }
            }
            i = i + 1;
        }
        match best {
            None => None,
            Some(b) => {
                let removed = self.node_store.remove(b);
                proof {
                    assert(self.nodes() =~= s.remove(b as int));
                    lemma_count_remove(s, b as int);
                    assert(removed@ == s[b as int]);
                    assert forall|j: int|
                        0 <= j < s.len() && s[j].evictable implies !outranks(
                        distance_of(#[trigger] s[j].history, k),
                        distance_of(s[b as int].history, k),
                    ) by {}
                    assert(is_victim(s, k, b as int));
                    assert forall|x: int, y: int|
                        0 <= x < y < self.node_store@.len() implies self.node_store@[x].frame_id
                        != self.node_store@[y].frame_id by {
                        let xo = if x < b { x } else { x + 1 };
                        let yo = if y < b { y } else { y + 1 };
                        assert(self.node_store@[x] == old(self).node_store@[xo]);
                        assert(self.node_store@[y] == old(self).node_store@[yo]);
                    }
                    assert forall|x: int| 0 <= x < self.node_store@.len() implies self.node_ok(
                        #[trigger] self.node_store@[x],
                    ) by {
                        let xo = if x < b { x } else { x + 1 };
                        assert(self.node_store@[x] == old(self).node_store@[xo]);
                        assert(old(self).node_ok(old(self).node_store@[xo]));
                    }
                }
                self.current_size = self.current_size - 1;
                Some(removed.frame_id)
            },
        }
    }
    /// Records an access to `frame_id` at the current timestamp, keeping the
    /// last k timestamps; an unseen frame gets a new, evictable entry.
    pub fn record_access(&mut self, frame_id: FrameId)
        requires
            old(self).wf(),
            frame_id <= old(self).capacity(),
            old(self).clock() < u64::MAX,
        ensures
            final(self).wf(),
            final(self).clock() == old(self).clock() + 1,
            final(self).capacity() == old(self).capacity(),
            final(self).lookback() == old(self).lookback(),
            forall|i: int|
                0 <= i < old(self).nodes().len() && (#[trigger] old(self).nodes()[i]).frame_id
                    == frame_id ==> final(self).nodes() == old(self).nodes().update(
                    i,
                    NodeView {
                        history: push_access(
                            old(self).nodes()[i].history,
                            old(self).clock(),
                            old(self).lookback(),
                        ),
                        ..old(self).nodes()[i]
                    },
                ),
            !tracks(old(self).nodes(), frame_id) ==> final(self).nodes() == old(self).nodes().push(
                NodeView { frame_id, history: seq![old(self).clock()], evictable: true },
            ),
    {
        let ghost s = self.nodes();
        let ts = self.current_timestamp;
        let found = self.find(frame_id);
        self.current_timestamp = ts + 1;
        match found {
            Some(i) => {
                let ghost old_node = self.node_store@[i as int];
                let k = self.k;
                let node = &mut self.node_store[i];
                node.history.push(ts);
                if node.history.len() > k {
                    node.history.remove(0);
                }
                proof {
                    let h = old_node.history@;
                    let nh = push_access(h, ts, k as nat);
                    let nv = NodeView { history: nh, ..s[i as int] };
                    assert(s[i as int] == old_node@);
                    assert(self.node_store@[i as int].history@ =~= nh);
                    assert(self.nodes() =~= s.update(i as int, nv));
                    lemma_count_update(s, i as int, nv);
                    assert forall|x: int| 0 <= x < self.node_store@.len() implies self.node_ok(
                        #[trigger] self.node_store@[x],
                    ) by {
                        assert(old(self).node_ok(old(self).node_store@[x]));
                        if x == i {
                            let nd = self.node_store@[x];
                            assert forall|a: int, c: int|
                                0 <= a < c < nd.history@.len() implies nd.history@[a]
                                < nd.history@[c] by {
                                let h2 = h.push(ts);
                                if h2.len() > k {
                                    assert(nd.history@[a] == h2[a + 1]);
                                    assert(nd.history@[c] == h2[c + 1]);
                                }
                            }
                        }
                    }
                }
            },
            None => {
                let mut node = LRUKNode::new(frame_id, self.k);
                node.history.push(ts);
                self.node_store.push(node);
                proof {
                    let n = s.len() as int;
                    let nv = NodeView { frame_id, history: seq![ts], evictable: true };
                    assert(node.history@ =~= seq![ts]);
                    assert(self.nodes() =~= s.push(nv));
                    lemma_count_push(s, nv);
                    lemma_count_bounded(s.push(nv));
                    assert(self.node_store.len() == self.node_store@.len());
                    assert forall|x: int| 0 <= x < self.node_store@.len() implies self.node_ok(
                        #[trigger] self.node_store@[x],
                    ) by {
                        if x < n {
                            assert(old(self).node_ok(old(self).node_store@[x]));
                        }
                    }
                    assert forall|x: int, y: int|
                        0 <= x < y < self.node_store@.len() implies self.node_store@[x].frame_id
                        != self.node_store@[y].frame_id by {
                        if y == n {
                            assert(s[x] == self.node_store@[x]@);
                        }
                    }
                }
                self.current_size = self.current_size + 1;
            },
        }
    }

    /// Marks `frame_id` evictable or not; the size changes only when the flag does.
    pub fn set_evictable(&mut self, frame_id: FrameId, set_evictable: bool)
        requires
            old(self).wf(),
            tracks(old(self).nodes(), frame_id),
        ensures
            final(self).wf(),
            final(self).clock() == old(self).clock(),
            final(self).capacity() == old(self).capacity(),
            final(self).lookback() == old(self).lookback(),
            forall|i: int|
                0 <= i < old(self).nodes().len() && (#[trigger] old(self).nodes()[i]).frame_id
                    == frame_id ==> final(self).nodes() == old(self).nodes().update(
                    i,
                    NodeView { evictable: set_evictable, ..old(self).nodes()[i] },
                ),
    {
        let ghost s = self.nodes();
        let i = match self.find(frame_id) {
            Some(i) => i,
            None => {
                assert(false);
                return ;
            },
        };
        assert(s[i as int] == self.node_store@[i as int]@);
        let ghost nv = NodeView { evictable: set_evictable, ..s[i as int] };
        proof {
            lemma_count_update(s, i as int, nv);
            lemma_count_bounded(s.update(i as int, nv));
            assert(self.node_store.len() == self.node_store@.len());
        }
        if self.node_store[i].is_evictable == set_evictable {
            assert(s.update(i as int, nv) =~= s);
            return ;
        }
        self.node_store[i].is_evictable = set_evictable;
        if set_evictable {
            self.current_size = self.current_size + 1;
        } else {
            self.current_size = self.current_size - 1;
        }
        proof {
            assert(self.nodes() =~= s.update(i as int, nv));
            assert forall|x: int| 0 <= x < self.node_store@.len() implies self.node_ok(
                #[trigger] self.node_store@[x],
            ) by {
                assert(old(self).node_ok(old(self).node_store@[x]));
            }
        }
    }

    /// Drops the history of `frame_id`, whatever its distance; nothing happens
    /// when the frame is not tracked. The frame must be evictable.
    pub fn remove(&mut self, frame_id: FrameId)
        requires
            old(self).wf(),
            forall|i: int|
                0 <= i < old(self).nodes().len() && (#[trigger] old(self).nodes()[i]).frame_id
                    == frame_id ==> old(self).nodes()[i].evictable,
        ensures
            final(self).wf(),
            final(self).clock() == old(self).clock(),
            final(self).capacity() == old(self).capacity(),
            final(self).lookback() == old(self).lookback(),
            !tracks(old(self).nodes(), frame_id) ==> final(self).nodes() == old(self).nodes(),
            forall|i: int|
                0 <= i < old(self).nodes().len() && (#[trigger] old(self).nodes()[i]).frame_id
                    == frame_id ==> final(self).nodes() == old(self).nodes().remove(i),
    {
        let ghost s = self.nodes();
        if let Some(i) = self.find(frame_id) {
            assert(s[i as int] == self.node_store@[i as int]@);
            self.node_store.remove(i);
            proof {
                let b = i as int;
                assert(self.nodes() =~= s.remove(b));
                lemma_count_remove(s, b);
                assert forall|x: int, y: int|
                    0 <= x < y < self.node_store@.len() implies self.node_store@[x].frame_id
                    != self.node_store@[y].frame_id by {
                    let xo = if x < b { x } else { x + 1 };
                    let yo = if y < b { y } else { y + 1 };
                    assert(self.node_store@[x] == old(self).node_store@[xo]);
                    assert(self.node_store@[y] == old(self).node_store@[yo]);
                }
                assert forall|x: int| 0 <= x < self.node_store@.len() implies self.node_ok(
                    #[trigger] self.node_store@[x],
                ) by {
                    let xo = if x < b { x } else { x + 1 };
                    assert(self.node_store@[x] == old(self).node_store@[xo]);
                    assert(old(self).node_ok(old(self).node_store@[xo]));
                }
            }
            self.current_size = self.current_size - 1;
        }
    }

    /// The size counts exactly the frames that are marked evictable and have
    /// at least one recorded access: every tracked frame has one, and `size`
    /// returns the number of evictable entries in every state the operations
    /// leave behind.
    pub proof fn lemma_size_counts_accessed_evictable(&self)
        requires
            self.wf(),
        ensures
            evictable_count(self.nodes()) == accessed_evictable_count(self.nodes()),
            forall|i: int| 0 <= i < self.nodes().len() ==> (#[trigger] self.nodes()[i]).history.len() >= 1,
    {
        assert forall|i: int| 0 <= i < self.nodes().len() implies (#[trigger] self.nodes()[i]).history.len() >= 1 by {
            assert(self.nodes()[i] == self.node_store@[i]@);
            assert(self.node_ok(self.node_store@[i]));
        }
        lemma_accessed_count(self.nodes());
    }

    /// Evicting until `evict` returns `None` hands out every evictable frame
    /// exactly once: as many frames as `size` counted, none twice, and
    /// exactly the frames that were evictable.
    pub proof fn lemma_evict_until_empty(&self, out: Seq<FrameId>)
        requires
            self.wf(),
            evict_run(self.nodes(), self.lookback(), out),
        ensures
            out.len() == evictable_count(self.nodes()),
            out.no_duplicates(),
            forall|f: FrameId|
                out.contains(f) <==> exists|i: int|
                    0 <= i < self.nodes().len() && self.nodes()[i].evictable && self.nodes()[i].frame_id == f,
    {
        assert forall|i: int, j: int| 0 <= i < j < self.nodes().len() implies self.nodes()[i].frame_id != self.nodes()[j].frame_id by {
            if self.nodes()[i].frame_id == self.nodes()[j].frame_id {
                self.lemma_unique_frames(i, j);
            }
        }
        lemma_drain(self.nodes(), self.lookback(), out);
    }

    /// Number of evictable frames.
    pub fn size(&self) -> (r: usize)
        requires
            self.wf(),
        ensures
            r == evictable_count(self.nodes()),
    {
        self.current_size
    }

    /// The timestamp the next access will get.
    pub fn current_timestamp(&self) -> (r: u64)
        ensures
            r == self.clock(),
    {
        self.current_timestamp
    }
}

} // verus!
