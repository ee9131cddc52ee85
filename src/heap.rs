//! The positional min-heap behind least-frequently-used replacement.
use vstd::prelude::*;

use crate::lookup::MAX_FRAMES;
use crate::replace::Replace;

verus! {

/// The key of one frame and the frame's current position in the heap.
#[derive(Clone, Copy)]
pub struct HeapElem<T> {
    data: T,
    pos: usize,
}

/// Three-way comparison of access counters: `-1`, `0` or `1` as `l` is
/// smaller than, equal to or greater than `r`.
pub open spec fn spec_lfu_cmp(l: u64, r: u64) -> i8 {
    if l < r {
        -1i8
    } else if l > r {
        1i8
    } else {
        0i8
    }
}

pub fn lfu_cmp(l: &u64, r: &u64) -> (c: i8)
    ensures
        c == spec_lfu_cmp(*l, *r),
{
    if *l < *r {
        -1
    } else {
        (*l > *r) as i8
    }
}

/// Parent of heap position `i`.
pub open spec fn parent(i: int) -> int {
    (i - 1) / 2
}

/// A binary min-heap over frames `[0, n)` keyed by counters. `queue[pos]` is
/// the frame at heap position `pos` and each frame records its position, so
/// a frame is updated without a search.
pub struct Heap {
    data: Vec<HeapElem<u64>>,
    queue: Vec<usize>,
}

impl Heap {
    /// The counter of each frame.
    pub closed spec fn keys(&self) -> Seq<u64> {
        Seq::new(self.data@.len(), |f: int| self.data@[f].data)
    }

    /// The frames in heap order.
    pub closed spec fn order(&self) -> Seq<usize> {
        self.queue@
    }

    spec fn key(&self, i: int) -> u64 {
        self.data@[self.queue@[i] as int].data
    }

    spec fn perm(&self) -> bool {
        let n = self.queue@.len();
        &&& 0 < n <= MAX_FRAMES
        &&& self.data@.len() == n
        &&& forall|i: int|
            0 <= i < n ==> #[trigger] self.queue@[i] < n && self.data@[self.queue@[i] as int].pos
                == i
        &&& forall|f: int|
            0 <= f < n ==> #[trigger] self.data@[f].pos < n && self.queue@[self.data@[f].pos as int]
                == f
    }

    spec fn ordered_except(&self, p: int) -> bool {
        forall|i: int|
            0 < i < self.queue@.len() && parent(i) != p ==> self.key(parent(i)) <= #[trigger] self.key(
                i,
            )
    }

    spec fn bridged(&self, p: int) -> bool {
        p > 0 ==> forall|i: int|
            0 < i < self.queue@.len() && parent(i) == p ==> self.key(parent(p)) <= #[trigger] self.key(
                i,
            )
    }

    pub closed spec fn wf(&self) -> bool {
        self.perm() && self.ordered_except(-1)
    }

    /// Every frame's counter is at least its parent's.
    pub proof fn lemma_ordered(&self)
        requires
            self.wf(),
        ensures
            self.order().len() == self.keys().len(),
            forall|i: int|
                0 < i < self.order().len() ==> spec_lfu_cmp(
                    self.keys()[self.order()[parent(i)] as int],
                    self.keys()[#[trigger] self.order()[i] as int],
                ) <= 0,
            forall|i: int| 0 <= i < self.order().len() ==> #[trigger] self.order()[i] < self.keys().len(),
    {
        assert forall|i: int| 0 < i < self.order().len() implies spec_lfu_cmp(
            self.keys()[self.order()[parent(i)] as int],
            self.keys()[#[trigger] self.order()[i] as int],
        ) <= 0 by {
            assert(self.key(parent(i)) <= self.key(i));
        }
    }

    /// A heap of `count` frames, all with counter 0, in frame order.
    pub fn new(count: usize) -> (r: Self)
        requires
            0 < count <= MAX_FRAMES,
        ensures
            r.wf(),
            r.keys() == Seq::new(count as nat, |f: int| 0u64),
            r.order() == Seq::new(count as nat, |i: int| i as usize),
    {
        let mut data: Vec<HeapElem<u64>> = Vec::new();
        let mut queue: Vec<usize> = Vec::new();
        let mut i: usize = 0;
        while i < count
            invariant
                i <= count <= MAX_FRAMES,
                data@.len() == i,
                queue@.len() == i,
                forall|j: int| 0 <= j < i ==> #[trigger] data@[j] == (HeapElem { data: 0u64, pos: j as usize }),
                forall|j: int| 0 <= j < i ==> #[trigger] queue@[j] == j,
            decreases count - i,
        {
            data.push(HeapElem { data: 0, pos: i });
            queue.push(i);
            i = i + 1;
        }
        let r = Heap { data, queue };
        assert(r.keys() =~= Seq::new(count as nat, |f: int| 0u64));
        assert(r.order() =~= Seq::new(count as nat, |i: int| i as usize));
        r
    }

    /// The frame at the root: one with the smallest counter.
    pub fn top(&self) -> (r: usize)
        requires
            self.wf(),
        ensures
            r < self.keys().len(),
            r == self.order()[0],
            forall|f: int| 0 <= f < self.keys().len() ==> self.keys()[r as int] <= #[trigger] self.keys()[f],
    {
        proof {
            assert forall|i: int| 0 <= i < self.queue@.len() implies self.key(0) <= #[trigger] self.key(i) by {
                self.lemma_root_min(i);
            }
            assert forall|f: int| 0 <= f < self.keys().len() implies self.keys()[self.queue@[0] as int] <= #[trigger] self.keys()[f] by {
                assert(self.key(0) <= self.key(self.data@[f].pos as int));
            }
        }
        self.queue[0]
    }

    proof fn lemma_root_min(&self, i: int)
        requires
            self.wf(),
            0 <= i < self.queue@.len(),
        ensures
            self.key(0) <= self.key(i),
        decreases i,
    {
        if i > 0 {
            self.lemma_root_min(parent(i));
        }
    }

    /// Moves `frame` down until it is no greater than its children.
    fn send_down(&mut self, frame: usize)
        requires
            old(self).perm(),
            frame < old(self).data@.len(),
            old(self).ordered_except(old(self).data@[frame as int].pos as int),
            old(self).bridged(old(self).data@[frame as int].pos as int),
        ensures
            final(self).wf(),
            final(self).keys() == old(self).keys(),
    {
        let n = self.queue.len();
        loop
            invariant
                self.perm(),
                n == self.queue@.len(),
                frame < n,
                self.ordered_except(self.data@[frame as int].pos as int),
                self.bridged(self.data@[frame as int].pos as int),
                self.keys() == old(self).keys(),
            decreases n - self.data@[frame as int].pos,
        {
            let pos = self.data[frame].pos;
            let left = 2 * pos + 1;
            if left >= n {
                proof {
                    assert forall|i: int| 0 < i < n implies self.key(parent(i)) <= #[trigger] self.key(i) by {
                        assert(parent(i) != pos);
                    }
                }
                return;
            }
            let right = left + 1;
            let lf = self.queue[left];
            let child = if right < n {
                let rf = self.queue[right];
                if lfu_cmp(&self.data[rf].data, &self.data[lf].data) < 0 {
                    right
                } else {
                    left
                }
            } else {
                left
            };
            let cf = self.queue[child];
            if lfu_cmp(&self.data[frame].data, &self.data[cf].data) <= 0 {
                proof {
                    assert forall|i: int| 0 < i < n implies self.key(parent(i)) <= #[trigger] self.key(i) by {
                        if parent(i) == pos {
                            assert(i == left || i == right);
                        }
                    }
                }
                return;
            }
            let ghost prev = *self;
            let xe = self.data[frame];
            let ce = self.data[cf];
            self.queue[pos] = cf;
            self.queue[child] = frame;
            self.data[cf] = HeapElem { data: ce.data, pos };
            self.data[frame] = HeapElem { data: xe.data, pos: child };
            proof {
                assert(self.keys() =~= prev.keys());
                assert(forall|i: int| 0 <= i < n ==> #[trigger] self.key(i) == if i == pos {
                    prev.key(child as int)
                } else if i == child {
                    prev.key(pos as int)
                } else {
                    prev.key(i)
                });
                assert forall|i: int| 0 < i < n && parent(i) != child implies self.key(parent(i)) <= #[trigger] self.key(i) by {
                    if parent(i) == pos {
                        assert(i == left || i == right);
                    } else if i == pos {
                        assert(prev.bridged(pos as int));
                        assert(parent(child as int) == pos);
                    }
                }
                assert forall|i: int| 0 < i < n && parent(i) == child implies self.key(parent(child as int)) <= #[trigger] self.key(i) by {
                    assert(parent(i) != pos);
                    assert(prev.key(parent(i)) <= prev.key(i));
                }
            }
        }
    }

    /// Sets the counter of `frame` to `key` and restores the heap order. The
    /// key may only grow, unless the frame is at the root.
    pub fn update(&mut self, frame: usize, key: u64)
        requires
            old(self).wf(),
            frame < old(self).keys().len(),
            key >= old(self).keys()[frame as int] || old(self).order()[0] == frame,
        ensures
            final(self).wf(),
            final(self).keys() == old(self).keys().update(frame as int, key),
    {
        let e = self.data[frame];
        let ghost prev = *self;
        self.data[frame] = HeapElem { data: key, pos: e.pos };
        proof {
            let p = e.pos as int;
            assert(self.keys() =~= prev.keys().update(frame as int, key));
            assert(forall|i: int| 0 <= i < self.queue@.len() ==> #[trigger] self.key(i) == if i == p {
                key
            } else {
                prev.key(i)
            });
            if p == 0 {
                assert(prev.queue@[0] == frame);
            }
            assert forall|i: int| 0 < i < self.queue@.len() && parent(i) != p implies self.key(parent(i)) <= #[trigger] self.key(i) by {
                assert(prev.key(parent(i)) <= prev.key(i));
                if i == p {
                    assert(prev.queue@[p] == frame);
                }
            }
            assert forall|i: int| 0 < i < self.queue@.len() && parent(i) == p && p > 0 implies self.key(parent(p)) <= #[trigger] self.key(i) by {
                assert(prev.key(parent(i)) <= prev.key(i));
                assert(prev.key(parent(p)) <= prev.key(p));
            }
        }
        self.send_down(frame);
    }
}

/// Least-frequently-used replacement: each frame has an access counter and
/// the victim is a frame with the smallest one.
pub struct LFU {
    heap: Heap,
}

impl LFU {
    /// The access counter of each frame.
    pub closed spec fn counts(&self) -> Seq<u64> {
        self.heap.keys()
    }

    /// The heap the counters are kept in.
    pub closed spec fn heap(&self) -> Heap {
        self.heap
    }
}

impl Replace for LFU {
    open spec fn victim_of(&self) -> usize {
        self.heap().order()[0]
    }

    open spec fn replaced(&self, next: Self) -> bool {
        &&& next.counts() == self.counts().update(self.victim_of() as int, 0)
        &&& next.heap().wf()
    }

    open spec fn accessed(&self, next: Self, frame: usize) -> bool {
        &&& next.counts() == self.counts().update(frame as int, self.counts()[frame as int].saturating_add(1))
        &&& next.heap().wf()
    }

    open spec fn spec_meta_per_block() -> nat {
        24
    }

    fn meta_mem_per_block() -> (r: usize) {
        24
    }

    open spec fn frames(&self) -> nat {
        self.counts().len()
    }

    closed spec fn wf(&self) -> bool {
        self.heap.wf()
    }

    open spec fn accepts(count: nat) -> bool {
        0 < count <= MAX_FRAMES
    }

    fn new(count: usize) -> (r: Self)
        ensures
            r.counts() == Seq::new(count as nat, |f: int| 0u64),
            r.heap().wf(),
    {
        LFU { heap: Heap::new(count) }
    }

    fn replace(&mut self) -> (r: usize)
        ensures
            forall|f: int|
                0 <= f < old(self).counts().len() ==> old(self).counts()[r as int]
                    <= #[trigger] old(self).counts()[f],
            final(self).counts() == old(self).counts().update(r as int, 0),
            final(self).heap().wf(),
    {
        let ret = self.heap.top();
        self.heap.update(ret, 0);
        ret
    }

    fn record_access(&mut self, frame: usize)
        ensures
            final(self).counts() == old(self).counts().update(
                frame as int,
                old(self).counts()[frame as int].saturating_add(1),
            ),
            final(self).heap().wf(),
    {
        let c = self.heap.data[frame].data;
        proof {
            assert(c == self.heap.keys()[frame as int]);
        }
        self.heap.update(frame, c.saturating_add(1));
    }
}

/// The heap of a fully-associative set: the same structure, sized at run time.
pub type FAHeap = Heap;

/// The least-frequently-used policy of a fully-associative set: the same
/// structure, sized at run time.
pub type FALFU = LFU;

} // verus!
