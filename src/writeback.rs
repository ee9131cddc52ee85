//! The asynchronous writer: a bounded FIFO of page writes, filled by the
//! cache and drained by one worker, with read-your-writes lookup and an error
//! flag the worker raises when a write fails; and a backend that queues its
//! writes in it.
use vstd::prelude::*;
use std::collections::VecDeque;

use crate::io::{byte_or_zero, overwrite, page_of, Reader, SyncIO, Writer};

verus! {

/// The newest queued bytes for `page` in `q`, if any.
pub open spec fn newest(q: Seq<(u64, Seq<u8>)>, page: u64) -> Option<Seq<u8>>
    decreases q.len(),
{
    if q.len() == 0 {
        None
    } else if q.last().0 == page {
        Some(q.last().1)
    } else {
        newest(q.drop_last(), page)
    }
}

/// A queued write as page and bytes.
pub open spec fn entry_view(e: (u64, Vec<u8>)) -> (u64, Seq<u8>) {
    (e.0, e.1@)
}

/// What became of a submitted write.
pub enum Submit {
    /// The write is queued.
    Queued,
    /// The queue is full: wait for the worker and submit again.
    Full,
    /// A queued write of this page failed since the last call; it and the
    /// writes queued after it were dropped, and nothing was queued now.
    Failed(u64),
}

/// Queue, end flag and error flag of the asynchronous writer.
pub struct AsyncIOImpl {
    queue: VecDeque<(u64, Vec<u8>)>,
    capacity: usize,
    end: bool,
    error: Option<u64>,
}

impl AsyncIOImpl {
    /// The queued writes, oldest first.
    pub closed spec fn pending(&self) -> Seq<(u64, Seq<u8>)> {
        Seq::new(self.queue@.len(), |i: int| (self.queue@[i].0, self.queue@[i].1@))
    }

    /// How many writes the queue holds at most.
    pub closed spec fn capacity(&self) -> nat {
        self.capacity as nat
    }

    /// Whether the worker was told to stop once the queue is empty.
    pub closed spec fn ended(&self) -> bool {
        self.end
    }

    /// The page whose write failed, not yet reported.
    pub closed spec fn error(&self) -> Option<u64> {
        self.error
    }

    pub closed spec fn wf(&self) -> bool {
        0 < self.capacity && self.queue@.len() <= self.capacity
    }

    /// An empty queue of `capacity` writes.
    pub fn new(capacity: usize) -> (r: Self)
        requires
            capacity > 0,
        ensures
            r.wf(),
            r.pending() == Seq::<(u64, Seq<u8>)>::empty(),
            r.capacity() == capacity,
            !r.ended(),
            r.error() == None::<u64>,
    {
        let r = AsyncIOImpl { queue: VecDeque::new(), capacity, end: false, error: None };
        assert(r.pending() =~= Seq::<(u64, Seq<u8>)>::empty());
        r
    }

    /// Queues a copy of `block` as the new bytes of `page`, unless a write
    /// failed since the last call or the queue is full.
    pub fn submit(&mut self, page: u64, block: &[u8]) -> (r: Submit)
        requires
            old(self).wf(),
        ensures
            final(self).wf(),
            final(self).capacity() == old(self).capacity(),
            final(self).ended() == old(self).ended(),
            final(self).error() == None::<u64>,
            old(self).error() is Some ==> r == Submit::Failed(old(self).error()->0) && final(self).pending()
                == old(self).pending(),
            old(self).error() is None && old(self).pending().len() == old(self).capacity() ==> r
                == Submit::Full && final(self).pending() == old(self).pending(),
            old(self).error() is None && old(self).pending().len() < old(self).capacity() ==> r
                == Submit::Queued && final(self).pending() == old(self).pending().push((page, block@)),
    {
        if let Some(p) = self.error {
            self.error = None;
            return Submit::Failed(p);
        }
        if self.queue.len() >= self.capacity {
            return Submit::Full;
        }
        let mut copy: Vec<u8> = Vec::new();
        let mut i: usize = 0;
        while i < block.len()
            invariant
                i <= block@.len(),
                copy@ == block@.subrange(0, i as int),
            decreases block@.len() - i,
        {
            copy.push(block[i]);
            i = i + 1;
        }
        proof {
            assert(copy@ =~= block@);
        }
        let ghost before = self.pending();
        self.queue.push_back((page, copy));
        proof {
            assert(self.pending() =~= before.push((page, block@)));
        }
        Submit::Queued
    }

    /// Reports, and clears, the page whose write failed.
    pub fn take_error(&mut self) -> (r: Option<u64>)
        requires
            old(self).wf(),
        ensures
            final(self).wf(),
            r == old(self).error(),
            final(self).error() == None::<u64>,
            final(self).pending() == old(self).pending(),
            final(self).capacity() == old(self).capacity(),
            final(self).ended() == old(self).ended(),
    {
        let r = self.error;
        self.error = None;
        r
    }

    /// The oldest queued write, copied out for the worker.
    pub fn next(&self) -> (r: Option<(u64, Vec<u8>)>)
        requires
            self.wf(),
        ensures
            self.pending().len() == 0 <==> r is None,
            r is Some ==> entry_view(r->0) == self.pending()[0],
    {
        if self.queue.len() == 0 {
            return None;
        }
        let page = self.queue[0].0;
        let src = &self.queue[0].1;
        let mut copy: Vec<u8> = Vec::new();
        let mut i: usize = 0;
        while i < src.len()
            invariant
                i <= src@.len(),
                copy@ == src@.subrange(0, i as int),
            decreases src@.len() - i,
        {
            copy.push(src[i]);
            i = i + 1;
        }
        proof {
            assert(copy@ =~= src@);
        }
        Some((page, copy))
    }

    /// The worker wrote the oldest queued write: it leaves the queue.
    pub fn complete(&mut self)
        requires
            old(self).wf(),
            old(self).pending().len() > 0,
        ensures
            final(self).wf(),
            final(self).pending() == old(self).pending().drop_first(),
            final(self).error() == old(self).error(),
            final(self).capacity() == old(self).capacity(),
            final(self).ended() == old(self).ended(),
    {
        let ghost before = self.pending();
        let _ = self.queue.pop_front();
        proof {
            assert(self.pending() =~= before.drop_first());
        }
    }

    /// The worker failed to write the oldest queued write: the error is
    /// raised with its page, and the queue is dropped.
    pub fn fail(&mut self)
        requires
            old(self).wf(),
            old(self).pending().len() > 0,
        ensures
            final(self).wf(),
            final(self).error() == Some(old(self).pending()[0].0),
            final(self).pending() == Seq::<(u64, Seq<u8>)>::empty(),
            final(self).capacity() == old(self).capacity(),
            final(self).ended() == old(self).ended(),
    {
        let page = self.queue[0].0;
        self.queue.clear();
        self.error = Some(page);
        proof {
            assert(self.pending() =~= Seq::<(u64, Seq<u8>)>::empty());
        }
    }

    /// The newest queued bytes of `page`, so that a read sees writes the
    /// worker has not done yet.
    pub fn lookup(&self, page: u64) -> (r: Option<Vec<u8>>)
        requires
            self.wf(),
        ensures
            newest(self.pending(), page) is None <==> r is None,
            r is Some ==> newest(self.pending(), page) == Some(r->0@),
    {
        let mut i: usize = self.queue.len();
        proof {
            assert(self.pending().subrange(0, i as int) =~= self.pending());
        }
        while i > 0
            invariant
                i <= self.queue@.len(),
                newest(self.pending(), page) == newest(self.pending().subrange(0, i as int), page),
            decreases i,
        {
            if self.queue[i - 1].0 == page {
                let src = &self.queue[i - 1].1;
                let mut copy: Vec<u8> = Vec::new();
                let mut j: usize = 0;
                while j < src.len()
                    invariant
                        j <= src@.len(),
                        copy@ == src@.subrange(0, j as int),
                    decreases src@.len() - j,
                {
                    copy.push(src[j]);
                    j = j + 1;
                }
                proof {
                    assert(copy@ =~= src@);
                    let s = self.pending().subrange(0, i as int);
                    assert(s.last() == self.pending()[i - 1]);
                }
                return Some(copy);
            }
            proof {
                let s = self.pending().subrange(0, i as int);
                assert(s.drop_last() =~= self.pending().subrange(0, i - 1));
            }
            i = i - 1;
        }
        proof {
            assert(self.pending().subrange(0, 0) =~= Seq::<(u64, Seq<u8>)>::empty());
        }
        None
    }

    /// Tells the worker to stop once the queue is empty.
    pub fn finish(&mut self)
        requires
            old(self).wf(),
        ensures
            final(self).wf(),
            final(self).ended(),
            final(self).pending() == old(self).pending(),
            final(self).error() == old(self).error(),
            final(self).capacity() == old(self).capacity(),
    {
        self.end = true;
    }

    /// Whether the worker may stop: it was told to and nothing is queued.
    pub fn is_done(&self) -> (r: bool)
        requires
            self.wf(),
        ensures
            r == (self.ended() && self.pending().len() == 0),
    {
        self.end && self.queue.len() == 0
    }
}

/// `s` with the page writes of `q` applied in order, pages of `b` bytes.
pub open spec fn apply_pages(s: Seq<u8>, q: Seq<(u64, Seq<u8>)>, b: int) -> Seq<u8>
    decreases q.len(),
{
    if q.len() == 0 {
        s
    } else {
        overwrite(apply_pages(s, q.drop_last(), b), q.last().0 * b, q.last().1)
    }
}

/// Page `p` after the queued writes: the newest queued bytes of `p`, or what
/// the source holds.
proof fn lemma_pending_page(s: Seq<u8>, q: Seq<(u64, Seq<u8>)>, b: int, p: u64)
    requires
        b > 0,
        forall|i: int| 0 <= i < q.len() ==> (#[trigger] q[i]).1.len() == b,
    ensures
        page_of(apply_pages(s, q, b), p as int, b) == match newest(q, p) {
            Some(d) => d,
            None => page_of(s, p as int, b),
        },
        newest(q, p) is Some ==> apply_pages(s, q, b).len() >= (p + 1) * b,
        apply_pages(s, q, b).len() >= s.len(),
    decreases q.len(),
{
    if q.len() > 0 {
        let r = q.drop_last();
        assert forall|i: int| 0 <= i < r.len() implies (#[trigger] r[i]).1.len() == b by {
            assert(r[i] == q[i]);
        }
        lemma_pending_page(s, r, b, p);
        assert(q.last() == q[q.len() - 1]);
        crate::cache_impl::lemma_page_write(apply_pages(s, r, b), q.last().0 as int, b, q.last().1);
        assert((p + 1) * b == p * b + b) by (nonlinear_arith);
    }
}

/// Applying the oldest queued write first, then the others, gives the same
/// bytes as applying them all.
proof fn lemma_drain_first(s: Seq<u8>, q: Seq<(u64, Seq<u8>)>, b: int)
    requires
        q.len() > 0,
    ensures
        apply_pages(overwrite(s, q[0].0 * b, q[0].1), q.drop_first(), b) == apply_pages(s, q, b),
    decreases q.len(),
{
    let s1 = overwrite(s, q[0].0 * b, q[0].1);
    if q.len() > 1 {
        let r = q.drop_last();
        lemma_drain_first(s, r, b);
        assert(q.drop_first().drop_last() =~= r.drop_first());
        assert(q.drop_first().last() == q.last());
        assert(r[0] == q[0]);
        assert(apply_pages(s1, q.drop_first(), b) == overwrite(
            apply_pages(s1, q.drop_first().drop_last(), b),
            q.last().0 * b,
            q.last().1,
        ));
    } else {
        assert(q.drop_first() =~= Seq::<(u64, Seq<u8>)>::empty());
        assert(q.drop_last() =~= Seq::<(u64, Seq<u8>)>::empty());
        assert(q.last() == q[0]);
        assert(apply_pages(s, q.drop_last(), b) == s);
        assert(apply_pages(s1, q.drop_first(), b) == s1);
    }
}

/// A backend whose page writes are queued and applied to the bytes in
/// order, when the queue is full or when drained; reads see queued writes.
pub struct QueuedIO {
    store: SyncIO,
    queue: AsyncIOImpl,
    len: u64,
    block_size: usize,
}

impl QueuedIO {
    spec fn inv(&self) -> bool {
        &&& self.queue.wf()
        &&& self.queue.error() is None
        &&& self.store.block_size() == self.block_size
        &&& self.block_size > 0
        &&& self.len == apply_pages(self.store@, self.queue.pending(), self.block_size as int).len()
        &&& forall|i: int|
            0 <= i < self.queue.pending().len() ==> (#[trigger] self.queue.pending()[i]).1.len() == self.block_size
                && (self.queue.pending()[i].0 + 1) * self.block_size <= usize::MAX
    }

    /// The bytes of the source itself, without the queued writes.
    pub closed spec fn stored(&self) -> Seq<u8> {
        self.store@
    }

    /// The queued writes, oldest first.
    pub closed spec fn pending(&self) -> Seq<(u64, Seq<u8>)> {
        self.queue.pending()
    }

    /// How many writes the queue holds at most.
    pub closed spec fn capacity(&self) -> nat {
        self.queue.capacity()
    }

    /// A backend over `source` with pages of `block_size` bytes and room for
    /// `queue_len` queued writes.
    pub fn new(source: Vec<u8>, block_size: usize, queue_len: usize) -> (r: Self)
        requires
            block_size > 0,
            queue_len > 0,
        ensures
            r.wf(),
            r@ == source@,
            r.stored() == source@,
            r.pending() == Seq::<(u64, Seq<u8>)>::empty(),
            r.block_size() == block_size,
    {
        let store = SyncIO::new(source, block_size);
        let queue = AsyncIOImpl::new(queue_len);
        let len = store.len();
        QueuedIO { store, queue, len, block_size }
    }

    /// Applies the oldest queued write to the bytes.
    pub fn drain_one(&mut self)
        requires
            old(self).wf(),
            old(self).pending().len() > 0,
        ensures
            final(self).wf(),
            final(self)@ == old(self)@,
            final(self).pending() == old(self).pending().drop_first(),
            final(self).block_size() == old(self).block_size(),
            final(self).capacity() == old(self).capacity(),
    {
        let job = self.queue.next();
        let (page, block) = job.unwrap();
        proof {
            assert(self.queue.pending()[0].1.len() == self.block_size);
            lemma_drain_first(self.store@, self.queue.pending(), self.block_size as int);
        }
        self.store.write(page, &block);
        self.queue.complete();
    }

    /// Applies every queued write, oldest first.
    pub fn drain(&mut self)
        requires
            old(self).wf(),
        ensures
            final(self).wf(),
            final(self)@ == old(self)@,
            final(self).stored() == old(self)@,
            final(self).pending() == Seq::<(u64, Seq<u8>)>::empty(),
            final(self).block_size() == old(self).block_size(),
    {
        while self.queue.queue.len() > 0
            invariant
                self.wf(),
                self@ == old(self)@,
                self.block_size == old(self).block_size,
            decreases self.queue.queue@.len(),
        {
            self.drain_one();
        }
        proof {
            assert(self.queue.pending() =~= Seq::<(u64, Seq<u8>)>::empty());
        }
    }

    /// Applies every queued write and hands the bytes back.
    pub fn into_inner(self) -> (r: Vec<u8>)
        requires
            self.wf(),
        ensures
            r@ == self@,
    {
        let mut me = self;
        me.drain();
        me.store.into_inner()
    }
}

impl Reader for QueuedIO {
    open spec fn view(&self) -> Seq<u8> {
        apply_pages(self.stored(), self.pending(), self.block_size() as int)
    }

    closed spec fn block_size(&self) -> nat {
        self.block_size as nat
    }

    closed spec fn wf(&self) -> bool {
        self.inv()
    }

    fn len(&self) -> (r: u64) {
        self.len
    }

    fn read(&self, page: u64, block: &mut Vec<u8>) -> (n: usize) {
        let b = self.block_size;
        let found = self.queue.lookup(page);
        proof {
            lemma_pending_page(self.store@, self.queue.pending(), b as int, page);
        }
        let ghost v = apply_pages(self.store@, self.queue.pending(), b as int);
        match found {
            Some(d) => {
                let mut j: usize = 0;
                while j < b
                    invariant
                        j <= b,
                        d@ == page_of(v, page as int, b as int),
                        d@.len() == b,
                        block@.len() == old(block)@.len(),
                        old(block)@.len() == b,
                        v.len() >= (page + 1) * b,
                        forall|i: int| 0 <= i < j ==> #[trigger] block@[i] == v[page * b + i],
                        forall|i: int| j <= i < block@.len() ==> #[trigger] block@[i] == old(block)@[i],
                    decreases b - j,
                {
                    proof {
                        assert((page + 1) * b == page * b + b) by (nonlinear_arith);
                        assert(page_of(v, page as int, b as int)[j as int] == byte_or_zero(v, page * b + j));
                    }
                    block[j] = d[j];
                    j = j + 1;
                }
                proof {
                    assert((page + 1) * b == page * b + b) by (nonlinear_arith);
                }
                b
            },
            None => {
                let ns = self.store.read(page, block);
                proof {
                    assert((page as int) * (b as int) <= 0xFFFF_FFFF_FFFF_FFFFu128 * 0xFFFF_FFFF_FFFF_FFFFu128)
                        by (nonlinear_arith)
                        requires
                            page <= 0xFFFF_FFFF_FFFF_FFFFu64,
                            b <= 0xFFFF_FFFF_FFFF_FFFFu64,
                    ;
                }
                let start = page as u128 * b as u128;
                let len = self.len as u128;
                let nv: usize = if len <= start {
                    0
                } else if len >= start + b as u128 {
                    b
                } else {
                    (len - start) as usize
                };
                proof {
                    assert((page + 1) * b == page * b + b) by (nonlinear_arith);
                    assert(ns <= nv);
                }
                let mut j: usize = ns;
                while j < nv
                    invariant
                        ns <= j <= nv <= b,
                        block@.len() == old(block)@.len(),
                        old(block)@.len() == b,
                        forall|i: int| 0 <= i < ns ==> #[trigger] block@[i] == self.store@[page * b + i],
                        forall|i: int| ns <= i < j ==> #[trigger] block@[i] == 0,
                        forall|i: int| nv <= i < block@.len() ==> #[trigger] block@[i] == old(block)@[i],
                    decreases nv - j,
                {
                    block[j] = 0;
                    j = j + 1;
                }
                proof {
                    assert forall|i: int| 0 <= i < nv implies #[trigger] block@[i] == v[page * b + i] by {
                        assert(page_of(v, page as int, b as int)[i] == page_of(self.store@, page as int, b as int)[i]);
                        assert(page * b + i < v.len());
                        if i >= ns {
                            assert(page * b + i >= self.store@.len());
                        }
                    }
                }
                nv
            },
        }
    }
}

impl Writer for QueuedIO {
    open spec fn max_len(&self) -> nat {
        usize::MAX as nat
    }

    fn write(&mut self, page: u64, block: &Vec<u8>) {
        if self.queue.queue.len() >= self.queue.capacity {
            self.drain_one();
        }
        let b = self.block_size;
        let ghost before = self.queue.pending();
        let ghost v0 = apply_pages(self.store@, before, b as int);
        proof {
            assert(before.len() < self.queue.capacity());
            assert(self.queue.error() is None);
        }
        let _ = self.queue.submit(page, block.as_slice());
        proof {
            assert((page + 1) * b == page * b + b) by (nonlinear_arith);
            let q = self.queue.pending();
            assert(q.drop_last() =~= before);
            assert(q.last() == (page, block@));
            assert forall|i: int|
                0 <= i < q.len() implies (#[trigger] q[i]).1.len() == b && (q[i].0 + 1) * b <= usize::MAX by {
                if i < before.len() {
                    assert(q[i] == before[i]);
                }
            }
        }
        proof {
            assert(page + 1 <= (page + 1) * b) by (nonlinear_arith)
                requires
                    b >= 1,
            ;
        }
        let end = (page + 1) * (b as u64);
        if end > self.len {
            self.len = end;
        }
    }
}

} // verus!
