//! Per-set replacement policies: which frame to reuse on a miss.
use vstd::prelude::*;

use vstd::arithmetic::power2::{pow2, lemma2_to64, lemma_pow2_pos, lemma_pow2_strictly_increases};
use vstd::bits::{low_bits_mask, lemma_usize_low_bits_mask_is_mod};

use crate::hash::NULL;
use crate::lookup::MAX_FRAMES;

verus! {

/// A victim-selection policy local to one set of `frames()` frames.
pub trait Replace: Sized {
    /// Number of frames the policy chooses among.
    spec fn frames(&self) -> nat;

    /// Internal well-formedness.
    spec fn wf(&self) -> bool;

    /// The set sizes this policy can serve.
    spec fn accepts(count: nat) -> bool;

    /// Bytes of policy state per frame of the set, as a spec value.
    spec fn spec_meta_per_block() -> nat;

    /// Bytes of policy state per frame of the set.
    fn meta_mem_per_block() -> (r: usize)
        ensures
            r == Self::spec_meta_per_block(),
            r <= 64,
    ;

    fn new(count: usize) -> (r: Self)
        requires
            Self::accepts(count as nat),
        ensures
            r.wf(),
            r.frames() == count,
    ;

    /// The frame the next `replace` chooses.
    spec fn victim_of(&self) -> usize;

    /// `next` is this policy after a `replace`.
    spec fn replaced(&self, next: Self) -> bool;

    /// `next` is this policy after a use of `frame`.
    spec fn accessed(&self, next: Self, frame: usize) -> bool;

    /// Chooses the frame to reuse and counts it as just used.
    fn replace(&mut self) -> (r: usize)
        requires
            old(self).wf(),
        ensures
            final(self).wf(),
            final(self).frames() == old(self).frames(),
            r < old(self).frames(),
            r == old(self).victim_of(),
            old(self).replaced(*final(self)),
    ;

    /// Notes a use of `frame`.
    fn record_access(&mut self, frame: usize)
        requires
            old(self).wf(),
            frame < old(self).frames(),
        ensures
            final(self).wf(),
            final(self).frames() == old(self).frames(),
            old(self).accessed(*final(self), frame),
    ;
}

/// The policy of a direct-mapped set: its one frame is always the victim.
pub struct DMReplace {}

impl Replace for DMReplace {
    open spec fn victim_of(&self) -> usize {
        0
    }

    open spec fn replaced(&self, next: Self) -> bool {
        true
    }

    open spec fn accessed(&self, next: Self, frame: usize) -> bool {
        true
    }

    open spec fn spec_meta_per_block() -> nat {
        0
    }

    fn meta_mem_per_block() -> (r: usize) {
        0
    }

    closed spec fn frames(&self) -> nat {
        1
    }

    closed spec fn wf(&self) -> bool {
        true
    }

    open spec fn accepts(count: nat) -> bool {
        count == 1
    }

    fn new(count: usize) -> (r: Self) {
        DMReplace {  }
    }

    fn replace(&mut self) -> (r: usize)
        ensures
            r == 0,
    {
        0
    }

    fn record_access(&mut self, frame: usize) {
    }
}

/// `n` is a power of two no larger than the frame limit.
pub open spec fn is_pow2(n: nat) -> bool {
    exists|k: nat| k < 31 && pow2(k) == n
}

/// Round-robin victim selection over a power-of-two number of frames; the
/// cursor wraps by masking.
pub struct FIFO {
    curr: usize,
    mask: usize,
    shift: Ghost<nat>,
}

impl FIFO {
    /// The frame the next `replace` returns.
    pub closed spec fn cursor(&self) -> nat {
        self.curr as nat
    }
}

impl Replace for FIFO {
    closed spec fn victim_of(&self) -> usize {
        self.curr
    }

    closed spec fn replaced(&self, next: Self) -> bool {
        &&& next.curr == (self.curr + 1) % (pow2(self.shift@) as int)
        &&& next.mask == self.mask
        &&& next.shift == self.shift
    }

    closed spec fn accessed(&self, next: Self, frame: usize) -> bool {
        next == *self
    }

    open spec fn spec_meta_per_block() -> nat {
        0
    }

    fn meta_mem_per_block() -> (r: usize) {
        0
    }

    closed spec fn frames(&self) -> nat {
        pow2(self.shift@)
    }

    closed spec fn wf(&self) -> bool {
        &&& self.shift@ < 31
        &&& self.mask == low_bits_mask(self.shift@)
        &&& self.curr < pow2(self.shift@)
    }

    open spec fn accepts(count: nat) -> bool {
        is_pow2(count)
    }

    fn new(count: usize) -> (r: Self)
        ensures
            r.cursor() == 0,
    {
        let ghost k = choose|k: nat| k < 31 && pow2(k) == count;
        proof {
            lemma_pow2_pos(k);
        }
        FIFO { curr: 0, mask: count - 1, shift: Ghost(k) }
    }

    fn replace(&mut self) -> (r: usize)
        ensures
            r == old(self).cursor(),
            final(self).cursor() == (old(self).cursor() + 1) % old(self).frames(),
    {
        let ret = self.curr;
        proof {
            lemma_pow2_strictly_increases(self.shift@, 31);
            lemma2_to64();
            lemma_usize_low_bits_mask_is_mod((self.curr + 1) as usize, self.shift@);
            lemma_pow2_pos(self.shift@);
        }
        self.curr = (self.curr + 1) & self.mask;
        ret
    }

    fn record_access(&mut self, frame: usize)
        ensures
            final(self).cursor() == old(self).cursor(),
    {
    }
}

/// Round-robin victim selection over any number of frames; the cursor wraps
/// by remainder.
pub struct FAFIFO {
    curr: usize,
    count: usize,
}

impl FAFIFO {
    /// The frame the next `replace` returns.
    pub closed spec fn cursor(&self) -> nat {
        self.curr as nat
    }
}

impl Replace for FAFIFO {
    closed spec fn victim_of(&self) -> usize {
        self.curr
    }

    closed spec fn replaced(&self, next: Self) -> bool {
        &&& next.curr == (self.curr + 1) % (self.count as int)
        &&& next.count == self.count
    }

    closed spec fn accessed(&self, next: Self, frame: usize) -> bool {
        next == *self
    }

    open spec fn spec_meta_per_block() -> nat {
        0
    }

    fn meta_mem_per_block() -> (r: usize) {
        0
    }

    closed spec fn frames(&self) -> nat {
        self.count as nat
    }

    closed spec fn wf(&self) -> bool {
        &&& 0 < self.count <= MAX_FRAMES
        &&& self.curr < self.count
    }

    open spec fn accepts(count: nat) -> bool {
        0 < count <= MAX_FRAMES
    }

    fn new(count: usize) -> (r: Self)
        ensures
            r.cursor() == 0,
    {
        FAFIFO { curr: 0, count }
    }

    fn replace(&mut self) -> (r: usize)
        ensures
            r == old(self).cursor(),
            final(self).cursor() == (old(self).cursor() + 1) % old(self).frames(),
    {
        let ret = self.curr;
        self.curr = (self.curr + 1) % self.count;
        ret
    }

    fn record_access(&mut self, frame: usize)
        ensures
            final(self).cursor() == old(self).cursor(),
    {
    }
}

/// Starting value of the xorshift register of the random policies.
pub const RANDOM_SEED: usize = 0x981234;

/// One step of the xorshift register: shifts `(13, 17, 5)` on a 32-bit
/// machine, `(13, 7, 17)` on a 64-bit one.
pub open spec fn xorshift(s: usize) -> usize {
    if usize::BITS == 32 {
        let s = s ^ (s << 13usize);
        let s = s ^ (s >> 17usize);
        s ^ (s << 5usize)
    } else {
        let s = s ^ (s << 13usize);
        let s = s ^ (s >> 7usize);
        s ^ (s << 17usize)
    }
}

fn xorshift_step(s: usize) -> (r: usize)
    ensures
        r == xorshift(s),
{
    if usize::BITS == 32 {
        let s = s ^ (s << 13usize);
        let s = s ^ (s >> 17usize);
        s ^ (s << 5usize)
    } else {
        let s = s ^ (s << 13usize);
        let s = s ^ (s >> 7usize);
        s ^ (s << 17usize)
    }
}

/// Pseudo-random victim selection over a power-of-two number of frames: the
/// register's low bits pick the frame.
pub struct Random {
    seed: usize,
    mask: usize,
    shift: Ghost<nat>,
}

impl Random {
    /// The current value of the register.
    pub closed spec fn state(&self) -> usize {
        self.seed
    }
}

impl Replace for Random {
    closed spec fn victim_of(&self) -> usize {
        (xorshift(self.seed) % (pow2(self.shift@) as usize)) as usize
    }

    closed spec fn replaced(&self, next: Self) -> bool {
        &&& next.seed == xorshift(self.seed)
        &&& next.mask == self.mask
        &&& next.shift == self.shift
    }

    closed spec fn accessed(&self, next: Self, frame: usize) -> bool {
        next == *self
    }

    open spec fn spec_meta_per_block() -> nat {
        0
    }

    fn meta_mem_per_block() -> (r: usize) {
        0
    }

    closed spec fn frames(&self) -> nat {
        pow2(self.shift@)
    }

    closed spec fn wf(&self) -> bool {
        &&& self.shift@ < 31
        &&& self.mask == low_bits_mask(self.shift@)
    }

    open spec fn accepts(count: nat) -> bool {
        is_pow2(count)
    }

    fn new(count: usize) -> (r: Self)
        ensures
            r.state() == RANDOM_SEED,
    {
        let ghost k = choose|k: nat| k < 31 && pow2(k) == count;
        proof {
            lemma_pow2_pos(k);
        }
        Random { seed: RANDOM_SEED, mask: count - 1, shift: Ghost(k) }
    }

    fn replace(&mut self) -> (r: usize)
        ensures
            final(self).state() == xorshift(old(self).state()),
            r == final(self).state() % (old(self).frames() as usize),
    {
        let s = xorshift_step(self.seed);
        self.seed = s;
        proof {
            lemma_usize_low_bits_mask_is_mod(s, self.shift@);
            lemma_pow2_pos(self.shift@);
        }
        s & self.mask
    }

    fn record_access(&mut self, frame: usize)
        ensures
            final(self).state() == old(self).state(),
    {
    }
}

/// Pseudo-random victim selection over any number of frames: the register
/// modulo the count picks the frame.
pub struct FARandom {
    seed: usize,
    count: usize,
}

impl FARandom {
    /// The current value of the register.
    pub closed spec fn state(&self) -> usize {
        self.seed
    }
}

impl Replace for FARandom {
    closed spec fn victim_of(&self) -> usize {
        (xorshift(self.seed) % self.count) as usize
    }

    closed spec fn replaced(&self, next: Self) -> bool {
        &&& next.seed == xorshift(self.seed)
        &&& next.count == self.count
    }

    closed spec fn accessed(&self, next: Self, frame: usize) -> bool {
        next == *self
    }

    open spec fn spec_meta_per_block() -> nat {
        0
    }

    fn meta_mem_per_block() -> (r: usize) {
        0
    }

    closed spec fn frames(&self) -> nat {
        self.count as nat
    }

    closed spec fn wf(&self) -> bool {
        0 < self.count <= MAX_FRAMES
    }

    open spec fn accepts(count: nat) -> bool {
        0 < count <= MAX_FRAMES
    }

    fn new(count: usize) -> (r: Self)
        ensures
            r.state() == RANDOM_SEED,
    {
        FARandom { seed: RANDOM_SEED, count }
    }

    fn replace(&mut self) -> (r: usize)
        ensures
            final(self).state() == xorshift(old(self).state()),
            r == final(self).state() % (old(self).frames() as usize),
    {
        let s = xorshift_step(self.seed);
        self.seed = s;
        s % self.count
    }

    fn record_access(&mut self, frame: usize)
        ensures
            final(self).state() == old(self).state(),
    {
    }
}

/// The links of one frame in the recency list of `LRU`.
#[derive(Clone, Copy)]
pub struct LRUMeta {
    next: usize,
    prev: usize,
}

/// Index of `f` in `o`.
pub open spec fn position(o: Seq<usize>, f: usize) -> int {
    choose|i: int| 0 <= i < o.len() && o[i] == f
}

/// The recency order `o` after a use of `f`: `f` moves to the back.
pub open spec fn touched(o: Seq<usize>, f: usize) -> Seq<usize> {
    o.remove(position(o, f)).push(f)
}

/// Positions in the recency order after the frame at position `k` moved to
/// the back.
spec fn moved_rank(rank: Seq<int>, frame: usize, k: int) -> Seq<int> {
    Seq::new(
        rank.len(),
        |g: int|
            if g == frame {
                rank.len() - 1
            } else if rank[g] > k {
                rank[g] - 1
            } else {
                rank[g]
            },
    )
}

/// Least-recently-used replacement: a doubly-linked list over the frames,
/// from least (`front`) to most (`back`) recently used.
pub struct LRU {
    list: Vec<LRUMeta>,
    front: usize,
    back: usize,
    order: Ghost<Seq<usize>>,
    rank: Ghost<Seq<int>>,
}

impl LRU {
    /// The frames, from least to most recently used.
    pub closed spec fn view(&self) -> Seq<usize> {
        self.order@
    }

    spec fn inv(&self) -> bool {
        let n = self.list@.len() as int;
        let o = self.order@;
        &&& 0 < n <= MAX_FRAMES
        &&& o.len() == n
        &&& self.rank@.len() == n
        &&& forall|i: int| 0 <= i < n ==> #[trigger] o[i] < n && self.rank@[o[i] as int] == i
        &&& forall|f: int|
            0 <= f < n ==> 0 <= #[trigger] self.rank@[f] < n && o[self.rank@[f]] == f
        &&& self.front == o[0]
        &&& self.back == o[n - 1]
        &&& forall|i: int| 0 <= i < n - 1 ==> #[trigger] self.list@[o[i] as int].next == o[i + 1]
        &&& self.list@[o[n - 1] as int].next == NULL
        &&& forall|i: int| 0 < i < n ==> #[trigger] self.list@[o[i] as int].prev == o[i - 1]
        &&& self.list@[o[0] as int].prev == NULL
    }

    proof fn lemma_position(&self, f: usize)
        requires
            self.inv(),
            f < self.list@.len(),
        ensures
            position(self.order@, f) == self.rank@[f as int],
            self@.contains(f),
    {
        let o = self.order@;
        let k = self.rank@[f as int];
        assert(0 <= k < o.len() && o[k] == f);
        let c = position(o, f);
        assert(self.rank@[o[c] as int] == c);
    }

    proof fn lemma_move(olds: LRU, news: LRU, frame: usize, k: int)
        requires
            olds.inv(),
            0 <= k < olds.list@.len() - 1,
            olds.order@[k] == frame,
            news.list@.len() == olds.list@.len(),
            news.front == if k == 0 {
                olds.order@[1]
            } else {
                olds.front
            },
            news.back == frame,
            news.order@ == olds.order@.remove(k).push(frame),
            news.rank@ == moved_rank(olds.rank@, frame, k),
            forall|g: int|
                0 <= g < olds.list@.len() ==> #[trigger] news.list@[g] == if g == frame {
                    (LRUMeta { next: NULL, prev: olds.back })
                } else {
                    (LRUMeta {
                        next: if g == olds.back {
                            frame
                        } else if k > 0 && g == olds.order@[k - 1] {
                            olds.order@[k + 1]
                        } else {
                            olds.list@[g].next
                        },
                        prev: if g == olds.order@[k + 1] {
                            olds.list@[frame as int].prev
                        } else {
                            olds.list@[g].prev
                        },
                    })
                },
        ensures
            news.inv(),
    {
        let n = olds.list@.len() as int;
        let o = olds.order@;
        let p = news.order@;
        assert(forall|i: int| 0 <= i < n ==> #[trigger] p[i] == if i < k {
            o[i]
        } else if i < n - 1 {
            o[i + 1]
        } else {
            frame
        });
        assert forall|i: int| 0 <= i < n implies #[trigger] p[i] < n && news.rank@[p[i] as int] == i by {
            if i < k {
                assert(o[i] != frame);
            } else if i < n - 1 {
                assert(o[i + 1] != frame);
            }
        }
        assert forall|f: int| 0 <= f < n implies 0 <= #[trigger] news.rank@[f] < n && p[news.rank@[f]] == f by {
            if f != frame {
                assert(olds.rank@[f] != k);
            }
        }
        assert forall|i: int| 0 <= i < n - 1 implies #[trigger] news.list@[p[i] as int].next == p[i + 1] by {
            if i < k - 1 {
                assert(olds.list@[o[i] as int].next == o[i + 1]);
                assert(o[i] != frame && o[i] != olds.back && o[i] != o[k - 1]);
            } else if i == k - 1 {
                assert(o[i] != frame && o[i] != olds.back);
            } else if i < n - 2 {
                assert(olds.list@[o[i + 1] as int].next == o[i + 2]);
                assert(o[i + 1] != frame && o[i + 1] != olds.back);
                if k > 0 {
                    assert(o[i + 1] != o[k - 1]);
                }
            } else {
                assert(o[n - 1] != frame);
            }
        }
        assert forall|i: int| 0 < i < n implies #[trigger] news.list@[p[i] as int].prev == p[i - 1] by {
            if i < k {
                assert(olds.list@[o[i] as int].prev == o[i - 1]);
                assert(o[i] != frame && o[i] != o[k + 1]);
            } else if i == k {
                assert(o[k + 1] != frame);
                assert(olds.list@[o[k] as int].prev == o[k - 1]);
            } else if i < n - 1 {
                assert(olds.list@[o[i + 1] as int].prev == o[i]);
                assert(o[i + 1] != frame && o[i + 1] != o[k + 1]);
            }
        }
        if k == 0 {
            assert(o[1] != frame);
        } else {
            assert(o[0] != frame && o[0] != o[k + 1]);
        }
    }
}

impl Replace for LRU {
    open spec fn victim_of(&self) -> usize {
        self@[0]
    }

    open spec fn replaced(&self, next: Self) -> bool {
        &&& next@ == self@.drop_first().push(self@[0])
        &&& next.frames() == self.frames()
    }

    open spec fn accessed(&self, next: Self, frame: usize) -> bool {
        &&& next@ == touched(self@, frame)
        &&& next.frames() == self.frames()
    }

    open spec fn spec_meta_per_block() -> nat {
        16
    }

    fn meta_mem_per_block() -> (r: usize) {
        16
    }

    closed spec fn frames(&self) -> nat {
        self.list@.len()
    }

    closed spec fn wf(&self) -> bool {
        self.inv()
    }

    open spec fn accepts(count: nat) -> bool {
        0 < count <= MAX_FRAMES
    }

    fn new(count: usize) -> (r: Self)
        ensures
            r@ == Seq::new(count as nat, |i: int| i as usize),
    {
        let mut list: Vec<LRUMeta> = Vec::new();
        let mut i: usize = 0;
        while i < count
            invariant
                0 < count <= MAX_FRAMES,
                i <= count,
                list@.len() == i,
                forall|j: int|
                    0 <= j < i ==> #[trigger] list@[j] == (LRUMeta {
                        next: if j == count - 1 {
                            NULL
                        } else {
                            (j + 1) as usize
                        },
                        prev: if j == 0 {
                            NULL
                        } else {
                            (j - 1) as usize
                        },
                    }),
            decreases count - i,
        {
            let next = if i == count - 1 {
                NULL
            } else {
                i + 1
            };
            let prev = if i == 0 {
                NULL
            } else {
                i - 1
            };
            list.push(LRUMeta { next, prev });
            i = i + 1;
        }
        LRU {
            list,
            front: 0,
            back: count - 1,
            order: Ghost(Seq::new(count as nat, |i: int| i as usize)),
            rank: Ghost(Seq::new(count as nat, |f: int| f)),
        }
    }

    fn replace(&mut self) -> (r: usize)
        ensures
            r == old(self)@[0],
            final(self)@ == old(self)@.drop_first().push(r),
    {
        let ret = self.front;
        self.record_access(ret);
        proof {
            old(self).lemma_position(ret);
        }
        ret
    }

    fn record_access(&mut self, frame: usize)
        ensures
            final(self)@ == touched(old(self)@, frame),
    {
        proof {
            self.lemma_position(frame);
        }
        let back = self.back;
        if back == frame {
            proof {
                let o = self.order@;
                assert(o.remove(o.len() - 1).push(frame) =~= o);
            }
            return;
        }
        let front = self.front;
        let ghost k = self.rank@[frame as int];
        let m = self.list[frame];
        let next = m.next;
        let prev = m.prev;
        if front != frame {
            let mut pm = self.list[prev];
            pm.next = next;
            self.list[prev] = pm;
        } else {
            self.front = next;
        }
        let mut nm = self.list[next];
        nm.prev = prev;
        self.list[next] = nm;
        let mut bm = self.list[back];
        bm.next = frame;
        self.list[back] = bm;
        self.list[frame] = LRUMeta { next: NULL, prev: back };
        self.back = frame;
        proof {
            self.order@ = old(self).order@.remove(k).push(frame);
            self.rank@ = moved_rank(old(self).rank@, frame, k);
            LRU::lemma_move(*old(self), *self, frame, k);
        }
    }
}

/// The least-recently-used policy of a fully-associative set: the same
/// structure, sized at run time.
pub type FALRU = LRU;

} // verus!
