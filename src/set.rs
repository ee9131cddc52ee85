//! A set of frames with its lookup index and replacement policy, and the
//! collection of sets that divides the memory budget.
use vstd::prelude::*;

use crate::hash::{DEL, NIL, NULL};
use crate::io::{page_of, Reader};
use crate::lookup::{DMLookup, Lookup, MAX_FRAMES};
use crate::replace::{DMReplace, Replace};

verus! {

/// Largest page size in bytes.
pub const MAX_BLOCK: usize = 0x1000_0000;

/// What a frame holds: a page number (`NIL` when the frame is free) and
/// whether its bytes differ from the source.
#[derive(Clone, Copy)]
pub struct BlockInfo {
    pub page: u64,
    pub dirty: bool,
}

/// `W` frames of `B` bytes each, a lookup index and a replacement policy.
pub struct NWaySet<L: Lookup, R: Replace> {
    blocks: Vec<Vec<u8>>,
    info: Vec<BlockInfo>,
    lookup: L,
    replace: R,
    block_size: usize,
}

impl<L: Lookup, R: Replace> NWaySet<L, R> {
    /// Number of frames.
    pub closed spec fn ways(&self) -> nat {
        self.info@.len()
    }

    /// Page size in bytes.
    pub closed spec fn block_size(&self) -> nat {
        self.block_size as nat
    }

    /// The resident pages and their frames, as the lookup index has them.
    pub closed spec fn pages(&self) -> Map<u64, usize> {
        self.lookup@
    }

    /// What frame `f` holds.
    pub closed spec fn frame(&self, f: int) -> BlockInfo {
        self.info@[f]
    }

    /// The bytes of frame `f`.
    pub closed spec fn data(&self, f: int) -> Seq<u8> {
        self.blocks@[f]@
    }

    /// The replacement policy.
    pub closed spec fn policy(&self) -> R {
        self.replace
    }

    /// The lookup index.
    pub closed spec fn index(&self) -> L {
        self.lookup
    }

    /// Each frame's page is found by the lookup index at that frame, and the
    /// index knows no other page.
    pub closed spec fn wf(&self) -> bool {
        let n = self.info@.len();
        &&& self.blocks@.len() == n
        &&& self.lookup.wf()
        &&& self.replace.wf()
        &&& self.lookup.frames() == n
        &&& self.replace.frames() == n
        &&& 0 < n <= MAX_FRAMES
        &&& 0 < self.block_size <= MAX_BLOCK
        &&& self.lookup@.dom().finite()
        &&& forall|f: int| 0 <= f < n ==> #[trigger] self.blocks@[f]@.len() == self.block_size
        &&& forall|f: int|
            0 <= f < n ==> (#[trigger] self.info@[f]).page == NIL || self.info@[f].page < DEL
        &&& forall|f: int| 0 <= f < n && (#[trigger] self.info@[f]).page == NIL ==> !self.info@[f].dirty
        &&& forall|f: int|
            0 <= f < n && (#[trigger] self.info@[f]).page < DEL ==> self.lookup@.contains_key(
                self.info@[f].page,
            ) && self.lookup@[self.info@[f].page] == f
        &&& forall|p: u64| #[trigger]
            self.lookup@.contains_key(p) ==> p < DEL && self.lookup@[p] < n && self.info@[self.lookup@[
                p
            ] as int].page == p
    }

    /// What well-formedness says of the frames and the resident pages: each
    /// frame's page is found by the lookup index at that frame, and the index
    /// knows no other page.
    pub open spec fn consistent(&self) -> bool {
        &&& self.pages() == self.index()@
        &&& self.index().wf()
        &&& self.index().frames() == self.ways()
        &&& 0 < self.ways() <= MAX_FRAMES
        &&& 0 < self.block_size() <= MAX_BLOCK
        &&& self.pages().dom().finite()
        &&& forall|f: int| 0 <= f < self.ways() ==> #[trigger] self.data(f).len() == self.block_size()
        &&& forall|f: int|
            0 <= f < self.ways() ==> #[trigger] self.frame(f).page == NIL || self.frame(f).page < DEL
        &&& forall|f: int|
            0 <= f < self.ways() && #[trigger] self.frame(f).page == NIL ==> !self.frame(f).dirty
        &&& forall|f: int|
            0 <= f < self.ways() && #[trigger] self.frame(f).page < DEL ==> self.pages().contains_key(
                self.frame(f).page,
            ) && self.pages()[self.frame(f).page] == f
        &&& forall|p: u64| #[trigger]
            self.pages().contains_key(p) ==> p < DEL && self.pages()[p] < self.ways() && self.frame(
                self.pages()[p] as int,
            ).page == p
    }

    pub proof fn lemma_wf(&self)
        requires
            self.wf(),
        ensures
            self.consistent(),
    {
    }

    /// Frame `g` is the same in `self` and `o`.
    pub open spec fn same_frame(&self, o: &Self, g: int) -> bool {
        self.frame(g) == o.frame(g) && self.data(g) == o.data(g)
    }

    /// A set of `ways` free frames of `block_size` zero bytes.
    pub fn new(ways: usize, block_size: usize) -> (r: Self)
        requires
            L::accepts(ways as nat),
            R::accepts(ways as nat),
            0 < ways <= MAX_FRAMES,
            0 < block_size <= MAX_BLOCK,
        ensures
            r.wf(),
            r.ways() == ways,
            r.block_size() == block_size,
            r.pages() == Map::<u64, usize>::empty(),
    {
        let mut blocks: Vec<Vec<u8>> = Vec::new();
        let mut info: Vec<BlockInfo> = Vec::new();
        let mut i: usize = 0;
        while i < ways
            invariant
                i <= ways,
                blocks@.len() == i,
                info@.len() == i,
                forall|j: int| 0 <= j < i ==> #[trigger] blocks@[j]@.len() == block_size,
                forall|j: int| 0 <= j < i ==> #[trigger] info@[j] == (BlockInfo { page: NIL, dirty: false }),
            decreases ways - i,
        {
            let block: Vec<u8> = vec![0u8; block_size];
            blocks.push(block);
            info.push(BlockInfo { page: NIL, dirty: false });
            i = i + 1;
        }
        let lookup = L::new(ways);
        let replace = R::new(ways);
        NWaySet { blocks, info, lookup, replace, block_size }
    }

    /// The frame holding `page`, or `NULL`.
    pub fn get(&self, page: u64) -> (r: usize)
        requires
            self.wf(),
            page < DEL,
        ensures
            self.pages().contains_key(page) ==> r == self.pages()[page],
            !self.pages().contains_key(page) ==> r == NULL,
    {
        let f = self.lookup.find(page);
        proof {
            if f < self.info@.len() && self.info@[f as int].page == page {
                assert(self.info@[f as int].page < DEL);
            }
        }
        if f < self.info.len() && self.info[f].page == page {
            f
        } else {
            NULL
        }
    }

    /// Number of frames.
    pub fn frame_count(&self) -> (r: usize)
        requires
            self.wf(),
        ensures
            r == self.ways(),
    {
        self.info.len()
    }

    /// Page size in bytes.
    pub fn page_size(&self) -> (r: usize)
        ensures
            r == self.block_size(),
    {
        self.block_size
    }

    /// What frame `f` holds.
    pub fn info(&self, f: usize) -> (r: BlockInfo)
        requires
            self.wf(),
            f < self.ways(),
        ensures
            r == self.frame(f as int),
    {
        self.info[f]
    }

    /// The bytes of frame `f`.
    pub fn block(&self, f: usize) -> (r: &Vec<u8>)
        requires
            self.wf(),
            f < self.ways(),
        ensures
            r@ == self.data(f as int),
    {
        &self.blocks[f]
    }

    /// Asks the policy for the frame to reuse.
    pub fn victim(&mut self) -> (r: usize)
        requires
            old(self).wf(),
        ensures
            final(self).wf(),
            r < old(self).ways(),
            r == old(self).policy().victim_of(),
            old(self).policy().replaced(final(self).policy()),
            final(self).ways() == old(self).ways(),
            final(self).block_size() == old(self).block_size(),
            final(self).pages() == old(self).pages(),
            forall|g: int| 0 <= g < old(self).ways() ==> #[trigger] final(self).same_frame(old(self), g),
    {
        self.replace.replace()
    }

    /// Notes a use of frame `f`.
    pub fn touch(&mut self, f: usize)
        requires
            old(self).wf(),
            f < old(self).ways(),
        ensures
            final(self).wf(),
            final(self).ways() == old(self).ways(),
            final(self).block_size() == old(self).block_size(),
            final(self).pages() == old(self).pages(),
            old(self).policy().accessed(final(self).policy(), f),
            forall|g: int| 0 <= g < old(self).ways() ==> #[trigger] final(self).same_frame(old(self), g),
    {
        self.replace.record_access(f)
    }

    /// Frees frame `f`, which holds a page.
    pub fn release(&mut self, f: usize)
        requires
            old(self).wf(),
            f < old(self).ways(),
            old(self).frame(f as int).page < DEL,
        ensures
            final(self).wf(),
            final(self).ways() == old(self).ways(),
            final(self).block_size() == old(self).block_size(),
            final(self).pages() == old(self).pages().remove(old(self).frame(f as int).page),
            final(self).frame(f as int) == (BlockInfo { page: NIL, dirty: false }),
            final(self).data(f as int) == old(self).data(f as int),
            forall|g: int|
                0 <= g < old(self).ways() && g != f ==> #[trigger] final(self).same_frame(old(self), g),
    {
        let q = self.info[f].page;
        self.lookup.remove(q, f);
        self.info.set(f, BlockInfo { page: NIL, dirty: false });
        proof {
            assert forall|p: u64| #[trigger] self.pages().contains_key(p) implies p < DEL
                && self.pages()[p] < self.ways() && self.frame(self.pages()[p] as int).page == p by {
                assert(old(self).pages().contains_key(p));
            }
        }
    }

    /// Loads page `page` from `src` into frame `f`, which is free; the bytes
    /// past the end of the source are zero.
    pub fn load<B: Reader>(&mut self, f: usize, page: u64, src: &B)
        requires
            old(self).wf(),
            f < old(self).ways(),
            old(self).frame(f as int).page == NIL,
            page < DEL,
            !old(self).pages().contains_key(page),
            src.wf(),
            src.block_size() == old(self).block_size(),
        ensures
            final(self).wf(),
            final(self).ways() == old(self).ways(),
            final(self).block_size() == old(self).block_size(),
            final(self).pages() == old(self).pages().insert(page, f),
            final(self).frame(f as int) == (BlockInfo { page, dirty: false }),
            final(self).data(f as int) == page_of(src@, page as int, old(self).block_size() as int),
            old(self).policy().accessed(final(self).policy(), f),
            forall|g: int|
                0 <= g < old(self).ways() && g != f ==> #[trigger] final(self).same_frame(old(self), g),
    {
        let b = self.block_size;
        let n = src.read(page, &mut self.blocks[f]);
        let mut j: usize = n;
        while j < b
            invariant
                n <= j <= b,
                self.blocks@.len() == old(self).blocks@.len(),
                f < self.blocks@.len(),
                self.blocks@[f as int]@.len() == b,
                forall|i: int| 0 <= i < n ==> #[trigger] self.blocks@[f as int]@[i] == src@[page * b + i],
                forall|i: int| n <= i < j ==> #[trigger] self.blocks@[f as int]@[i] == 0,
                forall|g: int| 0 <= g < self.blocks@.len() && g != f ==> #[trigger] self.blocks@[g] == old(self).blocks@[g],
                self.info == old(self).info,
                self.lookup == old(self).lookup,
                self.replace == old(self).replace,
                self.block_size == b,
            decreases b - j,
        {
            self.blocks[f][j] = 0;
            j = j + 1;
        }
        proof {
            assert((page + 1) * b == page * b + b) by (nonlinear_arith);
            assert forall|i: int| 0 <= i < b implies #[trigger] self.blocks@[f as int]@[i] == byte_or_zero_at(src@, page as int, b as int, i) by {
                if i >= n {
                    assert(page * b + i >= src@.len());
                } else {
                    assert(page * b + i < src@.len());
                }
            }
            assert(self.blocks@[f as int]@ =~= page_of(src@, page as int, b as int));
        }
        proof {
            lemma_pages_facts(&self.lookup);
            let m = self.lookup@;
            assert forall|q: u64| #[trigger] m.contains_key(q) implies m[q] != f by {
                assert(self.info@[m[q] as int].page == q);
            }
        }
        self.lookup.insert(page, f);
        self.info.set(f, BlockInfo { page, dirty: false });
        self.replace.record_access(f);
        proof {
            assert forall|p: u64| #[trigger] self.pages().contains_key(p) implies p < DEL
                && self.pages()[p] < self.ways() && self.frame(self.pages()[p] as int).page == p by {
                if p != page {
                    assert(old(self).pages().contains_key(p));
                }
            }
        }
    }

    /// Installs page `page` in frame `f`, which is free, with the bytes
    /// `data[from..from + block_size]`, marked dirty: nothing is read.
    pub fn fill(&mut self, f: usize, page: u64, data: &[u8], from: usize)
        requires
            old(self).wf(),
            f < old(self).ways(),
            old(self).frame(f as int).page == NIL,
            page < DEL,
            !old(self).pages().contains_key(page),
            from + old(self).block_size() <= data@.len(),
        ensures
            final(self).wf(),
            final(self).ways() == old(self).ways(),
            final(self).block_size() == old(self).block_size(),
            final(self).pages() == old(self).pages().insert(page, f),
            final(self).frame(f as int) == (BlockInfo { page, dirty: true }),
            final(self).data(f as int) == data@.subrange(from as int, from + old(self).block_size()),
            old(self).policy().accessed(final(self).policy(), f),
            forall|g: int|
                0 <= g < old(self).ways() && g != f ==> #[trigger] final(self).same_frame(old(self), g),
    {
        let b = self.block_size;
        let dl = data.len();
        let mut j: usize = 0;
        while j < b
            invariant
                j <= b,
                dl == data@.len(),
                from + b <= dl,
                self.blocks@.len() == old(self).blocks@.len(),
                f < self.blocks@.len(),
                self.blocks@[f as int]@.len() == b,
                forall|i: int| 0 <= i < j ==> #[trigger] self.blocks@[f as int]@[i] == data@[from + i],
                forall|g: int| 0 <= g < self.blocks@.len() && g != f ==> #[trigger] self.blocks@[g] == old(self).blocks@[g],
                self.info == old(self).info,
                self.lookup == old(self).lookup,
                self.replace == old(self).replace,
                self.block_size == b,
            decreases b - j,
        {
            self.blocks[f][j] = data[from + j];
            j = j + 1;
        }
        proof {
            assert(self.blocks@[f as int]@ =~= data@.subrange(from as int, from + b));
            lemma_pages_facts(&self.lookup);
            let m = self.lookup@;
            assert forall|q: u64| #[trigger] m.contains_key(q) implies m[q] != f by {
                assert(self.info@[m[q] as int].page == q);
            }
        }
        self.lookup.insert(page, f);
        self.info.set(f, BlockInfo { page, dirty: true });
        self.replace.record_access(f);
        proof {
            assert forall|p: u64| #[trigger] self.pages().contains_key(p) implies p < DEL
                && self.pages()[p] < self.ways() && self.frame(self.pages()[p] as int).page == p by {
                if p != page {
                    assert(old(self).pages().contains_key(p));
                }
            }
        }
    }

    /// Copies `data[from..from + n]` into frame `f` at `at` and marks it dirty.
    pub fn store(&mut self, f: usize, at: usize, data: &[u8], from: usize, n: usize)
        requires
            old(self).wf(),
            f < old(self).ways(),
            old(self).frame(f as int).page < DEL,
            at + n <= old(self).block_size(),
            from + n <= data@.len(),
        ensures
            final(self).wf(),
            final(self).ways() == old(self).ways(),
            final(self).block_size() == old(self).block_size(),
            final(self).pages() == old(self).pages(),
            final(self).frame(f as int) == (BlockInfo { page: old(self).frame(f as int).page, dirty: true }),
            final(self).data(f as int) == Seq::new(
                old(self).block_size(),
                |i: int|
                    if at <= i < at + n {
                        data@[from + i - at]
                    } else {
                        old(self).data(f as int)[i]
                    },
            ),
            forall|g: int|
                0 <= g < old(self).ways() && g != f ==> #[trigger] final(self).same_frame(old(self), g),
    {
        let dl = data.len();
        let mut j: usize = 0;
        while j < n
            invariant
                j <= n,
                dl == data@.len(),
                at + n <= old(self).block_size,
                from + n <= data@.len(),
                self.blocks@.len() == old(self).blocks@.len(),
                f < self.blocks@.len(),
                self.blocks@[f as int]@.len() == old(self).block_size,
                forall|i: int|
                    0 <= i < old(self).block_size ==> #[trigger] self.blocks@[f as int]@[i] == if at <= i
                        < at + j {
                        data@[from + i - at]
                    } else {
                        old(self).blocks@[f as int]@[i]
                    },
                forall|g: int| 0 <= g < self.blocks@.len() && g != f ==> #[trigger] self.blocks@[g] == old(self).blocks@[g],
                self.info == old(self).info,
                self.lookup == old(self).lookup,
                self.replace == old(self).replace,
                self.block_size == old(self).block_size,
            decreases n - j,
        {
            self.blocks[f][at + j] = data[from + j];
            j = j + 1;
        }
        let page = self.info[f].page;
        self.info.set(f, BlockInfo { page, dirty: true });
        proof {
            assert(self.blocks@[f as int]@ =~= Seq::new(
                old(self).block_size(),
                |i: int|
                    if at <= i < at + n {
                        data@[from + i - at]
                    } else {
                        old(self).data(f as int)[i]
                    },
            ));
        }
    }

    /// Marks frame `f` as equal to the source.
    pub fn set_clean(&mut self, f: usize)
        requires
            old(self).wf(),
            f < old(self).ways(),
        ensures
            final(self).wf(),
            final(self).ways() == old(self).ways(),
            final(self).block_size() == old(self).block_size(),
            final(self).pages() == old(self).pages(),
            final(self).frame(f as int) == (BlockInfo { page: old(self).frame(f as int).page, dirty: false }),
            final(self).data(f as int) == old(self).data(f as int),
            forall|g: int|
                0 <= g < old(self).ways() && g != f ==> #[trigger] final(self).same_frame(old(self), g),
    {
        let page = self.info[f].page;
        self.info.set(f, BlockInfo { page, dirty: false });
    }
}

/// Bytes of bookkeeping a set costs besides its per-frame metadata.
pub const SET_STATIC_META: usize = 128;

/// Bytes of bookkeeping a collection of sets costs besides its sets.
pub const SETS_STATIC_META: usize = 64;

/// Bytes of bookkeeping each frame costs besides the lookup and policy: the
/// page number and the dirty flag.
pub const BLOCK_INFO_META: usize = 16;

/// Bytes of metadata per frame with lookup `L` and policy `R`, as a spec value.
pub open spec fn meta_per_block<L: Lookup, R: Replace>() -> nat {
    L::spec_meta_per_block() + R::spec_meta_per_block() + BLOCK_INFO_META as nat
}

/// Bytes of metadata per frame with lookup `L` and policy `R`.
pub fn meta_mem_per_block<L: Lookup, R: Replace>() -> (r: usize)
    ensures
        r == meta_per_block::<L, R>(),
        r <= 3 * 64,
{
    L::meta_mem_per_block() + R::meta_mem_per_block() + BLOCK_INFO_META
}

/// How many sets of `ways` frames of `block_size` bytes, each frame with
/// `per_block` bytes of metadata, `mem` bytes hold once everything is counted.
pub open spec fn strict_count(ways: int, block_size: int, mem: int, per_block: int) -> int {
    (mem - SETS_STATIC_META) / (ways * block_size + SET_STATIC_META + ways * per_block)
}

/// Bytes of page data in `count` sets of `ways` frames of `block_size` bytes.
pub open spec fn data_bytes(count: int, ways: int, block_size: int) -> int {
    count * ways * block_size
}

/// Bytes of metadata of `count` sets of `ways` frames, with `per_block` bytes
/// of metadata per frame.
pub open spec fn meta_bytes(count: int, ways: int, per_block: int) -> int {
    SETS_STATIC_META + count * (SET_STATIC_META + ways * per_block)
}

/// `x / d` copies of `d` fit in `x`.
pub proof fn lemma_div_fits(x: int, d: int)
    requires
        x >= 0,
        d > 0,
    ensures
        (x / d) * d <= x,
        x / d >= 0,
{
    vstd::arithmetic::div_mod::lemma_fundamental_div_mod(x, d);
    vstd::arithmetic::mul::lemma_mul_is_commutative(x / d, d);
    vstd::arithmetic::div_mod::lemma_mod_bound(x, d);
    vstd::arithmetic::div_mod::lemma_div_pos_is_pos(x, d);
}

/// The sets of a cache; page `p` belongs to set `p mod count`.
pub struct NWaySets<L: Lookup, R: Replace> {
    pub sets: Vec<NWaySet<L, R>>,
}

/// The sets of a direct-mapped cache: one frame each.
pub type DirectMappedSets = NWaySets<DMLookup, DMReplace>;

/// The one set of a fully-associative cache.
pub type FullyAssociativeSets<L, R> = NWaySets<L, R>;

/// A set of a direct-mapped cache.
pub type DirectMappedSet = NWaySet<DMLookup, DMReplace>;

/// The set of a fully-associative cache.
pub type FullyAssociativeSet<L, R> = NWaySet<L, R>;

impl<L: Lookup, R: Replace> NWaySets<L, R> {
    /// Every set is well formed, empty-or-not, with `ways` frames of
    /// `block_size` bytes.
    pub open spec fn wf(&self, ways: nat, block_size: nat) -> bool {
        &&& 0 < self.sets@.len()
        &&& forall|k: int|
            0 <= k < self.sets@.len() ==> {
                &&& (#[trigger] self.sets@[k]).wf()
                &&& self.sets@[k].ways() == ways
                &&& self.sets@[k].block_size() == block_size
            }
    }

    /// `count` empty sets.
    pub fn with_count(count: usize, ways: usize, block_size: usize) -> (r: Self)
        requires
            0 < count,
            L::accepts(ways as nat),
            R::accepts(ways as nat),
            0 < ways <= MAX_FRAMES,
            0 < block_size <= MAX_BLOCK,
        ensures
            r.wf(ways as nat, block_size as nat),
            r.sets@.len() == count,
            forall|k: int| 0 <= k < count ==> (#[trigger] r.sets@[k]).pages() == Map::<u64, usize>::empty(),
    {
        let mut sets: Vec<NWaySet<L, R>> = Vec::new();
        let mut i: usize = 0;
        while i < count
            invariant
                i <= count,
                L::accepts(ways as nat),
                R::accepts(ways as nat),
                0 < ways <= MAX_FRAMES,
                0 < block_size <= MAX_BLOCK,
                sets@.len() == i,
                forall|k: int|
                    0 <= k < i ==> {
                        &&& (#[trigger] sets@[k]).wf()
                        &&& sets@[k].ways() == ways
                        &&& sets@[k].block_size() == block_size
                        &&& sets@[k].pages() == Map::<u64, usize>::empty()
                    },
            decreases count - i,
        {
            sets.push(NWaySet::new(ways, block_size));
            i = i + 1;
        }
        NWaySets { sets }
    }

    /// Sets of `ways` frames, as many as `mem` bytes of page data hold.
    pub fn new(ways: usize, block_size: usize, mem: usize) -> (r: Self)
        requires
            L::accepts(ways as nat),
            R::accepts(ways as nat),
            0 < ways <= MAX_FRAMES,
            0 < block_size <= MAX_BLOCK,
            ways as int * block_size as int <= usize::MAX,
            mem as int / (ways as int * block_size as int) > 0,
        ensures
            r.wf(ways as nat, block_size as nat),
            r.sets@.len() == mem as int / (ways as int * block_size as int),
            r.sets@.len() * ways * block_size <= mem,
            forall|k: int| 0 <= k < r.sets@.len() ==> (#[trigger] r.sets@[k]).pages() == Map::<u64, usize>::empty(),
    {
        proof {
            assert(ways * block_size > 0) by (nonlinear_arith)
                requires
                    ways > 0,
                    block_size > 0,
            ;
        }
        let count = mem / (ways * block_size);
        proof {
            lemma_div_fits(mem as int, (ways * block_size) as int);
            assert(count * ways * block_size == count * (ways * block_size)) by (nonlinear_arith);
        }
        Self::with_count(count, ways, block_size)
    }

    /// Sets of `ways` frames, as many as `mem` bytes hold with all of their
    /// metadata counted.
    pub fn new_strict(ways: usize, block_size: usize, mem: usize) -> (r: Self)
        requires
            L::accepts(ways as nat),
            R::accepts(ways as nat),
            0 < ways <= MAX_FRAMES,
            0 < block_size <= MAX_BLOCK,
            mem >= SETS_STATIC_META,
            ways as int * (block_size as int + 3 * 64) + SET_STATIC_META <= usize::MAX,
            strict_count(ways as int, block_size as int, mem as int, meta_per_block::<L, R>() as int) > 0,
        ensures
            r.wf(ways as nat, block_size as nat),
            r.sets@.len() == strict_count(ways as int, block_size as int, mem as int, meta_per_block::<L, R>() as int),
            data_bytes(r.sets@.len() as int, ways as int, block_size as int) + meta_bytes(
                r.sets@.len() as int,
                ways as int,
                meta_per_block::<L, R>() as int,
            ) <= mem,
            forall|k: int| 0 <= k < r.sets@.len() ==> (#[trigger] r.sets@[k]).pages() == Map::<u64, usize>::empty(),
    {
        let per_block = meta_mem_per_block::<L, R>();
        proof {
            assert(ways * block_size + ways * per_block <= ways * (block_size + 3 * 64)) by (nonlinear_arith)
                requires
                    per_block <= 3 * 64,
            ;
        }
        let count = (mem - SETS_STATIC_META) / (ways * block_size + SET_STATIC_META + ways * per_block);
        proof {
            let d = ways * block_size + SET_STATIC_META + ways * per_block;
            lemma_div_fits((mem - SETS_STATIC_META) as int, d as int);
            assert(count * d == count * (ways * block_size) + count * (SET_STATIC_META + ways * per_block))
                by (nonlinear_arith)
                requires
                    d == ways * block_size + SET_STATIC_META + ways * per_block,
            ;
            assert(count * ways * block_size == count * (ways * block_size)) by (nonlinear_arith);
        }
        Self::with_count(count, ways, block_size)
    }

    /// Bytes of page data the sets hold.
    pub fn data_mem(&self) -> (r: u128)
        requires
            0 < self.sets@.len(),
            self.wf(self.sets@[0].ways(), self.sets@[0].block_size()),
        ensures
            r == data_bytes(self.sets@.len() as int, self.sets@[0].ways() as int, self.sets@[0].block_size() as int),
            r <= 0xFFFF_FFFF_FFFF_FFFFu128 * (MAX_FRAMES as u128) * (MAX_BLOCK as u128),
    {
        let w = self.sets[0].frame_count() as u128;
        let b = self.sets[0].page_size() as u128;
        let n = self.sets.len();
        let c = n as u128;
        proof {
            assert(n <= usize::MAX);
            assert(c <= 0xFFFF_FFFF_FFFF_FFFFu128);
            assert((0xFFFF_FFFF_FFFF_FFFF as int) * (MAX_FRAMES as int) * (MAX_BLOCK as int) <= u128::MAX as int);
            assert(c * w <= 0xFFFF_FFFF_FFFF_FFFFu128 * (MAX_FRAMES as u128)) by (nonlinear_arith)
                requires
                    c <= 0xFFFF_FFFF_FFFF_FFFFu128,
                    w <= MAX_FRAMES,
            ;
            assert(c * w * b <= 0xFFFF_FFFF_FFFF_FFFFu128 * (MAX_FRAMES as u128) * (MAX_BLOCK as u128))
                by (nonlinear_arith)
                requires
                    c * w <= 0xFFFF_FFFF_FFFF_FFFFu128 * (MAX_FRAMES as u128),
                    b <= MAX_BLOCK,
            ;
        }
        c * w * b
    }

    /// Bytes of metadata the sets cost: the collection's own, each set's,
    /// and each frame's.
    pub fn meta_mem(&self) -> (r: u128)
        requires
            0 < self.sets@.len(),
            self.wf(self.sets@[0].ways(), self.sets@[0].block_size()),
        ensures
            r == meta_bytes(self.sets@.len() as int, self.sets@[0].ways() as int, meta_per_block::<L, R>() as int),
            r <= SETS_STATIC_META as u128 + 0xFFFF_FFFF_FFFF_FFFFu128 * (SET_STATIC_META as u128 + (MAX_FRAMES as u128) * 192),
    {
        let w = self.sets[0].frame_count() as u128;
        let n = self.sets.len();
        let c = n as u128;
        let per_block = meta_mem_per_block::<L, R>() as u128;
        proof {
            assert(n <= usize::MAX);
            assert(c <= 0xFFFF_FFFF_FFFF_FFFFu128);
            assert(w * per_block <= (MAX_FRAMES as u128) * 192) by (nonlinear_arith)
                requires
                    w <= MAX_FRAMES,
                    per_block <= 192,
            ;
            assert(c * (SET_STATIC_META as u128 + w * per_block) <= 0xFFFF_FFFF_FFFF_FFFFu128 * (
            SET_STATIC_META as u128 + (MAX_FRAMES as u128) * 192)) by (nonlinear_arith)
                requires
                    c <= 0xFFFF_FFFF_FFFF_FFFFu128,
                    w * per_block <= (MAX_FRAMES as u128) * 192,
            ;
        }
        SETS_STATIC_META as u128 + c * (SET_STATIC_META as u128 + w * per_block)
    }

    /// Bytes the sets cost in all.
    pub fn total_mem(&self) -> (r: u128)
        requires
            0 < self.sets@.len(),
            self.wf(self.sets@[0].ways(), self.sets@[0].block_size()),
        ensures
            r == data_bytes(self.sets@.len() as int, self.sets@[0].ways() as int, self.sets@[0].block_size() as int)
                + meta_bytes(self.sets@.len() as int, self.sets@[0].ways() as int, meta_per_block::<L, R>() as int),
    {
        let d = self.data_mem();
        let m = self.meta_mem();
        proof {
            assert((0xFFFF_FFFF_FFFF_FFFF as int) * (MAX_FRAMES as int) * (MAX_BLOCK as int) + SETS_STATIC_META
                + (0xFFFF_FFFF_FFFF_FFFF as int) * (SET_STATIC_META + (MAX_FRAMES as int) * 192) <= u128::MAX as int);
        }
        d + m
    }

    /// The number of sets.
    pub fn count(&self) -> (r: usize)
        ensures
            r == self.sets@.len(),
    {
        self.sets.len()
    }
}

/// Byte `i` of page `p` of `s`, zero past the end of `s`.
pub open spec fn byte_or_zero_at(s: Seq<u8>, p: int, b: int, i: int) -> u8 {
    crate::io::byte_or_zero(s, p * b + i)
}

proof fn lemma_pages_facts<L: Lookup>(l: &L)
    requires
        l.wf(),
    ensures
        forall|p: u64| #[trigger] l@.contains_key(p) ==> p < DEL && l@[p] < l.frames(),
{
    l.lemma_wf();
}

} // verus!
