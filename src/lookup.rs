//! Per-set lookup indices: which frame of a set holds a given page.
use vstd::prelude::*;
use vstd::relations::injective_on;
use vstd::set_lib::*;
use vstd::arithmetic::div_mod::lemma_mod_bound;
use vstd::arithmetic::power2::{pow2, lemma2_to64, lemma_pow2_unfold, lemma_pow2_strictly_increases, lemma_pow2_pos};
use vstd::bits::{low_bits_mask, lemma_u64_low_bits_mask_is_mod};

use crate::hash::{hash64, spec_hash64, DEL, NIL, NULL};

verus! {

/// Largest number of frames a single set may have.
pub const MAX_FRAMES: usize = 0x4000_0000;

/// A page-to-frame index local to one set.
///
/// Its model is a map from resident page to the frame that holds it.
pub trait Lookup: Sized {
    /// Resident pages and the frame each one is held in.
    spec fn view(&self) -> Map<u64, usize>;

    /// Number of frames of the set this index serves.
    spec fn frames(&self) -> nat;

    /// Internal well-formedness.
    spec fn wf(&self) -> bool;

    /// The set sizes this index can serve.
    spec fn accepts(count: nat) -> bool;

    /// What well-formedness says of the model.
    proof fn lemma_wf(&self)
        requires
            self.wf(),
        ensures
            self@.dom().finite(),
            self@.is_injective(),
            0 < self.frames() <= MAX_FRAMES,
            forall|p: u64| #[trigger]
                self@.contains_key(p) ==> p < DEL && self@[p] < self.frames(),
    ;

    /// Bytes of index per frame of the set, as a spec value.
    spec fn spec_meta_per_block() -> nat;

    /// Bytes of index per frame of the set.
    fn meta_mem_per_block() -> (r: usize)
        ensures
            r == Self::spec_meta_per_block(),
            r <= 64,
    ;

    fn new(count: usize) -> (r: Self)
        requires
            Self::accepts(count as nat),
        ensures
            r.wf(),
            r@ == Map::<u64, usize>::empty(),
            r.frames() == count,
    ;

    /// The frame holding `page`. For an absent page the result is `NULL`, or,
    /// for an index that keeps no state, a frame the caller must check.
    fn find(&self, page: u64) -> (r: usize)
        requires
            self.wf(),
            page < DEL,
        ensures
            self@.contains_key(page) ==> r == self@[page],
            !self@.contains_key(page) ==> r == NULL || r < self.frames(),
    ;

    /// Records that `page` now lives in `frame`, a frame no page maps to.
    fn insert(&mut self, page: u64, frame: usize)
        requires
            old(self).wf(),
            page < DEL,
            !old(self)@.contains_key(page),
            frame < old(self).frames(),
            forall|q: u64| #[trigger] old(self)@.contains_key(q) ==> old(self)@[q] != frame,
        ensures
            final(self).wf(),
            final(self)@ == old(self)@.insert(page, frame),
            final(self).frames() == old(self).frames(),
    ;

    /// Forgets `page`. `frame_hint` is its frame, or any number past the
    /// frames when unknown; the hashed tables ignore it, the scanning index
    /// uses it when in range and searches otherwise.
    fn remove(&mut self, page: u64, frame_hint: usize)
        requires
            old(self).wf(),
            old(self)@.contains_key(page),
            frame_hint == old(self)@[page] || frame_hint >= old(self).frames(),
        ensures
            final(self).wf(),
            final(self)@ == old(self)@.remove(page),
            final(self).frames() == old(self).frames(),
    ;
}

/// An injective map into the frames `[0, frames)` that misses `frame` has
/// fewer than `frames` entries.
pub proof fn lemma_room(m: Map<u64, usize>, frames: nat, frame: usize)
    requires
        m.dom().finite(),
        m.is_injective(),
        frame < frames,
        forall|q: u64| #[trigger] m.contains_key(q) ==> m[q] < frames && m[q] != frame,
    ensures
        m.dom().len() < frames,
{
    m.lemma_injective_values_len();
    let f = |v: usize| v as int;
    let vals = m.values();
    let img = vals.map(f);
    let range = set_int_range(0, frames as int).remove(frame as int);
    lemma_int_range(0, frames as int);
    assert(injective_on(f, vals));
    lemma_map_size(vals, img, f);
    assert forall|x: int| img.contains(x) implies range.contains(x) by {
        let v = choose|v: usize| vals.contains(v) && f(v) == x;
        let q = choose|q: u64| m.contains_key(q) && m[q] == v;
    }
    lemma_len_subset(img, range);
}

/// The index of a direct-mapped set: it keeps no state and always answers
/// frame 0, the only frame there is.
pub struct DMLookup {
    pages: Ghost<Map<u64, usize>>,
}

impl Lookup for DMLookup {
    open spec fn spec_meta_per_block() -> nat {
        0
    }

    fn meta_mem_per_block() -> (r: usize) {
        0
    }

    closed spec fn view(&self) -> Map<u64, usize> {
        self.pages@
    }

    closed spec fn frames(&self) -> nat {
        1
    }

    closed spec fn wf(&self) -> bool {
        &&& self.pages@.dom().finite()
        &&& forall|p: u64| #[trigger] self.pages@.contains_key(p) ==> p < DEL && self.pages@[p] == 0
        &&& self.pages@.dom().len() <= 1
    }

    open spec fn accepts(count: nat) -> bool {
        count == 1
    }

    proof fn lemma_wf(&self) {
        assert forall|p: u64, q: u64|
            self@.contains_key(p) && self@.contains_key(q) && #[trigger] self@[p] == #[trigger] self@[q]
            implies p == q by {
            if p != q {
                assert(self@.dom().contains(p));
                let s = self@.dom().remove(p);
                assert(s.contains(q));
                assert(s.len() > 0);
            }
        }
    }

    fn new(count: usize) -> (r: Self) {
        DMLookup { pages: Ghost(Map::empty()) }
    }

    fn find(&self, page: u64) -> (r: usize) {
        0
    }

    fn insert(&mut self, page: u64, frame: usize) {
        proof {
            if self.pages@.dom().len() > 0 {
                let q = self.pages@.dom().choose();
                assert(self.pages@.contains_key(q));
            }
            assert(self.pages@.dom().len() == 0);
        }
        self.pages = Ghost(self.pages@.insert(page, frame));
    }

    fn remove(&mut self, page: u64, frame_hint: usize) {
        self.pages = Ghost(self.pages@.remove(page));
    }
}

/// An index that keeps, for each frame, the page it holds (`NIL` when the
/// frame is free), and finds a page by scanning them.
pub struct Scan {
    blocks: Vec<u64>,
    pages: Ghost<Map<u64, usize>>,
}

impl Scan {
    spec fn inv(&self) -> bool {
        &&& 0 < self.blocks@.len() <= MAX_FRAMES
        &&& self.pages@.dom().finite()
        &&& forall|f: int|
            0 <= f < self.blocks@.len() && #[trigger] self.blocks@[f] < DEL ==> self.pages@.contains_key(
                self.blocks@[f],
            ) && self.pages@[self.blocks@[f]] == f
        &&& forall|p: u64| #[trigger]
            self.pages@.contains_key(p) ==> p < DEL && self.pages@[p] < self.blocks@.len()
                && self.blocks@[self.pages@[p] as int] == p
    }

    fn scan(&self, page: u64) -> (r: usize)
        requires
            self.inv(),
            page < DEL,
        ensures
            self.pages@.contains_key(page) ==> r == self.pages@[page],
            !self.pages@.contains_key(page) ==> r == NULL,
    {
        let mut f: usize = 0;
        while f < self.blocks.len()
            invariant
                self.inv(),
                page < DEL,
                f <= self.blocks@.len(),
                forall|g: int| 0 <= g < f ==> self.blocks@[g] != page,
            decreases self.blocks@.len() - f,
        {
            if self.blocks[f] == page {
                return f;
            }
            f = f + 1;
        }
        proof {
            if self.pages@.contains_key(page) {
                let g = self.pages@[page] as int;
                assert(self.blocks@[g] == page);
            }
        }
        NULL
    }
}

impl Lookup for Scan {
    open spec fn spec_meta_per_block() -> nat {
        8
    }

    fn meta_mem_per_block() -> (r: usize) {
        8
    }

    closed spec fn view(&self) -> Map<u64, usize> {
        self.pages@
    }

    closed spec fn frames(&self) -> nat {
        self.blocks@.len()
    }

    closed spec fn wf(&self) -> bool {
        self.inv()
    }

    open spec fn accepts(count: nat) -> bool {
        0 < count <= MAX_FRAMES
    }

    proof fn lemma_wf(&self) {
        assert forall|p: u64, q: u64|
            self@.contains_key(p) && self@.contains_key(q) && #[trigger] self@[p] == #[trigger] self@[q]
            implies p == q by {
            assert(self.blocks@[self.pages@[p] as int] == p);
        }
    }

    fn new(count: usize) -> (r: Self) {
        let blocks: Vec<u64> = vec![NIL; count];
        Scan { blocks, pages: Ghost(Map::empty()) }
    }

    fn find(&self, page: u64) -> (r: usize)
        ensures
            !self@.contains_key(page) ==> r == NULL,
    {
        self.scan(page)
    }

    fn insert(&mut self, page: u64, frame: usize) {
        proof {
            let b = self.blocks@[frame as int];
            if b < DEL {
                assert(self.pages@.contains_key(b));
            }
        }
        self.blocks[frame] = page;
        self.pages = Ghost(self.pages@.insert(page, frame));
        proof {
            assert forall|p: u64| #[trigger] self.pages@.contains_key(p) implies p < DEL
                && self.pages@[p] < self.blocks@.len() && self.blocks@[self.pages@[p] as int] == p by {
                if p != page {
                    assert(old(self).pages@.contains_key(p));
                }
            }
        }
    }

    fn remove(&mut self, page: u64, frame_hint: usize) {
        let frame = if frame_hint < self.blocks.len() {
            frame_hint
        } else {
            self.scan(page)
        };
        self.blocks[frame] = NIL;
        self.pages = Ghost(self.pages@.remove(page));
        proof {
            assert forall|f: int|
                0 <= f < self.blocks@.len() && #[trigger] self.blocks@[f] < DEL implies self.pages@.contains_key(
                self.blocks@[f],
            ) && self.pages@[self.blocks@[f]] == f by {
                assert(old(self).blocks@[f] == self.blocks@[f]);
            }
        }
    }
}

/// The slot reached `k` probes after `start` in a table of `cap` slots.
pub open spec fn probe(start: int, k: int, cap: int) -> int {
    if start + k < cap {
        start + k
    } else {
        start + k - cap
    }
}

/// Linear probing from any start slot reaches every slot of a table of
/// `cap` slots within `cap` probes: a search that has probed `cap` slots has
/// seen them all, and an insert into a table with a free slot finds one.
pub proof fn lemma_probe_covers(start: int, cap: int, i: int)
    requires
        0 <= start < cap,
        0 <= i < cap,
    ensures
        exists|k: int| 0 <= k < cap && #[trigger] probe(start, k, cap) == i,
{
    let k = if i >= start {
        i - start
    } else {
        i + cap - start
    };
    assert(probe(start, k, cap) == i);
}

/// An open-addressed table with linear probing, shared by the two hashed
/// indices. A slot holds `(page, frame)`, `NIL` when empty, `DEL` when its
/// entry was removed.
struct Slots {
    entries: Vec<(u64, usize)>,
    pages: Ghost<Map<u64, usize>>,
    dist: Ghost<Map<u64, int>>,
}

impl Slots {
    spec fn cap(&self) -> int {
        self.entries@.len() as int
    }

    spec fn start(&self, p: u64) -> int {
        (spec_hash64(p) as int) % self.cap()
    }

    spec fn slot_of(&self, p: u64) -> int {
        probe(self.start(p), self.dist@[p], self.cap())
    }

    spec fn inv(&self) -> bool {
        &&& 0 < self.cap() <= 0x1_0000_0000
        &&& self.pages@.dom().finite()
        &&& forall|p: u64| #[trigger] self.pages@.contains_key(p) ==> {
            &&& p < DEL
            &&& self.dist@.contains_key(p)
            &&& 0 <= self.dist@[p] < self.cap()
            &&& self.entries@[self.slot_of(p)] == (p, self.pages@[p])
            &&& forall|j: int|
                0 <= j < self.dist@[p] ==> #[trigger] self.entries@[probe(
                    self.start(p),
                    j,
                    self.cap(),
                )].0 != NIL
        }
        &&& forall|i: int|
            0 <= i < self.cap() && #[trigger] self.entries@[i].0 < DEL ==> self.pages@.contains_key(
                self.entries@[i].0,
            ) && self.slot_of(self.entries@[i].0) == i
    }

    proof fn lemma_start(&self, p: u64)
        requires
            0 < self.cap(),
        ensures
            0 <= self.start(p) < self.cap(),
    {
        lemma_mod_bound(spec_hash64(p) as int, self.cap());
    }

    fn new(cap: usize) -> (r: Self)
        requires
            0 < cap <= 0x1_0000_0000,
        ensures
            r.inv(),
            r.pages@ == Map::<u64, usize>::empty(),
            r.cap() == cap,
    {
        let mut entries: Vec<(u64, usize)> = Vec::new();
        let mut i: usize = 0;
        while i < cap
            invariant
                i <= cap,
                entries@.len() == i,
                forall|j: int| 0 <= j < i ==> #[trigger] entries@[j].0 == NIL,
            decreases cap - i,
        {
            entries.push((NIL, NULL));
            i = i + 1;
        }
        Slots { entries, pages: Ghost(Map::empty()), dist: Ghost(Map::empty()) }
    }

    fn find(&self, page: u64, start: usize) -> (r: usize)
        requires
            self.inv(),
            page < DEL,
            start == self.start(page),
        ensures
            self.pages@.contains_key(page) ==> r == self.pages@[page],
            !self.pages@.contains_key(page) ==> r == NULL,
    {
        proof {
            self.lemma_start(page);
        }
        let cap = self.entries.len();
        let mut idx = start;
        let mut k: usize = 0;
        while k < cap
            invariant
                self.inv(),
                page < DEL,
                cap == self.cap(),
                start == self.start(page),
                0 <= start < cap,
                k <= cap,
                idx == probe(start as int, k as int, cap as int),
                forall|j: int|
                    0 <= j < k ==> #[trigger] self.entries@[probe(start as int, j, cap as int)].0
                        != page,
            decreases cap - k,
        {
            let entry = self.entries[idx];
            if entry.0 == NIL {
                proof {
                    if self.pages@.contains_key(page) {
                        let d = self.dist@[page];
                        if d < k {
                            assert(self.entries@[probe(start as int, d, cap as int)].0 != page);
                        } else if d > k {
                            assert(self.entries@[probe(start as int, k as int, cap as int)].0
                                != NIL);
                        }
                    }
                }
                return NULL;
            }
            if entry.0 == page {
                return entry.1;
            }
            idx = if idx + 1 == cap {
                0
            } else {
                idx + 1
            };
            k = k + 1;
        }
        proof {
            if self.pages@.contains_key(page) {
                let d = self.dist@[page];
                assert(self.entries@[probe(start as int, d, cap as int)].0 != page);
            }
        }
        NULL
    }

    /// The first slot on the probe path of `page` that holds no entry.
    fn free_slot(&self, start: usize) -> (r: (usize, Ghost<int>))
        requires
            self.inv(),
            0 <= start < self.cap(),
            exists|i: int| 0 <= i < self.cap() && #[trigger] self.entries@[i].0 >= DEL,
        ensures
            0 <= r.1@ < self.cap(),
            r.0 == probe(start as int, r.1@, self.cap()),
            self.entries@[r.0 as int].0 >= DEL,
            forall|j: int|
                0 <= j < r.1@ ==> #[trigger] self.entries@[probe(start as int, j, self.cap())].0
                    < DEL,
    {
        let cap = self.entries.len();
        let mut idx = start;
        let mut k: usize = 0;
        while self.entries[idx].0 < DEL
            invariant
                self.inv(),
                cap == self.cap(),
                0 <= start < cap,
                k < cap,
                idx == probe(start as int, k as int, cap as int),
                exists|i: int| 0 <= i < cap && #[trigger] self.entries@[i].0 >= DEL,
                forall|j: int|
                    0 <= j < k ==> #[trigger] self.entries@[probe(start as int, j, cap as int)].0
                        < DEL,
            decreases cap - k,
        {
            proof {
                if k + 1 == cap {
                    let i = choose|i: int| 0 <= i < cap && #[trigger] self.entries@[i].0 >= DEL;
                    lemma_probe_covers(start as int, cap as int, i);
                    let j = choose|j: int| 0 <= j < cap && #[trigger] probe(start as int, j, cap as int) == i;
                    if j < k {
                        assert(self.entries@[probe(start as int, j, cap as int)].0 < DEL);
                    }
                }
            }
            idx = if idx + 1 == cap {
                0
            } else {
                idx + 1
            };
            k = k + 1;
        }
        (idx, Ghost(k as int))
    }

    proof fn lemma_insert(olds: Slots, news: Slots, page: u64, frame: usize, idx: int, k: int)
        requires
            olds.inv(),
            page < DEL,
            !olds.pages@.contains_key(page),
            0 <= k < olds.cap(),
            idx == probe(olds.start(page), k, olds.cap()),
            olds.entries@[idx].0 >= DEL,
            forall|j: int|
                0 <= j < k ==> #[trigger] olds.entries@[probe(olds.start(page), j, olds.cap())].0
                    < DEL,
            news.entries@ == olds.entries@.update(idx, (page, frame)),
            news.pages@ == olds.pages@.insert(page, frame),
            news.dist@ == olds.dist@.insert(page, k),
        ensures
            news.inv(),
    {
        assert forall|p: u64| #[trigger] news.pages@.contains_key(p) implies {
            &&& p < DEL
            &&& news.dist@.contains_key(p)
            &&& 0 <= news.dist@[p] < news.cap()
            &&& news.entries@[news.slot_of(p)] == (p, news.pages@[p])
            &&& forall|j: int|
                0 <= j < news.dist@[p] ==> #[trigger] news.entries@[probe(
                    news.start(p),
                    j,
                    news.cap(),
                )].0 != NIL
        } by {
            assert(news.start(p) == olds.start(p));
            if p != page {
                assert(olds.pages@.contains_key(p));
                assert(olds.slot_of(p) != idx);
                assert forall|j: int| 0 <= j < news.dist@[p] implies #[trigger] news.entries@[probe(
                    news.start(p),
                    j,
                    news.cap(),
                )].0 != NIL by {
                    assert(olds.entries@[probe(olds.start(p), j, olds.cap())].0 != NIL);
                }
            } else {
                assert forall|j: int| 0 <= j < news.dist@[p] implies #[trigger] news.entries@[probe(
                    news.start(p),
                    j,
                    news.cap(),
                )].0 != NIL by {
                    assert(olds.entries@[probe(olds.start(page), j, olds.cap())].0 < DEL);
                }
            }
        }
        assert forall|i: int|
            0 <= i < news.cap() && #[trigger] news.entries@[i].0 < DEL implies news.pages@.contains_key(
            news.entries@[i].0,
        ) && news.slot_of(news.entries@[i].0) == i by {
            if i != idx {
                assert(olds.entries@[i] == news.entries@[i]);
                let q = news.entries@[i].0;
                assert(olds.pages@.contains_key(q));
                assert(news.start(q) == olds.start(q));
            }
        }
    }

    fn insert(&mut self, page: u64, frame: usize, start: usize)
        requires
            old(self).inv(),
            page < DEL,
            !old(self).pages@.contains_key(page),
            start == old(self).start(page),
            exists|i: int| 0 <= i < old(self).cap() && #[trigger] old(self).entries@[i].0 >= DEL,
        ensures
            final(self).inv(),
            final(self).pages@ == old(self).pages@.insert(page, frame),
            final(self).cap() == old(self).cap(),
    {
        proof {
            self.lemma_start(page);
        }
        let (idx, k) = self.free_slot(start);
        self.entries[idx] = (page, frame);
        proof {
            self.pages@ = self.pages@.insert(page, frame);
            self.dist@ = self.dist@.insert(page, k@);
            Slots::lemma_insert(*old(self), *self, page, frame, idx as int, k@);
        }
    }

    proof fn lemma_remove(olds: Slots, news: Slots, page: u64, idx: int)
        requires
            olds.inv(),
            olds.pages@.contains_key(page),
            idx == olds.slot_of(page),
            news.entries@ == olds.entries@.update(idx, (DEL, olds.entries@[idx].1)),
            news.pages@ == olds.pages@.remove(page),
            news.dist@ == olds.dist@.remove(page),
        ensures
            news.inv(),
    {
        assert forall|p: u64| #[trigger] news.pages@.contains_key(p) implies {
            &&& p < DEL
            &&& news.dist@.contains_key(p)
            &&& 0 <= news.dist@[p] < news.cap()
            &&& news.entries@[news.slot_of(p)] == (p, news.pages@[p])
            &&& forall|j: int|
                0 <= j < news.dist@[p] ==> #[trigger] news.entries@[probe(
                    news.start(p),
                    j,
                    news.cap(),
                )].0 != NIL
        } by {
            assert(olds.pages@.contains_key(p));
            assert(news.start(p) == olds.start(p));
            assert(olds.slot_of(p) != idx);
            assert forall|j: int| 0 <= j < news.dist@[p] implies #[trigger] news.entries@[probe(
                news.start(p),
                j,
                news.cap(),
            )].0 != NIL by {
                assert(olds.entries@[probe(olds.start(p), j, olds.cap())].0 != NIL);
            }
        }
        assert forall|i: int|
            0 <= i < news.cap() && #[trigger] news.entries@[i].0 < DEL implies news.pages@.contains_key(
            news.entries@[i].0,
        ) && news.slot_of(news.entries@[i].0) == i by {
            assert(olds.entries@[i] == news.entries@[i]);
            let q = news.entries@[i].0;
            assert(olds.pages@.contains_key(q));
            assert(news.start(q) == olds.start(q));
        }
    }

    fn remove(&mut self, page: u64, start: usize)
        requires
            old(self).inv(),
            old(self).pages@.contains_key(page),
            start == old(self).start(page),
        ensures
            final(self).inv(),
            final(self).pages@ == old(self).pages@.remove(page),
            final(self).cap() == old(self).cap(),
    {
        proof {
            self.lemma_start(page);
        }
        let cap = self.entries.len();
        let mut idx = start;
        let mut k: usize = 0;
        while self.entries[idx].0 != page
            invariant
                self.inv(),
                self.pages@.contains_key(page),
                cap == self.cap(),
                start == self.start(page),
                0 <= start < cap,
                k <= self.dist@[page],
                idx == probe(start as int, k as int, cap as int),
            decreases self.dist@[page] - k,
        {
            proof {
                if k == self.dist@[page] {
                    assert(self.entries@[self.slot_of(page)].0 == page);
                }
            }
            idx = if idx + 1 == cap {
                0
            } else {
                idx + 1
            };
            k = k + 1;
        }
        proof {
            assert(self.slot_of(page) == idx);
        }
        let frame = self.entries[idx].1;
        self.entries[idx] = (DEL, frame);
        proof {
            self.pages@ = self.pages@.remove(page);
            self.dist@ = self.dist@.remove(page);
            Slots::lemma_remove(*old(self), *self, page, idx as int);
        }
    }

    /// When the table holds fewer pages than it has slots, some slot is free.
    proof fn lemma_free_slot(&self)
        requires
            self.inv(),
            self.pages@.dom().len() < self.cap(),
        ensures
            exists|i: int| 0 <= i < self.cap() && #[trigger] self.entries@[i].0 >= DEL,
    {
        if forall|i: int| 0 <= i < self.cap() ==> #[trigger] self.entries@[i].0 < DEL {
            let f = |i: int| self.entries@[i].0;
            let range = set_int_range(0, self.cap());
            lemma_int_range(0, self.cap());
            let img = range.map(f);
            assert(injective_on(f, range)) by {
                assert forall|a: int, b: int|
                    range.contains(a) && range.contains(b) && #[trigger] f(a) == #[trigger] f(b)
                    implies a == b by {
                    assert(self.entries@[a].0 < DEL);
                    assert(self.entries@[b].0 < DEL);
                }
            }
            lemma_map_size(range, img, f);
            assert forall|q: u64| img.contains(q) implies self.pages@.dom().contains(q) by {
                let a = choose|a: int| range.contains(a) && f(a) == q;
                assert(self.entries@[a].0 < DEL);
            }
            lemma_len_subset(img, self.pages@.dom());
        }
    }
}

/// Smallest power of two that is at least `n`, with its exponent.
fn pow2_at_least(n: usize) -> (r: (usize, Ghost<nat>))
    requires
        0 < n <= 0x6000_0001,
    ensures
        n <= r.0 < 2 * n,
        r.1@ < 64,
        r.0 == pow2(r.1@),
{
    let mut cap: usize = 1;
    let ghost mut shift: nat = 0;
    proof {
        lemma2_to64();
    }
    while cap < n
        invariant
            0 < n <= 0x6000_0001,
            1 <= cap < 2 * n,
            shift < 32,
            cap == pow2(shift),
        decreases 2 * n - cap,
    {
        proof {
            lemma_pow2_unfold(shift + 1);
            lemma2_to64();
            if shift > 31 {
                lemma_pow2_strictly_increases(31, shift);
            }
        }
        cap = cap * 2;
        proof {
            shift = shift + 1;
        }
    }
    (cap, Ghost(shift))
}

/// A hashed index whose table size is a power of two: the first slot of a page
/// is its hash masked to the table size.
pub struct Table {
    slots: Slots,
    mask: u64,
    frames: usize,
    shift: Ghost<nat>,
}

impl Table {
    spec fn inv(&self) -> bool {
        &&& self.slots.inv()
        &&& 0 < self.frames <= MAX_FRAMES
        &&& self.frames < self.slots.cap()
        &&& self.shift@ < 64
        &&& self.slots.cap() == pow2(self.shift@)
        &&& self.mask == low_bits_mask(self.shift@) as u64
        &&& forall|p: u64| #[trigger]
            self.slots.pages@.contains_key(p) ==> self.slots.pages@[p] < self.frames
        &&& self.slots.pages@.is_injective()
    }

    fn start(&self, page: u64) -> (r: usize)
        requires
            self.inv(),
        ensures
            r == self.slots.start(page),
    {
        let h = hash64(page);
        proof {
            lemma_u64_low_bits_mask_is_mod(h, self.shift@);
        }
        (h & self.mask) as usize
    }
}

impl Lookup for Table {
    open spec fn spec_meta_per_block() -> nat {
        32
    }

    fn meta_mem_per_block() -> (r: usize) {
        32
    }

    closed spec fn view(&self) -> Map<u64, usize> {
        self.slots.pages@
    }

    closed spec fn frames(&self) -> nat {
        self.frames as nat
    }

    closed spec fn wf(&self) -> bool {
        self.inv()
    }

    open spec fn accepts(count: nat) -> bool {
        0 < count <= MAX_FRAMES
    }

    proof fn lemma_wf(&self) {
    }

    fn new(count: usize) -> (r: Self) {
        let need = count + count / 2 + 1;
        let (cap, shift) = pow2_at_least(need);
        let slots = Slots::new(cap);
        proof {
            lemma_pow2_pos(shift@);
        }
        Table { slots, mask: (cap - 1) as u64, frames: count, shift }
    }

    fn find(&self, page: u64) -> (r: usize)
        ensures
            !self@.contains_key(page) ==> r == NULL,
    {
        let start = self.start(page);
        self.slots.find(page, start)
    }

    fn insert(&mut self, page: u64, frame: usize) {
        proof {
            lemma_room(self.slots.pages@, self.frames as nat, frame);
            self.slots.lemma_free_slot();
        }
        let start = self.start(page);
        self.slots.insert(page, frame, start);
        proof {
            assert(self.slots.pages@.is_injective()) by {
                assert forall|p: u64, q: u64|
                    self.slots.pages@.contains_key(p) && self.slots.pages@.contains_key(q)
                        && #[trigger] self.slots.pages@[p] == #[trigger] self.slots.pages@[q]
                    implies p == q by {
                    if p != page && q != page {
                        assert(old(self).slots.pages@.contains_key(p));
                        assert(old(self).slots.pages@.contains_key(q));
                    } else if p != page {
                        assert(old(self).slots.pages@.contains_key(p));
                    } else if q != page {
                        assert(old(self).slots.pages@.contains_key(q));
                    }
                }
            }
        }
    }

    fn remove(&mut self, page: u64, frame_hint: usize) {
        let start = self.start(page);
        self.slots.remove(page, start);
        proof {
            assert(self.slots.pages@.is_injective()) by {
                assert forall|p: u64, q: u64|
                    self.slots.pages@.contains_key(p) && self.slots.pages@.contains_key(q)
                        && #[trigger] self.slots.pages@[p] == #[trigger] self.slots.pages@[q]
                    implies p == q by {
                    assert(old(self).slots.pages@.contains_key(p));
                    assert(old(self).slots.pages@.contains_key(q));
                }
            }
        }
    }
}

/// A hashed index for a fully-associative set: the table has `1.5·N` slots
/// and the first slot of a page is its hash modulo the table size.
pub struct FATable {
    slots: Slots,
    frames: usize,
}

impl FATable {
    spec fn inv(&self) -> bool {
        &&& self.slots.inv()
        &&& 0 < self.frames <= MAX_FRAMES
        &&& self.frames <= self.slots.cap()
        &&& forall|p: u64| #[trigger]
            self.slots.pages@.contains_key(p) ==> self.slots.pages@[p] < self.frames
        &&& self.slots.pages@.is_injective()
    }

    fn start(&self, page: u64) -> (r: usize)
        requires
            self.inv(),
        ensures
            r == self.slots.start(page),
    {
        let cap = self.slots.entries.len() as u64;
        (hash64(page) % cap) as usize
    }
}

impl Lookup for FATable {
    open spec fn spec_meta_per_block() -> nat {
        24
    }

    fn meta_mem_per_block() -> (r: usize) {
        24
    }

    closed spec fn view(&self) -> Map<u64, usize> {
        self.slots.pages@
    }

    closed spec fn frames(&self) -> nat {
        self.frames as nat
    }

    closed spec fn wf(&self) -> bool {
        self.inv()
    }

    open spec fn accepts(count: nat) -> bool {
        0 < count <= MAX_FRAMES
    }

    proof fn lemma_wf(&self) {
    }

    fn new(count: usize) -> (r: Self) {
        let cap = (count * 3) / 2;
        let slots = Slots::new(cap);
        FATable { slots, frames: count }
    }

    fn find(&self, page: u64) -> (r: usize)
        ensures
            !self@.contains_key(page) ==> r == NULL,
    {
        let start = self.start(page);
        self.slots.find(page, start)
    }

    fn insert(&mut self, page: u64, frame: usize) {
        proof {
            lemma_room(self.slots.pages@, self.frames as nat, frame);
            self.slots.lemma_free_slot();
        }
        let start = self.start(page);
        self.slots.insert(page, frame, start);
        proof {
            assert(self.slots.pages@.is_injective()) by {
                assert forall|p: u64, q: u64|
                    self.slots.pages@.contains_key(p) && self.slots.pages@.contains_key(q)
                        && #[trigger] self.slots.pages@[p] == #[trigger] self.slots.pages@[q]
                    implies p == q by {
                    if p != page && q != page {
                        assert(old(self).slots.pages@.contains_key(p));
                        assert(old(self).slots.pages@.contains_key(q));
                    } else if p != page {
                        assert(old(self).slots.pages@.contains_key(p));
                    } else if q != page {
                        assert(old(self).slots.pages@.contains_key(q));
                    }
                }
            }
        }
    }

    fn remove(&mut self, page: u64, frame_hint: usize) {
        let start = self.start(page);
        self.slots.remove(page, start);
        proof {
            assert(self.slots.pages@.is_injective()) by {
                assert forall|p: u64, q: u64|
                    self.slots.pages@.contains_key(p) && self.slots.pages@.contains_key(q)
                        && #[trigger] self.slots.pages@[p] == #[trigger] self.slots.pages@[q]
                    implies p == q by {
                    assert(old(self).slots.pages@.contains_key(p));
                    assert(old(self).slots.pages@.contains_key(q));
                }
            }
        }
    }
}

/// The scanning index of a fully-associative set: the same structure,
/// sized at run time.
pub type FAScan = Scan;

} // verus!
