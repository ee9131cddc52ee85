//! The cache: range reads and positioned writes over a paged source.
use vstd::prelude::*;
use vstd::arithmetic::div_mod::{lemma_fundamental_div_mod_converse, lemma_mod_bound};

use crate::hash::{DEL, NIL};
use crate::io::{byte_or_zero, overwrite, page_of, Reader, Writer};
use crate::lookup::{Lookup, MAX_FRAMES};
use crate::replace::Replace;
use crate::set::{NWaySet, NWaySets, MAX_BLOCK};

verus! {

/// Page `i / b` and offset `i % b` of byte `i`, from a split `i == p * b + j`.
pub proof fn lemma_split(i: int, b: int, p: int, j: int)
    requires
        b > 0,
        0 <= j < b,
        i == p * b + j,
    ensures
        i / b == p,
        i % b == j,
{
    lemma_fundamental_div_mod_converse(i, b, p, j);
}

/// Byte `i` sits at offset `i % b` of page `i / b`.
pub proof fn lemma_unsplit(i: int, b: int)
    requires
        b > 0,
        i >= 0,
    ensures
        i == (i / b) * b + i % b,
        0 <= i % b < b,
        i / b >= 0,
{
    vstd::arithmetic::div_mod::lemma_fundamental_div_mod(i, b);
    vstd::arithmetic::mul::lemma_mul_is_commutative(i / b, b);
    lemma_mod_bound(i, b);
    vstd::arithmetic::div_mod::lemma_div_pos_is_pos(i, b);
}

/// Writing page `q` of `s` sets that page to `d` and leaves the others.
pub proof fn lemma_page_write(s: Seq<u8>, q: int, b: int, d: Seq<u8>)
    requires
        b > 0,
        q >= 0,
        d.len() == b,
    ensures
        page_of(overwrite(s, q * b, d), q, b) == d,
        forall|p: int|
            p >= 0 && p != q ==> #[trigger] page_of(overwrite(s, q * b, d), p, b) == page_of(s, p, b),
{
    let t = overwrite(s, q * b, d);
    assert forall|j: int| 0 <= j < b implies #[trigger] page_of(t, q, b)[j] == d[j] by {
        assert(q * b <= q * b + j);
    }
    assert(page_of(t, q, b) =~= d);
    assert forall|p: int| p >= 0 && p != q implies #[trigger] page_of(t, p, b) == page_of(s, p, b) by {
        assert forall|j: int| 0 <= j < b implies #[trigger] page_of(t, p, b)[j] == page_of(s, p, b)[j] by {
            let i = p * b + j;
            if q * b <= i < q * b + b {
                lemma_split(i, b, p, j);
                lemma_split(i, b, q, i - q * b);
            }
        }
        assert(page_of(t, p, b) =~= page_of(s, p, b));
    }
}

/// `v` after writing `d` at `off`; an empty write changes nothing.
pub open spec fn overwrite_or_same(v: Seq<u8>, off: int, d: Seq<u8>) -> Seq<u8> {
    if d.len() == 0 {
        v
    } else {
        overwrite(v, off, d)
    }
}

/// The bytes of `v`, with `d` in place from `off` up to `upto`.
pub open spec fn written(v: Seq<u8>, off: int, d: Seq<u8>, upto: int) -> Seq<u8> {
    Seq::new(v.len(), |i: int| if off <= i < upto { d[i - off] } else { v[i] })
}

/// Number of bytes a read of `[start, end)` into a buffer of `cap` bytes
/// returns when the source shows `len` bytes.
pub open spec fn read_count(start: int, end: int, len: int, cap: int) -> int {
    let stop = if end < len { end } else { len };
    let stop = if stop < start + cap { stop } else { start + cap };
    if stop > start { stop - start } else { 0 }
}

/// The chunks laid end to end.
pub open spec fn concat(c: Seq<Seq<u8>>) -> Seq<u8>
    decreases c.len(),
{
    if c.len() == 0 {
        Seq::empty()
    } else {
        concat(c.drop_last()) + c.last()
    }
}

/// The bytes of each chunk.
pub open spec fn chunk_views(c: Seq<Vec<u8>>) -> Seq<Seq<u8>> {
    Seq::new(c.len(), |i: int| c[i]@)
}

/// `v` with each write `(offset, bytes)` of `ws` applied in order.
pub open spec fn apply_writes(v: Seq<u8>, ws: Seq<(int, Seq<u8>)>) -> Seq<u8>
    decreases ws.len(),
{
    if ws.len() == 0 {
        v
    } else {
        overwrite_or_same(apply_writes(v, ws.drop_last()), ws.last().0, ws.last().1)
    }
}

/// `r` holds the bytes `v`, followed by zeros only.
pub open spec fn flushed(v: Seq<u8>, r: Seq<u8>) -> bool {
    &&& r.len() >= v.len()
    &&& r.subrange(0, v.len() as int) == v
    &&& forall|i: int| v.len() <= i < r.len() ==> #[trigger] r[i] == 0
}

/// What a read of `[start, end)` into `before` leaves in `after` when the
/// cache shows `v`.
pub open spec fn read_into(v: Seq<u8>, start: int, end: int, before: Seq<u8>, after: Seq<u8>) -> bool {
    let n = read_count(start, end, v.len() as int, before.len() as int);
    &&& after.len() == before.len()
    &&& forall|i: int| 0 <= i < n ==> #[trigger] after[i] == v[start + i]
    &&& forall|i: int| n <= i < before.len() ==> #[trigger] after[i] == before[i]
}

/// Round trip: writes made through a cache opened on `s0`, then handed back
/// to the source, leave in it the bytes the same writes make when applied
/// directly to `s0`, followed by fewer than `b` zeros (the rest of the last
/// page). `views` are the bytes the cache shows when opened and after each
/// write; `b` is the page size.
pub proof fn lemma_round_trip(s0: Seq<u8>, ws: Seq<(int, Seq<u8>)>, views: Seq<Seq<u8>>, r: Seq<u8>, b: int)
    requires
        views.len() == ws.len() + 1,
        views[0] == s0,
        forall|k: int|
            0 <= k < ws.len() ==> #[trigger] views[k + 1] == overwrite_or_same(views[k], ws[k].0, ws[k].1),
        flushed(views.last(), r),
        r.len() < views.last().len() + b,
    ensures
        flushed(apply_writes(s0, ws), r),
        r.len() < apply_writes(s0, ws).len() + b,
{
    assert forall|k: int| 0 <= k <= ws.len() implies #[trigger] views[k] == apply_writes(s0, ws.subrange(0, k)) by {
        lemma_views_follow_writes(s0, ws, views, k);
    }
    assert(ws.subrange(0, ws.len() as int) =~= ws);
}

proof fn lemma_views_follow_writes(s0: Seq<u8>, ws: Seq<(int, Seq<u8>)>, views: Seq<Seq<u8>>, k: int)
    requires
        views.len() == ws.len() + 1,
        views[0] == s0,
        forall|k: int|
            0 <= k < ws.len() ==> #[trigger] views[k + 1] == overwrite_or_same(views[k], ws[k].0, ws[k].1),
        0 <= k <= ws.len(),
    ensures
        views[k] == apply_writes(s0, ws.subrange(0, k)),
    decreases k,
{
    if k > 0 {
        lemma_views_follow_writes(s0, ws, views, k - 1);
        assert(ws.subrange(0, k).drop_last() =~= ws.subrange(0, k - 1));
        let j = k - 1;
        assert(views[j + 1] == overwrite_or_same(views[j], ws[j].0, ws[j].1));
        assert(ws.subrange(0, k).last() == ws[j]);
    } else {
        assert(ws.subrange(0, 0) =~= Seq::<(int, Seq<u8>)>::empty());
    }
}

/// Two reads of the same range into the same buffer, while the cache shows
/// the same bytes, leave the same bytes in the buffer.
pub proof fn lemma_reads_agree(v: Seq<u8>, start: int, end: int, before: Seq<u8>, a: Seq<u8>, b: Seq<u8>)
    requires
        read_into(v, start, end, before, a),
        read_into(v, start, end, before, b),
    ensures
        a == b,
{
    assert(a =~= b);
}

/// Where chunk `i` of a chunked read from `start` begins: at `start` for the
/// first, at its page's first byte for the others.
pub open spec fn chunk_start(start: int, b: int, i: int) -> int {
    if i == 0 {
        start
    } else {
        (start / b + i) * b
    }
}

/// Where chunk `i` of a chunked read of `[start, stop)` ends: at the end of
/// its page, or at `stop`.
pub open spec fn chunk_end(start: int, stop: int, b: int, i: int) -> int {
    let e = (start / b + i + 1) * b;
    if e < stop {
        e
    } else {
        stop
    }
}

/// The page holding the last of `n` bytes from `start`, pages of `b` bytes.
pub open spec fn last_page(start: int, n: int, b: int) -> u64 {
    ((start + n - 1) / b) as u64
}

/// Shape of the cache: page size, how frames are grouped, write policy.
pub enum Associativity {
    /// One frame per set.
    DirectMapped,
    /// The given number of frames per set.
    NWay(usize),
    /// One set holding every frame.
    FullyAssociative,
}

/// The parameters a cache is built with.
pub struct CacheConfig {
    pub block_size: usize,
    pub associativity: Associativity,
    pub write_through: bool,
}

/// Frames per set for `config` with a budget of `mem` bytes; `strict`
/// counts metadata against the budget too.
pub open spec fn config_ways(config: CacheConfig, mem: int, strict: bool, per_block: int) -> int {
    match config.associativity {
        Associativity::DirectMapped => 1,
        Associativity::NWay(w) => w as int,
        Associativity::FullyAssociative => if strict {
            mem / (config.block_size + per_block)
        } else {
            mem / (config.block_size as int)
        },
    }
}

/// Number of sets for `config` with a budget of `mem` bytes.
pub open spec fn config_sets(config: CacheConfig, mem: int, strict: bool, per_block: int) -> int {
    let w = config_ways(config, mem, strict, per_block);
    match config.associativity {
        Associativity::FullyAssociative => 1,
        _ => if strict {
            crate::set::strict_count(w, config.block_size as int, mem, per_block)
        } else {
            mem / (w * config.block_size)
        },
    }
}

/// What a cache built with `new_strict` costs fits in `mem` bytes: page data
/// and all metadata for sets of frames, page data and per-frame metadata for
/// the one fully-associative set.
pub open spec fn strict_fits(config: CacheConfig, mem: int, ways: int, sets: int, per_block: int) -> bool {
    match config.associativity {
        Associativity::FullyAssociative => ways * (config.block_size + per_block) <= mem,
        _ => crate::set::data_bytes(sets, ways, config.block_size as int) + crate::set::meta_bytes(sets, ways, per_block)
            <= mem,
    }
}

/// `config` can be built with `mem` bytes: the page size is in range, the
/// lookup and policy accept the frames per set, and at least one set fits.
pub open spec fn config_ok<L: Lookup, R: Replace>(config: CacheConfig, mem: int, strict: bool) -> bool {
    let per_block = crate::set::meta_per_block::<L, R>() as int;
    let w = config_ways(config, mem, strict, per_block);
    &&& 0 < config.block_size <= MAX_BLOCK
    &&& 0 < w <= MAX_FRAMES
    &&& L::accepts(w as nat)
    &&& R::accepts(w as nat)
    &&& w * (config.block_size + 3 * 64) + crate::set::SET_STATIC_META <= usize::MAX
    &&& (strict ==> mem >= crate::set::SETS_STATIC_META)
    &&& config_sets(config, mem, strict, per_block) > 0
}

/// A page cache over the source `B`: sets of frames with lookup `L` and
/// replacement policy `R`, written back on eviction or, in write-through
/// mode, on every write.
pub struct CacheImpl<L: Lookup, R: Replace, B: Writer> {
    source: B,
    sets: NWaySets<L, R>,
    block_size: usize,
    ways: usize,
    len: u64,
    write_through: bool,
}

impl<L: Lookup, R: Replace, B: Writer> CacheImpl<L, R, B> {
    /// Page size in bytes.
    pub closed spec fn block_size(&self) -> nat {
        self.block_size as nat
    }

    /// Number of sets.
    pub closed spec fn set_count(&self) -> nat {
        self.sets.sets@.len()
    }

    /// Frames per set.
    pub closed spec fn ways(&self) -> nat {
        self.ways as nat
    }

    /// Whether every write goes to the source at once.
    pub closed spec fn write_through(&self) -> bool {
        self.write_through
    }

    /// The bytes the source holds now.
    pub closed spec fn source_view(&self) -> Seq<u8> {
        self.source@
    }

    /// The largest length the source can reach.
    pub closed spec fn max_len(&self) -> nat {
        self.source.max_len()
    }

    /// The sets.
    pub closed spec fn sets(&self) -> Seq<NWaySet<L, R>> {
        self.sets.sets@
    }

    /// The set page `p` belongs to.
    pub open spec fn set_of(&self, p: u64) -> int {
        (p as int) % (self.set_count() as int)
    }

    spec fn set_at(&self, p: u64) -> NWaySet<L, R> {
        self.sets.sets@[self.set_of(p)]
    }

    /// Whether page `p` is held in a frame.
    pub closed spec fn resident(&self, p: u64) -> bool {
        self.set_at(p).pages().contains_key(p)
    }

    spec fn frame_of(&self, p: u64) -> int {
        self.set_at(p).pages()[p] as int
    }

    spec fn dirty(&self, p: u64) -> bool {
        self.set_at(p).frame(self.frame_of(p)).dirty
    }

    spec fn data_of(&self, p: u64) -> Seq<u8> {
        self.set_at(p).data(self.frame_of(p))
    }

    /// What page `p` holds as seen through the cache.
    spec fn page_data(&self, p: u64) -> Seq<u8> {
        if self.resident(p) {
            self.data_of(p)
        } else {
            page_of(self.source@, p as int, self.block_size as int)
        }
    }

    spec fn byte(&self, i: int) -> u8 {
        self.page_data((i / (self.block_size as int)) as u64)[i % (self.block_size as int)]
    }

    /// The bytes of the source as seen through the cache.
    pub closed spec fn view(&self) -> Seq<u8> {
        Seq::new(self.len as nat, |i: int| self.byte(i))
    }

    pub closed spec fn wf(&self) -> bool {
        let b = self.block_size as int;
        let s = self.sets.sets@.len() as int;
        &&& self.sets.wf(self.ways as nat, self.block_size as nat)
        &&& 0 < self.block_size <= MAX_BLOCK
        &&& 0 < self.ways <= MAX_FRAMES
        &&& self.source.wf()
        &&& self.source.block_size() == self.block_size
        &&& self.source.max_len() <= u64::MAX
        &&& self.len + b <= self.source.max_len()
        &&& forall|k: int, p: u64|
            0 <= k < s && #[trigger] self.sets.sets@[k as int].pages().contains_key(p) ==> (p as int) % s
                == k
        &&& forall|p: u64| #[trigger]
            self.resident(p) ==> {
                &&& p * b < self.len
                &&& (!self.dirty(p) ==> self.data_of(p) == page_of(self.source@, p as int, b))
                &&& (self.write_through ==> !self.dirty(p))
                &&& forall|j: int| 0 <= j < b && p * b + j >= self.len ==> #[trigger] self.data_of(p)[j] == 0
            }
        &&& forall|i: int| self.len <= i < self.source@.len() ==> #[trigger] self.source@[i] == 0
        &&& self.source@.len() < self.len + b
    }

    /// In write-through mode the source is at least as long as what the
    /// cache shows.
    pub closed spec fn source_covers(&self) -> bool {
        self.write_through ==> self.source@.len() >= self.len
    }

    /// In write-through mode the source holds what the cache shows, followed
    /// by zeros only.
    pub proof fn lemma_through_flushed(&self)
        requires
            self.wf(),
            self.write_through(),
            self.source_covers(),
        ensures
            flushed(self.view(), self.source_view()),
    {
        let b = self.block_size as int;
        assert forall|i: int| 0 <= i < self.len implies #[trigger] self.source@[i] == self.view()[i] by {
            lemma_unsplit(i, b);
            let p = (i / b) as u64;
            assert(self.byte(i) == self.page_data(p)[i % b]);
        }
        assert(self.source@.subrange(0, self.len as int) =~= self.view());
    }

    proof fn lemma_view_same(a: &Self, b: &Self)
        requires
            a.len == b.len,
            a.block_size == b.block_size,
            a.block_size > 0,
            forall|p: u64| #[trigger] a.page_data(p) == b.page_data(p),
        ensures
            a.view() == b.view(),
    {
        assert forall|i: int| 0 <= i < a.len implies a.byte(i) == b.byte(i) by {
            let p = (i / (a.block_size as int)) as u64;
            assert(a.page_data(p) == b.page_data(p));
        }
        assert(a.view() =~= b.view());
    }

    proof fn lemma_set_facts(&self, k: int)
        requires
            self.wf(),
            0 <= k < self.sets.sets@.len(),
        ensures
            self.sets.sets@[k as int].consistent(),
            self.sets.sets@[k as int].ways() == self.ways,
            self.sets.sets@[k as int].block_size() == self.block_size,
    {
        self.sets.sets@[k as int].lemma_wf();
    }

    proof fn lemma_set_of(&self, p: u64)
        requires
            self.sets.sets@.len() > 0,
        ensures
            0 <= self.set_of(p) < self.sets.sets@.len(),
    {
        lemma_mod_bound(p as int, self.sets.sets@.len() as int);
    }

    /// A frame that holds a page is the frame the lookup index of its set
    /// gives for that page, and the set is the page's number modulo the
    /// number of sets.
    pub proof fn lemma_frame_placement(&self, k: int, f: int)
        requires
            self.wf(),
            0 <= k < self.set_count(),
            0 <= f < self.ways(),
            self.sets()[k].frame(f).page < DEL,
        ensures
            self.sets()[k].index()@.contains_key(self.sets()[k].frame(f).page),
            self.sets()[k].index()@[self.sets()[k].frame(f).page] == f,
            self.set_of(self.sets()[k].frame(f).page) == k,
    {
        self.lemma_set_facts(k);
    }

    /// A resident page lives in one set, number `p mod count`, and in one
    /// frame of it.
    pub proof fn lemma_single_home(&self, p: u64, k: int, f: int, k2: int, g: int)
        requires
            self.wf(),
            0 <= k < self.set_count(),
            0 <= k2 < self.set_count(),
            0 <= f < self.ways(),
            0 <= g < self.ways(),
            p < DEL,
            self.sets()[k].frame(f).page == p,
            self.sets()[k2].frame(g).page == p,
        ensures
            k == self.set_of(p),
            k2 == k,
            g == f,
            self.resident(p),
    {
        self.lemma_set_facts(k);
        self.lemma_set_facts(k2);
    }

    /// A page that is not resident holds, in the source, the bytes the
    /// cache shows for it: a frame evicted dirty was written back.
    pub proof fn lemma_nonresident_in_source(&self, p: u64)
        requires
            self.wf(),
            !self.resident(p),
        ensures
            forall|j: int|
                0 <= j < self.block_size() && p * self.block_size() + j < self.view().len() ==> byte_or_zero(
                    self.source_view(),
                    p * self.block_size() + j,
                ) == #[trigger] self.view()[p * self.block_size() + j],
    {
        let b = self.block_size as int;
        assert forall|j: int|
            0 <= j < b && p * b + j < self.view().len() implies byte_or_zero(self.source@, p * b + j)
            == #[trigger] self.view()[p * b + j] by {
            lemma_split(p * b + j, b, p as int, j);
        }
    }

    /// Frees a frame in the set of `page`, which is not resident, writing
    /// back the page it held if that page is dirty. What the cache shows does
    /// not change.
    #[verifier::rlimit(100)]
    fn evict_for(&mut self, page: u64) -> (r: (usize, usize))
        requires
            old(self).wf(),
            page * old(self).block_size() < old(self).len,
            !old(self).resident(page),
        ensures
            final(self).wf(),
            final(self).view() == old(self).view(),
            final(self).len == old(self).len,
            final(self).block_size == old(self).block_size,
            final(self).ways == old(self).ways,
            final(self).write_through == old(self).write_through,
            final(self).sets.sets@.len() == old(self).sets.sets@.len(),
            !final(self).resident(page),
            r.0 == final(self).set_of(page),
            r.1 < final(self).ways,
            final(self).sets.sets@[r.0 as int].frame(r.1 as int).page == NIL,
            old(self).write_through ==> final(self).source@ == old(self).source@,
            final(self).source.max_len() == old(self).source.max_len(),
            forall|q: u64| #[trigger] final(self).page_data(q) == old(self).page_data(q),
    {
        let b = self.block_size;
        let count = self.sets.sets.len();
        proof {
            self.lemma_set_of(page);
            assert(page <= page * b) by (nonlinear_arith)
                requires
                    b >= 1,
            ;
        }
        let k = (page % (count as u64)) as usize;
        proof {
            self.lemma_set_facts(k as int);
        }
        let ghost st0 = *self;
        let v = self.sets.sets[k].victim();
        let ghost st1 = *self;
        proof {
            assert forall|p: u64| #[trigger] st1.page_data(p) == st0.page_data(p) by {
                self.lemma_set_of(p);
                if self.set_of(p) == k && st0.resident(p) {
                    assert(st1.sets.sets@[k as int].same_frame(&st0.sets.sets@[k as int], st0.frame_of(p)));
                }
            }
            let s = count as int;
            assert forall|kk: int, p: u64|
                0 <= kk < s && #[trigger] st1.sets.sets@[kk].pages().contains_key(p) implies (p as int) % s == kk by {
                assert(st0.sets.sets@[kk].pages().contains_key(p));
            }
            assert forall|p: u64| #[trigger] st1.resident(p) implies {
                &&& p * b < st1.len
                &&& (!st1.dirty(p) ==> st1.data_of(p) == page_of(st1.source@, p as int, b as int))
                &&& (st1.write_through ==> !st1.dirty(p))
                &&& forall|j: int| 0 <= j < b && p * b + j >= st1.len ==> #[trigger] st1.data_of(p)[j] == 0
            } by {
                self.lemma_set_of(p);
                assert(st0.resident(p));
                if st1.set_of(p) == k {
                    assert(st1.sets.sets@[k as int].same_frame(&st0.sets.sets@[k as int], st0.frame_of(p)));
                }
                assert(st1.frame_of(p) == st0.frame_of(p));
                assert(st1.data_of(p) == st0.data_of(p));
                assert(st1.dirty(p) == st0.dirty(p));
            }
            assert(st1.wf());
            self.sets.sets@[k as int].lemma_wf();
        }
        let info = self.sets.sets[k].info(v);
        if info.page != NIL {
            let q = info.page;
            proof {
                assert(st1.sets.sets@[k as int].pages().contains_key(q));
                assert((q as int) % (count as int) == k);
                assert(st1.resident(q));
                assert(st1.frame_of(q) == v);
                assert(st0.resident(q));
                assert(st0.frame_of(q) == v);
                assert(st1.sets.sets@[k as int].same_frame(&st0.sets.sets@[k as int], v as int));
                assert(st1.data_of(q) == st0.data_of(q));
                assert(st1.dirty(q) == st0.dirty(q));
                assert(st1.dirty(q) == info.dirty);
                assert(q * b < st1.len);
                assert((q + 1) * b == q * b + b) by (nonlinear_arith);
            }
            if info.dirty {
                self.source.write(q, self.sets.sets[k].block(v));
                self.sets.sets[k].set_clean(v);
            }
            let ghost st2 = *self;
            proof {
                self.sets.sets@[k as int].lemma_wf();
                assert(st2.sets.sets@[k as int].data(v as int) == st1.sets.sets@[k as int].data(v as int));
                if info.dirty {
                    assert forall|j: int| 0 <= j < b implies #[trigger] page_of(st2.source@, q as int, b as int)[j]
                        == st1.data_of(q)[j] by {
                        assert(q * b <= q * b + j);
                    }
                    assert(page_of(st2.source@, q as int, b as int) =~= st1.data_of(q));
                }
                assert forall|p: u64| p != q implies #[trigger] page_of(st2.source@, p as int, b as int)
                    == page_of(st1.source@, p as int, b as int) by {
                    if info.dirty {
                        assert forall|j: int| 0 <= j < b implies #[trigger] page_of(st2.source@, p as int, b as int)[j]
                            == page_of(st1.source@, p as int, b as int)[j] by {
                            let i = p * b + j;
                            if q * b <= i < q * b + b {
                                lemma_split(i, b as int, p as int, j);
                                lemma_split(i, b as int, q as int, i - q * b);
                            }
                        }
                        assert(page_of(st2.source@, p as int, b as int) =~= page_of(st1.source@, p as int, b as int));
                    }
                }
                assert forall|p: u64| #[trigger] st2.page_data(p) == st1.page_data(p) by {
                    self.lemma_set_of(p);
                    if self.set_of(p) == k && st1.resident(p) && p != q {
                        assert(st1.frame_of(p) != v);
                        assert(st2.sets.sets@[k as int].same_frame(&st1.sets.sets@[k as int], st1.frame_of(p)));
                    }
                }
                assert forall|i: int| st2.len <= i < st2.source@.len() implies #[trigger] st2.source@[i] == 0 by {
                    if info.dirty && q * b <= i < q * b + b {
                        let j = i - q * b;
                        assert(q * b + j >= st0.len);
                        assert(st0.data_of(q)[j] == 0);
                    }
                }
            }
            self.sets.sets[k].release(v);
            let ghost st3 = *self;
            proof {
                assert forall|p: u64| #[trigger] st3.page_data(p) == st2.page_data(p) by {
                    self.lemma_set_of(p);
                    if p == q {
                        assert(st2.resident(q));
                        assert(st2.frame_of(q) == v);
                        assert(st2.data_of(q) == st1.data_of(q));
                        if !info.dirty {
                            assert(st0.resident(q));
                            assert(st0.frame_of(q) == v);
                            assert(!st0.dirty(q));
                            assert(st0.data_of(q) == st1.data_of(q));
                        }
                    }
                    if self.set_of(p) == k && st2.resident(p) && p != q {
                        assert(st2.frame_of(p) != v);
                        assert(st3.sets.sets@[k as int].same_frame(&st2.sets.sets@[k as int], st2.frame_of(p)));
                    }
                }
                let s = count as int;
                assert forall|kk: int, p: u64|
                    0 <= kk < s && #[trigger] st3.sets.sets@[kk].pages().contains_key(p) implies (p as int) % s == kk by {
                    assert(st1.sets.sets@[kk].pages().contains_key(p));
                }
                assert forall|p: u64| #[trigger] st3.resident(p) implies {
                    &&& p * b < st3.len
                    &&& (!st3.dirty(p) ==> st3.data_of(p) == page_of(st3.source@, p as int, b as int))
                    &&& (st3.write_through ==> !st3.dirty(p))
                    &&& forall|j: int| 0 <= j < b && p * b + j >= st3.len ==> #[trigger] st3.data_of(p)[j] == 0
                } by {
                    self.lemma_set_of(p);
                    assert(p != q);
                    assert(st1.resident(p));
                    if st3.set_of(p) == k {
                        assert(st1.frame_of(p) != v);
                        assert(st2.sets.sets@[k as int].same_frame(&st1.sets.sets@[k as int], st1.frame_of(p)));
                        assert(st3.sets.sets@[k as int].same_frame(&st2.sets.sets@[k as int], st1.frame_of(p)));
                    }
                    assert(st3.frame_of(p) == st1.frame_of(p));
                    assert(st3.data_of(p) == st1.data_of(p));
                    assert(st3.dirty(p) == st1.dirty(p));
                    assert(page_of(st3.source@, p as int, b as int) == page_of(st1.source@, p as int, b as int));
                }
                assert(st3.wf());
            }
        }
        proof {
            self.sets.sets@[k as int].lemma_wf();
            assert(self.wf());
            assert(self.set_of(page) == k);
            assert(!st0.sets.sets@[k as int].pages().contains_key(page));
            assert(!self.sets.sets@[k as int].pages().contains_key(page));
        }
        (k, v)
    }

    /// Brings page `page`, which is not resident, into its set with the
    /// bytes `data[from..from + block_size]` in place of its old ones, which
    /// are not read. Write-back mode only.
    fn fetch_fill(&mut self, page: u64, data: &[u8], from: usize) -> (r: (usize, usize))
        requires
            old(self).wf(),
            !old(self).write_through,
            (page + 1) * old(self).block_size() <= old(self).len,
            !old(self).resident(page),
            from + old(self).block_size() <= data@.len(),
        ensures
            final(self).wf(),
            final(self).len == old(self).len,
            final(self).block_size == old(self).block_size,
            final(self).ways == old(self).ways,
            final(self).write_through == old(self).write_through,
            final(self).sets.sets@.len() == old(self).sets.sets@.len(),
            final(self).source.max_len() == old(self).source.max_len(),
            final(self).resident(page),
            final(self).page_data(page) == data@.subrange(from as int, from + old(self).block_size()),
            forall|q: u64| q != page ==> #[trigger] final(self).page_data(q) == old(self).page_data(q),
            forall|i: int| 0 <= i < old(self).len && !(page * old(self).block_size() <= i < (page + 1) * old(self).block_size())
                ==> #[trigger] final(self).view()[i] == old(self).view()[i],
    {
        let b = self.block_size;
        proof {
            assert((page + 1) * b == page * b + b) by (nonlinear_arith);
            assert(page <= page * b) by (nonlinear_arith)
                requires
                    b >= 1,
            ;
        }
        let ghost st0 = *self;
        let (k, v) = self.evict_for(page);
        let ghost st3 = *self;
        proof {
            self.sets.sets@[k as int].lemma_wf();
            assert(!self.sets.sets@[k as int].pages().contains_key(page));
        }
        self.sets.sets[k].fill(v, page, data, from);
        proof {
            let st4 = *self;
            let s = self.sets.sets@.len() as int;
            self.lemma_set_of(page);
            assert forall|p: u64| p != page implies #[trigger] st4.page_data(p) == st3.page_data(p) by {
                self.lemma_set_of(p);
                if self.set_of(p) == k && st3.resident(p) {
                    assert(st3.frame_of(p) != v);
                    assert(st4.sets.sets@[k as int].same_frame(&st3.sets.sets@[k as int], st3.frame_of(p)));
                }
            }
            assert forall|kk: int, p: u64|
                0 <= kk < s && #[trigger] self.sets.sets@[kk].pages().contains_key(p) implies (p as int) % s == kk by {
                if kk != k || p != page {
                    assert(st3.sets.sets@[kk].pages().contains_key(p));
                }
            }
            assert forall|p: u64| #[trigger] self.resident(p) implies {
                &&& p * b < self.len
                &&& (!self.dirty(p) ==> self.data_of(p) == page_of(self.source@, p as int, b as int))
                &&& (self.write_through ==> !self.dirty(p))
                &&& forall|j: int| 0 <= j < b && p * b + j >= self.len ==> #[trigger] self.data_of(p)[j] == 0
            } by {
                self.lemma_set_of(p);
                if p != page {
                    assert(st3.resident(p));
                    if self.set_of(p) == k {
                        assert(st3.frame_of(p) != v);
                        assert(st4.sets.sets@[k as int].same_frame(&st3.sets.sets@[k as int], st3.frame_of(p)));
                    }
                    assert(st4.frame_of(p) == st3.frame_of(p));
                    assert(st4.data_of(p) == st3.data_of(p));
                    assert(st4.dirty(p) == st3.dirty(p));
                }
            }
            assert(self.wf());
            assert forall|q: u64| q != page implies #[trigger] st4.page_data(q) == st0.page_data(q) by {
                assert(st4.page_data(q) == st3.page_data(q));
            }
            assert forall|i: int| 0 <= i < st0.len && !(page * b <= i < (page + 1) * b)
                implies #[trigger] st4.view()[i] == st0.view()[i] by {
                lemma_unsplit(i, b as int);
                let q = (i / (b as int)) as u64;
                if q == page {
                    lemma_split(i, b as int, page as int, i % (b as int));
                }
                assert(st3.view()[i] == st0.view()[i]);
                assert(st3.byte(i) == st3.page_data(q)[i % (b as int)]);
                assert(st4.page_data(q) == st3.page_data(q));
            }
        }
        (k, v)
    }

    /// Brings page `page` into its set, writing back the frame it takes if
    /// that frame is dirty. What the cache shows does not change.
    fn fetch(&mut self, page: u64) -> (r: (usize, usize))
        requires
            old(self).wf(),
            page * old(self).block_size() < old(self).len,
        ensures
            final(self).wf(),
            final(self).view() == old(self).view(),
            final(self).len == old(self).len,
            final(self).block_size == old(self).block_size,
            final(self).ways == old(self).ways,
            final(self).write_through == old(self).write_through,
            final(self).sets.sets@.len() == old(self).sets.sets@.len(),
            final(self).resident(page),
            r.0 == final(self).set_of(page),
            r.1 == final(self).frame_of(page),
            old(self).write_through ==> final(self).source@ == old(self).source@,
            final(self).source.max_len() == old(self).source.max_len(),
    {
        let b = self.block_size;
        let count = self.sets.sets.len();
        proof {
            self.lemma_set_of(page);
            assert(page <= page * b) by (nonlinear_arith)
                requires
                    b >= 1,
            ;
        }
        let k = (page % (count as u64)) as usize;
        proof {
            self.lemma_set_facts(k as int);
        }
        let hit = self.sets.sets[k].get(page);
        if hit != crate::hash::NULL {
            let ghost st0 = *self;
            self.sets.sets[k].touch(hit);
            proof {
                let s = self.sets.sets@.len() as int;
                assert forall|kk: int, p: u64|
                    0 <= kk < s && #[trigger] self.sets.sets@[kk].pages().contains_key(p) implies (p as int) % s == kk by {
                    assert(st0.sets.sets@[kk].pages().contains_key(p));
                }
                assert forall|p: u64| #[trigger] self.page_data(p) == st0.page_data(p) by {
                    self.lemma_set_of(p);
                    if self.set_of(p) == k {
                        if st0.resident(p) {
                            assert(self.sets.sets@[k as int].same_frame(&st0.sets.sets@[k as int], st0.frame_of(p)));
                        }
                    }
                }
                assert forall|p: u64| #[trigger] self.resident(p) implies {
                    &&& p * b < self.len
                    &&& (!self.dirty(p) ==> self.data_of(p) == page_of(self.source@, p as int, b as int))
                    &&& (self.write_through ==> !self.dirty(p))
                    &&& forall|j: int| 0 <= j < b && p * b + j >= self.len ==> #[trigger] self.data_of(p)[j] == 0
                } by {
                    self.lemma_set_of(p);
                    assert(st0.resident(p));
                    if self.set_of(p) == k {
                        assert(self.sets.sets@[k as int].same_frame(&st0.sets.sets@[k as int], st0.frame_of(p)));
                    }
                    assert(self.frame_of(p) == st0.frame_of(p));
                    assert(self.data_of(p) == st0.data_of(p));
                    assert(self.dirty(p) == st0.dirty(p));
                }
                CacheImpl::lemma_view_same(self, &st0);
            }
            return (k, hit);
        }
        let ghost st0 = *self;
        let (k, v) = self.evict_for(page);
        let ghost st3 = *self;
        proof {
            self.sets.sets@[k as int].lemma_wf();
            assert(!self.sets.sets@[k as int].pages().contains_key(page));
        }
        self.sets.sets[k].load(v, page, &self.source);
        proof {
            let st4 = *self;
            let s = count as int;
            assert forall|p: u64| #[trigger] st4.page_data(p) == st3.page_data(p) by {
                self.lemma_set_of(p);
                if self.set_of(p) == k && st3.resident(p) {
                    assert(st3.frame_of(p) != v);
                    assert(st4.sets.sets@[k as int].same_frame(&st3.sets.sets@[k as int], st3.frame_of(p)));
                }
            }
            assert forall|kk: int, p: u64|
                0 <= kk < s && #[trigger] self.sets.sets@[kk].pages().contains_key(p) implies (p as int) % s == kk by {
                if kk != k || p != page {
                    assert(st3.sets.sets@[kk].pages().contains_key(p));
                }
            }
            assert(st3.wf());
            assert forall|p: u64| #[trigger] self.resident(p) implies {
                &&& p * b < self.len
                &&& (!self.dirty(p) ==> self.data_of(p) == page_of(self.source@, p as int, b as int))
                &&& (self.write_through ==> !self.dirty(p))
                &&& forall|j: int| 0 <= j < b && p * b + j >= self.len ==> #[trigger] self.data_of(p)[j] == 0
            } by {
                self.lemma_set_of(p);
                if p != page {
                    assert(st3.resident(p));
                    if self.set_of(p) == k {
                        assert(st3.frame_of(p) != v);
                        assert(st4.sets.sets@[k as int].same_frame(&st3.sets.sets@[k as int], st3.frame_of(p)));
                    }
                    assert(st4.frame_of(p) == st3.frame_of(p));
                    assert(st4.data_of(p) == st3.data_of(p));
                    assert(st4.dirty(p) == st3.dirty(p));
                } else {
                    assert forall|j: int| 0 <= j < b && p * b + j >= self.len implies #[trigger] self.data_of(p)[j] == 0 by {
                        assert(self.data_of(p)[j] == byte_or_zero(self.source@, p * b + j));
                    }
                }
            }
            CacheImpl::lemma_view_same(self, &st3);
        }
        (k, v)
    }

    /// Writes `data` at `offset`, page by page, and returns the number of
    /// bytes written: all of them. A page that is not resident is loaded
    /// first unless the write covers it whole (in write-back mode). In
    /// write-through mode each page touched is written to the source before
    /// the call returns.
    #[verifier::rlimit(100)]
    pub fn write(&mut self, offset: u64, data: &[u8]) -> (n: usize)
        requires
            old(self).wf(),
            offset + data@.len() + old(self).block_size() <= old(self).max_len(),
        ensures
            final(self).wf(),
            n == data@.len(),
            final(self).view() == overwrite_or_same(old(self).view(), offset as int, data@),
            n > 0 ==> final(self).resident(last_page(offset as int, n as int, old(self).block_size() as int)),
            old(self).write_through() && n > 0 ==> final(self).source_view().len() >= offset + n
                && final(self).source_view().subrange(offset as int, offset + n) == data@,
            old(self).source_covers() ==> final(self).source_covers(),
            old(self).write_through() && old(self).source_covers() ==> flushed(final(self).view(), final(self).source_view()),
            final(self).block_size() == old(self).block_size(),
            final(self).ways() == old(self).ways(),
            final(self).write_through() == old(self).write_through(),
            final(self).set_count() == old(self).set_count(),
            final(self).max_len() == old(self).max_len(),
    {
        let total = data.len();
        if total == 0 {
            proof {
                if self.write_through && self.source_covers() {
                    self.lemma_through_flushed();
                }
            }
            return 0;
        }
        let b = self.block_size;
        let end = offset + total as u64;
        let ghost v0 = self.view();
        if end > self.len {
            let ghost st0 = *self;
            self.len = end;
            proof {
                assert forall|p: u64| #[trigger] self.page_data(p) == st0.page_data(p) by {}
                assert forall|i: int| st0.len <= i < end implies #[trigger] self.byte(i) == 0 by {
                    lemma_unsplit(i, b as int);
                    let p = (i / (b as int)) as u64;
                    let j = i % (b as int);
                    if st0.resident(p) {
                        assert(st0.data_of(p)[j] == 0);
                    }
                }
                assert forall|p: u64| #[trigger] self.resident(p) implies {
                    &&& p * b < self.len
                    &&& (!self.dirty(p) ==> self.data_of(p) == page_of(self.source@, p as int, b as int))
                    &&& (self.write_through ==> !self.dirty(p))
                    &&& forall|j: int| 0 <= j < b && p * b + j >= self.len ==> #[trigger] self.data_of(p)[j] == 0
                } by {
                    assert(st0.resident(p));
                    assert(self.frame_of(p) == st0.frame_of(p));
                    assert(self.data_of(p) == st0.data_of(p));
                    assert(self.dirty(p) == st0.dirty(p));
                    assert forall|j: int| 0 <= j < b && p * b + j >= self.len implies #[trigger] self.data_of(p)[j] == 0 by {
                        assert(st0.data_of(p)[j] == 0);
                    }
                }
                assert(self.wf());
            }
        }
        let ghost ve = self.view();
        proof {
            assert(ve.len() >= offset + total);
            assert forall|i: int| 0 <= i < ve.len() implies #[trigger] ve[i] == byte_or_zero(v0, i) by {}
        }
        let mut pos: u64 = offset;
        while pos < end
            invariant
                self.wf(),
                offset <= pos <= end,
                end == offset + data@.len(),
                total == data@.len(),
                b == self.block_size,
                end <= self.len,
                self.len == ve.len(),
                self.block_size == old(self).block_size,
                self.ways == old(self).ways,
                self.write_through == old(self).write_through,
                self.sets.sets@.len() == old(self).sets.sets@.len(),
                self.source.max_len() == old(self).source.max_len(),
                pos > offset ==> self.resident(last_page(pos as int, 0, b as int)),
                self.view() == written(ve, offset as int, data@, pos as int),
                old(self).write_through ==> self.source@.len() >= old(self).source@.len(),
                old(self).write_through ==> (self.source@.len() >= pos || pos == offset) && forall|i: int|
                    offset <= i < pos ==> #[trigger] self.source@[i] == data@[i - offset],
            decreases end - pos,
        {
            let p = pos / (b as u64);
            let lo = (pos % (b as u64)) as usize;
            proof {
                lemma_unsplit(pos as int, b as int);
            }
            let room = b - lo;
            let m: usize = if ((end - pos) as u128) < (room as u128) {
                (end - pos) as usize
            } else {
                room
            };
            let from = (pos - offset) as usize;
            if !self.write_through && lo == 0 && m == b && !self.is_resident(p) {
                let ghost st1 = *self;
                proof {
                    assert((p + 1) * b == p * b + b) by (nonlinear_arith);
                    assert(p * b == pos);
                }
                let _ = self.fetch_fill(p, data, from);
                proof {
                    assert forall|i: int| 0 <= i < self.len implies #[trigger] self.view()[i] == written(ve, offset as int, data@, pos + m)[i] by {
                        if p * b <= i < p * b + b {
                            lemma_split(i, b as int, p as int, i - p * b);
                            assert(self.byte(i) == self.page_data(p)[i - p * b]);
                        } else {
                            assert(self.view()[i] == st1.view()[i]);
                        }
                    }
                    assert(self.view() =~= written(ve, offset as int, data@, pos + m));
                }
            } else {
                let (k, f) = self.fetch(p);
                let ghost st1 = *self;
                proof {
                    self.lemma_set_of(p);
                    self.lemma_set_facts(k as int);
                    assert(self.sets.sets@[k as int].pages().contains_key(p));
                }
                self.sets.sets[k].store(f, lo, data, from, m);
                let ghost st2 = *self;
                proof {
                    self.lemma_set_of(p);
                    assert(st1.set_of(p) == k);
                    assert(st2.data_of(p) == Seq::new(
                        b as nat,
                        |i: int|
                            if lo <= i < lo + m {
                                data@[from + i - lo]
                            } else {
                                st1.data_of(p)[i]
                            },
                    ));
                    assert forall|q: u64| q != p implies #[trigger] st2.page_data(q) == st1.page_data(q) by {
                        self.lemma_set_of(q);
                        if st1.resident(q) && st1.set_of(q) == k {
                            assert(st1.frame_of(q) != f);
                            assert(st2.sets.sets@[k as int].same_frame(&st1.sets.sets@[k as int], st1.frame_of(q)));
                        }
                    }
                }
                if self.write_through {
                    proof {
                        assert((p + 1) * b == p * b + b) by (nonlinear_arith);
                    }
                    self.source.write(p, self.sets.sets[k].block(f));
                    self.sets.sets[k].set_clean(f);
                }
                proof {
                    let st3 = *self;
                    let sc = self.sets.sets@.len() as int;
                    self.sets.sets@[k as int].lemma_wf();
                    if st3.write_through {
                        lemma_page_write(st2.source@, p as int, b as int, st2.data_of(p));
                    }
                    assert forall|q: u64| q != p implies #[trigger] st3.page_data(q) == st2.page_data(q) by {
                        self.lemma_set_of(q);
                        if st2.resident(q) && st2.set_of(q) == k {
                            assert(st2.frame_of(q) != f);
                            assert(st3.sets.sets@[k as int].same_frame(&st2.sets.sets@[k as int], st2.frame_of(q)));
                        }
                        if st3.write_through {
                            assert(page_of(st3.source@, q as int, b as int) == page_of(st2.source@, q as int, b as int));
                        }
                    }
                    assert(st3.page_data(p) == st2.data_of(p));
                    assert forall|kk: int, q: u64|
                        0 <= kk < sc && #[trigger] st3.sets.sets@[kk].pages().contains_key(q) implies (q as int) % sc == kk by {
                        assert(st1.sets.sets@[kk].pages().contains_key(q));
                    }
                    assert forall|q: u64| #[trigger] st3.resident(q) implies {
                        &&& q * b < st3.len
                        &&& (!st3.dirty(q) ==> st3.data_of(q) == page_of(st3.source@, q as int, b as int))
                        &&& (st3.write_through ==> !st3.dirty(q))
                        &&& forall|j: int| 0 <= j < b && q * b + j >= st3.len ==> #[trigger] st3.data_of(q)[j] == 0
                    } by {
                        self.lemma_set_of(q);
                        assert(st1.resident(q));
                        if q != p {
                            if st3.set_of(q) == k {
                                assert(st1.frame_of(q) != f);
                                assert(st2.sets.sets@[k as int].same_frame(&st1.sets.sets@[k as int], st1.frame_of(q)));
                                assert(st3.sets.sets@[k as int].same_frame(&st2.sets.sets@[k as int], st1.frame_of(q)));
                            }
                            assert(st3.data_of(q) == st1.data_of(q));
                            assert(st3.dirty(q) == st1.dirty(q));
                            if st3.write_through {
                                assert(page_of(st3.source@, q as int, b as int) == page_of(st1.source@, q as int, b as int));
                            }
                        } else {
                            assert forall|j: int| 0 <= j < b && q * b + j >= st3.len implies #[trigger] st3.data_of(q)[j] == 0 by {
                                assert(st1.data_of(q)[j] == 0);
                            }
                        }
                    }
                    assert forall|i: int| st3.len <= i < st3.source@.len() implies #[trigger] st3.source@[i] == 0 by {
                        if st3.write_through && p * b <= i < p * b + b {
                            let j = i - p * b;
                            assert(st1.data_of(p)[j] == 0);
                        }
                    }
                    assert(st3.wf());
                    assert forall|i: int| 0 <= i < st3.len implies #[trigger] st3.byte(i) == written(ve, offset as int, data@, pos + m)[i] by {
                        lemma_unsplit(i, b as int);
                        let q = (i / (b as int)) as u64;
                        let j = i % (b as int);
                        if q == p {
                            assert(st1.byte(i) == st1.page_data(p)[j]);
                            if lo <= j < lo + m {
                                assert(from + j - lo == i - offset);
                            } else {
                                assert(!(pos <= i < pos + m));
                            }
                        } else {
                            assert(st3.page_data(q) == st1.page_data(q));
                            if pos <= i < pos + m {
                                lemma_split(i, b as int, p as int, i - p * b);
                            }
                        }
                        assert(st1.byte(i) == st1.view()[i]);
                    }
                    assert(st3.view() =~= written(ve, offset as int, data@, pos + m));
                    if old(self).write_through {
                        assert(st3.source@.len() >= p * b + b);
                        assert forall|i: int| offset <= i < pos + m implies #[trigger] st3.source@[i] == data@[i - offset] by {
                            if pos <= i {
                                let j = i - p * b;
                                assert(page_of(st3.source@, p as int, b as int)[j] == st3.source@[i]);
                            } else {
                                assert(i < p * b || i >= p * b + b || i < pos);
                                if p * b <= i {
                                    let j = i - p * b;
                                    assert(j < lo);
                                    lemma_split(i, b as int, p as int, j);
                                    assert(st2.data_of(p)[j] == st1.data_of(p)[j]);
                                    assert(st1.page_data(p)[j] == st1.byte(i));
                                    assert(st1.source@[i] == data@[i - offset]);
                                } else {
                                    assert(st2.source@[i] == data@[i - offset]);
                                }
                            }
                        }
                    }
                }
            }
            proof {
                assert(self.resident(p));
                lemma_split(pos + m - 1, b as int, p as int, lo + m - 1);
            }
            pos = pos + m as u64;
        }
        proof {
            assert(self.view() =~= overwrite(v0, offset as int, data@));
            if old(self).write_through {
                assert(self.source@.subrange(offset as int, offset + total) =~= data@);
                if old(self).source_covers() {
                    assert(self.source_covers());
                    self.lemma_through_flushed();
                }
            }
        }
        total
    }


    /// Whether page `page` is held in a frame.
    pub fn is_resident(&self, page: u64) -> (r: bool)
        requires
            self.wf(),
        ensures
            r == self.resident(page),
    {
        if page >= DEL {
            proof {
                self.lemma_set_of(page);
                self.lemma_set_facts(self.set_of(page));
            }
            return false;
        }
        let count = self.sets.sets.len();
        let k = (page % (count as u64)) as usize;
        proof {
            self.lemma_set_of(page);
            self.lemma_set_facts(k as int);
        }
        self.sets.sets[k].get(page) != crate::hash::NULL
    }

    /// Builds the cache over `source` from the sets it will use.
    fn from_sets(source: B, sets: NWaySets<L, R>, block_size: usize, ways: usize, write_through: bool) -> (r: Self)
        requires
            sets.wf(ways as nat, block_size as nat),
            forall|k: int| 0 <= k < sets.sets@.len() ==> (#[trigger] sets.sets@[k]).pages() == Map::<u64, usize>::empty(),
            0 < block_size <= MAX_BLOCK,
            0 < ways <= MAX_FRAMES,
            source.wf(),
            source.block_size() == block_size,
            source.max_len() <= u64::MAX,
            source@.len() + block_size <= source.max_len(),
        ensures
            r.wf(),
            r.view() == source@,
            r.source_view() == source@,
            r.block_size() == block_size,
            r.ways() == ways,
            r.set_count() == sets.sets@.len(),
            r.write_through() == write_through,
            r.max_len() == source.max_len(),
            r.source_covers(),
            forall|p: u64| !(#[trigger] r.resident(p)),
    {
        let len = source.len();
        let r = CacheImpl { source, sets, block_size, ways, len, write_through };
        proof {
            assert forall|p: u64| !(#[trigger] r.resident(p)) by {
                r.lemma_set_of(p);
            }
            assert forall|i: int| 0 <= i < len implies #[trigger] r.byte(i) == r.source@[i] by {
                lemma_unsplit(i, block_size as int);
                let p = (i / (block_size as int)) as u64;
                assert(!r.resident(p));
            }
            assert(r.view() =~= r.source@);
        }
        r
    }

    /// A cache over `source` shaped by `config`, with `mem` bytes of page data.
    pub fn new(source: B, config: CacheConfig, mem: usize) -> (r: Self)
        requires
            config_ok::<L, R>(config, mem as int, false),
            source.wf(),
            source.block_size() == config.block_size,
            source.max_len() <= u64::MAX,
            source@.len() + config.block_size <= source.max_len(),
        ensures
            r.wf(),
            r.view() == source@,
            r.block_size() == config.block_size,
            r.write_through() == config.write_through,
            r.ways() == config_ways(config, mem as int, false, crate::set::meta_per_block::<L, R>() as int),
            r.set_count() == config_sets(config, mem as int, false, crate::set::meta_per_block::<L, R>() as int),
            r.max_len() == source.max_len(),
            r.source_view() == source@,
            r.source_covers(),
            forall|p: u64| !(#[trigger] r.resident(p)),
    {
        let b = config.block_size;
        proof {
            let w = config_ways(config, mem as int, false, crate::set::meta_per_block::<L, R>() as int);
            assert(w * b <= w * (b + 3 * 64)) by (nonlinear_arith)
                requires
                    w >= 0,
            ;
        }
        match config.associativity {
            Associativity::DirectMapped => {
                let sets = NWaySets::new(1, b, mem);
                Self::from_sets(source, sets, b, 1, config.write_through)
            },
            Associativity::NWay(w) => {
                let sets = NWaySets::new(w, b, mem);
                Self::from_sets(source, sets, b, w, config.write_through)
            },
            Associativity::FullyAssociative => {
                let w = mem / b;
                let sets = NWaySets::with_count(1, w, b);
                Self::from_sets(source, sets, b, w, config.write_through)
            },
        }
    }

    /// A cache over `source` shaped by `config`, whose pages and metadata
    /// together fit in `mem` bytes.
    pub fn new_strict(source: B, config: CacheConfig, mem: usize) -> (r: Self)
        requires
            config_ok::<L, R>(config, mem as int, true),
            source.wf(),
            source.block_size() == config.block_size,
            source.max_len() <= u64::MAX,
            source@.len() + config.block_size <= source.max_len(),
        ensures
            r.wf(),
            r.view() == source@,
            r.block_size() == config.block_size,
            r.write_through() == config.write_through,
            r.ways() == config_ways(config, mem as int, true, crate::set::meta_per_block::<L, R>() as int),
            r.set_count() == config_sets(config, mem as int, true, crate::set::meta_per_block::<L, R>() as int),
            r.max_len() == source.max_len(),
            r.source_view() == source@,
            strict_fits(config, mem as int, r.ways() as int, r.set_count() as int, crate::set::meta_per_block::<L, R>() as int),
            r.source_covers(),
            forall|p: u64| !(#[trigger] r.resident(p)),
    {
        let b = config.block_size;
        match config.associativity {
            Associativity::DirectMapped => {
                let sets = NWaySets::new_strict(1, b, mem);
                Self::from_sets(source, sets, b, 1, config.write_through)
            },
            Associativity::NWay(w) => {
                let sets = NWaySets::new_strict(w, b, mem);
                Self::from_sets(source, sets, b, w, config.write_through)
            },
            Associativity::FullyAssociative => {
                let per_block = crate::set::meta_mem_per_block::<L, R>();
                let w = mem / (b + per_block);
                proof {
                    crate::set::lemma_div_fits(mem as int, (b + per_block) as int);
                }
                let sets = NWaySets::with_count(1, w, b);
                Self::from_sets(source, sets, b, w, config.write_through)
            },
        }
    }

    /// Copies the bytes `[start, end)` into `buf` and returns how many it
    /// copied: the read stops at the end of the source and of `buf`. The
    /// rest of `buf` is left alone.
    pub fn read(&mut self, start: u64, end: u64, buf: &mut [u8]) -> (n: usize)
        requires
            old(self).wf(),
        ensures
            final(self).wf(),
            final(self).view() == old(self).view(),
            n == read_count(start as int, end as int, old(self).view().len() as int, old(buf)@.len() as int),
            read_into(old(self).view(), start as int, end as int, old(buf)@, final(buf)@),
            n > 0 ==> final(self).resident(last_page(start as int, n as int, old(self).block_size() as int)),
            final(self).block_size() == old(self).block_size(),
            final(self).ways() == old(self).ways(),
            final(self).write_through() == old(self).write_through(),
            final(self).set_count() == old(self).set_count(),
            final(self).max_len() == old(self).max_len(),
            old(self).write_through() ==> final(self).source_view() == old(self).source_view(),
            old(self).source_covers() ==> final(self).source_covers(),
    {
        let b = self.block_size;
        let len = self.len;
        let cap = buf.len();
        let mut stop: u64 = if end < len { end } else { len };
        if (stop as u128) > (start as u128) + (cap as u128) {
            stop = start + cap as u64;
        }
        if stop <= start {
            return 0;
        }
        let n = (stop - start) as usize;
        let ghost v0 = self.view();
        let mut pos: u64 = start;
        while pos < stop
            invariant
                self.wf(),
                start <= pos <= stop <= self.len,
                stop - start == n,
                n <= buf@.len(),
                buf@.len() == old(buf)@.len(),
                b == self.block_size,
                self.len == len,
                self.view() == v0,
                v0.len() == len,
                self.block_size == old(self).block_size,
                self.ways == old(self).ways,
                self.write_through == old(self).write_through,
                self.sets.sets@.len() == old(self).sets.sets@.len(),
                self.source.max_len() == old(self).source.max_len(),
                old(self).write_through ==> self.source@ == old(self).source@,
                pos > start ==> self.resident(last_page(pos as int, 0, b as int)),
                forall|i: int| 0 <= i < pos - start ==> #[trigger] buf@[i] == v0[start + i],
                forall|i: int| pos - start <= i < buf@.len() ==> #[trigger] buf@[i] == old(buf)@[i],
            decreases stop - pos,
        {
            let p = pos / (b as u64);
            let lo = (pos % (b as u64)) as usize;
            proof {
                lemma_unsplit(pos as int, b as int);
            }
            let room = b - lo;
            let m: usize = if ((stop - pos) as u128) < (room as u128) {
                (stop - pos) as usize
            } else {
                room
            };
            let (k, f) = self.fetch(p);
            proof {
                self.lemma_set_of(p);
                self.lemma_set_facts(k as int);
                assert(self.sets.sets@[k as int].pages().contains_key(p));
            }
            let blk = self.sets.sets[k].block(f);
            let at = (pos - start) as usize;
            let mut j: usize = 0;
            while j < m
                invariant
                    j <= m,
                    lo + m <= b,
                    blk@.len() == b,
                    blk@ == self.data_of(p),
                    self.resident(p),
                    self.view() == v0,
                    pos + m <= stop,
                    stop <= self.len,
                    v0.len() == self.len,
                    stop - start == n,
                    at == pos - start,
                    p * b + lo == pos,
                    b == self.block_size,
                    buf@.len() == old(buf)@.len(),
                    n <= buf@.len(),
                    forall|i: int| 0 <= i < at + j ==> #[trigger] buf@[i] == v0[start + i],
                    forall|i: int| at + j <= i < buf@.len() ==> #[trigger] buf@[i] == old(buf)@[i],
                decreases m - j,
            {
                proof {
                    let i = pos + j;
                    lemma_split(i, b as int, p as int, lo + j);
                    assert(self.byte(i) == self.page_data(p)[lo + j]);
                    assert(v0[i] == self.byte(i));
                }
                buf[at + j] = blk[lo + j];
                j = j + 1;
            }
            proof {
                lemma_split(pos + m - 1, b as int, p as int, lo + m - 1);
            }
            pos = pos + m as u64;
        }
        n
    }

    /// The bytes `[start, end)`, up to the end of the source, as one chunk
    /// per page touched.
    pub fn read_chunks(&mut self, start: u64, end: u64) -> (r: Vec<Vec<u8>>)
        requires
            old(self).wf(),
        ensures
            final(self).wf(),
            final(self).view() == old(self).view(),
            read_count(start as int, end as int, old(self).view().len() as int, end - start) > 0
                ==> concat(chunk_views(r@)) == old(self).view().subrange(
                start as int,
                start + read_count(start as int, end as int, old(self).view().len() as int, end - start),
            ),
            read_count(start as int, end as int, old(self).view().len() as int, end - start) == 0
                ==> r@.len() == 0,
            forall|i: int| 0 <= i < r@.len() ==> 0 < (#[trigger] r@[i])@.len() <= old(self).block_size(),
            read_count(start as int, end as int, old(self).view().len() as int, end - start) > 0 ==> r@.len()
                == last_page(start as int, read_count(start as int, end as int, old(self).view().len() as int, end - start), old(self).block_size() as int)
                - (start as int) / (old(self).block_size() as int) + 1,
            forall|i: int| 0 <= i < r@.len() ==> (#[trigger] r@[i])@ == old(self).view().subrange(
                chunk_start(start as int, old(self).block_size() as int, i),
                chunk_end(start as int, start + read_count(start as int, end as int, old(self).view().len() as int, end - start), old(self).block_size() as int, i),
            ),
            final(self).block_size() == old(self).block_size(),
            final(self).ways() == old(self).ways(),
            final(self).write_through() == old(self).write_through(),
            final(self).set_count() == old(self).set_count(),
            final(self).max_len() == old(self).max_len(),
            old(self).source_covers() ==> final(self).source_covers(),
            read_count(start as int, end as int, old(self).view().len() as int, end - start) > 0
                ==> final(self).resident(last_page(start as int, read_count(start as int, end as int, old(self).view().len() as int, end - start), old(self).block_size() as int)),
    {
        let b = self.block_size;
        let len = self.len;
        let stop: u64 = if end < len { end } else { len };
        let mut chunks: Vec<Vec<u8>> = Vec::new();
        if stop <= start {
            return chunks;
        }
        let ghost v0 = self.view();
        let mut pos: u64 = start;
        while pos < stop
            invariant
                self.wf(),
                start <= pos <= stop <= self.len,
                b == self.block_size,
                self.len == len,
                self.view() == v0,
                v0.len() == len,
                self.block_size == old(self).block_size,
                self.ways == old(self).ways,
                self.write_through == old(self).write_through,
                self.sets.sets@.len() == old(self).sets.sets@.len(),
                self.source.max_len() == old(self).source.max_len(),
                old(self).write_through ==> self.source@ == old(self).source@,
                pos > start ==> self.resident(last_page(pos as int, 0, b as int)),
                chunks@.len() == (if pos == start { 0 } else { (pos - 1) / (b as int) - (start as int) / (b as int) + 1 }),
                start < pos < stop ==> pos == ((start as int) / (b as int) + chunks@.len()) * b,
                forall|i: int| 0 <= i < chunks@.len() ==> (#[trigger] chunks@[i])@ == v0.subrange(
                    chunk_start(start as int, b as int, i),
                    chunk_end(start as int, stop as int, b as int, i),
                ),
                concat(chunk_views(chunks@)) == v0.subrange(start as int, pos as int),
                forall|i: int| 0 <= i < chunks@.len() ==> 0 < (#[trigger] chunks@[i])@.len() <= b,
            decreases stop - pos,
        {
            let p = pos / (b as u64);
            let lo = (pos % (b as u64)) as usize;
            proof {
                lemma_unsplit(pos as int, b as int);
            }
            let room = b - lo;
            let m: usize = if ((stop - pos) as u128) < (room as u128) {
                (stop - pos) as usize
            } else {
                room
            };
            let ghost kc = chunks@.len() as int;
            proof {
                let p0 = (start as int) / (b as int);
                if pos > start {
                    lemma_split(pos as int, b as int, p0 + kc, 0);
                }
                assert(p == p0 + kc);
                assert(pos == chunk_start(start as int, b as int, kc));
                assert((p0 + kc + 1) * b == p * b + b) by (nonlinear_arith)
                    requires
                        p == p0 + kc,
                ;
            }
            let (k, f) = self.fetch(p);
            proof {
                self.lemma_set_of(p);
                self.lemma_set_facts(k as int);
                assert(self.sets.sets@[k as int].pages().contains_key(p));
            }
            let blk = self.sets.sets[k].block(f);
            let mut chunk: Vec<u8> = Vec::new();
            let mut j: usize = 0;
            while j < m
                invariant
                    j <= m,
                    lo + m <= b,
                    blk@.len() == b,
                    blk@ == self.data_of(p),
                    self.resident(p),
                    self.view() == v0,
                    pos + m <= stop,
                    stop <= self.len,
                    v0.len() == self.len,
                    start <= pos,
                    p * b + lo == pos,
                    b == self.block_size,
                    chunk@ == v0.subrange(pos as int, pos + j),
                decreases m - j,
            {
                proof {
                    let i = pos + j;
                    lemma_split(i, b as int, p as int, lo + j);
                    assert(self.byte(i) == self.page_data(p)[lo + j]);
                    assert(v0[i] == self.byte(i));
                }
                chunk.push(blk[lo + j]);
                proof {
                    assert(chunk@ =~= v0.subrange(pos as int, pos + j + 1));
                }
                j = j + 1;
            }
            let ghost before = chunks@;
            chunks.push(chunk);
            proof {
                assert(chunk_views(chunks@).drop_last() =~= chunk_views(before));
                assert(v0.subrange(start as int, pos + m) =~= v0.subrange(start as int, pos as int) + v0.subrange(pos as int, pos + m));
            }
            proof {
                assert(chunks@[kc]@ == v0.subrange(pos as int, pos + m));
                assert(pos + m == chunk_end(start as int, stop as int, b as int, kc));
                assert forall|i: int| 0 <= i < chunks@.len() implies (#[trigger] chunks@[i])@ == v0.subrange(
                    chunk_start(start as int, b as int, i),
                    chunk_end(start as int, stop as int, b as int, i),
                ) by {
                    if i < kc {
                        assert(chunks@[i] == before[i]);
                    }
                }
            }
            proof {
                lemma_split(pos + m - 1, b as int, p as int, lo + m - 1);
            }
            pos = pos + m as u64;
        }
        proof {
            assert(stop == start + read_count(start as int, end as int, old(self).view().len() as int, end - start));
        }
        chunks
    }

    /// Writes every dirty frame back and hands the source over: it holds the
    /// bytes the cache showed, followed by zeros only.
    #[verifier::rlimit(100)]
    pub fn into_inner(self) -> (r: B)
        requires
            self.wf(),
        ensures
            r.wf(),
            flushed(self.view(), r@),
            r@.len() < self.view().len() + self.block_size(),
    {
        let mut c = self;
        let ghost v0 = c.view();
        let b = c.block_size;
        let count = c.sets.sets.len();
        let mut k: usize = 0;
        while k < count
            invariant
                c.wf(),
                c.view() == v0,
                b == c.block_size,
                count == c.sets.sets@.len(),
                k <= count,
                forall|p: u64| #[trigger] c.resident(p) && c.set_of(p) < k ==> !c.dirty(p),
            decreases count - k,
        {
            proof {
                c.lemma_set_facts(k as int);
            }
            let ways = c.ways;
            let mut f: usize = 0;
            while f < ways
                invariant
                    c.wf(),
                    c.view() == v0,
                    b == c.block_size,
                    ways == c.ways,
                    count == c.sets.sets@.len(),
                    k < count,
                    f <= ways,
                    forall|p: u64| #[trigger] c.resident(p) && (c.set_of(p) < k || (c.set_of(p) == k && c.frame_of(p) < f)) ==> !c.dirty(p),
                decreases ways - f,
            {
                proof {
                    c.lemma_set_facts(k as int);
                }
                let info = c.sets.sets[k].info(f);
                if info.page != NIL && info.dirty {
                    let q = info.page;
                    let ghost st1 = c;
                    proof {
                        assert(st1.sets.sets@[k as int].pages().contains_key(q));
                        c.lemma_set_of(q);
                        assert(st1.set_of(q) == k);
                        assert(st1.resident(q));
                        assert(st1.frame_of(q) == f);
                        assert(q * b < st1.len);
                        assert((q + 1) * b == q * b + b) by (nonlinear_arith);
                    }
                    c.source.write(q, c.sets.sets[k].block(f));
                    c.sets.sets[k].set_clean(f);
                    proof {
                        let st2 = c;
                        let sc = count as int;
                        c.sets.sets@[k as int].lemma_wf();
                        lemma_page_write(st1.source@, q as int, b as int, st1.data_of(q));
                        assert forall|p: u64| #[trigger] st2.page_data(p) == st1.page_data(p) by {
                            c.lemma_set_of(p);
                            if st1.resident(p) && st1.set_of(p) == k && p != q {
                                assert(st1.frame_of(p) != f);
                                assert(st2.sets.sets@[k as int].same_frame(&st1.sets.sets@[k as int], st1.frame_of(p)));
                            }
                            if p != q {
                                assert(page_of(st2.source@, p as int, b as int) == page_of(st1.source@, p as int, b as int));
                            }
                        }
                        assert forall|kk: int, p: u64|
                            0 <= kk < sc && #[trigger] st2.sets.sets@[kk].pages().contains_key(p) implies (p as int) % sc == kk by {
                            assert(st1.sets.sets@[kk].pages().contains_key(p));
                        }
                        assert forall|p: u64| #[trigger] st2.resident(p) implies {
                            &&& p * b < st2.len
                            &&& (!st2.dirty(p) ==> st2.data_of(p) == page_of(st2.source@, p as int, b as int))
                            &&& (st2.write_through ==> !st2.dirty(p))
                            &&& forall|j: int| 0 <= j < b && p * b + j >= st2.len ==> #[trigger] st2.data_of(p)[j] == 0
                        } by {
                            c.lemma_set_of(p);
                            assert(st1.resident(p));
                            if p != q {
                                if st2.set_of(p) == k {
                                    assert(st1.frame_of(p) != f);
                                    assert(st2.sets.sets@[k as int].same_frame(&st1.sets.sets@[k as int], st1.frame_of(p)));
                                }
                                assert(st2.data_of(p) == st1.data_of(p));
                                assert(st2.dirty(p) == st1.dirty(p));
                                assert(page_of(st2.source@, p as int, b as int) == page_of(st1.source@, p as int, b as int));
                            } else {
                                assert forall|j: int| 0 <= j < b && p * b + j >= st2.len implies #[trigger] st2.data_of(p)[j] == 0 by {
                                    assert(st1.data_of(p)[j] == 0);
                                }
                            }
                        }
                        assert forall|i: int| st2.len <= i < st2.source@.len() implies #[trigger] st2.source@[i] == 0 by {
                            if q * b <= i < q * b + b {
                                let j = i - q * b;
                                assert(st1.data_of(q)[j] == 0);
                            }
                        }
                        assert(st2.wf());
                        CacheImpl::lemma_view_same(&st2, &st1);
                        assert forall|p: u64| #[trigger] st2.resident(p) && (st2.set_of(p) < k || (st2.set_of(p) == k && st2.frame_of(p) < f + 1)) implies !st2.dirty(p) by {
                            c.lemma_set_of(p);
                            assert(st1.resident(p));
                            if p != q && st2.set_of(p) == k {
                                assert(st1.frame_of(p) != f);
                                assert(st2.sets.sets@[k as int].same_frame(&st1.sets.sets@[k as int], st1.frame_of(p)));
                            }
                            if p != q {
                                assert(st2.dirty(p) == st1.dirty(p));
                            }
                        }
                    }
                } else {
                    proof {
                        assert forall|p: u64| #[trigger] c.resident(p) && (c.set_of(p) < k || (c.set_of(p) == k && c.frame_of(p) < f + 1)) implies !c.dirty(p) by {
                            c.lemma_set_of(p);
                            if c.set_of(p) == k && c.frame_of(p) == f {
                                assert(c.sets.sets@[k as int].pages().contains_key(p));
                            }
                        }
                    }
                }
                f = f + 1;
            }
            proof {
                assert forall|p: u64| #[trigger] c.resident(p) && c.set_of(p) < k + 1 implies !c.dirty(p) by {
                    c.lemma_set_of(p);
                    c.lemma_set_facts(c.set_of(p));
                    assert(c.sets.sets@[c.set_of(p)].pages().contains_key(p));
                }
            }
            k = k + 1;
        }
        proof {
            assert forall|i: int| 0 <= i < c.len implies #[trigger] v0[i] == byte_or_zero(c.source@, i) by {
                lemma_unsplit(i, b as int);
                let p = (i / (b as int)) as u64;
                c.lemma_set_of(p);
                assert(c.byte(i) == c.page_data(p)[i % (b as int)]);
            }
        }
        if c.source.len() < c.len {
            let last = (c.len - 1) / (b as u64);
            proof {
                lemma_unsplit((c.len - 1) as int, b as int);
            }
            let mut blk: Vec<u8> = vec![0u8; b];
            proof {
                assert forall|j: int| 0 <= j < b implies #[trigger] blk@[j] == 0u8 by {}
            }
            let n = c.source.read(last, &mut blk);
            let ghost st1 = c;
            proof {
                assert((last + 1) * b == last * b + b) by (nonlinear_arith);
                assert forall|j: int| 0 <= j < b implies #[trigger] blk@[j] == page_of(st1.source@, last as int, b as int)[j] by {
                    if j >= n {
                        assert(last * b + j >= st1.source@.len());
                    } else {
                        assert(last * b + j < st1.source@.len());
                    }
                }
                assert(blk@ =~= page_of(st1.source@, last as int, b as int));
            }
            c.source.write(last, &blk);
            proof {
                assert forall|i: int| 0 <= i < c.source@.len() implies #[trigger] c.source@[i] == byte_or_zero(st1.source@, i) by {
                    if last * b <= i < last * b + b {
                        let j = i - last * b;
                        assert(page_of(st1.source@, last as int, b as int)[j] == byte_or_zero(st1.source@, i));
                    }
                }
            }
        }
        proof {
            assert(c.source@.len() >= c.len);
            assert(c.source@.subrange(0, c.len as int) =~= v0);
        }
        c.source
    }

}

} // verus!
