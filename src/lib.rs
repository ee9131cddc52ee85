//! A block-oriented read/write cache over a random-access byte source.
//!
//! The source is split into fixed-size pages; a bounded number of them is kept
//! resident in frames, grouped into sets. Each set has a lookup index (page to
//! frame) and a replacement policy (which frame to reuse next). Dirty frames
//! go back to the source on eviction, or at once in write-through mode.
use vstd::prelude::*;

pub mod hash;
pub mod lookup;
pub mod replace;
pub mod heap;
pub mod io;
pub mod set;
pub mod cache_impl;
pub mod writeback;

use crate::cache_impl::{
    chunk_end, chunk_start, chunk_views, concat, config_ok, last_page, config_sets, config_ways, flushed, overwrite_or_same, read_count, read_into,
    strict_fits, CacheConfig, CacheImpl,
};
use crate::set::meta_per_block;
use crate::io::SyncIO;
use crate::lookup::Lookup;
use crate::replace::Replace;

verus! {

/// A cache over bytes held in memory, with lookup `L` and replacement
/// policy `R` in each set.
pub struct IOCache<L: Lookup, R: Replace> {
    cache: CacheImpl<L, R, SyncIO>,
}

impl<L: Lookup, R: Replace> IOCache<L, R> {
    /// The bytes of the source as seen through the cache.
    pub closed spec fn view(&self) -> Seq<u8> {
        self.cache.view()
    }

    /// The bytes the source holds now.
    pub closed spec fn source_view(&self) -> Seq<u8> {
        self.cache.source_view()
    }

    /// Page size in bytes.
    pub closed spec fn block_size(&self) -> nat {
        self.cache.block_size()
    }

    /// Whether every write goes to the source at once.
    pub closed spec fn write_through(&self) -> bool {
        self.cache.write_through()
    }

    /// Number of sets.
    pub closed spec fn set_count(&self) -> nat {
        self.cache.set_count()
    }

    /// Frames per set.
    pub closed spec fn ways(&self) -> nat {
        self.cache.ways()
    }

    /// Whether page `p` is held in a frame.
    pub closed spec fn resident(&self, p: u64) -> bool {
        self.cache.resident(p)
    }

    pub closed spec fn wf(&self) -> bool {
        &&& self.cache.wf()
        &&& self.cache.source_covers()
        &&& self.cache.max_len() == usize::MAX
        &&& self.cache.block_size() == self.block_size()
    }

    /// A cache over `source` shaped by `config`, with `mem` bytes of page data.
    pub fn new(source: Vec<u8>, config: CacheConfig, mem: usize) -> (r: Self)
        requires
            config_ok::<L, R>(config, mem as int, false),
            source@.len() + config.block_size <= usize::MAX,
        ensures
            r.wf(),
            r.view() == source@,
            r.source_view() == source@,
            r.ways() == config_ways(config, mem as int, false, meta_per_block::<L, R>() as int),
            r.set_count() == config_sets(config, mem as int, false, meta_per_block::<L, R>() as int),
            r.block_size() == config.block_size,
            r.write_through() == config.write_through,
            forall|p: u64| !(#[trigger] r.resident(p)),
    {
        let io = SyncIO::new(source, config.block_size);
        IOCache { cache: CacheImpl::new(io, config, mem) }
    }

    /// A cache over `source` shaped by `config`, whose pages and metadata
    /// together fit in `mem` bytes.
    pub fn new_strict(source: Vec<u8>, config: CacheConfig, mem: usize) -> (r: Self)
        requires
            config_ok::<L, R>(config, mem as int, true),
            source@.len() + config.block_size <= usize::MAX,
        ensures
            r.wf(),
            r.view() == source@,
            r.source_view() == source@,
            r.ways() == config_ways(config, mem as int, true, meta_per_block::<L, R>() as int),
            r.set_count() == config_sets(config, mem as int, true, meta_per_block::<L, R>() as int),
            strict_fits(config, mem as int, r.ways() as int, r.set_count() as int, meta_per_block::<L, R>() as int),
            r.block_size() == config.block_size,
            r.write_through() == config.write_through,
            forall|p: u64| !(#[trigger] r.resident(p)),
    {
        let io = SyncIO::new(source, config.block_size);
        IOCache { cache: CacheImpl::new_strict(io, config, mem) }
    }

    /// Writes every dirty page back and hands the bytes over: what the cache
    /// showed, followed by zeros only.
    pub fn into_source(self) -> (r: Vec<u8>)
        requires
            self.wf(),
        ensures
            flushed(self.view(), r@),
            r@.len() < self.view().len() + self.block_size(),
    {
        self.cache.into_inner().into_inner()
    }

    /// The bytes `[start, end)`, up to the end of the source, as one chunk
    /// per page touched.
    pub fn read_chunks(&mut self, start: u64, end: u64) -> (r: Vec<Vec<u8>>)
        requires
            old(self).wf(),
        ensures
            final(self).wf(),
            final(self).view() == old(self).view(),
            read_count(start as int, end as int, old(self).view().len() as int, end - start) > 0
                ==> concat(chunk_views(r@)) == old(self).view().subrange(
                start as int,
                start + read_count(start as int, end as int, old(self).view().len() as int, end - start),
            ),
            read_count(start as int, end as int, old(self).view().len() as int, end - start) == 0
                ==> r@.len() == 0,
            read_count(start as int, end as int, old(self).view().len() as int, end - start) > 0
                ==> final(self).resident(last_page(start as int, read_count(start as int, end as int, old(self).view().len() as int, end - start), old(self).block_size() as int)),
            forall|i: int| 0 <= i < r@.len() ==> 0 < (#[trigger] r@[i])@.len() <= old(self).block_size(),
            read_count(start as int, end as int, old(self).view().len() as int, end - start) > 0 ==> r@.len()
                == last_page(start as int, read_count(start as int, end as int, old(self).view().len() as int, end - start), old(self).block_size() as int)
                - (start as int) / (old(self).block_size() as int) + 1,
            forall|i: int| 0 <= i < r@.len() ==> (#[trigger] r@[i])@ == old(self).view().subrange(
                chunk_start(start as int, old(self).block_size() as int, i),
                chunk_end(start as int, start + read_count(start as int, end as int, old(self).view().len() as int, end - start), old(self).block_size() as int, i),
            ),
            final(self).block_size() == old(self).block_size(),
            final(self).write_through() == old(self).write_through(),
    {
        self.cache.read_chunks(start, end)
    }

    /// Copies the bytes `[start, end)` into `buf` and returns how many it
    /// copied: the read stops at the end of the source and of `buf`. The
    /// rest of `buf` is left alone, and what the cache shows does not change.
    pub fn read(&mut self, start: u64, end: u64, buf: &mut [u8]) -> (n: usize)
        requires
            old(self).wf(),
        ensures
            final(self).wf(),
            final(self).view() == old(self).view(),
            n == read_count(start as int, end as int, old(self).view().len() as int, old(buf)@.len() as int),
            read_into(old(self).view(), start as int, end as int, old(buf)@, final(buf)@),
            n > 0 ==> final(self).resident(last_page(start as int, n as int, old(self).block_size() as int)),
            final(self).block_size() == old(self).block_size(),
            final(self).write_through() == old(self).write_through(),
    {
        self.cache.read(start, end, buf)
    }

    /// Writes `buf` at `offset` and returns the number of bytes written: all
    /// of them. In write-through mode the source holds them on return.
    pub fn write(&mut self, offset: u64, buf: &[u8]) -> (n: usize)
        requires
            old(self).wf(),
            offset + buf@.len() + old(self).block_size() <= usize::MAX,
        ensures
            final(self).wf(),
            n == buf@.len(),
            final(self).view() == overwrite_or_same(old(self).view(), offset as int, buf@),
            n > 0 ==> final(self).resident(last_page(offset as int, n as int, old(self).block_size() as int)),
            old(self).write_through() && n > 0 ==> final(self).source_view().len() >= offset + n
                && final(self).source_view().subrange(offset as int, offset + n) == buf@,
            old(self).write_through() ==> flushed(final(self).view(), final(self).source_view()),
            final(self).block_size() == old(self).block_size(),
            final(self).write_through() == old(self).write_through(),
    {
        self.cache.write(offset, buf)
    }

    /// Whether page `page` is held in a frame.
    pub fn is_resident(&self, page: u64) -> (r: bool)
        requires
            self.wf(),
        ensures
            r == self.resident(page),
    {
        self.cache.is_resident(page)
    }
}

} // verus!
