//! A direct-mapped cache: a set-associative cache with one way.
use crate::cache::{CacheAddressing, EvictionPolicy};
use crate::cache_view::CacheView;
use crate::data_type::{DataType, DataTypeSize, MemoryError};
use crate::geometry::{is_pow2, WORD_BYTES};
use crate::mem_stats::{MemStats, StatsView};
use crate::memory::{MemLevelAccess, MemoryAccess};
use crate::set_associative::SetAssocCache;
use vstd::arithmetic::power2::pow2;
use vstd::prelude::*;

verus! {

/// A cache in which every address has exactly one line it may occupy.
#[derive(Debug)]
pub struct DMCache {
    inner: SetAssocCache,
}

impl View for DMCache {
    type V = CacheView;

    closed spec fn view(&self) -> CacheView {
        self.inner@
    }
}

impl DMCache {
    /// A cache of `bytes` bytes with `words_per_line` words per line, every
    /// line invalid.
    pub fn new(bytes: usize, words_per_line: usize) -> (r: DMCache)
        requires
            is_pow2(bytes as nat),
            is_pow2(words_per_line as nat),
            WORD_BYTES * words_per_line <= bytes,
            is_pow2((bytes as int / (WORD_BYTES * words_per_line)) as nat),
        ensures
            r@.wf(),
            r@.fresh(),
            r@.cold(),
            r@.geom.bytes == bytes,
            r@.geom.words_per_line == words_per_line,
            r@.geom.assoc == 1,
            r@.policy == EvictionPolicy::Lru,
            r@.stats == (StatsView { hits: 0, misses: 0 }),
    {
        assert(1 * WORD_BYTES * words_per_line == WORD_BYTES * words_per_line);
        DMCache { inner: SetAssocCache::new(bytes, words_per_line, 1, EvictionPolicy::Lru) }
    }
}

impl DMCache {
    pub fn geometry(&self) -> (r: crate::geometry::Geometry)
        ensures
            r == self@.geom,
    {
        self.inner.geometry()
    }
}

impl MemoryAccess for DMCache {
    open spec fn access_ready(&self, addr: usize, size: DataTypeSize) -> bool {
        self@.access_ready(addr as int, size) && self@.geom.assoc == 1
    }

    fn read(&mut self, addr: usize, size: DataTypeSize) -> (r: Result<DataType, MemoryError>)
        ensures
            (final(self)@, r) == old(self)@.read_op(addr as int, size),
            final(self)@.wf(),
            final(self)@.geom.assoc == 1,
    {
        self.inner.read(addr, size)
    }

    fn write(&mut self, data: DataType, addr: usize) -> (r: Result<(), MemoryError>)
        ensures
            (final(self)@, r) == old(self)@.write_op(data, addr as int),
            final(self)@.wf(),
            final(self)@.geom.assoc == 1,
    {
        self.inner.write(data, addr)
    }

    fn stats(&self) -> (r: &MemStats)
        ensures
            r@ == self@.stats,
    {
        self.inner.stats()
    }
}

impl MemLevelAccess for DMCache {
    open spec fn line_ready(&self, addr: usize, words_per_line: usize) -> bool {
        self@.wf() && self@.geom.assoc == 1 && words_per_line == self@.geom.words_per_line
    }

    /// Installs a line fetched from the level below: the first
    /// `words_per_line` words of `data`.
    fn write_line(&mut self, addr: usize, words_per_line: usize, data: Vec<u8>)
        ensures
            final(self)@ == old(self)@.install_op(addr as int, data@.subrange(0, WORD_BYTES * words_per_line)),
            final(self)@.wf(),
            final(self)@.geom.assoc == 1,
    {
        self.inner.write_line(addr, words_per_line, data)
    }

    /// The bytes of the line that a miss on `addr` would evict.
    fn fetch_line(&self, addr: usize, words_per_line: usize) -> (r: Vec<u8>)
        ensures
            r@ == self@.victim_data(addr as int),
    {
        self.inner.fetch_line(addr, words_per_line)
    }
}

impl CacheAddressing for DMCache {
    open spec fn well_formed(&self) -> bool {
        self@.wf() && self@.geom.assoc == 1
    }

    fn is_line_dirty(&self, addr: usize) -> (r: bool)
        ensures
            r == self@.victim_dirty(addr as int),
    {
        self.inner.is_line_dirty(addr)
    }

    fn get_base_addr(&self, addr: usize) -> (r: usize)
        ensures
            r == self@.fetch_base(addr as int),
    {
        self.inner.get_base_addr(addr)
    }

    fn get_writeback_addr(&self, addr: usize) -> (r: usize)
        ensures
            r == self@.writeback_addr(addr as int),
    {
        self.inner.get_writeback_addr(addr)
    }

    fn decode_addr(&self, addr: usize) -> (r: (usize, usize, usize, usize))
        ensures
            r.0 == self@.geom.tag_of(addr as int),
            r.1 == self@.geom.index_of(addr as int),
            r.2 == self@.geom.word_of(addr as int),
            r.3 == self@.geom.byte_of(addr as int),
    {
        self.inner.decode_addr(addr)
    }

    fn get_tag(&self, addr: usize) -> (r: usize)
        ensures
            r == self@.geom.tag_of(addr as int),
    {
        self.inner.get_tag(addr)
    }

    fn get_index(&self, addr: usize) -> (r: usize)
        ensures
            r == self@.geom.index_of(addr as int),
    {
        self.inner.get_index(addr)
    }

    fn get_word_offset(&self, addr: usize) -> (r: usize)
        ensures
            r == self@.geom.word_of(addr as int),
    {
        self.inner.get_word_offset(addr)
    }

    fn get_byte_offset(&self, addr: usize) -> (r: usize)
        ensures
            r == self@.geom.byte_of(addr as int),
    {
        self.inner.get_byte_offset(addr)
    }

    fn get_evict_line_data(&self, addr: usize) -> (r: Vec<u8>)
        ensures
            r@ == self@.victim_data(addr as int),
    {
        self.inner.get_evict_line_data(addr)
    }

    fn byte_bits(&self) -> (r: usize)
        ensures
            pow2(r as nat) == WORD_BYTES,
    {
        self.inner.byte_bits()
    }

    fn word_bits(&self) -> (r: usize)
        ensures
            pow2(r as nat) == self@.geom.words_per_line,
    {
        self.inner.word_bits()
    }

    fn index_bits(&self) -> (r: usize)
        ensures
            pow2(r as nat) == self@.geom.num_lines,
    {
        self.inner.index_bits()
    }
}

} // verus!
