//! Cache lines, eviction policies, and the cache type that the hierarchy
//! holds, over any organization.
use crate::cache_view::{write_bytes, CacheView, LineView};
use crate::data_type::MemoryError;
use crate::direct_mapped_cache::DMCache;
use crate::mem_stats::MemStats;
use crate::memory::{MemLevelAccess, MemoryAccess};
use crate::set_associative::SetAssocCache;
use vstd::arithmetic::power2::pow2;
use crate::data_type::{from_le, le_bytes, DataType, DataTypeSize};
use crate::geometry::WORD_BYTES;
use vstd::prelude::*;

verus! {

/// How a victim is chosen among the valid lines of a set.
#[derive(Debug, Clone, Copy, PartialEq, Eq, Structural)]
pub enum EvictionPolicy {
    Lru,
    Nru,
    Random,
}

/// Address decomposition and the queries the refill protocol makes of a
/// cache before it installs a line.
pub trait CacheAddressing {
    spec fn well_formed(&self) -> bool;

    /// The victim line for a miss on `addr` is dirty.
    fn is_line_dirty(&self, addr: usize) -> bool
        requires
            self.well_formed(),
    ;

    /// Address of the first byte of the line of `addr`.
    fn get_base_addr(&self, addr: usize) -> usize
        requires
            self.well_formed(),
    ;

    /// Address where the victim line for a miss on `addr` belongs.
    fn get_writeback_addr(&self, addr: usize) -> usize
        requires
            self.well_formed(),
    ;

    /// (tag, index, word offset, byte offset) of `addr`.
    fn decode_addr(&self, addr: usize) -> (usize, usize, usize, usize)
        requires
            self.well_formed(),
    ;

    fn get_tag(&self, addr: usize) -> usize
        requires
            self.well_formed(),
    ;

    fn get_index(&self, addr: usize) -> usize
        requires
            self.well_formed(),
    ;

    fn get_word_offset(&self, addr: usize) -> usize
        requires
            self.well_formed(),
    ;

    fn get_byte_offset(&self, addr: usize) -> usize
        requires
            self.well_formed(),
    ;

    /// The bytes of the victim line for a miss on `addr`.
    fn get_evict_line_data(&self, addr: usize) -> Vec<u8>
        requires
            self.well_formed(),
    ;

    fn byte_bits(&self) -> usize
        requires
            self.well_formed(),
    ;

    fn word_bits(&self) -> usize
        requires
            self.well_formed(),
    ;

    fn index_bits(&self) -> usize
        requires
            self.well_formed(),
    ;
}

/// One storage slot of a cache.
#[derive(Debug)]
pub struct CacheLine {
    valid: bool,
    dirty: bool,
    tag: usize,
    time: u128,
    data: Vec<u8>,
}

impl View for CacheLine {
    type V = LineView;

    closed spec fn view(&self) -> LineView {
        LineView {
            valid: self.valid,
            dirty: self.dirty,
            tag: self.tag as nat,
            time: self.time as nat,
            data: self.data@,
        }
    }
}

/// A fresh copy of a byte vector.
pub fn copy_bytes(v: &Vec<u8>) -> (r: Vec<u8>)
    ensures
        r@ == v@,
{
    let mut r: Vec<u8> = Vec::new();
    let mut i: usize = 0;
    while i < v.len()
        invariant
            i <= v@.len(),
            r@ == v@.subrange(0, i as int),
        decreases v@.len() - i,
    {
        r.push(v[i]);
        i = i + 1;
        assert(r@ =~= v@.subrange(0, i as int));
    }
    assert(r@ =~= v@);
    r
}

impl CacheLine {
    /// An invalid, clean line of zero bytes.
    pub fn new(words_per_line: usize) -> (r: CacheLine)
        requires
            WORD_BYTES * words_per_line <= usize::MAX,
        ensures
            r@ == (LineView {
                valid: false,
                dirty: false,
                tag: 0,
                time: 0,
                data: Seq::new((WORD_BYTES * words_per_line) as nat, |i: int| 0u8),
            }),
    {
        let n = WORD_BYTES * words_per_line;
        let mut data: Vec<u8> = Vec::new();
        let mut i: usize = 0;
        while i < n
            invariant
                i <= n,
                data@ == Seq::new(i as nat, |j: int| 0u8),
            decreases n - i,
        {
            data.push(0u8);
            i = i + 1;
            assert(data@ =~= Seq::new(i as nat, |j: int| 0u8));
        }
        CacheLine { valid: false, dirty: false, tag: 0, time: 0, data }
    }

    pub fn is_valid(&self) -> (r: bool)
        ensures
            r == self@.valid,
    {
        self.valid
    }

    pub fn is_dirty(&self) -> (r: bool)
        ensures
            r == self@.dirty,
    {
        self.dirty
    }

    pub fn tag(&self) -> (r: usize)
        ensures
            r == self@.tag,
    {
        self.tag
    }

    pub fn time(&self) -> (r: u128)
        ensures
            r == self@.time,
    {
        self.time
    }

    pub fn get_data(&self) -> (r: Vec<u8>)
        ensures
            r@ == self@.data,
    {
        copy_bytes(&self.data)
    }

    pub fn read_line_data(&self) -> (r: Vec<u8>)
        ensures
            r@ == self@.data,
    {
        copy_bytes(&self.data)
    }

    /// Records `now` as the time of the last reference.
    pub fn stamp_now(&mut self, now: u128)
        ensures
            final(self)@ == (LineView { time: now as nat, ..old(self)@ }),
    {
        self.time = now;
    }

    pub fn read_byte(&self, offset: usize) -> (r: u8)
        requires
            offset < self@.data.len(),
        ensures
            r == self@.data[offset as int],
    {
        self.data[offset]
    }

    pub fn write_byte(&mut self, offset: usize, value: u8)
        requires
            offset < old(self)@.data.len(),
        ensures
            final(self)@ == (LineView {
                dirty: true,
                data: old(self)@.data.update(offset as int, value),
                ..old(self)@
            }),
    {
        self.data.set(offset, value);
        self.dirty = true;
    }

    /// Decodes the little-endian value of the given width at `offset`.
    pub fn read_value(&self, offset: usize, size: DataTypeSize) -> (r: DataType)
        requires
            offset + size.width() <= self@.data.len(),
        ensures
            r == from_le(size, self@.data.subrange(offset as int, offset + size.width())),
    {
        DataType::from_le_bytes(size, &self.data, offset)
    }

    /// Stores the little-endian bytes of `value` at `offset` and marks the
    /// line dirty.
    pub fn write_value(&mut self, offset: usize, value: DataType)
        requires
            offset + value.size_class().width() <= old(self)@.data.len(),
        ensures
            final(self)@ == (LineView {
                dirty: true,
                data: write_bytes(old(self)@.data, offset as int, le_bytes(value)),
                ..old(self)@
            }),
    {
        let bytes = value.to_le_bytes();
        proof {
            crate::data_type::lemma_le_round_trip(value);
        }
        let mut i: usize = 0;
        self.dirty = true;
        assert(write_bytes(old(self)@.data, offset as int, bytes@.subrange(0, 0)) =~= old(self)@.data);
        while i < bytes.len()
            invariant
                i <= bytes@.len(),
                offset + bytes@.len() <= self.data.len(),
                bytes@ == le_bytes(value),
                offset + bytes@.len() <= old(self)@.data.len(),
                self@ == (LineView {
                    dirty: true,
                    data: write_bytes(old(self)@.data, offset as int, bytes@.subrange(0, i as int)),
                    ..old(self)@
                }),
            decreases bytes@.len() - i,
        {
            self.data.set(offset + i, bytes[i]);
            i = i + 1;
            assert(self.data@ =~= write_bytes(old(self)@.data, offset as int, bytes@.subrange(0, i as int)));
        }
        assert(bytes@.subrange(0, i as int) =~= bytes@);
    }

    /// Installs a line: new tag and bytes, valid, clean, stamped with `now`.
    pub fn write_line(&mut self, tag: usize, new_data: Vec<u8>, now: u128)
        ensures
            final(self)@ == (LineView { valid: true, dirty: false, tag: tag as nat, time: now as nat, data: new_data@ }),
    {
        self.tag = tag;
        self.data = new_data;
        self.valid = true;
        self.dirty = false;
        self.time = now;
    }
}

/// A cache of either organization. Both refine the same abstract model, so
/// the hierarchy never needs to know which one it holds.
#[derive(Debug)]
pub enum Cache {
    DirectMapped(DMCache),
    SetAssociative(SetAssocCache),
}

impl View for Cache {
    type V = CacheView;

    open spec fn view(&self) -> CacheView {
        match self {
            Cache::DirectMapped(dm) => dm@,
            Cache::SetAssociative(sa) => sa@,
        }
    }
}

impl Cache {
    /// A direct-mapped cache has one way.
    pub open spec fn shape_ok(&self) -> bool {
        match self {
            Cache::DirectMapped(dm) => dm@.geom.assoc == 1,
            Cache::SetAssociative(_) => true,
        }
    }

    pub fn geometry(&self) -> (r: crate::geometry::Geometry)
        ensures
            r == self@.geom,
    {
        match self {
            Cache::DirectMapped(dm) => dm.geometry(),
            Cache::SetAssociative(sa) => sa.geometry(),
        }
    }
}

impl MemoryAccess for Cache {
    open spec fn access_ready(&self, addr: usize, size: DataTypeSize) -> bool {
        self@.access_ready(addr as int, size) && self.shape_ok()
    }

    fn read(&mut self, addr: usize, size: DataTypeSize) -> (r: Result<DataType, MemoryError>)
        ensures
            (final(self)@, r) == old(self)@.read_op(addr as int, size),
            final(self)@.wf(),
            final(self).shape_ok(),
    {
        match self {
            Cache::DirectMapped(dm) => dm.read(addr, size),
            Cache::SetAssociative(sa) => sa.read(addr, size),
        }
    }

    fn write(&mut self, data: DataType, addr: usize) -> (r: Result<(), MemoryError>)
        ensures
            (final(self)@, r) == old(self)@.write_op(data, addr as int),
            final(self)@.wf(),
            final(self).shape_ok(),
    {
        match self {
            Cache::DirectMapped(dm) => dm.write(data, addr),
            Cache::SetAssociative(sa) => sa.write(data, addr),
        }
    }

    fn stats(&self) -> (r: &MemStats)
        ensures
            r@ == self@.stats,
    {
        match self {
            Cache::DirectMapped(dm) => dm.stats(),
            Cache::SetAssociative(sa) => sa.stats(),
        }
    }
}

impl MemLevelAccess for Cache {
    open spec fn line_ready(&self, addr: usize, words_per_line: usize) -> bool {
        self@.wf() && self.shape_ok() && words_per_line == self@.geom.words_per_line
    }

    /// Installs a line fetched from the level below: the first
    /// `words_per_line` words of `data`.
    fn write_line(&mut self, addr: usize, words_per_line: usize, data: Vec<u8>)
        ensures
            final(self)@ == old(self)@.install_op(addr as int, data@.subrange(0, WORD_BYTES * words_per_line)),
            final(self)@.wf(),
            final(self).shape_ok(),
    {
        match self {
            Cache::DirectMapped(dm) => dm.write_line(addr, words_per_line, data),
            Cache::SetAssociative(sa) => sa.write_line(addr, words_per_line, data),
        }
    }

    /// The bytes of the line that a miss on `addr` would evict.
    fn fetch_line(&self, addr: usize, words_per_line: usize) -> (r: Vec<u8>)
        ensures
            r@ == self@.victim_data(addr as int),
    {
        match self {
            Cache::DirectMapped(dm) => dm.fetch_line(addr, words_per_line),
            Cache::SetAssociative(sa) => sa.fetch_line(addr, words_per_line),
        }
    }
}

impl CacheAddressing for Cache {
    open spec fn well_formed(&self) -> bool {
        self@.wf() && self.shape_ok()
    }

    fn is_line_dirty(&self, addr: usize) -> (r: bool)
        ensures
            r == self@.victim_dirty(addr as int),
    {
        match self {
            Cache::DirectMapped(dm) => dm.is_line_dirty(addr),
            Cache::SetAssociative(sa) => sa.is_line_dirty(addr),
        }
    }

    fn get_base_addr(&self, addr: usize) -> (r: usize)
        ensures
            r == self@.fetch_base(addr as int),
    {
        match self {
            Cache::DirectMapped(dm) => dm.get_base_addr(addr),
            Cache::SetAssociative(sa) => sa.get_base_addr(addr),
        }
    }

    fn get_writeback_addr(&self, addr: usize) -> (r: usize)
        ensures
            r == self@.writeback_addr(addr as int),
    {
        match self {
            Cache::DirectMapped(dm) => dm.get_writeback_addr(addr),
            Cache::SetAssociative(sa) => sa.get_writeback_addr(addr),
        }
    }

    fn decode_addr(&self, addr: usize) -> (r: (usize, usize, usize, usize))
        ensures
            r.0 == self@.geom.tag_of(addr as int),
            r.1 == self@.geom.index_of(addr as int),
            r.2 == self@.geom.word_of(addr as int),
            r.3 == self@.geom.byte_of(addr as int),
    {
        match self {
            Cache::DirectMapped(dm) => dm.decode_addr(addr),
            Cache::SetAssociative(sa) => sa.decode_addr(addr),
        }
    }

    fn get_tag(&self, addr: usize) -> (r: usize)
        ensures
            r == self@.geom.tag_of(addr as int),
    {
        match self {
            Cache::DirectMapped(dm) => dm.get_tag(addr),
            Cache::SetAssociative(sa) => sa.get_tag(addr),
        }
    }

    fn get_index(&self, addr: usize) -> (r: usize)
        ensures
            r == self@.geom.index_of(addr as int),
    {
        match self {
            Cache::DirectMapped(dm) => dm.get_index(addr),
            Cache::SetAssociative(sa) => sa.get_index(addr),
        }
    }

    fn get_word_offset(&self, addr: usize) -> (r: usize)
        ensures
            r == self@.geom.word_of(addr as int),
    {
        match self {
            Cache::DirectMapped(dm) => dm.get_word_offset(addr),
            Cache::SetAssociative(sa) => sa.get_word_offset(addr),
        }
    }

    fn get_byte_offset(&self, addr: usize) -> (r: usize)
        ensures
            r == self@.geom.byte_of(addr as int),
    {
        match self {
            Cache::DirectMapped(dm) => dm.get_byte_offset(addr),
            Cache::SetAssociative(sa) => sa.get_byte_offset(addr),
        }
    }

    fn get_evict_line_data(&self, addr: usize) -> (r: Vec<u8>)
        ensures
            r@ == self@.victim_data(addr as int),
    {
        match self {
            Cache::DirectMapped(dm) => dm.get_evict_line_data(addr),
            Cache::SetAssociative(sa) => sa.get_evict_line_data(addr),
        }
    }

    fn byte_bits(&self) -> (r: usize)
        ensures
            pow2(r as nat) == WORD_BYTES,
    {
        match self {
            Cache::DirectMapped(dm) => dm.byte_bits(),
            Cache::SetAssociative(sa) => sa.byte_bits(),
        }
    }

    fn word_bits(&self) -> (r: usize)
        ensures
            pow2(r as nat) == self@.geom.words_per_line,
    {
        match self {
            Cache::DirectMapped(dm) => dm.word_bits(),
            Cache::SetAssociative(sa) => sa.word_bits(),
        }
    }

    fn index_bits(&self) -> (r: usize)
        ensures
            pow2(r as nat) == self@.geom.num_lines,
    {
        match self {
            Cache::DirectMapped(dm) => dm.index_bits(),
            Cache::SetAssociative(sa) => sa.index_bits(),
        }
    }
}

} // verus!
