//! The backing store: a flat byte array in which every address is resident.
use crate::cache_view::write_bytes;
use crate::data_type::{access_error, check_access, from_le, le_bytes, DataType, DataTypeSize, MemoryError};
use crate::geometry::WORD_BYTES;
use crate::mem_stats::{MemStats, StatsView};
use crate::memory::{MemLevelAccess, MemoryAccess};
use vstd::prelude::*;

verus! {

/// The abstract value of main memory.
pub struct MainView {
    pub data: Seq<u8>,
    pub stats: StatsView,
}

impl MainView {
    /// What a typed read returns and leaves: every successful access is a hit.
    pub open spec fn read_op(self, a: int, size: DataTypeSize) -> (MainView, Result<DataType, MemoryError>) {
        match access_error(self.data.len() as int, a, size.width() as int) {
            Some(e) => (self, Err(e)),
            None => (
                MainView { stats: self.stats.hit(), ..self },
                Ok(from_le(size, self.data.subrange(a, a + size.width()))),
            ),
        }
    }

    /// What a typed write returns and leaves.
    pub open spec fn write_op(self, d: DataType, a: int) -> (MainView, Result<(), MemoryError>) {
        match access_error(self.data.len() as int, a, d.size_class().width() as int) {
            Some(e) => (self, Err(e)),
            None => (
                MainView { data: write_bytes(self.data, a, le_bytes(d)), stats: self.stats.hit() },
                Ok(()),
            ),
        }
    }
}

/// A flat byte array with typed, bounds- and alignment-checked access.
#[derive(Debug)]
pub struct MainMemory {
    data: Vec<u8>,
    stats: MemStats,
}

impl View for MainMemory {
    type V = MainView;

    closed spec fn view(&self) -> MainView {
        MainView { data: self.data@, stats: self.stats@ }
    }
}

impl MainMemory {
    /// `bytes` bytes, all zero.
    pub fn new(bytes: usize) -> (r: MainMemory)
        ensures
            r@.data == Seq::new(bytes as nat, |i: int| 0u8),
            r@.stats == (StatsView { hits: 0, misses: 0 }),
    {
        let mut data: Vec<u8> = Vec::new();
        let mut i: usize = 0;
        while i < bytes
            invariant
                i <= bytes,
                data@ == Seq::new(i as nat, |j: int| 0u8),
            decreases bytes - i,
        {
            data.push(0u8);
            i = i + 1;
            assert(data@ =~= Seq::new(i as nat, |j: int| 0u8));
        }
        MainMemory { data, stats: MemStats::new() }
    }

    /// Capacity in bytes.
    pub fn size(&self) -> (r: usize)
        ensures
            r == self@.data.len(),
    {
        self.data.len()
    }
}

impl MemoryAccess for MainMemory {
    open spec fn access_ready(&self, addr: usize, size: DataTypeSize) -> bool {
        self@.stats.has_room(1)
    }

    fn read(&mut self, addr: usize, size: DataTypeSize) -> (r: Result<DataType, MemoryError>)
        ensures
            (final(self)@, r) == old(self)@.read_op(addr as int, size),
    {
        match check_access(self.data.len(), addr, size.size()) {
            Some(e) => Err(e),
            None => {
                self.stats.record_hit();
                Ok(DataType::from_le_bytes(size, &self.data, addr))
            },
        }
    }

    fn write(&mut self, data: DataType, addr: usize) -> (r: Result<(), MemoryError>)
        ensures
            (final(self)@, r) == old(self)@.write_op(data, addr as int),
    {
        match check_access(self.data.len(), addr, data.payload_size()) {
            Some(e) => Err(e),
            None => {
                self.stats.record_hit();
                let bytes = data.to_le_bytes();
                proof {
                    crate::data_type::lemma_le_round_trip(data);
                }
                self.store(addr, &bytes);
                Ok(())
            },
        }
    }

    fn stats(&self) -> (r: &MemStats)
        ensures
            r@ == self@.stats,
    {
        &self.stats
    }
}

impl MainMemory {
    /// Copies `bytes` in from `addr` on.
    fn store(&mut self, addr: usize, bytes: &Vec<u8>)
        requires
            addr + bytes@.len() <= old(self)@.data.len(),
        ensures
            final(self)@ == (MainView { data: write_bytes(old(self)@.data, addr as int, bytes@), ..old(self)@ }),
    {
        let mut i: usize = 0;
        assert(write_bytes(old(self)@.data, addr as int, bytes@.subrange(0, 0)) =~= old(self)@.data);
        while i < bytes.len()
            invariant
                i <= bytes@.len(),
                addr + bytes@.len() <= self.data.len(),
                self@ == (MainView {
                    data: write_bytes(old(self)@.data, addr as int, bytes@.subrange(0, i as int)),
                    ..old(self)@
                }),
            decreases bytes@.len() - i,
        {
            self.data.set(addr + i, bytes[i]);
            i = i + 1;
            assert(self.data@ =~= write_bytes(old(self)@.data, addr as int, bytes@.subrange(0, i as int)));
        }
        assert(bytes@.subrange(0, i as int) =~= bytes@);
    }
}

impl MemLevelAccess for MainMemory {
    open spec fn line_ready(&self, addr: usize, words_per_line: usize) -> bool {
        addr + WORD_BYTES * words_per_line <= self@.data.len()
    }

    /// Writes a whole line back: the first `words_per_line` words of `data`.
    fn write_line(&mut self, addr: usize, words_per_line: usize, data: Vec<u8>)
        ensures
            final(self)@ == (MainView {
                data: write_bytes(old(self)@.data, addr as int, data@.subrange(0, WORD_BYTES * words_per_line)),
                ..old(self)@
            }),
    {
        proof {
            assert(self.data@.len() == self.data.len());
        }
        let mut data = data;
        data.truncate(WORD_BYTES * words_per_line);
        self.store(addr, &data);
    }

    /// The bytes of the line that starts at `addr`.
    fn fetch_line(&self, addr: usize, words_per_line: usize) -> (r: Vec<u8>)
        ensures
            r@ == self@.data.subrange(addr as int, addr + WORD_BYTES * words_per_line),
    {
        let len = self.data.len();
        let n = WORD_BYTES * words_per_line;
        let mut r: Vec<u8> = Vec::new();
        let mut i: usize = 0;
        while i < n
            invariant
                i <= n,
                n == WORD_BYTES * words_per_line,
                addr + n <= self.data.len(),
                r@ == self@.data.subrange(addr as int, addr + i),
            decreases n - i,
        {
            r.push(self.data[addr + i]);
            i = i + 1;
            assert(r@ =~= self@.data.subrange(addr as int, addr + i));
        }
        r
    }
}

} // verus!
