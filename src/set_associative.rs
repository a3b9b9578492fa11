//! An N-way set-associative cache.
use crate::cache::{CacheAddressing, CacheLine, EvictionPolicy};
use crate::cache_view::{
    lemma_find_way, lemma_install, lemma_oldest, lemma_slot, lemma_slot_inverse, lemma_touch,
    lemma_victim, lemma_write_hit, write_bytes, CacheView, LineView,
};
use crate::data_type::{le_bytes, DataType, DataTypeSize, MemoryError};
use crate::geometry::{is_pow2, Geometry, WORD_BYTES};
use crate::mem_stats::{MemStats, StatsView};
use crate::memory::{MemLevelAccess, MemoryAccess};
use vstd::prelude::*;

verus! {

/// A set-associative cache: `assoc` ways, each with one line per index.
#[derive(Debug)]
pub struct SetAssocCache {
    geom: Geometry,
    /// Lines way by way: `lines[way * num_lines + index]`.
    lines: Vec<CacheLine>,
    eviction: EvictionPolicy,
    stats: MemStats,
    seed: u64,
}

impl View for SetAssocCache {
    type V = CacheView;

    closed spec fn view(&self) -> CacheView {
        CacheView {
            geom: self.geom,
            policy: self.eviction,
            lines: self.lines@.map_values(|l: CacheLine| l@),
            stats: self.stats@,
            seed: self.seed,
        }
    }
}

/// Seed of the random policy's generator.
pub const RANDOM_SEED: u64 = 0x2545F4914F6CDD1D;

impl SetAssocCache {
    /// A cache of `bytes` bytes, `words_per_line` words per line and `assoc`
    /// ways, with every line invalid.
    pub fn new(bytes: usize, words_per_line: usize, assoc: usize, eviction: EvictionPolicy) -> (r: SetAssocCache)
        requires
            is_pow2(bytes as nat),
            is_pow2(words_per_line as nat),
            assoc >= 1,
            assoc * WORD_BYTES * words_per_line <= bytes,
            is_pow2((bytes as int / (assoc * WORD_BYTES * words_per_line)) as nat),
        ensures
            r@.wf(),
            r@.fresh(),
            r@.cold(),
            r@.geom.bytes == bytes,
            r@.geom.words_per_line == words_per_line,
            r@.geom.assoc == assoc,
            r@.policy == eviction,
            r@.stats == (StatsView { hits: 0, misses: 0 }),
    {
        let geom = Geometry::new(bytes, words_per_line, assoc);
        proof {
            geom.lemma_sizes();
            assert(geom.num_lines <= geom.way_bytes()) by (nonlinear_arith)
                requires
                    geom.way_bytes() == geom.line_bytes() * geom.num_lines,
                    geom.line_bytes() >= 1,
            ;
            assert(assoc * geom.num_lines <= assoc * geom.way_bytes()) by (nonlinear_arith)
                requires
                    geom.num_lines <= geom.way_bytes(),
                    assoc >= 1,
            ;
        }
        let n = assoc * geom.num_lines;
        let mut lines: Vec<CacheLine> = Vec::new();
        let mut i: usize = 0;
        while i < n
            invariant
                geom.wf(),
                i <= n,
                n == assoc * geom.num_lines,
                geom.words_per_line == words_per_line,
                WORD_BYTES * words_per_line <= usize::MAX,
                lines@.len() == i,
                forall|j: int| 0 <= j < i ==> (#[trigger] lines@[j])@ == (LineView {
                    valid: false,
                    dirty: false,
                    tag: 0,
                    time: 0,
                    data: Seq::new(geom.line_bytes(), |k: int| 0u8),
                }),
            decreases n - i,
        {
            lines.push(CacheLine::new(words_per_line));
            i = i + 1;
        }
        let r = SetAssocCache { geom, lines, eviction, stats: MemStats::new(), seed: RANDOM_SEED };
        proof {
            let c = r@;
            assert forall|s: int| 0 <= s < c.lines.len() implies (#[trigger] c.lines[s]).tag <= usize::MAX
                && c.lines[s].time <= u128::MAX && c.slot_base(s) <= usize::MAX by {
                lemma_slot_inverse(c, s);
                let k = s % c.nl();
                assert(k * c.lb() <= c.nl() * c.lb()) by (nonlinear_arith)
                    requires
                        0 <= k < c.nl(),
                        c.lb() >= 0,
                ;
                assert(c.nl() * c.lb() == geom.way_bytes()) by (nonlinear_arith)
                    requires
                        geom.way_bytes() == c.lb() * c.nl(),
                ;
                assert(c.lines[s] == r.lines@[s]@);
                assert(c.lines[s].tag == 0);
                assert(c.slot_base(s) == 0 * geom.way_bytes() + k * c.lb());
                assert(0 * geom.way_bytes() == 0);
            }
        }
        r
    }

    /// Position of the line of this way and index in `lines`.
    fn slot_of(&self, way: usize, idx: usize) -> (r: usize)
        requires
            self@.geom.wf(),
            self@.lines.len() == self@.geom.assoc * self@.geom.num_lines,
            way < self@.geom.assoc,
            idx < self@.geom.num_lines,
        ensures
            r == self@.slot(way as int, idx as int),
            r < self.lines@.len(),
    {
        proof {
            lemma_slot(self@, way as int, idx as int);
            assert(self@.lines.len() == self.lines.len());
        }
        way * self.geom.num_lines + idx
    }

    /// The way and index that hold the line of `addr`, if it is resident.
    pub fn find_line(&self, addr: usize) -> (r: Option<(usize, usize)>)
        requires
            self@.wf(),
        ensures
            match r {
                Some((w, i)) => self@.lookup(addr as int) == Some(w as int) && i == self@.geom.index_of(
                    addr as int,
                ),
                None => self@.lookup(addr as int) is None,
            },
    {
        let (tag, idx, _, _) = self.geom.decode_addr(addr);
        proof {
            self.geom.lemma_decomposition(addr as int);
        }
        let mut way: usize = 0;
        while way < self.geom.assoc
            invariant
                self@.wf(),
                0 <= way <= self.geom.assoc,
                idx < self.geom.num_lines,
                tag == self@.geom.tag_of(addr as int),
                idx == self@.geom.index_of(addr as int),
                self@.lookup(addr as int) == self@.find_way(tag as int, idx as int, way as int),
            decreases self.geom.assoc - way,
        {
            proof {
                lemma_slot(self@, way as int, idx as int);
            }
            let s = self.slot_of(way, idx);
            if self.lines[s].is_valid() && self.lines[s].tag() == tag {
                return Some((way, idx));
            }
            way = way + 1;
        }
        None
    }

    fn first_invalid_way(&self, idx: usize) -> (r: Option<usize>)
        requires
            self@.wf(),
            idx < self@.geom.num_lines,
        ensures
            match r {
                Some(w) => self@.first_invalid(idx as int, 0) == Some(w as int),
                None => self@.first_invalid(idx as int, 0) is None,
            },
    {
        let mut way: usize = 0;
        while way < self.geom.assoc
            invariant
                self@.wf(),
                0 <= way <= self.geom.assoc,
                idx < self.geom.num_lines,
                self@.first_invalid(idx as int, 0) == self@.first_invalid(idx as int, way as int),
            decreases self.geom.assoc - way,
        {
            proof {
                lemma_slot(self@, way as int, idx as int);
            }
            if !self.lines[self.slot_of(way, idx)].is_valid() {
                return Some(way);
            }
            way = way + 1;
        }
        None
    }

    fn first_unreferenced_way(&self, idx: usize) -> (r: Option<usize>)
        requires
            self@.wf(),
            idx < self@.geom.num_lines,
        ensures
            match r {
                Some(w) => self@.first_unreferenced(idx as int, 0) == Some(w as int),
                None => self@.first_unreferenced(idx as int, 0) is None,
            },
    {
        let mut way: usize = 0;
        while way < self.geom.assoc
            invariant
                self@.wf(),
                0 <= way <= self.geom.assoc,
                idx < self.geom.num_lines,
                self@.first_unreferenced(idx as int, 0) == self@.first_unreferenced(idx as int, way as int),
            decreases self.geom.assoc - way,
        {
            proof {
                lemma_slot(self@, way as int, idx as int);
            }
            if self.lines[self.slot_of(way, idx)].time() == 0 {
                return Some(way);
            }
            way = way + 1;
        }
        None
    }

    /// The lowest way with the smallest time stamp at `idx`.
    fn oldest_way(&self, idx: usize) -> (r: usize)
        requires
            self@.wf(),
            idx < self@.geom.num_lines,
        ensures
            r == self@.oldest(idx as int, self@.geom.assoc - 1),
    {
        proof {
            lemma_slot(self@, 0, idx as int);
        }
        let mut best: usize = 0;
        let mut way: usize = 1;
        while way < self.geom.assoc
            invariant
                self@.wf(),
                1 <= way <= self.geom.assoc,
                idx < self.geom.num_lines,
                best == self@.oldest(idx as int, way - 1),
            decreases self.geom.assoc - way,
        {
            proof {
                lemma_slot(self@, way as int, idx as int);
                lemma_oldest(self@, idx as int, way - 1);
                lemma_slot(self@, best as int, idx as int);
            }
            if self.lines[self.slot_of(way, idx)].time() < self.lines[self.slot_of(best, idx)].time() {
                best = way;
            }
            way = way + 1;
        }
        best
    }

    /// The way whose line makes room at `idx`: an invalid one if there is
    /// one, else the eviction policy's choice.
    pub fn victim_way(&self, idx: usize) -> (r: usize)
        requires
            self@.wf(),
            idx < self@.geom.num_lines,
        ensures
            r == self@.victim(idx as int),
    {
        match self.first_invalid_way(idx) {
            Some(w) => w,
            None => match self.eviction {
                EvictionPolicy::Lru => self.oldest_way(idx),
                EvictionPolicy::Nru => match self.first_unreferenced_way(idx) {
                    Some(w) => w,
                    None => self.oldest_way(idx),
                },
                EvictionPolicy::Random => {
                    let x = self.seed.wrapping_mul(6364136223846793005u64).wrapping_add(
                        1442695040888963407u64,
                    );
                    ((x >> 33u64) % (self.geom.assoc as u64)) as usize
                },
            },
        }
    }

    /// Marks every line at `idx` unreferenced.
    fn age_set(&mut self, idx: usize)
        requires
            old(self)@.wf(),
            idx < old(self)@.geom.num_lines,
        ensures
            final(self)@ == (CacheView { lines: old(self)@.aged(idx as int), ..old(self)@ }),
    {
        let ghost c = self@;
        let ghost nl = c.nl();
        let mut way: usize = 0;
        while way < self.geom.assoc
            invariant
                c.wf(),
                nl == c.nl(),
                0 <= way <= c.geom.assoc,
                idx < c.geom.num_lines,
                self@.geom == c.geom,
                self@.policy == c.policy,
                self@.stats == c.stats,
                self@.seed == c.seed,
                self@.lines.len() == c.lines.len(),
                forall|s: int|
                    0 <= s < c.lines.len() ==> #[trigger] self@.lines[s] == (if s % nl == idx && s / nl
                        < way {
                        LineView { time: 0, ..c.lines[s] }
                    } else {
                        c.lines[s]
                    }),
            decreases c.geom.assoc - way,
        {
            let s = self.slot_of(way, idx);
            proof {
                lemma_slot(c, way as int, idx as int);
            }
            let ghost prev = self@;
            assert(prev.lines[s as int] == c.lines[s as int]);
            self.lines[s].stamp_now(0);
            assert(self@.lines =~= prev.lines.update(s as int, LineView { time: 0, ..prev.lines[s as int] }));
            way = way + 1;
            proof {
                assert forall|t: int| 0 <= t < c.lines.len() implies #[trigger] self@.lines[t] == (if t
                    % nl == idx && t / nl < way {
                    LineView { time: 0, ..c.lines[t] }
                } else {
                    c.lines[t]
                }) by {
                    if t != s {
                        assert(self@.lines[t] == prev.lines[t]);
                        if t % nl == idx && t / nl == way - 1 {
                            lemma_slot_inverse(c, t);
                        }
                    }
                }
            }
        }
        proof {
            assert forall|t: int| 0 <= t < c.lines.len() implies #[trigger] self@.lines[t] == c.aged(
                idx as int,
            )[t] by {
                lemma_slot_inverse(c, t);
            }
            assert(self@.lines =~= c.aged(idx as int));
        }
    }

    pub fn policy(&self) -> (r: EvictionPolicy)
        ensures
            r == self@.policy,
    {
        self.eviction
    }

    pub fn geometry(&self) -> (r: Geometry)
        ensures
            r == self@.geom,
    {
        self.geom
    }

    /// Address of the first byte of the line with this tag and index.
    pub fn base_addr(&self, tag: usize, idx: usize) -> (r: usize)
        requires
            self@.wf(),
            self@.geom.line_base(tag as int, idx as int) <= usize::MAX,
        ensures
            r == self@.geom.line_base(tag as int, idx as int),
    {
        self.geom.base_addr(tag, idx)
    }
}

impl MemoryAccess for SetAssocCache {
    open spec fn access_ready(&self, addr: usize, size: DataTypeSize) -> bool {
        self@.access_ready(addr as int, size)
    }

    fn read(&mut self, addr: usize, size: DataTypeSize) -> (r: Result<DataType, MemoryError>)
        ensures
            (final(self)@, r) == old(self)@.read_op(addr as int, size),
            final(self)@.wf(),
    {
        proof {
            self.geom.lemma_decomposition(addr as int);
        }
        match self.find_line(addr) {
            None => {
                self.stats.record_miss();
                Err(MemoryError::NotFound)
            },
            Some((way, idx)) => {
                proof {
                    lemma_find_way(self@, self@.geom.tag_of(addr as int), idx as int, 0);
                }
                self.stats.record_hit();
                let now = self.stats.total_accesses();
                let s = self.slot_of(way, idx);
                let ghost c = old(self)@;
                proof {
                    lemma_slot(c, way as int, idx as int);
                    lemma_touch(c, way as int, addr as int);
                }
                self.lines[s].stamp_now(now as u128);
                let (_, _, word, byte) = self.geom.decode_addr(addr);
                let off = word * WORD_BYTES + byte;
                assert(self@.lines =~= c.touch(way as int, addr as int).lines);
                Ok(self.lines[s].read_value(off, size))
            },
        }
    }

    fn write(&mut self, data: DataType, addr: usize) -> (r: Result<(), MemoryError>)
        ensures
            (final(self)@, r) == old(self)@.write_op(data, addr as int),
            final(self)@.wf(),
    {
        proof {
            self.geom.lemma_decomposition(addr as int);
        }
        match self.find_line(addr) {
            None => {
                self.stats.record_miss();
                Err(MemoryError::NotFound)
            },
            Some((way, idx)) => {
                proof {
                    lemma_find_way(self@, self@.geom.tag_of(addr as int), idx as int, 0);
                }
                self.stats.record_hit();
                let now = self.stats.total_accesses();
                let s = self.slot_of(way, idx);
                let (_, _, word, byte) = self.geom.decode_addr(addr);
                let off = word * WORD_BYTES + byte;
                let ghost c = old(self)@;
                let ghost c1 = c.touch(way as int, addr as int);
                let ghost l0 = c1.line(way as int, idx as int);
                let ghost l = LineView {
                    dirty: true,
                    data: write_bytes(l0.data, off as int, le_bytes(data)),
                    ..l0
                };
                proof {
                    lemma_slot(c, way as int, idx as int);
                    lemma_write_hit(c, data, addr as int);
                    assert(c.lines[c.slot(way as int, idx as int)] == c.line(way as int, idx as int));
                }
                self.lines[s].stamp_now(now as u128);
                self.lines[s].write_value(off, data);
                assert(self@.lines =~= c1.with_line(way as int, idx as int, l).lines);
                Ok(())
            },
        }
    }

    fn stats(&self) -> (r: &MemStats)
        ensures
            r@ == self@.stats,
    {
        &self.stats
    }
}

impl MemLevelAccess for SetAssocCache {
    open spec fn line_ready(&self, addr: usize, words_per_line: usize) -> bool {
        self@.wf() && words_per_line == self@.geom.words_per_line
    }

    /// Installs a line fetched from the level below: the first
    /// `words_per_line` words of `data`.
    fn write_line(&mut self, addr: usize, words_per_line: usize, data: Vec<u8>)
        ensures
            final(self)@ == old(self)@.install_op(addr as int, data@.subrange(0, WORD_BYTES * words_per_line)),
            final(self)@.wf(),
    {
        let ghost c = self@;
        proof {
            self.geom.lemma_decomposition(addr as int);
            self.geom.lemma_sizes();
        }
        let mut data = data;
        data.truncate(self.geom.line_bytes_exec());
        let (tag, idx, _, _) = self.geom.decode_addr(addr);
        let count = self.stats.total_accesses();
        let way = match self.find_line(addr) {
            Some((w, _)) => w,
            None => {
                let w = self.victim_way(idx);
                if self.first_invalid_way(idx).is_none() {
                    match self.eviction {
                        EvictionPolicy::Nru => {
                            if self.first_unreferenced_way(idx).is_none() {
                                self.age_set(idx);
                            }
                        },
                        EvictionPolicy::Random => {
                            self.seed = self.seed.wrapping_mul(6364136223846793005u64).wrapping_add(
                                1442695040888963407u64,
                            );
                        },
                        EvictionPolicy::Lru => {},
                    }
                }
                w
            },
        };
        let now: u128 = if self.eviction == EvictionPolicy::Nru {
            0
        } else {
            count as u128
        };
        proof {
            lemma_victim(c, idx as int);
            lemma_find_way(c, c.geom.tag_of(addr as int), idx as int, 0);
            lemma_install(c, addr as int, data@);
        }
        let s = self.slot_of(way, idx);
        self.lines[s].write_line(tag, data, now);
        assert(self@.lines =~= c.install_op(addr as int, data@).lines);
    }

    /// The bytes of the line that a miss on `addr` would evict.
    fn fetch_line(&self, addr: usize, words_per_line: usize) -> (r: Vec<u8>)
        ensures
            r@ == self@.victim_data(addr as int),
    {
        proof {
            let i = self@.geom.index_of(addr as int);
            self.geom.lemma_decomposition(addr as int);
            lemma_victim(self@, i);
            lemma_slot(self@, self@.victim(i), i);
            assert(self@.lines[self@.slot(self@.victim(i), i)] == self@.line(self@.victim(i), i));
        }
        self.get_evict_line_data(addr)
    }
}

impl CacheAddressing for SetAssocCache {
    open spec fn well_formed(&self) -> bool {
        self@.wf()
    }

    fn is_line_dirty(&self, addr: usize) -> (r: bool)
        ensures
            r == self@.victim_dirty(addr as int),
    {
        proof {
            self.geom.lemma_decomposition(addr as int);
        }
        let idx = self.get_index(addr);
        let way = self.victim_way(idx);
        proof {
            lemma_victim(self@, idx as int);
        }
        self.lines[self.slot_of(way, idx)].is_dirty()
    }

    fn get_base_addr(&self, addr: usize) -> (r: usize)
        ensures
            r == self@.fetch_base(addr as int),
    {
        proof {
            self.geom.lemma_decomposition(addr as int);
        }
        let (tag, idx, _, _) = self.geom.decode_addr(addr);
        self.geom.base_addr(tag, idx)
    }

    fn get_writeback_addr(&self, addr: usize) -> (r: usize)
        ensures
            r == self@.writeback_addr(addr as int),
    {
        proof {
            self.geom.lemma_decomposition(addr as int);
        }
        let idx = self.get_index(addr);
        let way = self.victim_way(idx);
        proof {
            lemma_victim(self@, idx as int);
            lemma_slot(self@, way as int, idx as int);
        }
        let tag = self.lines[self.slot_of(way, idx)].tag();
        self.geom.base_addr(tag, idx)
    }

    fn decode_addr(&self, addr: usize) -> (r: (usize, usize, usize, usize))
        ensures
            r.0 == self@.geom.tag_of(addr as int),
            r.1 == self@.geom.index_of(addr as int),
            r.2 == self@.geom.word_of(addr as int),
            r.3 == self@.geom.byte_of(addr as int),
    {
        self.geom.decode_addr(addr)
    }

    fn get_tag(&self, addr: usize) -> (r: usize)
        ensures
            r == self@.geom.tag_of(addr as int),
    {
        self.geom.decode_addr(addr).0
    }

    fn get_index(&self, addr: usize) -> (r: usize)
        ensures
            r == self@.geom.index_of(addr as int),
    {
        self.geom.decode_addr(addr).1
    }

    fn get_word_offset(&self, addr: usize) -> (r: usize)
        ensures
            r == self@.geom.word_of(addr as int),
    {
        self.geom.decode_addr(addr).2
    }

    fn get_byte_offset(&self, addr: usize) -> (r: usize)
        ensures
            r == self@.geom.byte_of(addr as int),
    {
        self.geom.decode_addr(addr).3
    }

    fn get_evict_line_data(&self, addr: usize) -> (r: Vec<u8>)
        ensures
            r@ == self@.victim_data(addr as int),
    {
        proof {
            self.geom.lemma_decomposition(addr as int);
        }
        let idx = self.get_index(addr);
        let way = self.victim_way(idx);
        proof {
            lemma_victim(self@, idx as int);
        }
        self.lines[self.slot_of(way, idx)].get_data()
    }

    fn byte_bits(&self) -> (r: usize)
        ensures
            vstd::arithmetic::power2::pow2(r as nat) == WORD_BYTES,
    {
        self.geom.byte_bits()
    }

    fn word_bits(&self) -> (r: usize)
        ensures
            vstd::arithmetic::power2::pow2(r as nat) == self@.geom.words_per_line,
    {
        self.geom.word_bits()
    }

    fn index_bits(&self) -> (r: usize)
        ensures
            vstd::arithmetic::power2::pow2(r as nat) == self@.geom.num_lines,
    {
        self.geom.index_bits()
    }
}

} // verus!
