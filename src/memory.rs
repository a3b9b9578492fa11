//! The access interfaces shared by the levels of the hierarchy.
use crate::cache::{Cache, CacheAddressing};
use crate::cache_view::{lemma_lookup_same, write_bytes, CacheView};
use crate::data_type::{access_error, check_access, from_le, le_bytes, DataType, DataTypeSize, MemoryError};
use crate::geometry::{is_pow2, WORD_BYTES};
use crate::main_memory::{MainMemory, MainView};
use crate::mem_stats::{MemStats, StatsView};
use crate::refill::{
    byte_view, coherent, lemma_frame, lemma_hit_bytes, lemma_line_in_region, lemma_lookup_line,
    lemma_read_hit_view, lemma_refill, lemma_same_lines, lemma_write_hit_view, line_aligned_region,
    read_through_op, refill_op, view_seq, write_through_op,
};
use vstd::prelude::*;

verus! {

/// Typed reads and writes, with hit/miss accounting.
pub trait MemoryAccess {
    /// The state is well formed and has room to count this access.
    spec fn access_ready(&self, addr: usize, size: DataTypeSize) -> bool;

    fn read(&mut self, addr: usize, size: DataTypeSize) -> (r: Result<DataType, MemoryError>)
        requires
            old(self).access_ready(addr, size),
    ;

    fn write(&mut self, data: DataType, addr: usize) -> (r: Result<(), MemoryError>)
        requires
            old(self).access_ready(addr, data.size_class()),
    ;

    fn stats(&self) -> &MemStats;
}

/// Whole-line transfers between levels.
pub trait MemLevelAccess {
    /// A line of `words_per_line` words can be moved at `addr`.
    spec fn line_ready(&self, addr: usize, words_per_line: usize) -> bool;

    fn write_line(&mut self, addr: usize, words_per_line: usize, data: Vec<u8>)
        requires
            old(self).line_ready(addr, words_per_line),
            data@.len() >= WORD_BYTES * words_per_line,
    ;

    fn fetch_line(&self, addr: usize, words_per_line: usize) -> (r: Vec<u8>)
        requires
            self.line_ready(addr, words_per_line),
        ensures
            r@.len() == WORD_BYTES * words_per_line,
    ;
}

/// Which of the two caches serves an address.
#[derive(Debug, Clone, Copy, PartialEq, Eq, Structural)]
pub enum WhichL1 {
    Instr,
    Data,
}

/// The abstract value of the hierarchy.
pub struct MemoryView {
    pub size: nat,
    pub stats: StatsView,
    pub im: CacheView,
    pub dm: CacheView,
    pub im_start: nat,
    pub dm_start: nat,
    pub main: MainView,
}

impl MemoryView {
    /// The cache whose address range holds `a`: instructions in
    /// `[im_start, dm_start)`, data in `[dm_start, size)`.
    pub open spec fn route(self, a: int) -> Option<WhichL1> {
        if a < self.im_start {
            None
        } else if a < self.dm_start {
            Some(WhichL1::Instr)
        } else if a < self.size {
            Some(WhichL1::Data)
        } else {
            None
        }
    }

    pub open spec fn cache(self, which: WhichL1) -> CacheView {
        match which {
            WhichL1::Instr => self.im,
            WhichL1::Data => self.dm,
        }
    }

    pub open spec fn lo(self, which: WhichL1) -> int {
        match which {
            WhichL1::Instr => self.im_start as int,
            WhichL1::Data => self.dm_start as int,
        }
    }

    pub open spec fn hi(self, which: WhichL1) -> int {
        match which {
            WhichL1::Instr => self.dm_start as int,
            WhichL1::Data => self.size as int,
        }
    }

    /// The byte at `x` as a caller of the hierarchy sees it.
    pub open spec fn byte_at(self, x: int) -> u8 {
        match self.route(x) {
            Some(which) => byte_view(self.cache(which), self.main.data, x),
            None => self.main.data[x],
        }
    }

    /// Every byte as a caller sees it.
    pub open spec fn contents(self) -> Seq<u8> {
        Seq::new(self.size, |x: int| self.byte_at(x))
    }

    /// The line of `a` is held by the cache that serves it.
    pub open spec fn resident(self, a: int) -> bool {
        match self.route(a) {
            Some(which) => self.cache(which).resident(a),
            None => false,
        }
    }

    /// The error an access of `size` bytes at `a` fails with, if any.
    pub open spec fn error_of(self, a: int, size: DataTypeSize) -> Option<MemoryError> {
        match access_error(self.size as int, a, size.width() as int) {
            Some(e) => Some(e),
            None => if self.route(a) is None {
                Some(MemoryError::NotCompatible)
            } else {
                None
            },
        }
    }

    pub open spec fn inv(self) -> bool {
        &&& self.main.data.len() == self.size
        &&& self.im_start <= self.dm_start <= self.size
        &&& self.im.lb() % 8 == 0
        &&& self.dm.lb() % 8 == 0
        &&& line_aligned_region(self.im, self.size as int, self.im_start as int, self.dm_start as int)
        &&& line_aligned_region(self.dm, self.size as int, self.dm_start as int, self.size as int)
        &&& coherent(self.im, self.main.data, self.im_start as int, self.dm_start as int)
        &&& coherent(self.dm, self.main.data, self.dm_start as int, self.size as int)
    }

    /// Room is left to count one more access at every level it reaches.
    pub open spec fn has_room(self) -> bool {
        &&& self.stats.has_room(1)
        &&& self.im.stats.has_room(2)
        &&& self.dm.stats.has_room(2)
    }

    /// Same shape: sizes, ranges and cache geometries.
    pub open spec fn same_shape(self, other: MemoryView) -> bool {
        &&& self.size == other.size
        &&& self.im_start == other.im_start
        &&& self.dm_start == other.dm_start
        &&& self.im.geom == other.im.geom
        &&& self.dm.geom == other.dm.geom
        &&& self.im.policy == other.im.policy
        &&& self.dm.policy == other.dm.policy
    }

    /// How an access that reached cache `which` changed its counters:
    /// one hit, or a miss and then the hit of the retry.
    pub open spec fn counted(self, which: WhichL1, a: int, after: CacheView) -> bool {
        after.stats == if self.cache(which).resident(a) {
            self.cache(which).stats.hit()
        } else {
            self.cache(which).stats.miss().hit()
        }
    }
}

/// The memory hierarchy: an instruction cache and a data cache in front of
/// main memory, each serving its own address range.
#[derive(Debug)]
pub struct Memory {
    size: usize,
    stats: MemStats,
    im: Cache,
    dm: Cache,
    im_start_addr: usize,
    dm_start_addr: usize,
    main: MainMemory,
}

impl Memory {
    /// Each cache has the shape its organization asks for.
    pub closed spec fn caches_ok(&self) -> bool {
        self.im.shape_ok() && self.dm.shape_ok()
    }
}

impl View for Memory {
    type V = MemoryView;

    closed spec fn view(&self) -> MemoryView {
        MemoryView {
            size: self.size as nat,
            stats: self.stats@,
            im: self.im@,
            dm: self.dm@,
            im_start: self.im_start_addr as nat,
            dm_start: self.dm_start_addr as nat,
            main: self.main@,
        }
    }
}

/// A routed access that changed the serving pair in place of the old one
/// keeps the hierarchy invariant, and the bytes outside the range are as
/// before.
proof fn lemma_replace_pair(old: MemoryView, new: MemoryView, which: WhichL1, f: Seq<u8>)
    requires
        old.inv(),
        new.same_shape(old),
        which == WhichL1::Instr ==> new.dm == old.dm,
        which == WhichL1::Data ==> new.im == old.im,
        coherent(new.cache(which), new.main.data, old.lo(which), old.hi(which)),
        new.main.data.len() == old.main.data.len(),
        forall|x: int|
            0 <= x < old.size && !(old.lo(which) <= x < old.hi(which)) ==> #[trigger] new.main.data[x]
                == old.main.data[x],
        f.len() == old.size,
        forall|x: int|
            0 <= x < old.size ==> #[trigger] byte_view(new.cache(which), new.main.data, x) == f[x],
    ensures
        new.inv(),
        forall|x: int|
            0 <= x < old.size ==> #[trigger] new.contents()[x] == if old.lo(which) <= x < old.hi(which) {
                f[x]
            } else {
                old.contents()[x]
            },
{
    let other = match which {
        WhichL1::Instr => WhichL1::Data,
        WhichL1::Data => WhichL1::Instr,
    };
    let oc = old.cache(other);
    let m0 = old.main.data;
    let m1 = new.main.data;
    assert forall|s: int, y: int|
        0 <= s < oc.lines.len() && (#[trigger] oc.lines[s]).valid && oc.slot_base(s) <= y < oc.slot_base(s)
            + oc.lb() implies #[trigger] m1[y] == m0[y] by {
        assert(old.lo(other) <= oc.slot_base(s) && oc.slot_base(s) + oc.lb() <= old.hi(other));
    }
    lemma_frame(oc, m0, m1, old.lo(other), old.hi(other));
    assert forall|x: int| 0 <= x < old.size implies #[trigger] new.contents()[x] == if old.lo(which)
        <= x < old.hi(which) {
        f[x]
    } else {
        old.contents()[x]
    } by {
        if old.route(x) == Some(other) && oc.lookup(x) is None {
            assert(m1[x] == m0[x]);
        }
    }
}

/// Handles a miss on `addr` in `cache`: writes the victim back to `main` if
/// dirty, fetches the line of `addr` and installs it. The victim is read
/// before anything is overwritten.
fn refill(cache: &mut Cache, main: &mut MainMemory, addr: usize, lo: usize, hi: usize)
    requires
        coherent(old(cache)@, old(main)@.data, lo as int, hi as int),
        line_aligned_region(old(cache)@, old(main)@.data.len() as int, lo as int, hi as int),
        lo <= addr < hi,
        old(cache)@.lookup(addr as int) is None,
        old(cache).shape_ok(),
    ensures
        (final(cache)@, final(main)@.data) == refill_op(old(cache)@, old(main)@.data, addr as int),
        final(main)@.stats == old(main)@.stats,
        final(cache).shape_ok(),
{
    let ghost c = cache@;
    let geom = cache.geometry();
    let wpl = geom.words_per_line;
    proof {
        let i = c.geom.index_of(addr as int);
        c.geom.lemma_decomposition(addr as int);
        crate::cache_view::lemma_victim(c, i);
        crate::cache_view::lemma_slot(c, c.victim(i), i);
        assert(c.lines[c.slot(c.victim(i), i)] == c.line(c.victim(i), i));
        lemma_line_in_region(c, lo as int, hi as int, addr as int);
    }
    let fetch_base = cache.get_base_addr(addr);
    if cache.is_line_dirty(addr) {
        let wb = cache.get_writeback_addr(addr);
        let line = cache.get_evict_line_data(addr);
        assert(line@.subrange(0, line@.len() as int) =~= line@);
        main.write_line(wb, wpl, line);
    }
    let new_line = main.fetch_line(fetch_base, wpl);
    assert(new_line@.subrange(0, new_line@.len() as int) =~= new_line@);
    cache.write_line(fetch_base, wpl, new_line);
}

/// A read through one cache whose lines lie in `[lo, hi)`, refilling on a
/// miss and retrying once.
fn read_through(
    cache: &mut Cache,
    main: &mut MainMemory,
    stats: &mut MemStats,
    addr: usize,
    size: DataTypeSize,
    lo: usize,
    hi: usize,
) -> (r: Result<DataType, MemoryError>)
    requires
        coherent(old(cache)@, old(main)@.data, lo as int, hi as int),
        line_aligned_region(old(cache)@, old(main)@.data.len() as int, lo as int, hi as int),
        lo <= addr < hi,
        old(cache)@.geom.offset_of(addr as int) + size.width() <= old(cache)@.lb(),
        old(cache)@.stats.has_room(2),
        old(stats)@.has_room(1),
        old(cache).shape_ok(),
    ensures
        (final(cache)@, final(main)@.data) == read_through_op(old(cache)@, old(main)@.data, addr as int, size),
        final(cache).shape_ok(),
        r == Ok::<DataType, MemoryError>(
            from_le(size, view_seq(old(cache)@, old(main)@.data).subrange(addr as int, addr + size.width())),
        ),
        coherent(final(cache)@, final(main)@.data, lo as int, hi as int),
        final(main)@.data.len() == old(main)@.data.len(),
        final(main)@.stats == old(main)@.stats,
        forall|x: int|
            0 <= x < old(main)@.data.len() ==> #[trigger] byte_view(final(cache)@, final(main)@.data, x)
                == byte_view(old(cache)@, old(main)@.data, x),
        forall|x: int|
            0 <= x < old(main)@.data.len() && !(lo <= x < hi) ==> #[trigger] final(main)@.data[x]
                == old(main)@.data[x],
        final(stats)@ == if old(cache)@.resident(addr as int) {
            old(stats)@.hit()
        } else {
            old(stats)@.miss()
        },
        final(cache)@.stats == if old(cache)@.resident(addr as int) {
            old(cache)@.stats.hit()
        } else {
            old(cache)@.stats.miss().hit()
        },
        final(cache)@.resident(addr as int),
        final(cache)@.geom == old(cache)@.geom,
        final(cache)@.policy == old(cache)@.policy,
{
    let ghost c0 = cache@;
    let ghost m0 = main@.data;
    let ghost n = size.width() as int;
    proof {
        c0.geom.lemma_decomposition(addr as int);
        lemma_line_in_region(c0, lo as int, hi as int, addr as int);
    }
    match cache.read(addr, size) {
        Ok(v) => {
            stats.record_hit();
            proof {
                lemma_read_hit_view(c0, m0, lo as int, hi as int, addr as int);
                lemma_hit_bytes(c0, m0, addr as int, n);
                let d0 = c0.line(c0.lookup(addr as int)->Some_0, c0.geom.index_of(addr as int)).data;
                let off = c0.geom.offset_of(addr as int);
                assert forall|k: int| 0 <= k < n implies #[trigger] view_seq(c0, m0).subrange(
                    addr as int,
                    addr + n,
                )[k] == d0.subrange(off, off + n)[k] by {
                    assert(view_seq(c0, m0)[addr + k] == byte_view(c0, m0, addr + k));
                }
                assert(view_seq(c0, m0).subrange(addr as int, addr + n) =~= d0.subrange(off, off + n));
                lemma_lookup_same(c0, cache@, addr as int);
            }
            Ok(v)
        },
        Err(_) => {
            stats.record_miss();
            let ghost c1 = cache@;
            proof {
                lemma_same_lines(c0, c1, m0, lo as int, hi as int);
                lemma_lookup_same(c0, c1, addr as int);
                lemma_refill(c1, m0, lo as int, hi as int, addr as int);
            }
            refill(cache, main, addr, lo, hi);
            let ghost c2 = cache@;
            let ghost m2 = main@.data;
            proof {
                lemma_read_hit_view(c2, m2, lo as int, hi as int, addr as int);
                lemma_hit_bytes(c2, m2, addr as int, n);
                let d2 = c2.line(c2.lookup(addr as int)->Some_0, c2.geom.index_of(addr as int)).data;
                let off = c2.geom.offset_of(addr as int);
                assert forall|k: int| 0 <= k < n implies #[trigger] view_seq(c0, m0).subrange(
                    addr as int,
                    addr + n,
                )[k] == d2.subrange(off, off + n)[k] by {
                    assert(view_seq(c0, m0)[addr + k] == byte_view(c0, m0, addr + k));
                    assert(byte_view(c2, m2, addr + k) == byte_view(c1, m0, addr + k));
                }
                assert(view_seq(c0, m0).subrange(addr as int, addr + n) =~= d2.subrange(off, off + n));
            }
            let r = cache.read(addr, size);
            proof {
                lemma_lookup_same(c2, cache@, addr as int);
            }
            r
        },
    }
}

/// A write through one cache whose lines lie in `[lo, hi)`, refilling on a
/// miss and retrying once.
fn write_through(
    cache: &mut Cache,
    main: &mut MainMemory,
    stats: &mut MemStats,
    data: DataType,
    addr: usize,
    lo: usize,
    hi: usize,
) -> (r: Result<(), MemoryError>)
    requires
        coherent(old(cache)@, old(main)@.data, lo as int, hi as int),
        line_aligned_region(old(cache)@, old(main)@.data.len() as int, lo as int, hi as int),
        lo <= addr < hi,
        old(cache)@.geom.offset_of(addr as int) + data.size_class().width() <= old(cache)@.lb(),
        old(cache)@.stats.has_room(2),
        old(stats)@.has_room(1),
        old(cache).shape_ok(),
    ensures
        (final(cache)@, final(main)@.data) == write_through_op(old(cache)@, old(main)@.data, data, addr as int),
        final(cache).shape_ok(),
        r == Ok::<(), MemoryError>(()),
        coherent(final(cache)@, final(main)@.data, lo as int, hi as int),
        final(main)@.data.len() == old(main)@.data.len(),
        final(main)@.stats == old(main)@.stats,
        forall|x: int|
            0 <= x < old(main)@.data.len() ==> #[trigger] byte_view(final(cache)@, final(main)@.data, x)
                == if addr <= x < addr + le_bytes(data).len() {
                le_bytes(data)[x - addr]
            } else {
                byte_view(old(cache)@, old(main)@.data, x)
            },
        forall|x: int|
            0 <= x < old(main)@.data.len() && !(lo <= x < hi) ==> #[trigger] final(main)@.data[x]
                == old(main)@.data[x],
        final(stats)@ == if old(cache)@.resident(addr as int) {
            old(stats)@.hit()
        } else {
            old(stats)@.miss()
        },
        final(cache)@.stats == if old(cache)@.resident(addr as int) {
            old(cache)@.stats.hit()
        } else {
            old(cache)@.stats.miss().hit()
        },
        final(cache)@.resident(addr as int),
        final(cache)@.geom == old(cache)@.geom,
        final(cache)@.policy == old(cache)@.policy,
{
    let ghost c0 = cache@;
    let ghost m0 = main@.data;
    proof {
        c0.geom.lemma_decomposition(addr as int);
        lemma_line_in_region(c0, lo as int, hi as int, addr as int);
    }
    match cache.write(data, addr) {
        Ok(()) => {
            stats.record_hit();
            proof {
                lemma_write_hit_view(c0, m0, lo as int, hi as int, data, addr as int);
                lemma_lookup_same(c0, cache@, addr as int);
            }
            Ok(())
        },
        Err(_) => {
            stats.record_miss();
            let ghost c1 = cache@;
            proof {
                lemma_same_lines(c0, c1, m0, lo as int, hi as int);
                lemma_lookup_same(c0, c1, addr as int);
                lemma_refill(c1, m0, lo as int, hi as int, addr as int);
            }
            refill(cache, main, addr, lo, hi);
            let ghost c2 = cache@;
            let ghost m2 = main@.data;
            proof {
                lemma_write_hit_view(c2, m2, lo as int, hi as int, data, addr as int);
            }
            let r = cache.write(data, addr);
            proof {
                lemma_lookup_same(c2, cache@, addr as int);
            }
            r
        },
    }
}

impl Memory {
    /// A hierarchy over main memory of `size` bytes, all zero, with the
    /// given caches, both cold. Instructions are served from
    /// `[im_start_addr, dm_start_addr)` and data from `[dm_start_addr, size)`;
    /// both bounds, and `size`, fall on line boundaries of the caches that
    /// meet them, and every line holds at least a doubleword.
    pub fn new(size: usize, im: Cache, dm: Cache, im_start_addr: usize, dm_start_addr: usize) -> (r: Memory)
        requires
            is_pow2(size as nat),
            im@.wf(),
            dm@.wf(),
            im@.fresh(),
            dm@.fresh(),
            im.shape_ok(),
            dm.shape_ok(),
            im@.geom.words_per_line >= 2,
            dm@.geom.words_per_line >= 2,
            im_start_addr <= dm_start_addr <= size,
            im_start_addr as int % im@.lb() == 0,
            dm_start_addr as int % im@.lb() == 0,
            dm_start_addr as int % dm@.lb() == 0,
            size as int % dm@.lb() == 0,
        ensures
            r@.inv(),
            r@.contents() == Seq::new(size as nat, |x: int| 0u8),
            r@.size == size,
            r@.im == im@,
            r@.dm == dm@,
            r@.im.fresh(),
            r@.dm.fresh(),
            r@.main.data == Seq::new(size as nat, |x: int| 0u8),
            r@.im_start == im_start_addr,
            r@.dm_start == dm_start_addr,
            r@.stats == (StatsView { hits: 0, misses: 0 }),
            r.caches_ok(),
    {
        let main = MainMemory::new(size);
        let r = Memory {
            size,
            stats: MemStats::new(),
            im,
            dm,
            im_start_addr,
            dm_start_addr,
            main,
        };
        proof {
            lemma_line_multiple(im@);
            lemma_line_multiple(dm@);
            let v = r@;
            assert(v.im.cold() && v.dm.cold());
            assert forall|x: int| 0 <= x < size implies #[trigger] v.contents()[x] == 0u8 by {
                crate::cache_view::lemma_cold_misses(v.im, x);
                crate::cache_view::lemma_cold_misses(v.dm, x);
            }
            assert(v.contents() =~= Seq::new(size as nat, |x: int| 0u8));
        }
        r
    }

    /// The cache that serves `addr`, if any.
    fn choose_cache(&self, addr: usize) -> (r: Option<WhichL1>)
        ensures
            r == self@.route(addr as int),
    {
        if addr < self.im_start_addr {
            None
        } else if addr < self.dm_start_addr {
            Some(WhichL1::Instr)
        } else if addr < self.size {
            Some(WhichL1::Data)
        } else {
            None
        }
    }

    /// Writes a value straight into main memory, bypassing the caches, at an
    /// address whose line no cache holds.
    pub fn preload(&mut self, data: DataType, addr: usize) -> (r: Result<(), MemoryError>)
        requires
            old(self)@.inv(),
            old(self)@.main.stats.has_room(1),
            !old(self)@.resident(addr as int),
            old(self).caches_ok(),
        ensures
            final(self).caches_ok(),
            r == match old(self)@.error_of(addr as int, data.size_class()) {
                Some(e) => Err(e),
                None => Ok(()),
            },
            final(self)@.inv(),
            r is Ok ==> final(self)@.contents() == write_bytes(old(self)@.contents(), addr as int, le_bytes(data)),
            r is Err ==> final(self)@ == old(self)@,
            final(self)@.same_shape(old(self)@),
            final(self)@.stats == old(self)@.stats,
            final(self)@.im == old(self)@.im,
            final(self)@.dm == old(self)@.dm,
    {
        let ghost v0 = self@;
        if let Some(e) = check_access(self.size, addr, data.payload_size()) {
            return Err(e);
        }
        if self.choose_cache(addr).is_none() {
            return Err(MemoryError::NotCompatible);
        }
        let r = self.main.write(data, addr);
        proof {
            crate::data_type::lemma_le_round_trip(data);
            lemma_access_in_line(v0, addr as int, data.size_class());
            let v1 = self@;
            let n = le_bytes(data).len() as int;
            let w = v0.route(addr as int)->Some_0;
            let m0 = v0.main.data;
            let m1 = v1.main.data;
            assert forall|s: int, y: int|
                0 <= s < v0.im.lines.len() && (#[trigger] v0.im.lines[s]).valid && v0.im.slot_base(s) <= y
                    < v0.im.slot_base(s) + v0.im.lb() implies #[trigger] m1[y] == m0[y] by {
                if addr <= y < addr + n {
                    if w == WhichL1::Instr {
                        crate::refill::lemma_line_holds_start(v0.im, s, addr as int, n, y);
                    } else {
                        assert(v0.route(y) == v0.route(addr as int));
                    }
                }
            }
            assert forall|s: int, y: int|
                0 <= s < v0.dm.lines.len() && (#[trigger] v0.dm.lines[s]).valid && v0.dm.slot_base(s) <= y
                    < v0.dm.slot_base(s) + v0.dm.lb() implies #[trigger] m1[y] == m0[y] by {
                if addr <= y < addr + n {
                    if w == WhichL1::Data {
                        crate::refill::lemma_line_holds_start(v0.dm, s, addr as int, n, y);
                    } else {
                        assert(v0.route(y) == v0.route(addr as int));
                    }
                }
            }
            lemma_frame(v0.im, m0, m1, v0.im_start as int, v0.dm_start as int);
            lemma_frame(v0.dm, m0, m1, v0.dm_start as int, v0.size as int);
            assert forall|x: int| 0 <= x < v0.size implies #[trigger] v1.contents()[x] == write_bytes(
                v0.contents(),
                addr as int,
                le_bytes(data),
            )[x] by {
                if addr <= x < addr + n {
                    let c = v0.cache(w);
                    if c.lookup(x) is Some {
                        lemma_lookup_line(c, x);
                        let sx = c.slot(c.lookup(x)->Some_0, c.geom.index_of(x));
                        crate::refill::lemma_line_holds_start(c, sx, addr as int, n, x);
                    }
                }
            }
            assert(v1.contents() =~= write_bytes(v0.contents(), addr as int, le_bytes(data)));
        }
        r
    }
}

/// Where an aligned in-bounds access that some cache serves falls: inside
/// one line of that cache and inside its range.
proof fn lemma_access_in_line(v: MemoryView, a: int, size: DataTypeSize)
    requires
        v.inv(),
        0 <= a,
        access_error(v.size as int, a, size.width() as int) is None,
        v.route(a) is Some,
    ensures
        v.cache(v.route(a)->Some_0).geom.offset_of(a) + size.width() <= v.cache(v.route(a)->Some_0).lb(),
        v.lo(v.route(a)->Some_0) <= a,
        a + size.width() <= v.hi(v.route(a)->Some_0),
        forall|x: int| a <= x < a + size.width() ==> v.route(x) == v.route(a),
{
    let w = v.route(a)->Some_0;
    let c = v.cache(w);
    c.geom.lemma_aligned_in_line(a, size.width() as int);
    lemma_line_in_region(c, v.lo(w), v.hi(w), a);
    c.geom.lemma_decomposition(a);
}

/// A read of the width of a written value, at the address just written,
/// returns that value: for every content of memory and every width.
pub proof fn lemma_write_then_read(contents: Seq<u8>, a: int, d: DataType)
    requires
        0 <= a,
        a + d.size_class().width() <= contents.len(),
    ensures
        from_le(
            d.size_class(),
            write_bytes(contents, a, le_bytes(d)).subrange(a, a + d.size_class().width()),
        ) == d,
{
    crate::data_type::lemma_le_round_trip(d);
    let n = d.size_class().width() as int;
    assert(write_bytes(contents, a, le_bytes(d)).subrange(a, a + n) =~= le_bytes(d));
}

/// A value written at `a1` survives a later write at any address whose
/// bytes do not overlap it, whatever that write evicts: a read of `a1` still
/// returns it. Reads change no byte, so they cannot disturb it either.
pub proof fn lemma_write_survives(contents: Seq<u8>, a1: int, d1: DataType, a2: int, d2: DataType)
    requires
        0 <= a1,
        0 <= a2,
        a1 + d1.size_class().width() <= contents.len(),
        a2 + d2.size_class().width() <= contents.len(),
        a1 + d1.size_class().width() <= a2 || a2 + d2.size_class().width() <= a1,
    ensures
        from_le(
            d1.size_class(),
            write_bytes(write_bytes(contents, a1, le_bytes(d1)), a2, le_bytes(d2)).subrange(
                a1,
                a1 + d1.size_class().width(),
            ),
        ) == d1,
{
    crate::data_type::lemma_le_round_trip(d1);
    crate::data_type::lemma_le_round_trip(d2);
    let n1 = d1.size_class().width() as int;
    assert(write_bytes(write_bytes(contents, a1, le_bytes(d1)), a2, le_bytes(d2)).subrange(a1, a1 + n1)
        =~= le_bytes(d1));
}

/// With both caches cold, no address is resident: the first access to any
/// address misses, exactly once.
pub proof fn lemma_cold_hierarchy_misses(v: MemoryView, a: int)
    requires
        v.inv(),
        v.im.cold(),
        v.dm.cold(),
        0 <= a,
    ensures
        !v.resident(a),
{
    crate::cache_view::lemma_cold_misses(v.im, a);
    crate::cache_view::lemma_cold_misses(v.dm, a);
}

/// Lines of at least two words are a multiple of eight bytes.
proof fn lemma_line_multiple(c: CacheView)
    requires
        c.geom.wf(),
        c.geom.words_per_line >= 2,
    ensures
        c.lb() % 8 == 0,
{
    let wb = c.geom.word_bits as nat;
    if wb == 0 {
        vstd::arithmetic::power2::lemma2_to64();
    } else {
        vstd::arithmetic::power2::lemma_pow2_unfold(wb);
        assert(c.lb() == 8 * vstd::arithmetic::power2::pow2((wb - 1) as nat));
    }
}

impl MemoryAccess for Memory {
    open spec fn access_ready(&self, addr: usize, size: DataTypeSize) -> bool {
        self@.inv() && self@.has_room() && self.caches_ok()
    }

    /// Reads `size` bytes at `addr`; a miss is refilled and retried before
    /// this returns.
    fn read(&mut self, addr: usize, size: DataTypeSize) -> (r: Result<DataType, MemoryError>)
        ensures
            final(self)@.inv(),
            final(self)@.same_shape(old(self)@),
            final(self).caches_ok(),
            final(self)@.contents() == old(self)@.contents(),
            final(self)@.main.stats == old(self)@.main.stats,
            match old(self)@.error_of(addr as int, size) {
                Some(e) => r == Err::<DataType, MemoryError>(e) && final(self)@ == old(self)@,
                None => {
                    let which = old(self)@.route(addr as int)->Some_0;
                    &&& r == Ok::<DataType, MemoryError>(
                        from_le(size, old(self)@.contents().subrange(addr as int, addr + size.width())),
                    )
                    &&& (final(self)@.cache(which), final(self)@.main.data) == read_through_op(
                        old(self)@.cache(which),
                        old(self)@.main.data,
                        addr as int,
                        size,
                    )
                    &&& final(self)@.stats == if old(self)@.resident(addr as int) {
                        old(self)@.stats.hit()
                    } else {
                        old(self)@.stats.miss()
                    }
                    &&& final(self)@.resident(addr as int)
                    &&& old(self)@.counted(which, addr as int, final(self)@.cache(which))
                    &&& which == WhichL1::Instr ==> final(self)@.dm == old(self)@.dm
                    &&& which == WhichL1::Data ==> final(self)@.im == old(self)@.im
                },
            },
    {
        let ghost v0 = self@;
        if let Some(e) = check_access(self.size, addr, size.size()) {
            return Err(e);
        }
        let which = self.choose_cache(addr);
        if which.is_none() {
            return Err(MemoryError::NotCompatible);
        }
        proof {
            lemma_access_in_line(v0, addr as int, size);
        }
        let n = size.size();
        let r = match which {
            Some(WhichL1::Instr) => read_through(
                &mut self.im,
                &mut self.main,
                &mut self.stats,
                addr,
                size,
                self.im_start_addr,
                self.dm_start_addr,
            ),
            _ => read_through(
                &mut self.dm,
                &mut self.main,
                &mut self.stats,
                addr,
                size,
                self.dm_start_addr,
                self.size,
            ),
        };
        proof {
            let w = which->Some_0;
            let v1 = self@;
            let c0 = v0.cache(w);
            lemma_replace_pair(v0, v1, w, view_seq(c0, v0.main.data));
            assert(v1.contents() =~= v0.contents());
            assert(view_seq(c0, v0.main.data).subrange(addr as int, addr + n) =~= v0.contents().subrange(
                addr as int,
                addr + n,
            ));
        }
        r
    }

    /// Writes `data` at `addr`; a miss is refilled and retried before this
    /// returns.
    fn write(&mut self, data: DataType, addr: usize) -> (r: Result<(), MemoryError>)
        ensures
            final(self)@.inv(),
            final(self)@.same_shape(old(self)@),
            final(self).caches_ok(),
            final(self)@.main.stats == old(self)@.main.stats,
            match old(self)@.error_of(addr as int, data.size_class()) {
                Some(e) => r == Err::<(), MemoryError>(e) && final(self)@ == old(self)@,
                None => {
                    let which = old(self)@.route(addr as int)->Some_0;
                    &&& r == Ok::<(), MemoryError>(())
                    &&& (final(self)@.cache(which), final(self)@.main.data) == write_through_op(
                        old(self)@.cache(which),
                        old(self)@.main.data,
                        data,
                        addr as int,
                    )
                    &&& final(self)@.contents() == write_bytes(old(self)@.contents(), addr as int, le_bytes(data))
                    &&& final(self)@.stats == if old(self)@.resident(addr as int) {
                        old(self)@.stats.hit()
                    } else {
                        old(self)@.stats.miss()
                    }
                    &&& final(self)@.resident(addr as int)
                    &&& old(self)@.counted(which, addr as int, final(self)@.cache(which))
                    &&& which == WhichL1::Instr ==> final(self)@.dm == old(self)@.dm
                    &&& which == WhichL1::Data ==> final(self)@.im == old(self)@.im
                },
            },
    {
        let ghost v0 = self@;
        if let Some(e) = check_access(self.size, addr, data.payload_size()) {
            return Err(e);
        }
        let which = self.choose_cache(addr);
        if which.is_none() {
            return Err(MemoryError::NotCompatible);
        }
        proof {
            lemma_access_in_line(v0, addr as int, data.size_class());
            crate::data_type::lemma_le_round_trip(data);
        }
        let r = match which {
            Some(WhichL1::Instr) => write_through(
                &mut self.im,
                &mut self.main,
                &mut self.stats,
                data,
                addr,
                self.im_start_addr,
                self.dm_start_addr,
            ),
            _ => write_through(
                &mut self.dm,
                &mut self.main,
                &mut self.stats,
                data,
                addr,
                self.dm_start_addr,
                self.size,
            ),
        };
        proof {
            let w = which->Some_0;
            let v1 = self@;
            let c0 = v0.cache(w);
            let le = le_bytes(data);
            let f = Seq::new(
                v0.size,
                |x: int|
                    if addr <= x < addr + le.len() {
                        le[x - addr]
                    } else {
                        byte_view(c0, v0.main.data, x)
                    },
            );
            lemma_replace_pair(v0, v1, w, f);
            assert(v1.contents() =~= write_bytes(v0.contents(), addr as int, le));
        }
        r
    }

    fn stats(&self) -> (r: &MemStats)
        ensures
            r@ == self@.stats,
    {
        &self.stats
    }
}

impl Memory {
    pub fn im(&self) -> (r: &Cache)
        ensures
            r@ == self@.im,
    {
        &self.im
    }

    pub fn dm(&self) -> (r: &Cache)
        ensures
            r@ == self@.dm,
    {
        &self.dm
    }

    pub fn main(&self) -> (r: &MainMemory)
        ensures
            r@ == self@.main,
    {
        &self.main
    }
}

} // verus!
