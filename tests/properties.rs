use cache_sim::cache::{Cache, CacheAddressing, CacheLine, EvictionPolicy};
use cache_sim::data_type::{DataType, DataTypeSize, MemoryError};
use cache_sim::direct_mapped_cache::DMCache;
use cache_sim::geometry::{log2, Geometry};
use cache_sim::main_memory::MainMemory;
use cache_sim::mem_stats::MemStats;
use cache_sim::memory::{MemLevelAccess, Memory, MemoryAccess};
use cache_sim::set_associative::SetAssocCache;

fn dm_memory(size: usize, l1: usize, wpl: usize, im_start: usize, dm_start: usize) -> Memory {
    Memory::new(
        size,
        Cache::DirectMapped(DMCache::new(l1, wpl)),
        Cache::DirectMapped(DMCache::new(l1, wpl)),
        im_start,
        dm_start,
    )
}

#[test]
fn geometry_scenario_4096_direct_mapped() {
    let c = DMCache::new(4096, 8);
    assert_eq!(c.index_bits(), 7);
    assert_eq!(c.word_bits(), 3);
    assert_eq!(c.byte_bits(), 2);
    assert_eq!(c.decode_addr(0x385), (0, 0x1c, 1, 1));
    assert_eq!(c.get_base_addr(0x385), 0x380);
}

#[test]
fn decomposition_reassembles_address() {
    let c = SetAssocCache::new(1 << 13, 4, 4, EvictionPolicy::Lru);
    let (bb, wb, ib) = (c.byte_bits(), c.word_bits(), c.index_bits());
    for addr in [0usize, 1, 0x385, 0x1234_5677, 0xdead_beef] {
        let (tag, index, word, byte) = c.decode_addr(addr);
        assert_eq!((tag << (ib + wb + bb)) | (index << (wb + bb)) | (word << bb) | byte, addr);
        let base = c.geometry().base_addr(tag, index);
        assert_eq!(base, addr - word * 4 - byte);
    }
}

#[test]
fn byte_then_word_overwrite() {
    let mut c = DMCache::new(4096, 8);
    let addr = 0x384;
    c.write_line(addr, 8, vec![0; 32]);
    assert_eq!(c.write(DataType::Byte(0xFF), addr), Ok(()));
    assert_eq!(c.write(DataType::Word(0xCAFEBABE), addr), Ok(()));
    assert_eq!(c.read(addr, DataTypeSize::Word), Ok(DataType::Word(0xCAFEBABE)));
    assert!(c.is_line_dirty(addr));
}

#[test]
fn cold_hierarchy_misses_once() {
    let mut m = dm_memory(1 << 12, 1 << 10, 4, 0, 1 << 10);
    assert_eq!(m.read(0x40, DataTypeSize::Word), Ok(DataType::Word(0)));
    assert_eq!(m.stats().misses(), 1);
    assert_eq!(m.stats().hits(), 0);
    assert_eq!(m.im().stats().misses(), 1);
    assert_eq!(m.im().stats().hits(), 1);
}

#[test]
fn write_read_every_width() {
    let mut m = dm_memory(1 << 12, 1 << 10, 4, 0, 1 << 10);
    let values = [
        (0x100, DataType::Byte(0xab), DataTypeSize::Byte),
        (0x202, DataType::Halfword(0xbeef), DataTypeSize::Halfword),
        (0x404, DataType::Word(0xdeadbeef), DataTypeSize::Word),
        (0x808, DataType::DoubleWord(0x0123_4567_89ab_cdef), DataTypeSize::DoubleWord),
    ];
    for (addr, value, size) in values {
        assert_eq!(m.write(value, addr), Ok(()));
        assert_eq!(m.read(addr, size), Ok(value));
    }
    assert_eq!(m.read(0x404, DataTypeSize::Byte), Ok(DataType::Byte(0xef)));
    assert_eq!(m.read(0x406, DataTypeSize::Halfword), Ok(DataType::Halfword(0xdead)));
}

#[test]
fn value_survives_conflicting_eviction() {
    let l1 = SetAssocCache::new(1 << 10, 4, 2, EvictionPolicy::Lru);
    let other = SetAssocCache::new(1 << 10, 4, 2, EvictionPolicy::Lru);
    let mut m = Memory::new(1 << 14, Cache::SetAssociative(l1), Cache::SetAssociative(other), 0, 1 << 13);
    let span = 1 << 9;
    let a1 = 0x48;
    assert_eq!(m.write(DataType::Word(0x1111_2222), a1), Ok(()));
    assert_eq!(m.write(DataType::Word(0x3333_4444), a1 + span), Ok(()));
    assert_eq!(m.read(a1 + 2 * span, DataTypeSize::Word), Ok(DataType::Word(0)));
    assert_eq!(m.read(a1 + 3 * span, DataTypeSize::Word), Ok(DataType::Word(0)));
    assert_eq!(m.read(a1, DataTypeSize::Word), Ok(DataType::Word(0x1111_2222)));
    assert_eq!(m.read(a1 + span, DataTypeSize::Word), Ok(DataType::Word(0x3333_4444)));
    assert_eq!(m.stats().misses(), 6);
}

#[test]
fn repeated_reads_count_one_hit_each() {
    let mut m = dm_memory(1 << 12, 1 << 10, 4, 0, 1 << 10);
    assert_eq!(m.write(DataType::Word(7), 0x20), Ok(()));
    let before_hits = m.stats().hits();
    let before_misses = m.stats().misses();
    for k in 1..=3 {
        assert_eq!(m.read(0x20, DataTypeSize::Word), Ok(DataType::Word(7)));
        assert_eq!(m.stats().hits(), before_hits + k);
        assert_eq!(m.stats().misses(), before_misses);
    }
}

#[test]
fn two_way_set_holds_two_lines_and_evicts_lru() {
    let mut c = SetAssocCache::new(1 << 10, 4, 2, EvictionPolicy::Lru);
    let span = 1 << 9;
    let (a, b, d) = (0x10, 0x10 + span, 0x10 + 2 * span);
    c.write_line(a, 4, vec![1; 16]);
    c.write_line(b, 4, vec![2; 16]);
    assert_eq!(c.read(a, DataTypeSize::Byte), Ok(DataType::Byte(1)));
    assert_eq!(c.read(b, DataTypeSize::Byte), Ok(DataType::Byte(2)));
    assert_eq!(c.read(a, DataTypeSize::Byte), Ok(DataType::Byte(1)));
    c.write_line(d, 4, vec![3; 16]);
    assert_eq!(c.read(d, DataTypeSize::Byte), Ok(DataType::Byte(3)));
    assert_eq!(c.read(a, DataTypeSize::Byte), Ok(DataType::Byte(1)));
    assert_eq!(c.read(b, DataTypeSize::Byte), Err(MemoryError::NotFound));
}

#[test]
fn nru_evicts_first_unreferenced_line() {
    let mut c = SetAssocCache::new(1 << 10, 4, 2, EvictionPolicy::Nru);
    let span = 1 << 9;
    let (a, b, d) = (0x10, 0x10 + span, 0x10 + 2 * span);
    c.write_line(a, 4, vec![1; 16]);
    c.write_line(b, 4, vec![2; 16]);
    assert_eq!(c.read(a, DataTypeSize::Byte), Ok(DataType::Byte(1)));
    assert_eq!(c.victim_way(c.get_index(d)), 1);
    c.write_line(d, 4, vec![3; 16]);
    assert_eq!(c.read(b, DataTypeSize::Byte), Err(MemoryError::NotFound));
    assert_eq!(c.read(a, DataTypeSize::Byte), Ok(DataType::Byte(1)));
}

#[test]
fn random_policy_picks_a_way_of_the_set() {
    let mut c = SetAssocCache::new(1 << 10, 4, 4, EvictionPolicy::Random);
    let span = 1 << 8;
    for k in 0..4 {
        c.write_line(k * span, 4, vec![k as u8; 16]);
    }
    for k in 4..12 {
        let w = c.victim_way(0);
        assert!(w < 4);
        c.write_line(k * span, 4, vec![k as u8; 16]);
        assert_eq!(c.read(k * span, DataTypeSize::Byte), Ok(DataType::Byte(k as u8)));
    }
}

#[test]
fn invalid_way_is_filled_before_eviction() {
    let mut c = SetAssocCache::new(1 << 10, 4, 2, EvictionPolicy::Lru);
    assert_eq!(c.victim_way(3), 0);
    c.write_line(3 * 16, 4, vec![9; 16]);
    assert_eq!(c.victim_way(3), 1);
}

#[test]
fn hierarchy_errors() {
    let mut m = dm_memory(1 << 12, 1 << 10, 4, 0x100, 1 << 10);
    assert_eq!(m.read(1 << 12, DataTypeSize::Byte), Err(MemoryError::OutOfBounds));
    assert_eq!(m.write(DataType::Word(1), 0x202), Err(MemoryError::NotAligned));
    assert_eq!(m.read(0x40, DataTypeSize::Word), Err(MemoryError::NotCompatible));
    assert_eq!(m.stats().total_accesses(), 0);
}

#[test]
fn main_memory_checks_bounds_and_alignment() {
    let mut mm = MainMemory::new(16);
    assert_eq!(mm.write(DataType::Word(0x11223344), 4), Ok(()));
    assert_eq!(mm.read(4, DataTypeSize::Word), Ok(DataType::Word(0x11223344)));
    assert_eq!(mm.read(5, DataTypeSize::Byte), Ok(DataType::Byte(0x33)));
    assert_eq!(mm.read(16, DataTypeSize::Byte), Err(MemoryError::OutOfBounds));
    assert_eq!(mm.read(6, DataTypeSize::Word), Err(MemoryError::NotAligned));
    assert_eq!(mm.write(DataType::DoubleWord(1), 12), Err(MemoryError::NotAligned));
    assert_eq!(mm.read(8, DataTypeSize::DoubleWord), Ok(DataType::DoubleWord(0)));
    assert_eq!(mm.fetch_line(0, 2), vec![0, 0, 0, 0, 0x44, 0x33, 0x22, 0x11]);
    mm.write_line(8, 1, vec![1, 2, 3, 4]);
    assert_eq!(mm.read(8, DataTypeSize::Word), Ok(DataType::Word(0x04030201)));
    assert_eq!(mm.stats().hits(), 5);
}

#[test]
fn little_endian_encoding() {
    assert_eq!(DataType::Word(0x11223344).to_le_bytes(), vec![0x44, 0x33, 0x22, 0x11]);
    assert_eq!(DataType::Halfword(0xa1b2).to_le_bytes(), vec![0xb2, 0xa1]);
    let bytes = vec![1, 2, 3, 4, 5, 6, 7, 8, 9];
    assert_eq!(
        DataType::from_le_bytes(DataTypeSize::DoubleWord, &bytes, 1),
        DataType::DoubleWord(0x0908070605040302)
    );
    assert_eq!(DataType::DoubleWord(5).payload_size(), 8);
    assert_eq!(DataTypeSize::get_size(DataTypeSize::Halfword), 2);
    assert_eq!(DataTypeSize::Word.size(), 4);
    assert_eq!(DataType::from(0x12u8), DataType::Byte(0x12));
    assert_eq!(DataType::from(0x1234u16), DataType::Halfword(0x1234));
    assert_eq!(DataType::from(7u32), DataType::Word(7));
    assert_eq!(DataType::from(9u64), DataType::DoubleWord(9));
}

#[test]
fn stats_counters() {
    let mut s = MemStats::new();
    s.record_hit();
    s.record_hit();
    s.record_miss();
    s.record_miss_read();
    assert_eq!((s.hits(), s.misses(), s.total_accesses()), (1, 1, 2));
}

#[test]
fn geometry_derives_indices() {
    let g = Geometry::new(1 << 13, 8, 2);
    assert_eq!(g.num_lines, 128);
    assert_eq!(g.index_bits(), 7);
    assert_eq!(log2(64), 6);
    assert_eq!(log2(1), 0);
}

#[test]
fn cache_line_lifecycle() {
    let mut l = CacheLine::new(2);
    assert!(!l.is_valid() && !l.is_dirty());
    assert_eq!(l.get_data(), vec![0; 8]);
    l.write_line(5, vec![1, 2, 3, 4, 5, 6, 7, 8], 9);
    assert!(l.is_valid() && !l.is_dirty());
    assert_eq!((l.tag(), l.time()), (5, 9));
    l.write_byte(2, 0xee);
    assert!(l.is_dirty());
    assert_eq!(l.read_byte(2), 0xee);
    l.stamp_now(11);
    assert_eq!(l.time(), 11);
    assert_eq!(l.read_line_data(), vec![1, 2, 0xee, 4, 5, 6, 7, 8]);
}

#[test]
fn writeback_address_names_the_victim_line() {
    let mut c = DMCache::new(1 << 10, 4);
    let a = 0x1230;
    c.write_line(a, 4, vec![0; 16]);
    assert_eq!(c.write(DataType::Byte(3), a), Ok(()));
    let conflicting = a + (1 << 10);
    assert!(c.is_line_dirty(conflicting));
    assert_eq!(c.get_writeback_addr(conflicting), a);
    assert_eq!(c.get_base_addr(conflicting), conflicting);
    assert_eq!(c.get_evict_line_data(conflicting)[0], 3);
}

#[test]
fn last_doubleword_of_memory() {
    let mut m = dm_memory(1 << 12, 1 << 10, 4, 0, 1 << 10);
    let last = (1 << 12) - 8;
    assert_eq!(m.write(DataType::DoubleWord(u64::MAX), last), Ok(()));
    assert_eq!(m.read(last, DataTypeSize::DoubleWord), Ok(DataType::DoubleWord(u64::MAX)));
    assert_eq!(m.read(last + 7, DataTypeSize::Byte), Ok(DataType::Byte(0xff)));
    assert_eq!(m.read(last + 8, DataTypeSize::Byte), Err(MemoryError::OutOfBounds));
}

#[test]
fn longer_line_payload_uses_its_first_words() {
    let mut mm = MainMemory::new(16);
    mm.write_line(4, 1, vec![1, 2, 3, 4, 5, 6]);
    assert_eq!(mm.fetch_line(0, 4), vec![0, 0, 0, 0, 1, 2, 3, 4, 0, 0, 0, 0, 0, 0, 0, 0]);
    let mut c = DMCache::new(1 << 10, 2);
    c.write_line(0x40, 2, (0..12).collect());
    assert_eq!(c.get_evict_line_data(0x40), vec![0, 1, 2, 3, 4, 5, 6, 7]);
}

#[test]
fn fresh_caches_hold_zeroed_lines() {
    let c = SetAssocCache::new(1 << 10, 4, 2, EvictionPolicy::Lru);
    for addr in [0usize, 0x10, 0x3f0] {
        assert!(!c.is_line_dirty(addr));
        assert_eq!(c.get_evict_line_data(addr), vec![0; 16]);
        assert_eq!(c.get_writeback_addr(addr), c.get_index(addr) * 16);
    }
}

#[test]
fn sequential_reads_miss_once_per_line() {
    let mut m = dm_memory(1 << 12, 1 << 10, 4, 0, 1 << 11);
    for i in 0..512 {
        let _ = m.read(4 * i, DataTypeSize::Word);
    }
    assert_eq!(m.stats().hits(), 384);
    assert_eq!(m.stats().misses(), 128);
    assert_eq!(m.dm().stats().total_accesses(), 0);
}
