use cache_sim::cache::{CacheAddressing, EvictionPolicy};
use cache_sim::data_type::{DataType, DataTypeSize, MemoryError};
use cache_sim::mem_stats::MemStats;
use cache_sim::memory::{MemLevelAccess, MemoryAccess};
use cache_sim::set_associative::SetAssocCache;

const WORDSIZE: usize = 4;

fn hit_rate(s: &MemStats) -> f64 {
    let total = s.total_accesses();
    if total == 0 {
        0.0
    } else {
        s.hits() as f64 / total as f64
    }
}

fn miss_rate(s: &MemStats) -> f64 {
    1.0 - hit_rate(s)
}

#[test]
fn set_associative_new() {
    let l1 = SetAssocCache::new(1024, 8, 2, EvictionPolicy::Random);
    println!("{:#?}", l1);
}

#[test]
fn set_associative_parse_addr() {
    let c = SetAssocCache::new(4096, 8, 2, EvictionPolicy::Random);

    let addr = 0x385;
    let tag = c.get_tag(addr);
    let index = c.get_index(addr);
    let word_offset = c.get_word_offset(addr);
    let byte_offset = c.get_byte_offset(addr);

    assert_eq!(tag, 0x0);
    assert_eq!(index, 0x1c);
    assert_eq!(word_offset, 0x1);
    assert_eq!(byte_offset, 0x1);

    assert_eq!(c.stats().total_accesses(), 0);
}

#[test]
fn set_associative_compulsory_miss() {
    const L1_SIZE: usize = 1 << 13;
    const WORD_P_LINE: usize = 8;
    const ASSOC: usize = 2;
    let mut c = SetAssocCache::new(L1_SIZE, WORD_P_LINE, ASSOC, EvictionPolicy::Random);

    let addr = 0x385;

    let result = c.read(addr, DataTypeSize::Byte);

    assert!(
        matches!(result, Err(MemoryError::NotFound)),
        "expected Err(NotFound), got: {:?}",
        result
    );

    assert_eq!(c.stats().total_accesses(), 1);
}

#[test]
fn set_associative_single_write() {
    const L1_SIZE: usize = 1 << 13;
    const WORD_P_LINE: usize = 8;
    const ASSOC: usize = 2;
    let mut c = SetAssocCache::new(L1_SIZE, WORD_P_LINE, ASSOC, EvictionPolicy::Random);

    let addr = 0x385;
    c.write_line(addr, 8, vec![0xff; WORDSIZE * 8]);

    let _ = c.write(DataType::Byte(0x11), addr);
    match c.read(addr, DataTypeSize::Byte) {
        Ok(DataType::Byte(d)) => assert_eq!(d, 0x11),
        _ => panic!("Incorrect Read"),
    }

    let _ = c.write(DataType::Halfword(0x1234), addr);
    match c.read(addr, DataTypeSize::Halfword) {
        Ok(DataType::Halfword(d)) => assert_eq!(d, 0x1234),
        _ => panic!("Incorrect Read"),
    }

    let _ = c.write(DataType::Word(0xcafebabe), addr);
    match c.read(addr, DataTypeSize::Word) {
        Ok(DataType::Word(d)) => assert_eq!(d, 0xcafebabe),
        _ => panic!("Incorrect Read"),
    }

    let _ = c.write(DataType::DoubleWord(0x87654321cafebabe), addr);
    match c.read(addr, DataTypeSize::DoubleWord) {
        Ok(DataType::DoubleWord(d)) => assert_eq!(d, 0x87654321cafebabe),
        _ => panic!("Incorrect Read"),
    }

    assert_eq!(c.stats().total_accesses(), 8);
    assert_eq!(hit_rate(c.stats()), (8 / 8) as f64);
    assert_eq!(miss_rate(c.stats()), (0 / 8) as f64);
}

/// The cache itself never refills: the line of each address is installed
/// before it is written, as the hierarchy does on a miss.
#[test]
fn write_mult_ways() {
    const L1_SIZE: usize = 1 << 13;
    const WORD_P_LINE: usize = 8;
    const ASSOC: usize = 2;
    let mut c = SetAssocCache::new(L1_SIZE, WORD_P_LINE, ASSOC, EvictionPolicy::Random);

    let bb = c.byte_bits();
    let wb = c.word_bits();
    let ib = c.index_bits();

    let addr1 = (1 << (ib + wb + bb)) | (0x8 << ib) | (0x2 << wb) | (0x0 << bb);
    let data1 = DataType::Word(0xcafebabe);
    c.write_line(addr1, WORD_P_LINE, vec![0; WORDSIZE * WORD_P_LINE]);
    let _ = c.write(data1.clone(), addr1.clone());

    let addr2 = (2 << (ib + wb + bb)) | (0x8 << ib) | (0x2 << wb) | (0x0 << bb);
    let data2 = DataType::Word(0xbabecafe);
    c.write_line(addr2, WORD_P_LINE, vec![0; WORDSIZE * WORD_P_LINE]);
    let _ = c.write(data2.clone(), addr2.clone());

    match c.read(addr1, DataTypeSize::Word) {
        Ok(w) => assert_eq!(w, data1),
        _ => panic!("[MEMORY] errror here"),
    }

    match c.read(addr2, DataTypeSize::Word) {
        Ok(w) => assert_eq!(w, data2, "[MEMORY] write-back or reload failed"),
        Err(e) => panic!("[MEMORY] read error: {e:?}"),
    }

    assert_eq!(c.stats().total_accesses(), 4);
}
