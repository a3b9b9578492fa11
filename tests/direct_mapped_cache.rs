use cache_sim::cache::CacheAddressing;
use cache_sim::data_type::{DataType, DataTypeSize, MemoryError};
use cache_sim::direct_mapped_cache::DMCache;
use cache_sim::mem_stats::MemStats;
use cache_sim::memory::{MemLevelAccess, MemoryAccess};

const WORDSIZE: usize = 4;

fn hit_rate(s: &MemStats) -> f64 {
    let total = s.total_accesses();
    if total == 0 {
        0.0
    } else {
        s.hits() as f64 / total as f64
    }
}

fn miss_rate(s: &MemStats) -> f64 {
    1.0 - hit_rate(s)
}

#[test]
fn direct_mapped_cache_new() {
    let l1 = DMCache::new(1024, 8);
    println!("{:#?}", l1);
}

#[test]
fn direct_mapped_cache_parse_addr() {
    let c = DMCache::new(1024, 8);

    let addr = 0x385;
    let tag = c.get_tag(addr);
    let index = c.get_index(addr);
    let word_offset = c.get_word_offset(addr);
    let byte_offset = c.get_byte_offset(addr);

    assert_eq!(tag, 0x0);
    assert_eq!(index, 0x1c);
    assert_eq!(word_offset, 0x1);
    assert_eq!(byte_offset, 0x1);

    assert_eq!(c.stats().total_accesses(), 0);
}

#[test]
fn direct_mapped_cache_compulsory_miss() {
    const L1_SIZE: usize = 1 << 12;
    const WORD_P_LINE: usize = 8;
    let mut c = DMCache::new(L1_SIZE, WORD_P_LINE);

    let addr = 0x385;

    let result = c.read(addr, DataTypeSize::Byte);

    assert!(
        matches!(result, Err(MemoryError::NotFound)),
        "expected Err(NotFound), got: {:?}",
        result
    );

    assert_eq!(c.stats().total_accesses(), 1);
}

#[test]
fn direct_mapped_cache_single_write() {
    const L1_SIZE: usize = 1 << 12;
    const WORD_P_LINE: usize = 8;
    let mut c = DMCache::new(L1_SIZE, WORD_P_LINE);

    let addr = 0x385;
    c.write_line(addr, 8, vec![0xff; WORDSIZE * 8]);

    let _ = c.write(DataType::Byte(0x11), addr);
    match c.read(addr, DataTypeSize::Byte) {
        Ok(DataType::Byte(d)) => assert_eq!(d, 0x11),
        _ => panic!("Incorrect Read"),
    }

    let _ = c.write(DataType::Halfword(0x1234), addr);
    match c.read(addr, DataTypeSize::Halfword) {
        Ok(DataType::Halfword(d)) => assert_eq!(d, 0x1234),
        _ => panic!("Incorrect Read"),
    }

    let _ = c.write(DataType::Word(0xcafebabe), addr);
    match c.read(addr, DataTypeSize::Word) {
        Ok(DataType::Word(d)) => assert_eq!(d, 0xcafebabe),
        _ => panic!("Incorrect Read"),
    }

    let _ = c.write(DataType::DoubleWord(0x87654321cafebabe), addr);
    match c.read(addr, DataTypeSize::DoubleWord) {
        Ok(DataType::DoubleWord(d)) => assert_eq!(d, 0x87654321cafebabe),
        _ => panic!("Incorrect Read"),
    }

    assert_eq!(c.stats().total_accesses(), 8);
    assert_eq!(hit_rate(c.stats()), (8 / 8) as f64);
    assert_eq!(miss_rate(c.stats()), (0 / 8) as f64);
}

#[test]
fn read() {
    const L1_SIZE: usize = 1 << 12;
    const WORD_P_LINE: usize = 8;
    let mut c = DMCache::new(L1_SIZE, WORD_P_LINE);

    let addr = 0x385;
    c.write_line(addr, 8, vec![0xa5; WORDSIZE * 8]);

    match c.read(addr, DataTypeSize::Byte) {
        Ok(DataType::Byte(d)) => assert_eq!(d, 0xa5),
        _ => panic!("Incorrect Read"),
    }

    match c.read(addr, DataTypeSize::Halfword) {
        Ok(DataType::Halfword(d)) => assert_eq!(d, 0xa5a5),
        _ => panic!("Incorrect Read"),
    }

    match c.read(addr, DataTypeSize::Word) {
        Ok(DataType::Word(d)) => assert_eq!(d, 0xa5a5a5a5),
        _ => panic!("Incorrect Read"),
    }

    match c.read(addr, DataTypeSize::DoubleWord) {
        Ok(DataType::DoubleWord(d)) => assert_eq!(d, 0xa5a5a5a5a5a5a5a5),
        _ => panic!("Incorrect Read"),
    }

    assert_eq!(c.stats().total_accesses(), 4);
    assert_eq!(hit_rate(c.stats()), (4 / 4) as f64);
    assert_eq!(miss_rate(c.stats()), (0 / 4) as f64);
}

#[test]
fn write_read_cache_line() {
    const L1_SIZE: usize = 1 << 12;
    const WORD_P_LINE: usize = 8;
    let mut c = DMCache::new(L1_SIZE, WORD_P_LINE);

    for i in 0..WORD_P_LINE {
        let i = i * WORDSIZE;
        let _ = c.read(i, DataTypeSize::Word);
    }

    assert_eq!(c.stats().total_accesses(), WORD_P_LINE);
    assert_eq!(miss_rate(c.stats()), 1.0);
}

#[test]
fn write_read_whole_cache() {
    const L1_SIZE: usize = 1 << 12;
    const WORD_P_LINE: usize = 8;
    let mut c = DMCache::new(L1_SIZE, WORD_P_LINE);

    let vec: Vec<u8> = (0..L1_SIZE).map(|i| i as u8).collect();

    for i in 0..L1_SIZE {
        if i % (WORD_P_LINE * WORDSIZE) == 0 {
            let slice: Vec<u8> = (i..i + WORD_P_LINE * WORDSIZE).map(|j| vec[j]).collect();
            c.write_line(i, WORD_P_LINE, slice);
        }
    }

    for i in 0..L1_SIZE {
        match c.read(i, DataTypeSize::Byte) {
            Ok(DataType::Byte(d)) => assert_eq!(d, vec[i]),
            _ => panic!("Incorrect Read"),
        }
    }

    assert_eq!(c.stats().total_accesses(), L1_SIZE);
    assert_eq!(hit_rate(c.stats()), 1.0);
    assert_eq!(miss_rate(c.stats()), 0.0);
}
