use cache_sim::cache::{Cache, CacheAddressing};
use cache_sim::data_type::{DataType, DataTypeSize, MemoryError};
use cache_sim::direct_mapped_cache::DMCache;
use cache_sim::mem_stats::MemStats;
use cache_sim::memory::{Memory, MemoryAccess};

const EPSILON: f64 = 0.001;
const WORDSIZE: usize = 4;

fn hit_rate(s: &MemStats) -> f64 {
    let total = s.total_accesses();
    if total == 0 {
        0.0
    } else {
        s.hits() as f64 / total as f64
    }
}

fn miss_rate(s: &MemStats) -> f64 {
    1.0 - hit_rate(s)
}

/// Main memory of `mem_size` bytes behind two direct-mapped caches.
fn memory(
    mem_size: usize,
    im_l1_size: usize,
    im_wpl: usize,
    dm_l1_size: usize,
    dm_wpl: usize,
    im_start: usize,
    dm_start: usize,
) -> Memory {
    Memory::new(
        mem_size,
        Cache::DirectMapped(DMCache::new(im_l1_size, im_wpl)),
        Cache::DirectMapped(DMCache::new(dm_l1_size, dm_wpl)),
        im_start,
        dm_start,
    )
}

#[test]
fn new_empty_cache_has_no_data() {
    const MEM_SIZE: usize = 1 << 6;
    const L1_SIZE: usize = 1 << 4;
    const W_P_L: usize = 2;
    let mem = memory(MEM_SIZE, L1_SIZE, W_P_L, L1_SIZE, W_P_L, 0, 2 * L1_SIZE);
    println!("{:#?}", mem);
}

#[test]
fn im_single_access() {
    const MEM_SIZE: usize = 1 << 12;
    const L1_SIZE: usize = 1 << 10;
    const W_P_L: usize = 4;
    let mut m = memory(MEM_SIZE, L1_SIZE, W_P_L, L1_SIZE, W_P_L, 0, L1_SIZE);

    let addr = 0x10;
    let byte = DataType::Byte(0xff);

    let _ = m.write(byte, addr);

    let dut_byte: DataType;
    match m.read(addr, DataTypeSize::Byte) {
        Ok(b) => dut_byte = b,
        Err(MemoryError::NotFound) => panic!("mem error"),
        _ => panic!("idk"),
    }
    assert_eq!(dut_byte, byte);

    assert_eq!(m.stats().total_accesses(), 2);
    assert_eq!(hit_rate(m.stats()), 0.5);
    assert_eq!(miss_rate(m.stats()), 0.5);
}

#[test]
fn im_access_line() {
    const MEM_SIZE: usize = 1 << 12;
    const L1_SIZE: usize = 1 << 10;
    const W_P_L: usize = 4;
    const IM_BASE: usize = 0;
    let mut m = memory(MEM_SIZE, L1_SIZE, W_P_L, L1_SIZE, W_P_L, IM_BASE, IM_BASE + L1_SIZE);

    let expected_data: Vec<u32> = (0..W_P_L).map(|i| i as u32).collect();

    for i in 0..W_P_L {
        let addr = i * WORDSIZE + IM_BASE;
        let _ = m.preload(DataType::Word(expected_data[i]), addr);
    }

    for i in 0..W_P_L {
        let addr = i * WORDSIZE + IM_BASE;
        match m.read(addr, DataTypeSize::Word) {
            Ok(DataType::Word(w)) => assert_eq!(w, expected_data[i]),
            _ => panic!("Incorrect read @ {:#?}", addr),
        }
    }

    let expected_accesses = W_P_L;
    let expected_hit = (W_P_L - 1) as f64 / m.stats().total_accesses() as f64;
    let expected_miss = ((expected_accesses % W_P_L) + 1) as f64 / m.stats().total_accesses() as f64;

    assert_eq!(m.stats().total_accesses(), expected_accesses, "Incorrect accesses");
    assert!((hit_rate(m.stats()) - expected_hit).abs() < EPSILON, "Incorrect Hit Rate");
    assert!((miss_rate(m.stats()) - expected_miss).abs() < EPSILON, "Incorrect Miss Rate");
}

#[test]
fn im_access_2lines() {
    const MEM_SIZE: usize = 1 << 12;
    const L1_SIZE: usize = 1 << 10;
    const W_P_L: usize = 4;
    const IM_BASE: usize = 0;
    let mut m = memory(MEM_SIZE, L1_SIZE, W_P_L, L1_SIZE, W_P_L, IM_BASE, IM_BASE + L1_SIZE);

    for i in 0..W_P_L + 1 {
        let addr = i * WORDSIZE + IM_BASE;
        let _ = m.read(addr, DataTypeSize::Word);
    }

    let expected_accesses = W_P_L + 1;
    let expected_hit = (W_P_L - 1) as f64 / m.stats().total_accesses() as f64;
    let expected_miss = ((expected_accesses % W_P_L) + 1) as f64 / m.stats().total_accesses() as f64;

    assert_eq!(m.stats().total_accesses(), expected_accesses, "Incorrect accesses");
    assert!((hit_rate(m.stats()) - expected_hit).abs() < EPSILON, "Incorrect Hit Rate");
    assert!((miss_rate(m.stats()) - expected_miss).abs() < EPSILON, "Incorrect Miss Rate");
}

#[test]
fn im_eviction() {
    const MEM_SIZE: usize = 1 << 12;
    const L1_SIZE: usize = 1 << 10;
    const W_P_L: usize = 4;
    const IM_BASE: usize = 0;
    let mut m = memory(MEM_SIZE, L1_SIZE, W_P_L, L1_SIZE, W_P_L, IM_BASE, IM_BASE + 3 * L1_SIZE);

    let bb = m.im().byte_bits();
    let wb = m.im().word_bits();
    let ib = m.im().index_bits();

    let addr1 = (1 << (ib + wb + bb)) | (0x8 << ib) | (0x2 << wb) | (0x0 << bb);
    let data1 = DataType::Word(0xcafebabe);
    let _ = m.write(data1.clone(), addr1.clone());

    let addr2 = (2 << (ib + wb + bb)) | (0x8 << ib) | (0x2 << wb) | (0x0 << bb);
    match m.read(addr2, DataTypeSize::Word) {
        Ok(w) => assert_ne!(w, data1),
        _ => panic!("[MEMORY] errror here"),
    }

    match m.read(addr1, DataTypeSize::Word) {
        Ok(w) => assert_eq!(w, data1, "[MEMORY] write-back or reload failed"),
        Err(e) => panic!("[MEMORY] read error: {e:?}"),
    }

    assert_eq!(m.stats().total_accesses(), 3);
    assert_eq!(hit_rate(m.stats()), 0.0);
    assert_eq!(miss_rate(m.stats()), 1.0);
}

#[test]
fn im_writeback() {
    const MEM_SIZE: usize = 1 << 12;
    const L1_SIZE: usize = 1 << 10;
    const W_P_L: usize = 8;
    const IM_BASE: usize = 0;
    let mut m = memory(MEM_SIZE, L1_SIZE, W_P_L, L1_SIZE, W_P_L, IM_BASE, IM_BASE + 3 * L1_SIZE);

    let bb = m.im().byte_bits();
    let wb = m.im().word_bits();
    let ib = m.im().index_bits();

    let addr1 = (1 << (ib + wb + bb)) | (0x8 << ib) | (0x4 << wb) | (0x0 << bb);
    let data1 = DataType::Word(0xcafebabe);
    let _ = m.write(data1.clone(), addr1.clone());

    let addr2 = (2 << (ib + wb + bb)) | (0x8 << ib) | (0x4 << wb) | (0x0 << bb);
    match m.read(addr2, DataTypeSize::Word) {
        Ok(w) => assert_ne!(w, data1),
        _ => panic!("[MEMORY] errror here"),
    }

    match m.read(addr1, DataTypeSize::Word) {
        Ok(w) => assert_eq!(w, data1, "[MEMORY] write-back or reload failed"),
        Err(e) => panic!("[MEMORY] read error: {e:?}"),
    }

    assert_eq!(m.stats().total_accesses(), 3);
    assert_eq!(hit_rate(m.stats()), 0.0);
    assert_eq!(miss_rate(m.stats()), 1.0);
}

#[test]
fn im_address_space() {
    const MEM_SIZE: usize = 1 << 12;
    const L1_SIZE: usize = 1 << 10;
    const W_P_L: usize = 4;
    const IM_BASE: usize = 0;
    const DM_BASE: usize = IM_BASE + 2 * L1_SIZE;
    let mut m = memory(MEM_SIZE, L1_SIZE, W_P_L, L1_SIZE, W_P_L, IM_BASE, DM_BASE);

    for i in IM_BASE..DM_BASE / WORDSIZE {
        let addr = i * WORDSIZE;
        let _ = m.read(addr, DataTypeSize::Word);
    }

    let expected_hit = (W_P_L - 1) as f64 / W_P_L as f64;
    let expected_miss = 1 as f64 / W_P_L as f64;

    assert_eq!(m.stats().total_accesses(), DM_BASE / WORDSIZE, "Incorrect accesses");
    assert!((hit_rate(m.stats()) - expected_hit).abs() < EPSILON, "Incorrect Hit Rate");
    assert!((miss_rate(m.stats()) - expected_miss).abs() < EPSILON, "Incorrect Miss Rate");
    assert_eq!(m.dm().stats().total_accesses(), 0, "Accessed data space");
}

#[test]
fn dm_single_access() {
    const MEM_SIZE: usize = 1 << 12;
    const L1_SIZE: usize = 1 << 10;
    const W_P_L: usize = 4;
    const IM_BASE: usize = 0;
    const DM_BASE: usize = IM_BASE + 2 * L1_SIZE;
    let mut m = memory(MEM_SIZE, L1_SIZE, W_P_L, L1_SIZE, W_P_L, IM_BASE, DM_BASE);

    let addr = 0x10 + DM_BASE;
    let byte = DataType::Byte(0xff);

    let _ = m.write(byte, addr);

    let dut_byte: DataType;
    match m.read(addr, DataTypeSize::Byte) {
        Ok(b) => dut_byte = b,
        Err(MemoryError::NotFound) => panic!("mem error"),
        _ => panic!("idk"),
    }
    assert_eq!(dut_byte, byte);

    assert_eq!(m.stats().total_accesses(), 2);
    assert_eq!(m.dm().stats().total_accesses(), 3);
    assert_eq!(hit_rate(m.stats()), 0.5);
    assert_eq!(miss_rate(m.stats()), 0.5);
}

#[test]
fn dm_access_line() {
    const MEM_SIZE: usize = 1 << 16;
    const L1_SIZE: usize = 1 << 10;
    const W_P_L: usize = 8;
    const IM_BASE: usize = 0;
    const DM_BASE: usize = IM_BASE + 2 * L1_SIZE;
    let mut m = memory(MEM_SIZE, L1_SIZE, W_P_L, L1_SIZE, W_P_L, IM_BASE, DM_BASE);

    let expected_data: Vec<u32> = (0..W_P_L).map(|i| i as u32).collect();

    for i in 0..W_P_L {
        let addr = i * WORDSIZE + DM_BASE;
        let _ = m.preload(DataType::Word(expected_data[i]), addr);
    }

    for i in 0..W_P_L {
        let addr = i * WORDSIZE + DM_BASE;
        match m.read(addr, DataTypeSize::Word) {
            Ok(DataType::Word(w)) => assert_eq!(w, expected_data[i]),
            _ => panic!("Incorrect read @ {:#?}", addr),
        }
    }

    let expected_accesses = W_P_L;
    let expected_hit = (W_P_L - 1) as f64 / m.stats().total_accesses() as f64;
    let expected_miss = ((expected_accesses % W_P_L) + 1) as f64 / m.stats().total_accesses() as f64;

    assert_eq!(m.stats().total_accesses(), expected_accesses, "Incorrect accesses");
    assert!((hit_rate(m.stats()) - expected_hit).abs() < EPSILON, "Incorrect Hit Rate");
    assert!((miss_rate(m.stats()) - expected_miss).abs() < EPSILON, "Incorrect Miss Rate");
}

#[test]
fn dm_access_2lines() {
    const MEM_SIZE: usize = 1 << 16;
    const L1_SIZE: usize = 1 << 10;
    const W_P_L: usize = 8;
    const IM_BASE: usize = 0;
    const DM_BASE: usize = IM_BASE + 2 * L1_SIZE;
    let mut m = memory(MEM_SIZE, L1_SIZE, W_P_L, L1_SIZE, W_P_L, IM_BASE, DM_BASE);

    for i in 0..W_P_L + 1 {
        let addr = i * WORDSIZE + DM_BASE;
        let _ = m.read(addr, DataTypeSize::Word);
    }

    let expected_accesses = W_P_L + 1;
    let expected_hit = (W_P_L - 1) as f64 / m.stats().total_accesses() as f64;
    let expected_miss = ((expected_accesses % W_P_L) + 1) as f64 / m.stats().total_accesses() as f64;

    assert_eq!(m.stats().total_accesses(), expected_accesses, "Incorrect accesses");
    assert!((hit_rate(m.stats()) - expected_hit).abs() < EPSILON, "Incorrect Hit Rate");
    assert!((miss_rate(m.stats()) - expected_miss).abs() < EPSILON, "Incorrect Miss Rate");
}

#[test]
fn dm_eviction() {
    const MEM_SIZE: usize = 1 << 16;
    const L1_SIZE: usize = 1 << 10;
    const W_P_L: usize = 8;
    const IM_BASE: usize = 0;
    const DM_BASE: usize = IM_BASE + 2 * L1_SIZE;
    let mut m = memory(MEM_SIZE, L1_SIZE, W_P_L, L1_SIZE, W_P_L, IM_BASE, DM_BASE);

    let bb = m.dm().byte_bits();
    let wb = m.dm().word_bits();
    let ib = m.dm().index_bits();

    let addr1 = ((1 << (ib + wb + bb)) | (0x8 << ib) | (0x4 << wb) | (0x0 << bb)) + DM_BASE;
    let data1 = DataType::Word(0xcafebabe);
    let _ = m.write(data1.clone(), addr1.clone());

    let addr2 = ((2 << (ib + wb + bb)) | (0x8 << ib) | (0x4 << wb) | (0x0 << bb)) + DM_BASE;
    match m.read(addr2, DataTypeSize::Word) {
        Ok(w) => assert_ne!(w, data1),
        _ => panic!("[MEMORY] errror here"),
    }

    match m.read(addr1, DataTypeSize::Word) {
        Ok(w) => assert_eq!(w, data1, "[MEMORY] write-back or reload failed"),
        Err(e) => panic!("[MEMORY] read error: {e:?}"),
    }

    assert_eq!(m.stats().total_accesses(), 3);
    assert_eq!(hit_rate(m.stats()), 0.0);
    assert_eq!(miss_rate(m.stats()), 1.0);
}

#[test]
fn dm_address_space() {
    const MEM_SIZE: usize = 1 << 16;
    const L1_SIZE: usize = 1 << 12;
    const W_P_L: usize = 8;
    const IM_BASE: usize = 0;
    const DM_BASE: usize = IM_BASE + 2 * L1_SIZE;
    let mut m = memory(MEM_SIZE, L1_SIZE, W_P_L, L1_SIZE, W_P_L, IM_BASE, DM_BASE);

    for i in DM_BASE..MEM_SIZE {
        if i % WORDSIZE != 0 {
            continue;
        }
        let addr = i;
        let _ = m.read(addr, DataTypeSize::Word);
    }

    let expected_hit = (W_P_L - 1) as f64 / W_P_L as f64;
    let expected_miss = 1 as f64 / W_P_L as f64;

    assert_eq!(m.stats().total_accesses(), (MEM_SIZE - DM_BASE) / WORDSIZE, "Incorrect accesses");
    assert!((hit_rate(m.stats()) - expected_hit).abs() < EPSILON, "Incorrect Hit Rate");
    assert!((miss_rate(m.stats()) - expected_miss).abs() < EPSILON, "Incorrect Miss Rate");
    assert_eq!(m.im().stats().total_accesses(), 0, "Incorrect accesses");
}

#[test]
fn diff_size_l1s() {
    const MEM_SIZE: usize = 1 << 16;
    const IM_L1_SIZE: usize = 1 << 11;
    const IM_W_P_L: usize = 16;
    const DM_L1_SIZE: usize = 1 << 13;
    const DM_W_P_L: usize = 8;
    const IM_BASE: usize = 0;
    const DM_BASE: usize = 0x6000;
    let mut m = memory(MEM_SIZE, IM_L1_SIZE, IM_W_P_L, DM_L1_SIZE, DM_W_P_L, IM_BASE, DM_BASE);

    for i in (0..MEM_SIZE).into_iter().step_by(WORDSIZE) {
        let _ = m.read(i, DataTypeSize::Word);
    }
}
