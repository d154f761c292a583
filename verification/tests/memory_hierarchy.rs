use std::cell::Cell;
use std::rc::Rc;

use rustv::cache::CacheEventHandler;
use rustv::cache::CacheLocation;
use rustv::cache::CacheMetadata;
use rustv::cache::DirectMappedCache;
use rustv::cache::EmptyCacheEventHandler;
use rustv::memory::IdentityMmu;
use rustv::memory::Memory;
use rustv::memory::MemoryError;
use rustv::memory::Mmu;
use rustv::memory::ReverseMmu;

#[test]
fn cache_address_parsing() {
    let _memory = Memory::new(16);
    let dm_cache_word = DirectMappedCache::new(4, 1, EmptyCacheEventHandler {});
    let dm_cache_doubleword = DirectMappedCache::new(4, 2, EmptyCacheEventHandler {});

    assert_eq!(dm_cache_word.parse_address(0xFFFFFFFD), (0xFFFFFFF, 3, 1));
    assert_eq!(dm_cache_doubleword.parse_address(0xFFFFFFFD), (0x7FFFFFF, 3, 5));
}

#[test]
fn memory_rw() {
    let size = 0xFF;
    let mut memory = Memory::new(size);

    assert_eq!(memory.write_word(0, 0xF0), Err(MemoryError::InvalidAddress));
    assert_eq!(memory.write_byte(0, 0xF0), Err(MemoryError::InvalidAddress));
    assert_eq!(memory.write_byte(1, 0xF0), Err(MemoryError::InvalidAddress));
    assert_eq!(memory.write_byte(2, 0xF0), Err(MemoryError::InvalidAddress));
    assert_eq!(memory.write_byte(3, 0xF0), Err(MemoryError::InvalidAddress));
    assert_eq!(memory.write_halfword(0, 0xF0), Err(MemoryError::InvalidAddress));
    assert_eq!(memory.write_halfword(2, 0xF0), Err(MemoryError::InvalidAddress));

    for address in (4..size as u32).step_by(4) {
        assert_eq!(memory.write_word(address, 0xF0), Ok(()));
        assert_eq!(memory.read_word(address), Ok(0xF0));
        assert_eq!(memory.read_halfword(address), Ok(0xF0));
        assert_eq!(memory.read_halfword(address + 2), Ok(0x0));
        assert_eq!(memory.read_byte(address), Ok(0xF0));
        assert_eq!(memory.read_byte(address + 1), Ok(0x0));
        assert_eq!(memory.read_byte(address + 2), Ok(0x0));
        assert_eq!(memory.read_byte(address + 3), Ok(0x0));
    }

    assert_eq!(memory.write_word(0x10, 0x01234567), Ok(()));
    assert_eq!(memory.write_word(0x14, 0xDEADBEEF), Ok(()));
    assert_eq!(memory.read_byte(0x10), Ok(0x67));
    assert_eq!(memory.read_byte(0x11), Ok(0x45));
    assert_eq!(memory.read_byte(0x12), Ok(0x23));
    assert_eq!(memory.read_byte(0x13), Ok(0x01));
    assert_eq!(memory.read_halfword(0x10), Ok(0x4567));
    assert_eq!(memory.read_halfword(0x12), Ok(0x0123));

    let stall = Err(MemoryError::CacheMiss { stall_cycles: memory.latency(), retry: true });
    let write_stall = Err(MemoryError::CacheMiss { stall_cycles: memory.latency(), retry: true });

    let mut dm_cache = DirectMappedCache::new(4, 4, EmptyCacheEventHandler {});

    assert_eq!(dm_cache.read_word(0x10, &memory), stall);

    for _ in 0..100 {
        dm_cache.step(&memory);
    }

    assert_eq!(dm_cache.write_word(0x20, 0x123, &mut memory), write_stall);
    assert_eq!(dm_cache.read_word(0x10, &memory), Ok(0x01234567));
    assert_eq!(dm_cache.read_word(0x14, &memory), Ok(0xDEADBEEF));
    assert_eq!(dm_cache.read_word(0x18, &memory), Ok(0xF0));
    assert_eq!(dm_cache.read_word(0x1C, &memory), Ok(0xF0));
    assert_eq!(dm_cache.read_byte(0x10, &memory), Ok(0x67));
    assert_eq!(dm_cache.read_byte(0x11, &memory), Ok(0x45));
    assert_eq!(dm_cache.read_byte(0x12, &memory), Ok(0x23));
    assert_eq!(dm_cache.read_byte(0x13, &memory), Ok(0x01));
    assert_eq!(dm_cache.write_word(0x18, 0xBEEFBEEF, &mut memory), Ok(()));
    assert_eq!(dm_cache.read_word(0x18, &memory), Ok(0xBEEFBEEF));
    assert_eq!(dm_cache.read_halfword(0x10, &memory), Ok(0x4567));
    assert_eq!(dm_cache.read_halfword(0x12, &memory), Ok(0x0123));
    assert_eq!(memory.read_word(0x18), Ok(0xBEEFBEEF));

    for _ in 0..100 {
        dm_cache.step(&memory);
    }

    assert_eq!(dm_cache.write_word(0x20, 0x123, &mut memory), Ok(()));
    assert_eq!(memory.read_word(0x20), Ok(0x123));
    // Should not have been evicted
    assert_eq!(dm_cache.read_word(0x10, &memory), Ok(0x01234567));
    assert_eq!(dm_cache.read_word(0x14, &memory), Ok(0xDEADBEEF));
    assert_eq!(dm_cache.read_word(0x18, &memory), Ok(0xBEEFBEEF));
    assert_eq!(dm_cache.read_word(0x1C, &memory), Ok(0xF0));
    assert_eq!(dm_cache.read_halfword(0x10, &memory), Ok(0x4567));
    assert_eq!(dm_cache.read_halfword(0x12, &memory), Ok(0x0123));

    assert_eq!(dm_cache.write_byte(0x10, 0x42, &mut memory), Ok(()));
    assert_eq!(dm_cache.write_halfword(0x12, 0x4242, &mut memory), Ok(()));
    assert_eq!(memory.read_word(0x10), Ok(0x42424542));
}

#[test]
fn cache_fill_then_hit() {
    let mut memory = Memory::new(0xFF);
    for address in (0x10..0x20u32).step_by(4) {
        assert_eq!(memory.write_word(address, 0x1000 + address), Ok(()));
    }
    let mut cache = DirectMappedCache::new(4, 4, EmptyCacheEventHandler {});

    assert_eq!(
        cache.read_word(0x10, &memory),
        Err(MemoryError::CacheMiss { stall_cycles: 100, retry: true })
    );
    for _ in 0..100 {
        cache.step(&memory);
    }
    assert_eq!(cache.read_word(0x10, &memory), Ok(0x1010));
    assert_eq!(cache.read_word(0x14, &memory), Ok(0x1014));
    assert_eq!(cache.read_word(0x18, &memory), Ok(0x1018));
    assert_eq!(cache.read_word(0x1C, &memory), Ok(0x101C));
}

#[test]
fn write_allocate_write_through() {
    let mut memory = Memory::new(0xFF);
    let mut dm_cache = DirectMappedCache::new(4, 4, EmptyCacheEventHandler {});

    // fill the line of 0x18 first (write-allocate)
    assert_eq!(
        dm_cache.write_word(0x18, 0xBEEFBEEF, &mut memory),
        Err(MemoryError::CacheMiss { stall_cycles: 100, retry: true })
    );
    for _ in 0..100 {
        dm_cache.step(&memory);
    }
    assert_eq!(dm_cache.write_word(0x18, 0xBEEFBEEF, &mut memory), Ok(()));
    assert_eq!(memory.read_word(0x18), Ok(0xBEEFBEEF));
}

#[test]
fn byte_halfword_via_word() {
    let mut memory = Memory::new(0xFF);
    assert_eq!(memory.write_word(0x10, 0x01234567), Ok(()));
    assert_eq!(memory.read_byte(0x10), Ok(0x67));
    assert_eq!(memory.read_byte(0x11), Ok(0x45));
    assert_eq!(memory.read_halfword(0x10), Ok(0x4567));
    assert_eq!(memory.read_halfword(0x12), Ok(0x0123));
}

#[test]
fn byte_write_leaves_other_lanes() {
    let mut memory = Memory::new(0x40);
    assert_eq!(memory.write_word(0x20, 0xAABBCCDD), Ok(()));
    assert_eq!(memory.write_byte(0x21, 0x11), Ok(()));
    assert_eq!(memory.read_word(0x20), Ok(0xAABB11DD));
    assert_eq!(memory.write_halfword(0x22, 0x2233), Ok(()));
    assert_eq!(memory.read_word(0x20), Ok(0x223311DD));
}

#[test]
fn out_of_range_accesses_are_rejected() {
    let mut memory = Memory::new(0x10);
    assert_eq!(memory.read_word(0x40), Err(MemoryError::InvalidAddress));
    assert_eq!(memory.read_byte(0x41), Err(MemoryError::InvalidAddress));
    assert_eq!(memory.read_halfword(0x42), Err(MemoryError::InvalidAddress));
    assert_eq!(memory.write_word(0x40, 1), Err(MemoryError::InvalidAddress));
    assert!(memory.is_address_accessible(0x3F));
    assert!(!memory.is_address_accessible(0x40));
}

#[test]
fn cache_error_is_delivered_on_retry() {
    // the line 0x40..0x50 lies outside a 0x11-word memory, so the fill
    // records an invalid-address error and hands it to the requester
    let mut memory = Memory::new(0x11);
    assert_eq!(memory.write_word(0x40, 0xAB), Ok(()));
    let mut cache = DirectMappedCache::new(4, 4, EmptyCacheEventHandler {});
    assert_eq!(
        cache.read_word(0x48, &memory),
        Err(MemoryError::CacheMiss { stall_cycles: 100, retry: true })
    );
    for _ in 0..100 {
        cache.step(&memory);
    }
    assert_eq!(cache.read_word(0x48, &memory), Err(MemoryError::InvalidAddress));
    // the error is consumed together with the request: the next access
    // starts a fresh fill
    assert_eq!(
        cache.read_word(0x48, &memory),
        Err(MemoryError::CacheMiss { stall_cycles: 100, retry: true })
    );
}

#[test]
fn cache_metadata_reports_resident_tags() {
    let mut memory = Memory::new(0xFF);
    assert_eq!(memory.write_word(0x10, 7), Ok(()));
    let mut cache = DirectMappedCache::new(4, 4, EmptyCacheEventHandler {});
    let before: CacheMetadata = cache.cache_metadata();
    assert_eq!(before.num_sets, 4);
    assert_eq!(before.num_ways, 1);
    assert_eq!(before.num_block_words, 4);
    assert_eq!(before.tags, vec![None, None, None, None]);

    let _ = cache.read_word(0x10, &memory);
    for _ in 0..100 {
        cache.step(&memory);
    }
    assert_eq!(cache.read_word(0x10, &memory), Ok(7));
    assert!(cache.is_address_accessible(0x10));
    assert!(!cache.is_address_accessible(0x50));
    let after = cache.cache_metadata();
    // 0x10 has offset bits [3:0], index bits [5:4]: tag 0, set 1
    assert_eq!(after.tags, vec![None, Some(0), None, None]);
}

#[test]
fn second_miss_repurposes_the_request() {
    let mut memory = Memory::new(0x100);
    assert_eq!(memory.write_word(0x10, 1), Ok(()));
    assert_eq!(memory.write_word(0x50, 2), Ok(()));
    let mut cache = DirectMappedCache::new(4, 1, EmptyCacheEventHandler {});

    // 0x10 and 0x50 fall into the same set with different tags
    assert_eq!(
        cache.read_word(0x10, &memory),
        Err(MemoryError::CacheMiss { stall_cycles: 100, retry: true })
    );
    assert_eq!(
        cache.read_word(0x50, &memory),
        Err(MemoryError::CacheMiss { stall_cycles: 100, retry: true })
    );
    for _ in 0..100 {
        cache.step(&memory);
    }
    // the repurposed request filled the second line, not the first
    assert_eq!(cache.read_word(0x50, &memory), Ok(2));
    assert_eq!(
        cache.read_word(0x10, &memory),
        Err(MemoryError::CacheMiss { stall_cycles: 100, retry: true })
    );
}

struct CountingEvents {
    fetched: Rc<Cell<usize>>,
}

impl CacheEventHandler for CountingEvents {
    fn block_fetched(&self, _location: CacheLocation) {
        self.fetched.set(self.fetched.get() + 1);
    }
}

#[test]
fn block_fetched_fires_once_per_install() {
    let memory = Memory::new(0x100);
    let fetched = Rc::new(Cell::new(0));
    let mut cache = DirectMappedCache::new(4, 4, CountingEvents { fetched: Rc::clone(&fetched) });

    let _ = cache.read_word(0x10, &memory);
    for _ in 0..99 {
        cache.step(&memory);
    }
    assert_eq!(fetched.get(), 0);
    cache.step(&memory);
    assert_eq!(fetched.get(), 1);
    for _ in 0..10 {
        cache.step(&memory);
    }
    assert_eq!(fetched.get(), 1);
}

#[test]
fn reverse_mmu_is_an_involution() {
    let mmu = ReverseMmu::new(0x1000);
    for &a in &[0u32, 1, 2, 3, 4, 0x10, 0x123, 0xFFC, 0xFFF] {
        assert_eq!(mmu.translate(mmu.translate(a)), a);
    }
    assert_eq!(mmu.translate(0), 0xFFC);
    assert_eq!(mmu.translate(0xFFC), 0);
    assert_eq!(mmu.translate(0x5), 0xFF9);
    let identity = IdentityMmu::new();
    assert_eq!(identity.translate(0x1234), 0x1234);
}

#[test]
fn write_segment_packs_bytes_lsb_first() {
    let mut memory = Memory::new(0x40);
    let data = vec![0x67u8, 0x45, 0x23, 0x01, 0xEF, 0xBE];
    memory.write_segment(&IdentityMmu::new(), &data, 0x10);
    assert_eq!(memory.read_word(0x10), Ok(0x01234567));
    // the trailing two bytes pack with zero-padded high bytes
    assert_eq!(memory.read_word(0x14), Ok(0x0000BEEF));
}
