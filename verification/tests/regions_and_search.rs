use memscan::codec::ValueType;
use memscan::maps::get_memory_regions;
use memscan::mem::{MemoryError, MemoryRegionPerms};
use memscan::scan::scan_block;
use memscan::search::find_all;

const MAPS: &str = "00400000-00452000 r-xp 00000000 fd:00 123 /bin/demo\n\
00600000-00700000 rw-p 00000000 00:00 0 [heap]\n\
7f0000000000-7f0000010000 r--p 00000000 fd:00 456 /lib/x.so\n";

#[test]
fn regions_default_filter_keeps_writable() {
    let regions = get_memory_regions(MAPS.as_bytes(), None, None, None).unwrap();
    assert_eq!(regions.len(), 1);
    assert_eq!(regions[0].start, 0x600000);
    assert_eq!(regions[0].end, 0x700000);
    assert_eq!(
        regions[0].perms,
        vec![MemoryRegionPerms::Read, MemoryRegionPerms::Write]
    );
}

#[test]
fn regions_read_filter_keeps_all_readable() {
    let filter = vec![MemoryRegionPerms::Read];
    let regions = get_memory_regions(MAPS.as_bytes(), None, None, Some(&filter)).unwrap();
    assert_eq!(regions.len(), 3);
    assert_eq!(regions[0].start, 0x400000);
    assert_eq!(regions[2].start, 0x7f0000000000);
    // the read-only mapping carries no write permission
    assert_eq!(regions[2].perms, vec![MemoryRegionPerms::Read]);
}

#[test]
fn regions_range_clipping() {
    let filter = vec![MemoryRegionPerms::Read, MemoryRegionPerms::Write];
    // start beyond every region end: nothing remains
    let regions =
        get_memory_regions(MAPS.as_bytes(), Some(u64::MAX), None, Some(&filter)).unwrap();
    assert_eq!(regions.len(), 0);
    // end of zero: nothing remains either
    let regions = get_memory_regions(MAPS.as_bytes(), None, Some(0), Some(&filter)).unwrap();
    assert_eq!(regions.len(), 0);
    // a window over the heap keeps exactly the heap
    let regions = get_memory_regions(
        MAPS.as_bytes(),
        Some(0x650000),
        Some(0x650010),
        Some(&filter),
    )
    .unwrap();
    assert_eq!(regions.len(), 1);
    assert_eq!(regions[0].start, 0x600000);
}

#[test]
fn regions_empty_listing() {
    let regions = get_memory_regions(b"", None, None, None).unwrap();
    assert_eq!(regions.len(), 0);
}

#[test]
fn regions_malformed_line_is_mem_read_error() {
    let err = get_memory_regions(b"notamapsline\n", None, None, None).unwrap_err();
    assert_eq!(err, MemoryError::MemRead(0));
    let err = get_memory_regions(b"00400000 r-xp\n", None, None, None).unwrap_err();
    assert_eq!(err, MemoryError::MemRead(0));
    let err = get_memory_regions(b"0gg0-1000 rw-p\n", None, None, None).unwrap_err();
    assert_eq!(err, MemoryError::MemRead(0));
}

#[test]
fn find_all_reports_non_overlapping_matches() {
    let hay = b"abcabcabc".to_vec();
    let needle = b"abc".to_vec();
    assert_eq!(find_all(&hay, &needle), vec![0, 3, 6]);

    // overlapping occurrences: the scan resumes past each match
    let hay = b"aaaaa".to_vec();
    let needle = b"aa".to_vec();
    assert_eq!(find_all(&hay, &needle), vec![0, 2]);

    let hay = b"hello".to_vec();
    let needle = b"xyz".to_vec();
    assert_eq!(find_all(&hay, &needle), Vec::<usize>::new());

    // an empty needle matches nowhere
    assert_eq!(find_all(&hay, &Vec::new()), Vec::<usize>::new());
}

#[test]
fn scan_block_finds_a_u32() {
    // a block holding 31337 as a little-endian u32 at offset 8
    let mut block = vec![0u8; 16];
    block[8..12].copy_from_slice(&31337_u32.to_le_bytes());
    let pattern = 31337_u32.to_le_bytes().to_vec();
    let perms = vec![MemoryRegionPerms::Write];
    let results = scan_block(&block, &pattern, 4, 0x1000, ValueType::U32, &perms);
    assert_eq!(results.len(), 1);
    assert_eq!(results[0].address, 0x1008);
    assert_eq!(
        u32::from_le_bytes(results[0].value.as_slice().try_into().unwrap()),
        31337
    );
    assert!(!results[0].is_read_only());
}

#[test]
fn scan_block_string_capture_with_read_size() {
    // the exact bytes "FLAG{F4K3_FL4G}" somewhere in the block, searched
    // by its prefix with a wider capture
    let mut block = vec![b'.'; 64];
    block[20..35].copy_from_slice(b"FLAG{F4K3_FL4G}");
    let pattern = b"FLAG{".to_vec();
    let perms = vec![MemoryRegionPerms::Read];
    let results = scan_block(&block, &pattern, 15, 0x2000, ValueType::String, &perms);
    assert_eq!(results.len(), 1);
    assert_eq!(results[0].address, 0x2000 + 20);
    assert_eq!(results[0].value, b"FLAG{F4K3_FL4G}".to_vec());
    assert_eq!(results[0].value.len(), 15);
    assert!(results[0].is_read_only());
}

#[test]
fn scan_block_capture_clipped_at_block_end() {
    // a match near the end of the block captures only what is there
    let mut block = vec![b'.'; 10];
    block[6..10].copy_from_slice(b"FLAG");
    let pattern = b"FLAG".to_vec();
    let perms = vec![MemoryRegionPerms::Write];
    let results = scan_block(&block, &pattern, 15, 0, ValueType::String, &perms);
    assert_eq!(results.len(), 1);
    assert_eq!(results[0].value, b"FLAG".to_vec());
}

#[test]
fn regions_boundary_region_ending_at_clip_start_is_excluded() {
    // the heap ends exactly at 0x700000; a clip starting there gets no
    // address of it (region ends are exclusive), so only the later
    // mapping survives
    let filter = vec![MemoryRegionPerms::Read, MemoryRegionPerms::Write];
    let regions =
        get_memory_regions(MAPS.as_bytes(), Some(0x700000), None, Some(&filter)).unwrap();
    assert_eq!(regions.len(), 1);
    assert_eq!(regions[0].start, 0x7f0000000000);
}
