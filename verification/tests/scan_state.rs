use memscan::codec::ValueType;
use memscan::scan::{Scan, ScanError, ScanResult};

fn empty_scan(value_type: ValueType) -> Scan {
    Scan {
        pid: 0,
        value: vec![],
        value_type,
        results: vec![],
        watchlist: vec![],
        start_address: None,
        end_address: None,
        read_size: None,
        memory_regions: vec![],
        memory_permissions: vec![],
    }
}

#[test]
pub fn test_set_value_from_str_u64_success() {
    let mut scan = empty_scan(ValueType::U64);

    let result = scan.set_value_from_str("12345");
    assert!(result.is_ok());
    assert_eq!(scan.value, 12345_u64.to_le_bytes().to_vec());
}

#[test]
pub fn test_set_value_from_str_i64_success() {
    let mut scan = empty_scan(ValueType::I64);

    let result = scan.set_value_from_str("-54321");
    assert!(result.is_ok());
    assert_eq!(scan.value, (-54321_i64).to_le_bytes().to_vec());
}

#[test]
pub fn test_set_value_from_str_u32_success() {
    let mut scan = empty_scan(ValueType::U32);

    let result = scan.set_value_from_str("31337");
    assert!(result.is_ok());
    assert_eq!(scan.value, 31337_u32.to_le_bytes().to_vec());
}

#[test]
pub fn test_set_value_from_str_i32_success() {
    let mut scan = empty_scan(ValueType::I32);

    let result = scan.set_value_from_str("-999");
    assert!(result.is_ok());
    assert_eq!(scan.value, (-999_i32).to_le_bytes().to_vec());
}

#[test]
pub fn test_set_value_from_str_invalid_value() {
    let mut scan = empty_scan(ValueType::U32);

    let result = scan.set_value_from_str("not_a_number");
    assert!(result.is_err());
    assert!(matches!(result.unwrap_err(), ScanError::InvalidValue));
}

#[test]
pub fn test_set_value_from_str_overflow() {
    let mut scan = empty_scan(ValueType::U32);

    // This value is too large for u32
    let result = scan.set_value_from_str("99999999999999");
    assert!(result.is_err());
    assert!(matches!(result.unwrap_err(), ScanError::InvalidValue));
}

#[test]
pub fn test_add_to_watchlist_success() {
    let mut scan = empty_scan(ValueType::U32);

    let result1 = ScanResult::new(0x1000, ValueType::U32, vec![1, 2, 3, 4], vec![]);
    let result2 = ScanResult::new(0x2000, ValueType::U32, vec![5, 6, 7, 8], vec![]);

    scan.add_to_watchlist(result1);
    assert_eq!(scan.watchlist.len(), 1);
    assert_eq!(scan.watchlist[0].address, 0x1000);

    scan.add_to_watchlist(result2);
    assert_eq!(scan.watchlist.len(), 2);
    assert_eq!(scan.watchlist[1].address, 0x2000);
}

#[test]
pub fn test_add_to_watchlist_duplicate_ignores() {
    let mut scan = empty_scan(ValueType::U32);

    let result = ScanResult::new(0x1000, ValueType::U32, vec![1, 2, 3, 4], vec![]);

    scan.add_to_watchlist(result.clone());
    assert_eq!(scan.watchlist.len(), 1);

    // Try to add the same address again
    scan.add_to_watchlist(result);
    assert_eq!(scan.watchlist.len(), 1);
}

#[test]
pub fn test_remove_from_watchlist_success() {
    let mut scan = empty_scan(ValueType::U32);

    let result1 = ScanResult::new(0x1000, ValueType::U32, vec![1, 2, 3, 4], vec![]);
    let result2 = ScanResult::new(0x2000, ValueType::U32, vec![5, 6, 7, 8], vec![]);

    scan.add_to_watchlist(result1.clone());
    scan.add_to_watchlist(result2.clone());
    assert_eq!(scan.watchlist.len(), 2);

    scan.remove_from_watchlist(result1.address);
    assert_eq!(scan.watchlist.len(), 1);
    assert_eq!(scan.watchlist[0].address, 0x2000);
}

#[test]
pub fn test_remove_from_watchlist_not_present() {
    let mut scan = empty_scan(ValueType::U32);

    let result1 = ScanResult::new(0x1000, ValueType::U32, vec![1, 2, 3, 4], vec![]);
    let result2 = ScanResult::new(0x2000, ValueType::U32, vec![5, 6, 7, 8], vec![]);

    scan.add_to_watchlist(result1);
    assert_eq!(scan.watchlist.len(), 1);

    // Try to remove an address that's not in the watchlist
    scan.remove_from_watchlist(result2.address);
    assert_eq!(scan.watchlist.len(), 1);
    assert_eq!(scan.watchlist[0].address, 0x1000);
}

#[test]
pub fn test_remove_from_watchlist_empty() {
    let mut scan = empty_scan(ValueType::U32);

    let result = ScanResult::new(0x1000, ValueType::U32, vec![1, 2, 3, 4], vec![]);

    // Try to remove from empty watchlist
    scan.remove_from_watchlist(result.address);
    assert_eq!(scan.watchlist.len(), 0);
}

const MAPS: &str = "00400000-00452000 r-xp 00000000 fd:00 123 /bin/demo\n\
00600000-00700000 rw-p 00000000 00:00 0 [heap]\n\
7f0000000000-7f0000010000 r--p 00000000 fd:00 456 /lib/x.so\n";

fn demo_scan() -> Scan {
    Scan::new(
        0,
        31337_u32.to_le_bytes().to_vec(),
        ValueType::U32,
        None,
        None,
        None,
        MAPS.as_bytes(),
    )
    .unwrap()
}

#[test]
pub fn test_scan_creation_success() {
    let scan = Scan::new(
        0,
        31337_u32.to_le_bytes().to_vec(),
        ValueType::U32,
        None,
        None,
        None,
        MAPS.as_bytes(),
    );
    assert!(scan.is_ok());
    let scan = scan.unwrap();
    assert_eq!(scan.results.len(), 0);
    // the default filter keeps the writable region only
    assert_eq!(scan.memory_regions.len(), 1);
    assert_eq!(scan.memory_regions[0].start, 0x600000);
    assert_eq!(scan.memory_regions[0].end, 0x700000);
}

#[test]
pub fn test_set_start_address_success() {
    let mut scan = demo_scan();

    let result = scan.set_start_address("0x1000", MAPS.as_bytes());
    assert!(result.is_ok());
    assert_eq!(scan.start_address, Some(0x1000));
}

#[test]
pub fn test_set_start_address_without_prefix() {
    let mut scan = demo_scan();

    let result = scan.set_start_address("ABCD", MAPS.as_bytes());
    assert!(result.is_ok());
    assert_eq!(scan.start_address, Some(0xABCD));
}

#[test]
pub fn test_set_start_address_empty_clears() {
    let mut scan = Scan::new(
        0,
        31337_u32.to_le_bytes().to_vec(),
        ValueType::U32,
        Some(0x1000),
        None,
        None,
        MAPS.as_bytes(),
    )
    .unwrap();

    assert_eq!(scan.start_address, Some(0x1000));
    let result = scan.set_start_address("", MAPS.as_bytes());
    assert!(result.is_ok());
    assert_eq!(scan.start_address, None);
}

#[test]
pub fn test_set_start_address_invalid_hex() {
    let mut scan = demo_scan();

    let result = scan.set_start_address("0xGHIJ", MAPS.as_bytes());
    assert!(result.is_err());
    assert!(matches!(result.unwrap_err(), ScanError::InvalidAddress));
}

#[test]
pub fn test_set_start_address_mismatch_with_end() {
    let mut scan = Scan::new(
        0,
        31337_u32.to_le_bytes().to_vec(),
        ValueType::U32,
        None,
        Some(0x1000),
        None,
        MAPS.as_bytes(),
    )
    .unwrap();
    let regions_before = scan.memory_regions.len();

    // Try to set start address greater than end address
    let result = scan.set_start_address("0x2000", MAPS.as_bytes());
    assert!(result.is_err());
    assert!(matches!(result.unwrap_err(), ScanError::AddressMismatch));
    // the rejected pair leaves the state untouched
    assert_eq!(scan.start_address, None);
    assert_eq!(scan.memory_regions.len(), regions_before);
}

#[test]
pub fn test_set_end_address_success() {
    let mut scan = demo_scan();

    let result = scan.set_end_address("0xFFFFFFFF", MAPS.as_bytes());
    assert!(result.is_ok());
    assert_eq!(scan.end_address, Some(0xFFFFFFFF));
}

#[test]
pub fn test_set_end_address_without_prefix() {
    let mut scan = demo_scan();

    let result = scan.set_end_address("DEED", MAPS.as_bytes());
    assert!(result.is_ok());
    assert_eq!(scan.end_address, Some(0xDEED));
}

#[test]
pub fn test_set_end_address_empty_clears() {
    let mut scan = Scan::new(
        0,
        31337_u32.to_le_bytes().to_vec(),
        ValueType::U32,
        None,
        Some(0xFFFF),
        None,
        MAPS.as_bytes(),
    )
    .unwrap();

    assert_eq!(scan.end_address, Some(0xFFFF));
    let result = scan.set_end_address("", MAPS.as_bytes());
    assert!(result.is_ok());
    assert_eq!(scan.end_address, None);
}

#[test]
pub fn test_set_end_address_invalid_hex() {
    let mut scan = demo_scan();

    let result = scan.set_end_address("0xXYZ", MAPS.as_bytes());
    assert!(result.is_err());
    assert!(matches!(result.unwrap_err(), ScanError::InvalidAddress));
}

#[test]
pub fn test_set_end_address_mismatch_with_start() {
    let mut scan = Scan::new(
        0,
        31337_u32.to_le_bytes().to_vec(),
        ValueType::U32,
        Some(0x2000),
        None,
        None,
        MAPS.as_bytes(),
    )
    .unwrap();

    // Try to set end address smaller than start address
    let result = scan.set_end_address("0x1000", MAPS.as_bytes());
    assert!(result.is_err());
    assert!(matches!(result.unwrap_err(), ScanError::AddressMismatch));
    assert_eq!(scan.end_address, None);
}

#[test]
pub fn test_set_read_size_bounds() {
    let mut scan = demo_scan();
    assert!(scan.set_read_size(Some(1)).is_ok());
    assert_eq!(scan.read_size, Some(1));
    assert!(scan.set_read_size(Some(256)).is_ok());
    assert_eq!(scan.read_size, Some(256));
    let too_small = scan.set_read_size(Some(0));
    assert!(matches!(
        too_small.unwrap_err(),
        ScanError::ReadSizeInvalid(1, 256)
    ));
    let too_big = scan.set_read_size(Some(257));
    assert!(matches!(
        too_big.unwrap_err(),
        ScanError::ReadSizeInvalid(1, 256)
    ));
    assert_eq!(scan.read_size, Some(256));
    assert!(scan.set_read_size(None).is_ok());
    assert_eq!(scan.read_size, None);
}

#[test]
pub fn test_range_clipping_empties_region_list() {
    // Far-off start address: the region list becomes empty and a full
    // scan finds nothing without touching the target.
    let mut scan = demo_scan();
    scan.set_start_address("FFFFFFFFFFFFFFFF", MAPS.as_bytes())
        .unwrap();
    assert_eq!(scan.memory_regions.len(), 0);
    let results = scan.init().unwrap();
    assert_eq!(results.len(), 0);

    // Clearing the bound restores the region list.
    scan.set_start_address("", MAPS.as_bytes()).unwrap();
    assert_eq!(scan.memory_regions.len(), 1);

    // An end bound of zero empties it again.
    scan.set_end_address("0", MAPS.as_bytes()).unwrap();
    assert_eq!(scan.memory_regions.len(), 0);
}

#[test]
pub fn test_scan_empty_pattern_rejected() {
    let mut scan = Scan::new(
        0,
        vec![],
        ValueType::U32,
        None,
        None,
        None,
        MAPS.as_bytes(),
    )
    .unwrap();
    assert!(matches!(scan.init().unwrap_err(), ScanError::EmptyValue));
    assert!(matches!(
        scan.next_scan().unwrap_err(),
        ScanError::EmptyValue
    ));
    assert!(matches!(scan.refresh().unwrap_err(), ScanError::EmptyValue));
}

#[test]
pub fn test_scan_type_mismatch_rejected() {
    // a three-byte pattern cannot be rendered as u32
    let mut scan = Scan::new(
        0,
        vec![1, 2, 3],
        ValueType::U32,
        None,
        None,
        None,
        MAPS.as_bytes(),
    )
    .unwrap();
    assert!(matches!(scan.init().unwrap_err(), ScanError::TypeMismatch));
}

#[test]
pub fn test_set_value_type_reencodes() {
    let mut scan = demo_scan();
    scan.set_value_type(ValueType::U64, Some("7")).unwrap();
    assert_eq!(scan.value, 7_u64.to_le_bytes().to_vec());
    let bad = scan.set_value_type(ValueType::Hex, Some("xyz"));
    assert!(matches!(bad.unwrap_err(), ScanError::InvalidValue));
    // the type changed even though the pattern could not be re-encoded
    assert!(matches!(scan.value_type, ValueType::Hex));
    assert_eq!(scan.value, 7_u64.to_le_bytes().to_vec());
}

#[test]
pub fn test_update_value_invalid_string() {
    let mut scan = demo_scan();
    let r = scan.update_value(0x1000, "not_a_number");
    assert!(matches!(r.unwrap_err(), ScanError::InvalidValue));
}

#[test]
pub fn test_refresh_preserves_structure() {
    // with an unreadable target every per-entry read fails benignly:
    // refresh keeps the count, the addresses and the bytes of every result
    let mut scan = empty_scan(ValueType::U32);
    scan.pid = 0x3fff_fffe;
    scan.value = 31337_u32.to_le_bytes().to_vec();
    scan.results = vec![
        ScanResult::new(0x1000, ValueType::U32, vec![1, 2, 3, 4], vec![]),
        ScanResult::new(0x2000, ValueType::U32, vec![5, 6, 7, 8], vec![]),
    ];
    let results = scan.refresh().unwrap();
    assert_eq!(results.len(), 2);
    assert_eq!(results[0].address, 0x1000);
    assert_eq!(results[1].address, 0x2000);
    assert_eq!(results[0].value, vec![1, 2, 3, 4]);
    assert_eq!(results[1].value, vec![5, 6, 7, 8]);
}

#[test]
pub fn test_next_scan_drops_unreadable_results() {
    // a narrowing scan treats a failed re-read as "no longer matching":
    // what survives is always a subset of the previous addresses
    let mut scan = empty_scan(ValueType::U32);
    scan.pid = 0x3fff_fffe;
    scan.value = 31337_u32.to_le_bytes().to_vec();
    scan.results = vec![
        ScanResult::new(0x1000, ValueType::U32, vec![1, 2, 3, 4], vec![]),
        ScanResult::new(0x2000, ValueType::U32, vec![5, 6, 7, 8], vec![]),
    ];
    let results = scan.next_scan().unwrap();
    assert_eq!(results.len(), 0);
}

#[test]
pub fn test_watchlist_refresh_keeps_pins() {
    // watchlist entries survive every scan operation even when their
    // reads fail; only their captured bytes could have changed
    let mut scan = empty_scan(ValueType::U32);
    scan.pid = 0x3fff_fffe;
    scan.value = 31337_u32.to_le_bytes().to_vec();
    scan.add_to_watchlist(ScanResult::new(
        0x4000,
        ValueType::U32,
        vec![9, 9, 9, 9],
        vec![],
    ));
    scan.refresh().unwrap();
    assert_eq!(scan.watchlist.len(), 1);
    assert_eq!(scan.watchlist[0].address, 0x4000);
    assert_eq!(scan.watchlist[0].value, vec![9, 9, 9, 9]);
}
