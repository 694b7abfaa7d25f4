use ptrpath::parse::{parse_address, word32_from_le};
use ptrpath::search::Step;
use ptrpath::snapshot::{Backing, Perms, Region, RegionError, Snapshot};

fn perms() -> Perms {
    Perms { read: true, write: false, execute: false }
}

fn region(start: u64, end: u64, backing: Backing) -> Region {
    Region { start, end, perms: perms(), backing }
}

/// Words tiling `[start, end)`, zero except for the given `(addr, value)`
/// pairs.
fn words_with(start: u64, end: u64, vals: &[(u64, u64)]) -> Vec<u64> {
    let mut words = vec![0u64; ((end - start) / 8) as usize];
    for &(addr, val) in vals {
        words[((addr - start) / 8) as usize] = val;
    }
    words
}

fn exe() -> Vec<u8> {
    b"/usr/bin/target".to_vec()
}

#[test]
fn rejects_inverted_bounds() {
    let mut snap = Snapshot::new(exe());
    let r = snap.push_region(region(0x2000, 0x1000, Backing::Anonymous), vec![]);
    assert_eq!(r, Err(RegionError::InvertedBounds));
}

#[test]
fn rejects_misaligned_bounds() {
    let mut snap = Snapshot::new(exe());
    let r = snap.push_region(region(0x1004, 0x2000, Backing::Anonymous), vec![0; 100]);
    assert_eq!(r, Err(RegionError::Misaligned));
    let r = snap.push_region(region(0x1000, 0x2004, Backing::Anonymous), vec![0; 100]);
    assert_eq!(r, Err(RegionError::Misaligned));
}

#[test]
fn rejects_word_count_mismatch() {
    let mut snap = Snapshot::new(exe());
    let r = snap.push_region(region(0x1000, 0x1040, Backing::Anonymous), vec![0; 7]);
    assert_eq!(r, Err(RegionError::WordCountMismatch));
    let r = snap.push_region(region(0x1000, 0x1040, Backing::Anonymous), vec![0; 8]);
    assert_eq!(r, Ok(()));
}

#[test]
fn value_at_reads_captured_words() {
    let mut snap = Snapshot::new(exe());
    let words = words_with(0x1000, 0x1040, &[(0x1008, 0xdead), (0x1038, 0xbeef)]);
    snap.push_region(region(0x1000, 0x1040, Backing::Anonymous), words).unwrap();
    assert_eq!(snap.value_at(0x1000), Some(0));
    assert_eq!(snap.value_at(0x1008), Some(0xdead));
    assert_eq!(snap.value_at(0x1038), Some(0xbeef));
    // misaligned, past the last word, and uncovered addresses all miss
    assert_eq!(snap.value_at(0x100c), None);
    assert_eq!(snap.value_at(0x1040), None);
    assert_eq!(snap.value_at(0x9000), None);
}

#[test]
fn region_containing_is_inclusive_and_first() {
    let mut snap = Snapshot::new(exe());
    snap.push_region(region(0x1000, 0x2000, Backing::Anonymous), vec![0; 512]).unwrap();
    snap.push_region(region(0x3000, 0x4000, Backing::Anonymous), vec![0; 512]).unwrap();
    assert_eq!(snap.region_containing(0x0fff), None);
    assert_eq!(snap.region_containing(0x1000), Some(0));
    assert_eq!(snap.region_containing(0x2000), Some(0));
    assert_eq!(snap.region_containing(0x2008), None);
    assert_eq!(snap.region_containing(0x3ab0), Some(1));
}

#[test]
fn locations_holding_orders_and_never_fails() {
    let mut snap = Snapshot::new(exe());
    let first = words_with(0x1000, 0x1040, &[(0x1010, 7), (0x1030, 7)]);
    let second = words_with(0x3000, 0x3040, &[(0x3000, 7)]);
    snap.push_region(region(0x1000, 0x1040, Backing::Anonymous), first).unwrap();
    snap.push_region(region(0x3000, 0x3040, Backing::Anonymous), second).unwrap();
    // regions in snapshot order, words in ascending address order
    assert_eq!(snap.locations_holding(7), vec![0x1010, 0x1030, 0x3000]);
    // empty result, not a failure, when nothing matches
    assert_eq!(snap.locations_holding(8), Vec::<u64>::new());
}

#[test]
fn main_image_boundaries_inclusive() {
    let mut snap = Snapshot::new(exe());
    snap.push_region(region(0x1000, 0x2000, Backing::File(exe())), vec![0; 512]).unwrap();
    snap.push_region(region(0x5000, 0x6000, Backing::Anonymous), vec![0; 512]).unwrap();
    assert!(snap.is_in_main_image(0x1000));
    assert!(snap.is_in_main_image(0x2000));
    assert!(snap.is_in_main_image(0x1ab8));
    assert!(!snap.is_in_main_image(0x0ff8));
    assert!(!snap.is_in_main_image(0x2008));
    // anonymous regions never classify as main image
    assert!(!snap.is_in_main_image(0x5000));
}

#[test]
fn other_file_backing_is_not_main_image() {
    let mut snap = Snapshot::new(exe());
    let lib = Backing::File(b"/usr/lib/other.so".to_vec());
    snap.push_region(region(0x1000, 0x2000, lib), vec![0; 512]).unwrap();
    assert!(!snap.is_in_main_image(0x1800));
}

#[test]
fn find_offset_returns_smallest_offset() {
    let mut snap = Snapshot::new(exe());
    // target 0x5100; the only pointer-like word is 0x50f0 = target - 0x10
    let heap = words_with(0x5000, 0x6000, &[(0x5040, 0x50f0)]);
    snap.push_region(region(0x5000, 0x6000, Backing::Anonymous), heap).unwrap();
    let (offset, locs) = snap.find_offset(0x5100, 0x400).unwrap();
    assert_eq!(offset, 0x10);
    assert_eq!(locs, vec![0x5040]);
}

#[test]
fn find_offset_zero_bound_probes_only_zero() {
    let mut snap = Snapshot::new(exe());
    // a word equal to target - 8 exists, but the zero bound must ignore it
    let heap = words_with(0x5000, 0x6000, &[(0x5040, 0x50f8)]);
    snap.push_region(region(0x5000, 0x6000, Backing::Anonymous), heap).unwrap();
    assert_eq!(snap.find_offset(0x5100, 0), None);
    // a word equal to the target itself is found at offset zero
    let mut snap = Snapshot::new(exe());
    let heap = words_with(0x5000, 0x6000, &[(0x5040, 0x5100)]);
    snap.push_region(region(0x5000, 0x6000, Backing::Anonymous), heap).unwrap();
    assert_eq!(snap.find_offset(0x5100, 0), Some((0, vec![0x5040])));
}

#[test]
fn find_offset_stays_inside_the_target_region() {
    let mut snap = Snapshot::new(exe());
    // a word holds 0x4ff8, but probing 0x5008 may not cross below 0x5000
    let heap = words_with(0x5000, 0x6000, &[(0x5040, 0x4ff8)]);
    snap.push_region(region(0x5000, 0x6000, Backing::Anonymous), heap).unwrap();
    assert_eq!(snap.find_offset(0x5008, 0x400), None);
}

#[test]
fn find_offset_without_covering_region() {
    let mut snap = Snapshot::new(exe());
    snap.push_region(region(0x1000, 0x2000, Backing::Anonymous), vec![0; 512]).unwrap();
    assert_eq!(snap.find_offset(0x9000, 0x400), None);
}

#[test]
fn expander_prunes_dead_paths() {
    let mut snap = Snapshot::new(exe());
    snap.push_region(region(0x5000, 0x6000, Backing::Anonymous), vec![0; 512]).unwrap();
    let frontier = vec![vec![Step { addr: 0x5100, offset: 0 }]];
    let next = snap.search_next_level(&frontier, 0x400);
    assert!(next.is_empty());
}

#[test]
fn expander_extends_paths_per_location() {
    let mut snap = Snapshot::new(exe());
    // two distinct words hold target - 8
    let heap = words_with(0x5000, 0x6000, &[(0x5040, 0x50f8), (0x5080, 0x50f8)]);
    snap.push_region(region(0x5000, 0x6000, Backing::Anonymous), heap).unwrap();
    let frontier = vec![vec![Step { addr: 0x5100, offset: 0 }]];
    let next = snap.search_next_level(&frontier, 0x400);
    assert_eq!(
        next,
        vec![
            vec![Step { addr: 0x5040, offset: 8 }, Step { addr: 0x5100, offset: 0 }],
            vec![Step { addr: 0x5080, offset: 8 }, Step { addr: 0x5100, offset: 0 }],
        ]
    );
}

#[test]
fn chain_of_three_is_found_after_three_levels() {
    let mut snap = Snapshot::new(exe());
    let main = words_with(0x1000, 0x2000, &[(0x1008, 0x5020)]);
    let heap = words_with(0x5000, 0x6000, &[(0x5020, 0x5038), (0x5040, 0x50f0)]);
    snap.push_region(region(0x1000, 0x2000, Backing::File(exe())), main).unwrap();
    snap.push_region(region(0x5000, 0x6000, Backing::Anonymous), heap).unwrap();

    let expected = vec![
        Step { addr: 0x1008, offset: 0 },
        Step { addr: 0x5020, offset: 8 },
        Step { addr: 0x5040, offset: 0x10 },
        Step { addr: 0x5100, offset: 0 },
    ];

    // after two levels the chain's head is not yet in the main image
    let frontier = snap.search_to_depth(0x5100, 0x400, 2);
    assert_eq!(frontier.len(), 1);
    assert!(snap.candidates_in(&frontier).is_empty());

    // after exactly three levels the full chain appears, head-first
    let frontier = snap.search_to_depth(0x5100, 0x400, 3);
    assert_eq!(frontier, vec![expected.clone()]);
    let candidates = snap.candidates_in(&frontier);
    assert_eq!(candidates, vec![expected]);
}

#[test]
fn end_to_end_scenario() {
    // target 0x7000; one main-image region, one heap region holding
    // 0x6ff0 = target - 0x10 at 0x3008, the main image holding
    // 0x3000 = 0x3008 - 0x8 at 0x1008, and a region covering the target
    let mut snap = Snapshot::new(exe());
    let main = words_with(0x1000, 0x2000, &[(0x1008, 0x3000)]);
    let heap = words_with(0x3000, 0x4000, &[(0x3008, 0x6ff0)]);
    let stack = words_with(0x6000, 0x8000, &[]);
    snap.push_region(region(0x1000, 0x2000, Backing::File(exe())), main).unwrap();
    snap.push_region(region(0x3000, 0x4000, Backing::Anonymous), heap).unwrap();
    snap.push_region(region(0x6000, 0x8000, Backing::Anonymous), stack).unwrap();

    // level 1 discovers offset 0x10 at address 0x3008
    let level1 = snap.search_to_depth(0x7000, 0x400, 1);
    assert_eq!(
        level1,
        vec![vec![Step { addr: 0x3008, offset: 0x10 }, Step { addr: 0x7000, offset: 0 }]]
    );
    assert!(snap.candidates_in(&level1).is_empty());

    // level 2 discovers offset 0x8 at address 0x1008, in the main image
    let level2 = snap.search_to_depth(0x7000, 0x400, 2);
    let expected = vec![
        Step { addr: 0x1008, offset: 0x8 },
        Step { addr: 0x3008, offset: 0x10 },
        Step { addr: 0x7000, offset: 0 },
    ];
    assert_eq!(level2, vec![expected.clone()]);
    assert_eq!(snap.candidates_in(&level2), vec![expected]);
}

#[test]
fn parses_hex_literals() {
    assert_eq!(parse_address(&b"0x7000".to_vec()), Some(0x7000));
    assert_eq!(parse_address(&b"0xDeadBeef".to_vec()), Some(0xdead_beef));
    assert_eq!(parse_address(&b"0xffffffffffffffff".to_vec()), Some(u64::MAX));
    assert_eq!(parse_address(&b"0x10000000000000000".to_vec()), None);
    assert_eq!(parse_address(&b"0x".to_vec()), None);
    assert_eq!(parse_address(&b"0xg1".to_vec()), None);
}

#[test]
fn parses_decimal_literals() {
    assert_eq!(parse_address(&b"1234".to_vec()), Some(1234));
    assert_eq!(parse_address(&b"007".to_vec()), Some(7));
    assert_eq!(parse_address(&b"18446744073709551615".to_vec()), Some(u64::MAX));
    assert_eq!(parse_address(&b"18446744073709551616".to_vec()), None);
    assert_eq!(parse_address(&b"".to_vec()), None);
    assert_eq!(parse_address(&b"12a4".to_vec()), None);
    // only a lower-case 0x prefix selects hexadecimal
    assert_eq!(parse_address(&b"0X10".to_vec()), None);
}

#[test]
fn little_endian_word() {
    assert_eq!(word32_from_le(&vec![0x78, 0x56, 0x34, 0x12]), 0x1234_5678);
    assert_eq!(word32_from_le(&vec![0, 0, 0, 0]), 0);
    assert_eq!(word32_from_le(&vec![0xff, 0xff, 0xff, 0xff]), u32::MAX);
}
