use ddrescue_mapfile::{
    mapfile, Address, BadSectors, Block, BlockStatus, CurrentState, CurrentStatus, IndexError,
    MapError, MapFile, ParseError, ParseErrorKind, Size,
};

fn map_of(blocks: Vec<(u64, u64, BlockStatus)>) -> MapFile {
    MapFile {
        current_state: CurrentState {
            current_pos: Address(0),
            current_status: CurrentStatus::Finished,
            current_pass: None,
        },
        blocks: blocks
            .into_iter()
            .map(|(pos, size, status)| Block { pos: Address(pos), size: Size(size), status })
            .collect(),
    }
}

#[test]
fn test_contains_bad_sectors() {
    let bad_sectors = BadSectors::new(vec![(1, 5), (8, 10), (15, 19)]);
    let intervals = vec![
        (6, 7, false),
        (11, 14, false),
        (2, 3, true),
        (5, 7, true),
        (6, 8, true),
        (3, 9, true),
        (3, 16, true),
    ];
    for (start, end, expected) in intervals {
        assert_eq!(
            bad_sectors.contains_bad_sector(start, end).is_err(),
            expected,
            "{:?} {:?} {:?}",
            start,
            end,
            expected
        );
    }
}

#[test]
fn the_range_that_is_met_is_returned() {
    let bad_sectors = BadSectors::new(vec![(1, 5), (8, 10), (15, 19)]);
    assert_eq!(bad_sectors.contains_bad_sector(6, 7), Ok(()));
    assert_eq!(bad_sectors.contains_bad_sector(11, 14), Ok(()));
    assert_eq!(bad_sectors.contains_bad_sector(0, 0), Ok(()));
    assert_eq!(bad_sectors.contains_bad_sector(20, 30), Ok(()));
    assert_eq!(bad_sectors.contains_bad_sector(2, 3), Err((1, 5)));
    assert_eq!(bad_sectors.contains_bad_sector(5, 7), Err((1, 5)));
    assert_eq!(bad_sectors.contains_bad_sector(6, 8), Err((8, 10)));
    assert_eq!(bad_sectors.contains_bad_sector(3, 9), Err((8, 10)));
    assert_eq!(bad_sectors.contains_bad_sector(3, 16), Err((15, 19)));
    assert_eq!(bad_sectors.contains_bad_sector(0, u64::MAX), Err((15, 19)));
    assert_eq!(bad_sectors.contains_bad_sector(9, 9), Err((8, 10)));
    assert_eq!(bad_sectors.intervals(), &vec![(1, 5), (8, 10), (15, 19)]);
}

#[test]
fn queries_that_share_a_byte_are_reported() {
    let bad_sectors = BadSectors::new(vec![(5, 7)]);
    assert_eq!(bad_sectors.contains_bad_sector(5, 7), Err((5, 7)));
    assert_eq!(bad_sectors.contains_bad_sector(4, 6), Err((5, 7)));
    assert_eq!(bad_sectors.contains_bad_sector(6, 8), Err((5, 7)));
    assert_eq!(bad_sectors.contains_bad_sector(2, 4), Ok(()));
    assert_eq!(bad_sectors.contains_bad_sector(8, 9), Ok(()));
}

#[test]
fn queries_that_touch_a_bad_range_are_reported() {
    let bad_sectors = BadSectors::new(vec![(5, 7)]);
    assert_eq!(bad_sectors.contains_bad_sector(2, 5), Err((5, 7)));
    assert_eq!(bad_sectors.contains_bad_sector(7, 9), Err((5, 7)));
    assert_eq!(bad_sectors.contains_bad_sector(6, 6), Err((5, 7)));
}

#[test]
fn an_empty_index_reports_nothing() {
    let bad_sectors = BadSectors::from_mapfile(&map_of(vec![])).unwrap();
    assert!(bad_sectors.intervals().is_empty());
    for (start, end) in [(0, 0), (0, 1), (5, 3), (0, u64::MAX), (u64::MAX, u64::MAX)] {
        assert_eq!(bad_sectors.contains_bad_sector(start, end), Ok(()));
    }
    assert_eq!(BadSectors::new(vec![]).contains_bad_sector(1, 2), Ok(()));
}

#[test]
fn blocks_in_order_give_their_bad_ranges() {
    let map = map_of(vec![
        (0, 0x10, BlockStatus::Finished),
        (0x10, 0x10, BlockStatus::BadSector),
        (0x20, 0x10, BlockStatus::Finished),
        (0x40, 0x10, BlockStatus::Untried),
        (0x50, 0, BlockStatus::NonTrimmed),
        (0x50, 0x10, BlockStatus::NonScraped),
        (0x60, 0x10, BlockStatus::Finished),
    ]);
    let bad_sectors = BadSectors::from_mapfile(&map).unwrap();
    assert_eq!(
        bad_sectors.intervals(),
        &vec![(0x10, 0x20), (0x40, 0x50), (0x50, 0x50), (0x50, 0x60)]
    );
    assert_eq!(bad_sectors.contains_bad_sector(0, 0xf), Ok(()));
    assert_eq!(bad_sectors.contains_bad_sector(0x21, 0x3f), Ok(()));
    assert_eq!(bad_sectors.contains_bad_sector(0x61, 0x70), Ok(()));
    assert_eq!(bad_sectors.contains_bad_sector(0x1f, 0x30), Err((0x10, 0x20)));
    assert_eq!(bad_sectors.contains_bad_sector(0x30, 0x41), Err((0x40, 0x50)));
    assert_eq!(bad_sectors.contains_bad_sector(0x55, 0x58), Err((0x50, 0x60)));
}

#[test]
fn a_block_that_starts_early_is_an_error() {
    let map = map_of(vec![
        (0, 0x10, BlockStatus::Finished),
        (0x10, 0x10, BlockStatus::BadSector),
        (0x1f, 0x10, BlockStatus::Finished),
        (0, 0x10, BlockStatus::Finished),
    ]);
    assert_eq!(
        BadSectors::from_mapfile(&map).err(),
        Some(IndexError::OverlappingBlocks { index: 2 })
    );
    let map = map_of(vec![(5, 1, BlockStatus::Finished), (5, 1, BlockStatus::Finished)]);
    assert_eq!(
        BadSectors::from_mapfile(&map).err(),
        Some(IndexError::OverlappingBlocks { index: 1 })
    );
    let map = map_of(vec![(5, 0, BlockStatus::BadSector), (5, 1, BlockStatus::BadSector)]);
    assert_eq!(BadSectors::from_mapfile(&map).unwrap().intervals(), &vec![(5, 5), (5, 6)]);
}

#[test]
fn a_block_beyond_the_last_offset_is_an_error() {
    let map = map_of(vec![(u64::MAX, 0, BlockStatus::BadSector)]);
    assert_eq!(
        BadSectors::from_mapfile(&map).unwrap().intervals(),
        &vec![(u64::MAX, u64::MAX)]
    );
    let map = map_of(vec![(u64::MAX - 1, 1, BlockStatus::BadSector)]);
    assert_eq!(
        BadSectors::from_mapfile(&map).unwrap().intervals(),
        &vec![(u64::MAX - 1, u64::MAX)]
    );
    let map = map_of(vec![(0, 1, BlockStatus::Finished), (u64::MAX, 1, BlockStatus::Finished)]);
    assert_eq!(
        BadSectors::from_mapfile(&map).err(),
        Some(IndexError::AddressOverflow { index: 1 })
    );
}

#[test]
fn extents_are_counted_in_sectors() {
    let bad_sectors = BadSectors::new(vec![(4096, 6144)]);
    assert_eq!(bad_sectors.test_bad(0, 2047), None);
    assert_eq!(bad_sectors.test_bad(0, 2048), None);
    assert_eq!(bad_sectors.test_bad(1, 2047), None);
    assert_eq!(bad_sectors.test_bad(1, 2048), Some((4096, 6144)));
    assert_eq!(bad_sectors.test_bad(2, 0), Some((4096, 6144)));
    assert_eq!(bad_sectors.test_bad(2, 1), Some((4096, 6144)));
    assert_eq!(bad_sectors.test_bad(3, 0), Some((4096, 6144)));
    assert_eq!(bad_sectors.test_bad(3, 1), Some((4096, 6144)));
    assert_eq!(bad_sectors.test_bad(4, 100), None);
    assert_eq!(bad_sectors.test_bad(u32::MAX, u32::MAX), None);
    let far = BadSectors::new(vec![(u32::MAX as u64 * 2048 + u32::MAX as u64, u64::MAX)]);
    assert_eq!(
        far.test_bad(u32::MAX, u32::MAX),
        Some((u32::MAX as u64 * 2048 + u32::MAX as u64, u64::MAX))
    );
    assert_eq!(far.test_bad(u32::MAX, u32::MAX - 1), None);
}

#[test]
fn from_text_to_index() {
    let text = "# Rescue Logfile.
# current_pos  current_status
0x24F35400     +
#      pos        size  status
0x00000000  0x2237B000  +
0x2237B000  0x02BBA800  -
";
    let bad_sectors = mapfile(text).unwrap();
    assert_eq!(bad_sectors.intervals(), &vec![(0x2237B000, 0x24F35800)]);
    assert_eq!(
        mapfile("0x0 +\n0x0 0x10 +\n0x8 0x10 -\n").err(),
        Some(MapError::Index(IndexError::OverlappingBlocks { index: 1 }))
    );
    assert_eq!(
        mapfile("0x0 +\n0xffffffffffffffff 0x1 -\n").err(),
        Some(MapError::Index(IndexError::AddressOverflow { index: 0 }))
    );
    assert_eq!(
        mapfile("0x0 +\n0x0 0x10 +;").err(),
        Some(MapError::Parse(ParseError { kind: ParseErrorKind::TrailingInput, offset: 16 }))
    );
}
