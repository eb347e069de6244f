//! Names, times and entries by themselves.

use embedded_sdmmc::block::{BlockCount, BlockIdx};
use embedded_sdmmc::entry::{Attributes, ClusterId, DirEntry, FatType, OnDiskDirEntry};
use embedded_sdmmc::lfn_buffer::LfnBuffer;
use embedded_sdmmc::long_name::{same_lower_case, validate_long_filename};
use embedded_sdmmc::name::{FilenameError, ShortFileName};
use embedded_sdmmc::time::Timestamp;

#[test]
fn short_names_are_stored_in_upper_case_with_spaces() {
    assert_eq!(ShortFileName::create_from_str("hello.txt").unwrap().contents, *b"HELLO   TXT");
    assert_eq!(ShortFileName::create_from_str("HELLO.TXT").unwrap().contents, *b"HELLO   TXT");
    assert_eq!(ShortFileName::create_from_str("12345678.ABC").unwrap().contents, *b"12345678ABC");
    assert_eq!(ShortFileName::create_from_str("FOOBAR").unwrap().contents, *b"FOOBAR     ");
    assert_eq!(ShortFileName::create_from_str("").unwrap(), ShortFileName::this_dir());
    assert_eq!(ShortFileName::create_from_str(".").unwrap(), ShortFileName::this_dir());
    assert_eq!(ShortFileName::create_from_str("..").unwrap(), ShortFileName::parent_dir());
    assert_eq!(ShortFileName::this_dir().contents, *b".          ");
    assert_eq!(ShortFileName::parent_dir().contents, *b"..         ");
}

#[test]
fn short_names_that_cannot_be_used_are_refused() {
    let refused = |name: &str| ShortFileName::create_from_str(name).unwrap_err();
    assert_eq!(refused("123456789"), FilenameError::NameTooLong);
    assert_eq!(refused("12345678.ABCD"), FilenameError::NameTooLong);
    assert_eq!(refused("A+B"), FilenameError::InvalidCharacter);
    assert_eq!(refused("A B"), FilenameError::InvalidCharacter);
    assert_eq!(refused("A\u{1f600}"), FilenameError::InvalidCharacter);
    assert_eq!(refused(".TXT"), FilenameError::MisplacedPeriod);
    assert_eq!(refused("A.B.C"), FilenameError::MisplacedPeriod);
}

#[test]
fn a_short_name_has_a_checksum() {
    fn sum(name: &[u8; 11]) -> u8 {
        name.iter().fold(0u8, |s, b| s.rotate_right(1).wrapping_add(*b))
    }
    for name in [b"HELLO   TXT", b"AREALB~1EPU", b"           "] {
        assert_eq!(ShortFileName { contents: *name }.csum(), sum(name));
    }
    assert_eq!(ShortFileName { contents: *b"README  TXT" }.csum(), 0x73);
    let one = ShortFileName { contents: *b"HELLO   TXT" };
    assert!(one.is_same(&ShortFileName { contents: *b"HELLO   TXT" }));
    assert!(!one.is_same(&ShortFileName { contents: *b"HELLO   TXS" }));
}

#[test]
fn long_names_are_measured_in_code_units() {
    assert_eq!(validate_long_filename("A Real Book.epub"), Ok(16));
    assert_eq!(validate_long_filename("\u{1f600}"), Ok(2));
    assert_eq!(validate_long_filename(&"x".repeat(255)), Ok(255));
}

#[test]
fn long_names_that_cannot_be_used_are_refused() {
    let refused = |name: &str| validate_long_filename(name).unwrap_err();
    assert_eq!(refused(""), FilenameError::FilenameEmpty);
    assert_eq!(refused(&"x".repeat(256)), FilenameError::NameTooLong);
    for name in ["a?b", "a/b", "a\\b", "a:b", "a*b", "a\"b", "a<b", "a>b", "a|b", "a\u{1f}b"] {
        assert_eq!(refused(name), FilenameError::InvalidCharacter, "{}", name);
    }
}

#[test]
fn lower_case_forms_are_compared_as_a_whole() {
    assert!(same_lower_case(&['a'], &['a']));
    assert!(same_lower_case(&[], &[]));
    assert!(!same_lower_case(&['a'], &['b']));
    assert!(!same_lower_case(&['i', '\u{307}'], &['i']));
}

#[test]
fn a_point_in_time_is_stored_to_two_seconds() {
    let t = Timestamp {
        year_since_1970: 33,
        zero_indexed_month: 3,
        zero_indexed_day: 3,
        hours: 13,
        minutes: 30,
        seconds: 5,
    };
    let data = t.serialize_to_fat();
    // 23 years, April, the 4th; 13 hours, 30 minutes, twice 2 seconds.
    let time: u16 = (13 << 11) | (30 << 5) | 2;
    let date: u16 = (23 << 9) | (4 << 5) | 4;
    assert_eq!(data[0..2], time.to_le_bytes());
    assert_eq!(data[2..4], date.to_le_bytes());
    assert_eq!(Timestamp::from_fat(date, time), Timestamp { seconds: 4, ..t });
    // A month or a day of zero counts as the first.
    let zero = Timestamp::from_fat(0, 0);
    assert_eq!((zero.zero_indexed_month, zero.zero_indexed_day), (0, 0));
    assert_eq!(zero.year_since_1970, 10);
}

#[test]
fn an_entry_is_stored_in_32_bytes() {
    let t = Timestamp::from_fat(0x2E84, 0x6BC2);
    let mut entry = DirEntry::new(
        ShortFileName { contents: *b"HELLO   TXT" },
        Attributes(Attributes::ARCHIVE),
        ClusterId(0x0123_4567),
        t,
        BlockIdx(9),
        96,
    );
    assert_eq!(entry.size, 0);
    entry.size = 0x89AB_CDEF;
    let raw = entry.serialize(FatType::Fat32);
    assert_eq!(raw[0..11], *b"HELLO   TXT");
    assert_eq!(raw[11], 0x20);
    assert_eq!(raw[14..18], [0xC2, 0x6B, 0x84, 0x2E]);
    assert_eq!(raw[20..22], [0x23, 0x01]);
    assert_eq!(raw[22..26], [0xC2, 0x6B, 0x84, 0x2E]);
    assert_eq!(raw[26..28], [0x67, 0x45]);
    assert_eq!(raw[28..32], [0xEF, 0xCD, 0xAB, 0x89]);
    let on_disk = OnDiskDirEntry { data: raw };
    assert!(on_disk.is_valid() && !on_disk.is_end() && !on_disk.is_lfn());
    assert!(on_disk.matches(&entry.name));
    assert_eq!(on_disk.get_entry(FatType::Fat32, BlockIdx(9), 96), entry);

    // A 16-bit table has no room for the upper half of the cluster number.
    let raw = entry.serialize(FatType::Fat16);
    assert_eq!(raw[20..22], [0, 0]);
    let back = OnDiskDirEntry { data: raw }.get_entry(FatType::Fat16, BlockIdx(9), 96);
    assert_eq!(back.cluster, ClusterId(0x4567));
}

#[test]
fn a_directory_without_a_cluster_is_the_root() {
    let mut raw = [0u8; 32];
    raw[0..11].copy_from_slice(b"..         ");
    raw[11] = Attributes::DIRECTORY;
    let entry = OnDiskDirEntry { data: raw }.get_entry(FatType::Fat32, BlockIdx(0), 0);
    assert_eq!(entry.cluster, ClusterId(ClusterId::ROOT_DIR));
    raw[11] = 0;
    let entry = OnDiskDirEntry { data: raw }.get_entry(FatType::Fat32, BlockIdx(0), 0);
    assert_eq!(entry.cluster, ClusterId(ClusterId::EMPTY));
}

#[test]
fn slots_tell_what_they_hold() {
    let mut block = [0u8; 512];
    block[32] = 0xE5;
    block[64] = 0x42;
    block[64 + 11] = Attributes::LFN;
    block[64 + 13] = 0x99;
    block[64 + 1..64 + 3].copy_from_slice(&0x0041u16.to_le_bytes());
    block[64 + 14..64 + 16].copy_from_slice(&0x0042u16.to_le_bytes());
    block[64 + 30..64 + 32].copy_from_slice(&0xFFFFu16.to_le_bytes());
    assert!(OnDiskDirEntry::new(&block, 0).is_end());
    let deleted = OnDiskDirEntry::new(&block, 32);
    assert!(!deleted.is_end() && !deleted.is_valid());
    let piece = OnDiskDirEntry::new(&block, 64).lfn_contents().expect("a piece");
    assert!(piece.is_start);
    assert_eq!(piece.sequence, 2);
    assert_eq!(piece.csum, 0x99);
    assert_eq!((piece.units[0], piece.units[5], piece.units[12]), (0x41, 0x42, 0xFFFF));
    assert!(OnDiskDirEntry::new(&block, 32).lfn_contents().is_none());
}

fn units(text: &str) -> [u16; 13] {
    let mut row = [0xFFFFu16; 13];
    let encoded: Vec<u16> = text.encode_utf16().collect();
    row[..encoded.len()].copy_from_slice(&encoded);
    if encoded.len() < 13 {
        row[encoded.len()] = 0;
    }
    row
}

#[test]
fn a_buffer_gathers_a_name_from_its_end() {
    let mut buffer = LfnBuffer::new(64);
    buffer.push(&units("k.epub"));
    buffer.push(&units("The Whole Boo"));
    assert_eq!(buffer.as_str(), "The Whole Book.epub");
    buffer.clear();
    assert_eq!(buffer.as_str(), "");
}

#[test]
fn a_buffer_joins_halves_that_stand_in_two_pieces() {
    let mut front = units("123456789012");
    front[12] = 0xD83D;
    let mut back = units("?!");
    back[0] = 0xDE00;
    let mut buffer = LfnBuffer::new(64);
    buffer.push(&back);
    buffer.push(&front);
    assert_eq!(buffer.as_str(), "123456789012\u{1f600}!");
    // A half that stays alone is no character.
    buffer.clear();
    buffer.push(&front);
    assert_eq!(buffer.as_str(), "123456789012\u{fffd}");
}

#[test]
fn a_buffer_that_is_too_small_ends_up_empty() {
    let mut buffer = LfnBuffer::new(18);
    buffer.push(&units("k.epub"));
    buffer.push(&units("The Whole Boo"));
    assert_eq!(buffer.as_str(), "");
    let mut buffer = LfnBuffer::new(19);
    buffer.push(&units("k.epub"));
    buffer.push(&units("The Whole Boo"));
    assert_eq!(buffer.as_str(), "The Whole Book.epub");
}

#[test]
fn bytes_are_counted_in_blocks() {
    assert_eq!(BlockCount::from_bytes(0), BlockCount(0));
    assert_eq!(BlockCount::from_bytes(1), BlockCount(1));
    assert_eq!(BlockCount::from_bytes(512), BlockCount(1));
    assert_eq!(BlockCount::from_bytes(513), BlockCount(2));
    assert_eq!(BlockCount::from_bytes(u32::MAX), BlockCount(0x80_0000));
}
