//! Whole volumes: formatted in memory, opened, changed and looked at again.

use embedded_sdmmc::block::{Block, BlockCache, BlockCount, BlockDevice, BlockIdx};
use embedded_sdmmc::boot::{parse_volume, VolumeType};
use embedded_sdmmc::entry::{Attributes, ClusterId, DirEntry, DirectoryInfo, FatType, OnDiskDirEntry};
use embedded_sdmmc::error::Error;
use embedded_sdmmc::iterate::{EntryVisitor, Watcher};
use embedded_sdmmc::lfn_buffer::LfnBuffer;
use embedded_sdmmc::listing::LongNameVisitor;
use embedded_sdmmc::long_name::validate_long_filename;
use embedded_sdmmc::name::{FilenameError, ShortFileName};
use embedded_sdmmc::time::{TimeSource, Timestamp};
use embedded_sdmmc::volume::{FatSpecificInfo, FatVolume};
use std::cell::{Cell, RefCell};
use std::collections::HashMap;
use std::ops::ControlFlow;
use std::rc::Rc;

#[derive(Debug, Clone, Copy, PartialEq, Eq)]
struct Injected;

/// Which transfers are to fail.
#[derive(Default)]
struct Faults {
    reads: Cell<Option<(u32, u32)>>,
    writes: Cell<Option<(u32, u32)>>,
    only_write: Cell<Option<u32>>,
    writes_from: Cell<Option<u32>>,
    writes_seen: Cell<u32>,
    injected: Cell<u32>,
}

/// A disk in memory, of which blocks that were never written are zero.
#[derive(Clone)]
struct RamDisk {
    blocks: Rc<RefCell<HashMap<u32, [u8; 512]>>>,
    faults: Rc<Faults>,
}

impl RamDisk {
    fn new() -> RamDisk {
        RamDisk {
            blocks: Rc::new(RefCell::new(HashMap::new())),
            faults: Rc::new(Faults::default()),
        }
    }

    fn get(&self, block: u32) -> [u8; 512] {
        self.blocks.borrow().get(&block).copied().unwrap_or([0; 512])
    }

    fn set(&self, block: u32, contents: [u8; 512]) {
        self.blocks.borrow_mut().insert(block, contents);
    }

    fn put(&self, block: u32, at: usize, bytes: &[u8]) {
        let mut contents = self.get(block);
        contents[at..at + bytes.len()].copy_from_slice(bytes);
        self.set(block, contents);
    }
}

fn hits(region: Option<(u32, u32)>, start: u32, count: u32) -> bool {
    match region {
        Some((from, to)) => start < to && start + count > from,
        None => false,
    }
}

impl BlockDevice for RamDisk {
    type Error = Injected;

    fn read(&self, blocks: &mut [Block], start: BlockIdx) -> Result<(), Injected> {
        if hits(self.faults.reads.get(), start.0, blocks.len() as u32) {
            self.faults.injected.set(self.faults.injected.get() + 1);
            return Err(Injected);
        }
        for (i, block) in blocks.iter_mut().enumerate() {
            block.contents = self.get(start.0 + i as u32);
        }
        Ok(())
    }

    fn write(&mut self, blocks: &[Block], start: BlockIdx) -> Result<(), Injected> {
        let faults = &self.faults;
        if hits(faults.writes.get(), start.0, blocks.len() as u32) {
            let seen = faults.writes_seen.get() + 1;
            faults.writes_seen.set(seen);
            let fail = match (faults.writes_from.get(), faults.only_write.get()) {
                (Some(from), _) => seen >= from,
                (None, Some(n)) => seen == n,
                (None, None) => true,
            };
            if fail {
                faults.injected.set(faults.injected.get() + 1);
                return Err(Injected);
            }
        }
        for (i, block) in blocks.iter().enumerate() {
            self.set(start.0 + i as u32, block.contents);
        }
        Ok(())
    }

    fn num_blocks(&self) -> Result<BlockCount, Injected> {
        Ok(BlockCount(u32::MAX))
    }
}

/// It is always the 4th of April 2003, at 13:30:05.
struct Clock;

const NOW: Timestamp = Timestamp {
    year_since_1970: 33,
    zero_indexed_month: 3,
    zero_indexed_day: 3,
    hours: 13,
    minutes: 30,
    seconds: 5,
};

/// As much of that as a directory entry stores.
const STORED: Timestamp = Timestamp { seconds: 4, ..NOW };

impl TimeSource for Clock {
    fn get_timestamp(&self) -> Timestamp {
        NOW
    }
}

const FAT16_START: u32 = 100;
const FAT16_TABLE: u32 = FAT16_START + 1;
const FAT16_MIRROR: u32 = FAT16_TABLE + 20;
const FAT16_ROOT: u32 = FAT16_MIRROR + 20;
const FAT16_DATA: u32 = FAT16_ROOT + 32;

const FAT32_START: u32 = 1000;
const FAT32_INFO: u32 = FAT32_START + 1;
const FAT32_TABLE: u32 = FAT32_START + 32;
const FAT32_MIRROR: u32 = FAT32_TABLE + 550;
const FAT32_DATA: u32 = FAT32_MIRROR + 550;

const ROOT: ClusterId = ClusterId(ClusterId::ROOT_DIR);

/// A FAT16 volume of 5000 clusters of 2048 bytes.
fn fat16_disk() -> RamDisk {
    let disk = RamDisk::new();
    let b = FAT16_START;
    disk.put(b, 11, &512u16.to_le_bytes());
    disk.put(b, 13, &[4]);
    disk.put(b, 14, &1u16.to_le_bytes());
    disk.put(b, 16, &[2]);
    disk.put(b, 17, &512u16.to_le_bytes());
    disk.put(b, 19, &20073u16.to_le_bytes());
    disk.put(b, 22, &20u16.to_le_bytes());
    disk.put(b, 43, b"P-FAT16    ");
    disk.put(b, 510, &[0x55, 0xAA]);
    for table in [FAT16_TABLE, FAT16_MIRROR] {
        disk.put(table, 0, &[0xF8, 0xFF, 0xFF, 0xFF]);
    }
    disk
}

/// A FAT32 volume of 70000 clusters of 4096 bytes.
fn fat32_disk() -> RamDisk {
    let disk = RamDisk::new();
    let b = FAT32_START;
    disk.put(b, 11, &512u16.to_le_bytes());
    disk.put(b, 13, &[8]);
    disk.put(b, 14, &32u16.to_le_bytes());
    disk.put(b, 16, &[2]);
    disk.put(b, 32, &561_132u32.to_le_bytes());
    disk.put(b, 36, &550u32.to_le_bytes());
    disk.put(b, 44, &2u32.to_le_bytes());
    disk.put(b, 48, &1u16.to_le_bytes());
    disk.put(b, 71, b"P-FAT32    ");
    disk.put(b, 510, &[0x55, 0xAA]);
    disk.put(FAT32_INFO, 0, &0x4161_5252u32.to_le_bytes());
    disk.put(FAT32_INFO, 484, &0x6141_7272u32.to_le_bytes());
    disk.put(FAT32_INFO, 488, &69_999u32.to_le_bytes());
    disk.put(FAT32_INFO, 492, &3u32.to_le_bytes());
    disk.put(FAT32_INFO, 508, &0xAA55_0000u32.to_le_bytes());
    for table in [FAT32_TABLE, FAT32_MIRROR] {
        disk.put(table, 0, &0x0FFF_FFF8u32.to_le_bytes());
        disk.put(table, 4, &0x0FFF_FFFFu32.to_le_bytes());
        disk.put(table, 8, &0x0FFF_FFFFu32.to_le_bytes());
    }
    disk
}

/// A volume that is open, and the disk that it is on.
struct Card {
    disk: RamDisk,
    cache: BlockCache<RamDisk>,
    volume: FatVolume,
}

#[derive(Debug, Clone, PartialEq, Eq)]
struct Listed {
    entry: DirEntry,
    long_name: Option<String>,
}

/// Takes down what it is shown.
struct Collector {
    seen: Vec<Listed>,
    enough: usize,
}

impl LongNameVisitor for Collector {
    type State = ();

    fn visit(&mut self, entry: &DirEntry, long_name: Option<&str>) -> ControlFlow<()> {
        self.seen.push(Listed { entry: *entry, long_name: long_name.map(String::from) });
        if self.seen.len() >= self.enough {
            ControlFlow::Break(())
        } else {
            ControlFlow::Continue(())
        }
    }
}

impl Watcher for Collector {
    type State = ();
}

impl EntryVisitor for Collector {
    fn visit(&mut self, entry: &DirEntry, raw: &OnDiskDirEntry) -> ControlFlow<()> {
        if raw.is_lfn() {
            return ControlFlow::Continue(());
        }
        self.seen.push(Listed { entry: *entry, long_name: None });
        if self.seen.len() >= self.enough {
            ControlFlow::Break(())
        } else {
            ControlFlow::Continue(())
        }
    }
}

fn short(name: &str) -> ShortFileName {
    ShortFileName::create_from_str(name).unwrap()
}

/// A short name the way it is written with a dot.
fn text(name: &ShortFileName) -> String {
    let base: String = name.contents[..8].iter().map(|b| *b as char).collect();
    let ext: String = name.contents[8..].iter().map(|b| *b as char).collect();
    if ext.trim_end().is_empty() {
        base.trim_end().to_string()
    } else {
        format!("{}.{}", base.trim_end(), ext.trim_end())
    }
}

impl Card {
    fn fat16() -> Card {
        Card::open(fat16_disk(), FAT16_START, 20073)
    }

    fn fat32() -> Card {
        Card::open(fat32_disk(), FAT32_START, 561_132)
    }

    fn open(disk: RamDisk, start: u32, blocks: u32) -> Card {
        let mut cache = BlockCache::new(disk.clone());
        let VolumeType::Fat(volume) =
            parse_volume(&mut cache, BlockIdx(start), BlockCount(blocks)).expect("open volume");
        Card { disk, cache, volume }
    }

    fn faults(&self) -> Rc<Faults> {
        self.disk.faults.clone()
    }

    fn find(&mut self, dir: ClusterId, name: &str) -> Result<DirEntry, Error<Injected>> {
        self.volume.find_directory_entry(
            &mut self.cache,
            &DirectoryInfo { cluster: dir },
            &short(name),
        )
    }

    fn find_long(&mut self, dir: ClusterId, name: &str) -> Result<DirEntry, Error<Injected>> {
        self.volume.find_directory_entry_by_lfn(
            &mut self.cache,
            &DirectoryInfo { cluster: dir },
            name,
        )
    }

    /// Is a name taken?
    fn taken(&mut self, dir: ClusterId, name: &str) -> bool {
        let info = DirectoryInfo { cluster: dir };
        self.volume.name_is_taken(&mut self.cache, &info, name).expect("ask for a name")
    }

    /// Create an empty file with a short name.
    fn create(&mut self, dir: ClusterId, name: &str) -> Result<DirEntry, Error<Injected>> {
        match self.find(dir, name) {
            Ok(_) => return Err(Error::FileAlreadyExists),
            Err(Error::NotFound) => {}
            Err(e) => return Err(e),
        }
        self.volume.write_new_directory_entry(
            &mut self.cache,
            &Clock,
            dir,
            short(name),
            Attributes(Attributes::ARCHIVE),
            ClusterId(ClusterId::EMPTY),
        )
    }

    /// An alias for a long name that is not taken yet.
    fn alias(&mut self, dir: ClusterId, name: &str) -> Result<ShortFileName, Error<Injected>> {
        validate_long_filename(name).map_err(Error::FilenameError)?;
        let info = DirectoryInfo { cluster: dir };
        if self.volume.name_is_taken(&mut self.cache, &info, name)? {
            return Err(Error::FileAlreadyExists);
        }
        self.volume.generate_short_alias(&mut self.cache, &info, name)
    }

    /// Create an empty file with a long name.
    fn create_long(&mut self, dir: ClusterId, name: &str) -> Result<DirEntry, Error<Injected>> {
        let alias = self.alias(dir, name)?;
        self.volume.write_new_directory_entry_lfn(
            &mut self.cache,
            &Clock,
            dir,
            name,
            alias,
            Attributes(Attributes::ARCHIVE),
        )
    }

    /// Give the chain of `source` a second name.
    fn link(
        &mut self,
        dir: ClusterId,
        name: &str,
        source: &DirEntry,
    ) -> Result<DirEntry, Error<Injected>> {
        let alias = self.alias(dir, name)?;
        self.volume.write_linked_directory_entry_lfn(&mut self.cache, dir, name, alias, source)
    }

    fn delete(&mut self, dir: ClusterId, name: &str) -> Result<(), Error<Injected>> {
        self.volume.delete_directory_entry(
            &mut self.cache,
            &DirectoryInfo { cluster: dir },
            &short(name),
        )
    }

    fn make_dir(&mut self, parent: ClusterId, name: &str) -> Result<(), Error<Injected>> {
        match self.find(parent, name) {
            Ok(_) => return Err(Error::FileAlreadyExists),
            Err(Error::NotFound) => {}
            Err(e) => return Err(e),
        }
        self.volume.make_dir(
            &mut self.cache,
            &Clock,
            parent,
            short(name),
            None,
            Attributes(Attributes::DIRECTORY),
        )
    }

    fn make_dir_long(&mut self, parent: ClusterId, name: &str) -> Result<(), Error<Injected>> {
        let alias = self.alias(parent, name)?;
        self.volume.make_dir(
            &mut self.cache,
            &Clock,
            parent,
            alias,
            Some(name),
            Attributes(Attributes::DIRECTORY),
        )
    }

    /// Make a directory, and give its cluster.
    fn new_dir(&mut self, name: &str) -> ClusterId {
        self.make_dir(ROOT, name).expect("make directory");
        self.find(ROOT, name).expect("find directory").cluster
    }

    fn list(&mut self, dir: ClusterId) -> Vec<Listed> {
        self.list_up_to(dir, 1024, usize::MAX)
    }

    fn list_up_to(&mut self, dir: ClusterId, capacity: usize, enough: usize) -> Vec<Listed> {
        let mut buffer = LfnBuffer::new(capacity);
        let mut collector = Collector { seen: Vec::new(), enough };
        self.volume
            .iterate_dir_lfn(
                &mut self.cache,
                &mut buffer,
                &DirectoryInfo { cluster: dir },
                &mut collector,
            )
            .expect("list");
        collector.seen
    }

    fn names(&mut self, dir: ClusterId) -> Vec<String> {
        let mut collector = Collector { seen: Vec::new(), enough: usize::MAX };
        self.volume
            .iterate_dir(&mut self.cache, &DirectoryInfo { cluster: dir }, &mut collector)
            .expect("iterate");
        collector.seen.iter().map(|l| text(&l.entry.name)).collect()
    }

    fn listed(&mut self, dir: ClusterId, long_name: &str) -> Option<DirEntry> {
        self.list(dir)
            .into_iter()
            .find(|l| l.long_name.as_deref() == Some(long_name))
            .map(|l| l.entry)
    }

    /// Append `body` to an empty file, and store its entry.
    fn write_body(&mut self, entry: &mut DirEntry, body: &[u8]) -> Result<(), Error<Injected>> {
        let per_cluster = self.volume.bytes_per_cluster() as usize;
        let mut last = None;
        for chunk in body.chunks(per_cluster) {
            let cluster = self.volume.alloc_cluster(&mut self.cache, last, false)?;
            if last.is_none() {
                entry.cluster = cluster;
            }
            let first = self.volume.cluster_to_block(cluster).0;
            for (i, piece) in chunk.chunks(512).enumerate() {
                let block = self.cache.blank_mut(BlockIdx(first + i as u32));
                block.contents[..piece.len()].copy_from_slice(piece);
                self.cache.write_back().map_err(Error::DeviceError)?;
            }
            last = Some(cluster);
        }
        entry.size = body.len() as u32;
        self.volume.write_entry_to_disk(&mut self.cache, entry)
    }

    fn read_body(&mut self, entry: &DirEntry) -> Vec<u8> {
        let per_cluster = self.volume.bytes_per_cluster() as usize;
        let mut body = Vec::new();
        let mut cluster = entry.cluster;
        while body.len() < entry.size as usize {
            let first = self.volume.cluster_to_block(cluster).0;
            for i in 0..per_cluster / 512 {
                let block = self.cache.read(BlockIdx(first + i as u32)).expect("read");
                body.extend_from_slice(&block.contents);
            }
            if body.len() < entry.size as usize {
                cluster = self.volume.next_cluster(&mut self.cache, cluster).expect("chain");
            }
        }
        body.truncate(entry.size as usize);
        body
    }

    /// What the first table and the second one say of a cluster.
    fn table(&self, cluster: u32) -> (u32, u32) {
        let (tables, width) = match self.volume.get_fat_type() {
            FatType::Fat16 => ([FAT16_TABLE, FAT16_MIRROR], 2),
            FatType::Fat32 => ([FAT32_TABLE, FAT32_MIRROR], 4),
        };
        let at = cluster * width;
        let read = |table: u32| -> u32 {
            let block = self.disk.get(table + at / 512);
            let at = (at % 512) as usize;
            let mut bytes = [0u8; 4];
            bytes[..width as usize].copy_from_slice(&block[at..at + width as usize]);
            u32::from_le_bytes(bytes)
        };
        (read(tables[0]), read(tables[1]))
    }
}

#[test]
fn find_dir_entry() {
    let mut card = Card::fat32();
    card.create(ROOT, "README.TXT").expect("create");
    let entry = card.find(ROOT, "README.TXT").expect("Find directory entry");
    assert!(entry.attributes.0 & Attributes::ARCHIVE != 0);
    assert!(!entry.attributes.is_directory());
    assert!(entry.attributes.0 & Attributes::HIDDEN == 0);
    assert!(entry.attributes.0 & Attributes::LFN != Attributes::LFN);
    assert!(entry.attributes.0 & Attributes::SYSTEM == 0);
    assert!(entry.attributes.0 & Attributes::VOLUME == 0);

    assert!(matches!(card.find(ROOT, "README.TXS"), Err(Error::NotFound)));
}

#[test]
fn delete_file() {
    let mut card = Card::fat32();
    card.create(ROOT, "README.TXT").expect("create");
    assert!(matches!(card.delete(ROOT, "README2.TXT"), Err(Error::NotFound)));
    card.delete(ROOT, "README.TXT").unwrap();
    assert!(matches!(card.delete(ROOT, "README.TXT"), Err(Error::NotFound)));
    assert!(matches!(card.find(ROOT, "README.TXT"), Err(Error::NotFound)));
}

#[test]
fn make_directory() {
    let mut card = Card::fat32();
    card.make_dir(ROOT, "12345678.ABC").unwrap();
    let dir = card.find(ROOT, "12345678.ABC").unwrap().cluster;

    let mut has_this = false;
    let mut has_parent = false;
    for item in card.list(dir) {
        let item = item.entry;
        if item.name == ShortFileName::parent_dir() {
            has_parent = true;
        } else if item.name == ShortFileName::this_dir() {
            has_this = true;
        } else {
            panic!("Unexpected item in new dir");
        }
        assert!(item.attributes.is_directory());
        assert_eq!(item.size, 0);
        assert_eq!(item.mtime, STORED);
        assert_eq!(item.ctime, STORED);
    }
    assert!(has_this);
    assert!(has_parent);

    let mut file = card.create(dir, "ABC.TXT").expect("open new file");
    card.write_body(&mut file, b"Hello").expect("write to new file");

    has_this = false;
    has_parent = false;
    let mut has_new_file = false;
    for item in card.list(dir) {
        let item = item.entry;
        assert_eq!(item.mtime, STORED);
        assert_eq!(item.ctime, STORED);
        if item.name == ShortFileName::parent_dir() {
            has_parent = true;
            assert!(item.attributes.is_directory());
            assert_eq!(item.size, 0);
        } else if item.name == ShortFileName::this_dir() {
            has_this = true;
            assert!(item.attributes.is_directory());
            assert_eq!(item.size, 0);
        } else if item.name == short("ABC.TXT") {
            has_new_file = true;
            assert_eq!(item.size, 5);
            assert!(!item.attributes.is_directory());
        } else {
            panic!("Unexpected item in new dir");
        }
    }
    assert!(has_this);
    assert!(has_parent);
    assert!(has_new_file);

    assert!(card.make_dir(ROOT, "12345678.ABC").is_err());
    let dir = card.find(ROOT, "12345678.ABC").expect("find new dir").cluster;
    card.find(dir, "ABC.TXT").expect("find new file");
}

#[test]
fn delete_directory() {
    let mut card = Card::fat32();
    card.make_dir(ROOT, "FOOBAR").unwrap();
    assert!(matches!(card.delete(ROOT, "FOO"), Err(Error::NotFound)));
    card.delete(ROOT, "FOOBAR").unwrap();
    assert!(matches!(card.delete(ROOT, "FOOBAR"), Err(Error::NotFound)));
    assert!(matches!(card.find(ROOT, "FOOBAR"), Err(Error::NotFound)));
}

#[test]
fn fat32_iterate_dir_break_stops_immediately() {
    let mut card = Card::fat32();
    let dir = card.new_dir("BREAKDIR");
    for i in 0..15 {
        card.create(dir, &format!("F{:07}.TXT", i)).expect("create file");
    }
    let mut collector = Collector { seen: Vec::new(), enough: 1 };
    card.volume
        .iterate_dir(&mut card.cache, &DirectoryInfo { cluster: dir }, &mut collector)
        .expect("iterate dir");
    assert_eq!(collector.seen.len(), 1);
    assert_eq!(card.list_up_to(dir, 64, 1).len(), 1);
    assert_eq!(card.names(dir).len(), 17);
}

#[test]
fn create_read_and_delete_long_named_files() {
    // A FAT16 subdirectory.
    let mut card = Card::fat16();
    let dir = card.new_dir("TEST");
    let mut file = card
        .create_long(dir, "Wireless upload compatibility.epub")
        .expect("create FAT16 LFN file");
    card.write_body(&mut file, b"EPUB-FAT16").unwrap();
    let found = card.listed(dir, "Wireless upload compatibility.epub").expect("listed");
    assert_eq!(found.size, 10);

    // A FAT32 directory with the LFN chain crossing a sector boundary.
    let mut card = Card::fat32();
    let dir = card.new_dir("LFNTEST");
    for index in 0..12 {
        card.create(dir, &format!("FILL{index:04}.TMP")).unwrap();
    }
    let long_name = "Wireless upload \u{1f600} cross-firmware compatibility.epub";
    let mut file = card
        .create_long(dir, long_name)
        .expect("create cross-sector FAT32 LFN file");
    card.write_body(&mut file, b"EPUB-FAT32").unwrap();

    let listed = card.listed(dir, long_name).expect("listed under its long name");
    assert_eq!(listed.size, 10);
    let alias = text(&listed.name);

    let found = card.find(dir, &alias).unwrap();
    assert_eq!(card.read_body(&found), b"EPUB-FAT32");

    assert!(matches!(card.create_long(dir, long_name), Err(Error::FileAlreadyExists)));
    card.create_long(dir, "Another.epub").expect("an unused name is accepted");
    assert!(matches!(
        card.create_long(dir, "Invalid?.epub"),
        Err(Error::FilenameError(FilenameError::InvalidCharacter))
    ));

    card.delete(dir, &alias).unwrap();
    for item in card.list(dir) {
        assert_ne!(text(&item.entry.name), alias);
        assert_ne!(item.long_name.as_deref(), Some(long_name));
    }
}

#[test]
fn a_long_name_with_an_emoji_can_be_reopened_by_that_name() {
    let mut card = Card::fat32();
    let long_name = "ABCDEFGHIJKL\u{1f600} unicode roundtrip.epub";
    assert_eq!(long_name.encode_utf16().take(12).count(), 12);
    let mut file = card.create_long(ROOT, long_name).expect("create");
    card.write_body(&mut file, b"round trip").expect("write");

    let found = card.find_long(ROOT, long_name).expect("found by that name");
    assert_eq!(card.read_body(&found), b"round trip");
    assert!(matches!(
        card.find_long(ROOT, "ABCDEFGHIJKL\u{1f600} unicode roundtrip.txt"),
        Err(Error::NotFound)
    ));
}

#[test]
fn a_long_name_already_in_the_directory_is_refused() {
    let mut card = Card::fat32();
    card.create_long(ROOT, "Book.epub").expect("create the first one");
    assert!(matches!(card.create_long(ROOT, "Book.epub"), Err(Error::FileAlreadyExists)));
    assert!(matches!(card.create_long(ROOT, "BOOK.EPUB"), Err(Error::FileAlreadyExists)));
    card.create(ROOT, "PLAIN.TXT").expect("create a short-named file");
    assert!(matches!(card.create_long(ROOT, "plain.txt"), Err(Error::FileAlreadyExists)));
    card.create_long(ROOT, "Another Book.epub").expect("an unused name must still be accepted");
}

#[test]
fn a_long_name_containing_the_padding_sentinel_is_refused() {
    let mut card = Card::fat32();
    let name = "ABCDEFGHIJKL\u{FFFF}";
    assert_eq!(name.encode_utf16().count(), 13);
    assert!(matches!(
        card.create_long(ROOT, name),
        Err(Error::FilenameError(FilenameError::InvalidCharacter))
    ));
    // The entry itself is refused too, and nothing is written.
    let blocks = card.disk.blocks.borrow().clone();
    assert!(matches!(
        card.volume.write_new_directory_entry_lfn(
            &mut card.cache,
            &Clock,
            ROOT,
            name,
            short("ABCDEF~1"),
            Attributes(0)
        ),
        Err(Error::FilenameError(FilenameError::InvalidCharacter))
    ));
    assert!(*card.disk.blocks.borrow() == blocks);
}

#[test]
fn a_long_name_differing_only_by_non_ascii_case_is_refused() {
    let mut card = Card::fat32();
    card.create_long(ROOT, "R\u{e9}sum\u{e9}.epub").expect("create the occupant");
    assert!(matches!(
        card.create_long(ROOT, "R\u{c9}SUM\u{c9}.EPUB"),
        Err(Error::FileAlreadyExists)
    ));
    // Looking a name up does not fold case.
    card.find_long(ROOT, "R\u{e9}sum\u{e9}.epub").expect("found");
    assert!(matches!(card.find_long(ROOT, "R\u{c9}SUM\u{c9}.EPUB"), Err(Error::NotFound)));
}

#[test]
fn the_longest_permitted_long_name_survives_a_round_trip() {
    let mut card = Card::fat32();
    let mut long_name = "a".repeat(251);
    long_name.push_str(".txt");
    assert_eq!(long_name.encode_utf16().count(), 255);
    card.create_long(ROOT, &long_name).expect("create the longest permitted name");
    let seen = card.listed(ROOT, &long_name).expect("listed back");
    assert!(!text(&seen.name).is_empty());
    assert_eq!(card.find_long(ROOT, &long_name).unwrap().name, seen.name);
    long_name.push('x');
    assert!(matches!(
        card.create_long(ROOT, &long_name),
        Err(Error::FilenameError(FilenameError::NameTooLong))
    ));
}

#[test]
fn a_derived_alias_is_recognisable_and_unique() {
    let mut card = Card::fat32();
    let mut alias_of = |name: &str| -> String {
        card.create_long(ROOT, name).expect("create");
        text(&card.listed(ROOT, name).expect("listed").name)
    };
    assert_eq!(alias_of("A Real Book.epub"), "AREALB~1.EPU");
    assert_eq!(alias_of("A Real Bookshelf.epub"), "AREALB~2.EPU");
    assert_eq!(alias_of("Plan+draft.md"), "PLAN_D~1.MD");
    assert_eq!(alias_of("\u{e5}land.epub"), "_LAND~1.EPU");
    assert_eq!(alias_of("M\u{e4}rchen \u{1f600}.epub"), "M_RCHE~1.EPU");
    assert_eq!(alias_of("Notes to self"), "NOTEST~1");
}

#[test]
fn a_directory_can_be_created_with_a_long_name() {
    let mut card = Card::fat32();
    let folder_name = "Books I Have Not Read Yet";
    card.make_dir_long(ROOT, folder_name).expect("make the folder");
    let entry = card.listed(ROOT, folder_name).expect("listed under its long name");
    assert!(entry.attributes.is_directory());

    let folder = card.find(ROOT, &text(&entry.name)).expect("open the folder").cluster;
    card.create_long(folder, "A Book In It.epub").expect("create inside");
    assert!(card.listed(folder, "A Book In It.epub").is_some());

    assert!(matches!(card.make_dir_long(ROOT, folder_name), Err(Error::FileAlreadyExists)));
}

#[test]
fn a_name_outside_ascii_survives_creation_and_can_be_reopened() {
    let mut card = Card::fat32();
    for name in [
        "\u{e5}land.epub",
        "\u{e4}\u{f6}\u{fc}\u{df} everywhere.epub",
        "M\u{e4}rchen \u{1f600}.epub",
    ] {
        let mut file = card.create_long(ROOT, name).expect("create");
        card.write_body(&mut file, b"body").expect("write");
        let alias = card.listed(ROOT, name).expect("in the directory").name;
        assert!(alias.contents.is_ascii());
        assert_ne!(alias.contents[0], 0xE5);
        let found = card.find_long(ROOT, name).expect("reopen");
        assert_eq!(card.read_body(&found), b"body");
    }
}

#[test]
fn a_directory_that_cannot_be_created_is_not_left_behind() {
    let mut card = Card::fat32();
    card.faults().writes.set(Some((FAT32_TABLE, FAT32_DATA)));
    let attempt = card.make_dir_long(ROOT, "Science Fiction");
    card.faults().writes.set(None);
    assert!(attempt.is_err(), "the folder creation should have failed");
    assert!(card.listed(ROOT, "Science Fiction").is_none());
    assert!(card.names(ROOT).is_empty());
}

#[test]
fn many_names_sharing_a_basis_all_get_aliases() {
    let mut card = Card::fat32();
    card.make_dir_long(ROOT, "The Series").expect("make folder");
    let folder = card.find(ROOT, "THESER~1").expect("open folder").cluster;
    for volume_number in 1..=1010 {
        let name = format!("The Chronicles of Somewhere, Volume {volume_number}.epub");
        card.create_long(folder, &name)
            .unwrap_or_else(|e| panic!("create #{volume_number}: {e:?}"));
    }
    let mut aliases: Vec<String> = card
        .list(folder)
        .iter()
        .filter(|l| l.long_name.as_ref().map_or(false, |n| n.starts_with("The Chronicles")))
        .map(|l| text(&l.entry.name))
        .collect();
    assert_eq!(aliases.len(), 1010, "every book should be in the directory");
    aliases.sort();
    let before = aliases.len();
    aliases.dedup();
    assert_eq!(aliases.len(), before, "two books were given the same alias");
}

#[test]
fn a_directory_that_fails_while_being_laid_out_frees_its_cluster() {
    let baseline = {
        let mut card = Card::fat32();
        card.make_dir_long(ROOT, "Science Fiction").expect("make folder");
        card.find(ROOT, "SCIENC~1").expect("find folder").cluster
    };
    let mut card = Card::fat32();
    card.faults().writes.set(Some((FAT32_DATA, u32::MAX)));
    let attempt = card.make_dir_long(ROOT, "Doomed Folder");
    card.faults().writes.set(None);
    assert!(card.faults().injected.get() > 0);
    assert!(matches!(attempt, Err(Error::DeviceError(Injected))));
    assert!(matches!(card.find(ROOT, "DOOMED~1"), Err(Error::NotFound)));

    card.make_dir_long(ROOT, "Science Fiction").expect("make folder after the failure");
    let after = card.find(ROOT, "SCIENC~1").expect("find folder").cluster;
    assert_eq!(after, baseline, "the failed attempt kept its cluster");
}

#[test]
fn fat_chain_errors_a_lookup_that_cannot_read_the_fat_is_not_a_missing_file() {
    let mut card = Card::fat32();
    let dir = card.new_dir("CHAINDIR");
    for i in 0..130 {
        card.create(dir, &format!("F{i:07}.TXT")).expect("create file");
    }
    assert!(matches!(card.find(dir, "GHOST.TXT"), Err(Error::NotFound)));
    card.faults().reads.set(Some((FAT32_TABLE, FAT32_DATA)));
    let unknowable = card.find(dir, "GHOST.TXT");
    card.faults().reads.set(None);
    assert!(card.faults().injected.get() > 0);
    assert!(matches!(unknowable, Err(Error::DeviceError(Injected))));
}

fn a_create_that_cannot_read_the_fat_is_not_a_full_disk(
    mut card: Card,
    table: (u32, u32),
    entries_per_cluster: usize,
) {
    let dir = card.new_dir("FULLDIR");
    for i in 0..(entries_per_cluster - 2) {
        card.create(dir, &format!("F{i:07}.TXT")).expect("create file");
    }
    card.faults().reads.set(Some(table));
    let created = card.create(dir, "ONEMORE.TXT");
    // The search for a slot comes to the same answer on its own.
    let written = card.volume.write_new_directory_entry(
        &mut card.cache,
        &Clock,
        dir,
        short("ONEMORE.TXT"),
        Attributes(0),
        ClusterId(ClusterId::EMPTY),
    );
    card.faults().reads.set(None);
    assert!(card.faults().injected.get() > 1);
    assert!(matches!(created, Err(Error::DeviceError(Injected))));
    assert!(matches!(written, Err(Error::DeviceError(Injected))));
    card.create(dir, "ONEMORE.TXT").expect("there is room after all");
}

#[test]
fn a_create_that_cannot_read_the_fat_is_not_a_full_disk_fat16() {
    a_create_that_cannot_read_the_fat_is_not_a_full_disk(
        Card::fat16(),
        (FAT16_TABLE, FAT16_ROOT),
        64,
    );
}

#[test]
fn a_create_that_cannot_read_the_fat_is_not_a_full_disk_fat32() {
    a_create_that_cannot_read_the_fat_is_not_a_full_disk(
        Card::fat32(),
        (FAT32_TABLE, FAT32_DATA),
        128,
    );
}

#[test]
fn a_write_that_cannot_update_the_fat_is_not_a_full_disk() {
    let mut card = Card::fat32();
    let mut file = card.create(ROOT, "GROWING.TXT").expect("create file");
    card.write_body(&mut file, &[b'a'; 4096]).expect("fill first cluster");
    card.faults().writes.set(Some((FAT32_TABLE, FAT32_DATA)));
    let grown = card.volume.alloc_cluster(&mut card.cache, Some(file.cluster), false);
    card.faults().writes.set(None);
    assert!(card.faults().injected.get() > 0);
    assert!(matches!(grown, Err(Error::DeviceError(Injected))));
    // The file is still what it was.
    assert_eq!(card.read_body(&file), vec![b'a'; 4096]);
}

#[test]
fn a_long_name_open_that_cannot_read_the_fat_is_not_a_missing_file() {
    let mut card = Card::fat32();
    let dir = card.new_dir("LFNDIR");
    for i in 0..130 {
        card.create(dir, &format!("F{i:07}.TXT")).expect("create file");
    }
    assert!(matches!(card.find_long(dir, "No Such Book.epub"), Err(Error::NotFound)));
    card.faults().reads.set(Some((FAT32_TABLE, FAT32_DATA)));
    let unknowable = card.find_long(dir, "No Such Book.epub");
    card.faults().reads.set(None);
    assert!(card.faults().injected.get() > 0);
    assert!(matches!(unknowable, Err(Error::DeviceError(Injected))));
}

#[test]
fn claiming_the_last_free_cluster_still_succeeds() {
    let disk = fat16_disk();
    for block in FAT16_TABLE..FAT16_ROOT {
        disk.set(block, [0xFF; 512]);
    }
    disk.put(FAT16_TABLE, 6, &[0, 0]);
    let mut card = Card::open(disk, FAT16_START, 20073);
    let mut file = card.create(ROOT, "LAST.TXT").expect("create file");
    card.write_body(&mut file, b"the last cluster").expect("write into the last free cluster");
    let entry = card.find(ROOT, "LAST.TXT").expect("find entry");
    assert_ne!(entry.cluster, ClusterId(ClusterId::EMPTY));
    assert_eq!(entry.cluster, ClusterId(3));
    assert_eq!(entry.size, 16);
    assert_eq!(card.read_body(&entry), b"the last cluster");
    assert!(matches!(
        card.volume.alloc_cluster(&mut card.cache, None, false),
        Err(Error::NotEnoughSpace)
    ));
}

#[test]
fn a_failed_first_scan_is_not_a_reason_to_wrap_around() {
    const HINT: u32 = 40_000;
    let disk = fat32_disk();
    disk.put(FAT32_INFO, 492, &HINT.to_le_bytes());
    let mut card = Card::open(disk, FAT32_START, 561_132);
    let mut file = card.create(ROOT, "WRAPPED.TXT").expect("create file");
    card.faults().reads.set(Some((FAT32_TABLE + HINT / 128, FAT32_DATA)));
    let written = card.write_body(&mut file, b"wrapped");
    card.faults().reads.set(None);
    assert!(card.faults().injected.get() > 0);
    assert!(matches!(written, Err(Error::DeviceError(Injected))));
}

#[test]
fn a_failed_entry_write_is_not_committed_by_its_own_cleanup() {
    let region = Some((FAT32_DATA, FAT32_DATA + 8));
    let writes_for_a_create = {
        let mut card = Card::fat32();
        card.faults().writes.set(region);
        card.faults().only_write.set(Some(u32::MAX));
        card.create_long(ROOT, "A Real Book.epub").expect("create");
        card.faults().writes_seen.get()
    };
    assert!(writes_for_a_create >= 2);

    let mut card = Card::fat32();
    card.faults().writes.set(region);
    card.faults().only_write.set(Some(writes_for_a_create));
    let attempt = card.create_long(ROOT, "A Real Book.epub");
    card.faults().writes.set(None);
    assert_eq!(card.faults().injected.get(), 1);
    assert!(matches!(attempt, Err(Error::DeviceError(Injected))));
    assert!(matches!(card.find(ROOT, "AREALB~1.EPU"), Err(Error::NotFound)));
    assert!(card.listed(ROOT, "A Real Book.epub").is_none());
}

#[test]
fn a_failed_delete_leaves_the_entry_wholly_there_or_wholly_gone() {
    let region = Some((FAT32_DATA, FAT32_DATA + 8));
    let writes_for_a_delete = {
        let mut card = Card::fat32();
        card.create_long(ROOT, "A Real Book.epub").expect("create");
        card.faults().writes.set(region);
        card.faults().only_write.set(Some(u32::MAX));
        card.delete(ROOT, "AREALB~1.EPU").expect("delete");
        card.faults().writes_seen.get()
    };
    assert!(writes_for_a_delete >= 2);

    for failing_write in 1..=writes_for_a_delete {
        let mut card = Card::fat32();
        card.create_long(ROOT, "A Real Book.epub").expect("create");
        card.faults().writes.set(region);
        card.faults().only_write.set(Some(failing_write));
        let outcome = card.delete(ROOT, "AREALB~1.EPU");
        card.faults().writes.set(None);

        let short_name_gone = matches!(card.find(ROOT, "AREALB~1.EPU"), Err(Error::NotFound));
        let long_name_present = card.listed(ROOT, "A Real Book.epub").is_some();
        match outcome {
            Err(_) => assert!(!short_name_gone && long_name_present),
            Ok(()) => assert!(short_name_gone && !long_name_present),
        }
        assert_eq!(outcome.is_err(), failing_write == 1);
    }
}

#[test]
fn move_file_a_moved_file_keeps_its_body_and_loses_its_old_name() {
    let mut card = Card::fat16();
    let source = card.new_dir("TEST");
    let mut staged = card.create(source, "STAGED.TMP").expect("create staging file");
    card.write_body(&mut staged, b"the whole book").expect("write");

    let entry = card.find(source, "STAGED.TMP").expect("look up the staged file");
    card.link(ROOT, "A Real Book.epub", &entry).expect("link");
    card.delete(source, "STAGED.TMP").expect("unlink");

    let installed = card.find(ROOT, "AREALB~1.EPU").expect("the installed name must be there");
    assert_eq!(card.read_body(&installed), b"the whole book");
    assert!(!card.names(source).iter().any(|n| n == "STAGED.TMP"));
}

#[test]
fn both_names_reach_the_same_body_before_the_move_finishes() {
    let mut card = Card::fat16();
    let source = card.new_dir("TEST");
    let mut staged = card.create(source, "STAGED.TMP").expect("create");
    card.write_body(&mut staged, b"shared body").expect("write");
    let entry = card.find(source, "STAGED.TMP").expect("look up");
    card.link(ROOT, "A Real Book.epub", &entry).expect("link");

    let old_name = card.find(source, "STAGED.TMP").expect("old name");
    assert_eq!(card.read_body(&old_name), b"shared body");
    let new_name = card.find(ROOT, "AREALB~1.EPU").expect("new name");
    assert_eq!(card.read_body(&new_name), b"shared body");

    card.delete(source, "STAGED.TMP").expect("unlink");
    let new_name = card.find(ROOT, "AREALB~1.EPU").expect("new name");
    assert_eq!(card.read_body(&new_name), b"shared body");
}

#[test]
fn a_half_finished_move_can_be_rolled_back_instead() {
    let mut card = Card::fat16();
    let source = card.new_dir("TEST");
    let mut staged = card.create(source, "STAGED.TMP").expect("create");
    card.write_body(&mut staged, b"rolled back").expect("write");
    let entry = card.find(source, "STAGED.TMP").expect("look up");
    card.link(ROOT, "A Real Book.epub", &entry).expect("link");
    card.delete(ROOT, "AREALB~1.EPU").expect("unlink");

    let entry = card.find(source, "STAGED.TMP").expect("look up");
    assert_eq!(card.read_body(&entry), b"rolled back");
    assert!(matches!(card.find(ROOT, "AREALB~1.EPU"), Err(Error::NotFound)));
}

#[test]
fn the_linked_entry_carries_the_sources_chain_and_size() {
    let mut card = Card::fat16();
    let source = card.new_dir("TEST");
    let mut staged = card.create(source, "STAGED.TMP").expect("create");
    card.write_body(&mut staged, &[7u8; 1500]).expect("write");
    let before = card.find(source, "STAGED.TMP").expect("look up");
    card.link(ROOT, "A Real Book.epub", &before).expect("link");
    let after = card.find(ROOT, "AREALB~1.EPU").expect("look up");
    assert_eq!(after.cluster, before.cluster, "same first cluster");
    assert_eq!(after.size, before.size, "same size");
    assert_eq!(after.ctime, before.ctime, "created when the data was");
    assert_eq!(after.mtime, before.mtime, "modified when the data was");
    assert_eq!(after.name, short("AREALB~1.EPU"), "under the new alias");
}

#[test]
fn the_moved_entry_carries_the_sources_chain_and_size() {
    let mut card = Card::fat32();
    let source = card.new_dir("TEST");
    let mut staged = card.create(source, "STAGED.TMP").expect("create");
    card.write_body(&mut staged, &[7u8; 1500]).expect("write");
    let before = card.find(source, "STAGED.TMP").expect("look up");
    card.link(ROOT, "A Real Book.epub", &before).expect("link");
    card.delete(source, "STAGED.TMP").expect("unlink");
    let after = card.find(ROOT, "AREALB~1.EPU").expect("look up");
    assert_eq!(after.cluster, before.cluster, "same first cluster");
    assert_eq!(after.size, before.size, "same size");
    assert_eq!(after.ctime, before.ctime, "created when the data was");
    assert_eq!(after.name, short("AREALB~1.EPU"), "under the new alias");
}

#[test]
fn a_recorded_cluster_number_identifies_a_file_across_a_move() {
    let mut card = Card::fat16();
    let source = card.new_dir("TEST");
    for (name, fill) in [("FIRST.TMP", 1u8), ("SECOND.TMP", 2u8)] {
        let mut file = card.create(source, name).expect("create");
        card.write_body(&mut file, &[fill; 1500]).expect("write");
    }
    let first = card.find(source, "FIRST.TMP").expect("look up");
    let other = card.find(source, "SECOND.TMP").expect("look up");
    assert_ne!(first.cluster.0, other.cluster.0);
    assert_ne!(first.cluster.0, ClusterId::EMPTY);
    card.link(ROOT, "A Real Book.epub", &first).expect("link");
    card.delete(source, "FIRST.TMP").expect("unlink");
    assert_eq!(card.find(ROOT, "AREALB~1.EPU").expect("look up").cluster.0, first.cluster.0);
}

#[test]
fn moving_onto_a_taken_name_is_refused() {
    let mut card = Card::fat16();
    let source = card.new_dir("TEST");
    let mut staged = card.create(source, "STAGED.TMP").expect("create");
    card.write_body(&mut staged, b"body").expect("write");
    let entry = card.find(source, "STAGED.TMP").expect("look up");
    let mut occupant = card.create_long(ROOT, "A Real Book.epub").expect("create occupant");
    card.write_body(&mut occupant, b"do not clobber me").expect("write");

    assert!(matches!(
        card.link(ROOT, "A Real Book.epub", &entry),
        Err(Error::FileAlreadyExists)
    ));
    let occupant = card.find(ROOT, "AREALB~1.EPU").expect("look up");
    assert_eq!(card.read_body(&occupant), b"do not clobber me");
    let staged = card.find(source, "STAGED.TMP").expect("look up");
    assert_eq!(card.read_body(&staged), b"body");
}

#[test]
fn a_derived_alias_never_collides_with_a_name_already_there() {
    let mut card = Card::fat32();
    card.create_long(ROOT, "Report for April.txt").expect("first");
    card.create_long(ROOT, "Report for August.txt").expect("second");
    let aliases: Vec<String> = card
        .list(ROOT)
        .iter()
        .filter(|l| l.long_name.as_ref().map_or(false, |n| n.starts_with("Report for ")))
        .map(|l| text(&l.entry.name))
        .collect();
    assert_eq!(aliases.len(), 2, "both files should be there");
    assert_ne!(aliases[0], aliases[1], "the two aliases must differ");
    assert!(matches!(card.create_long(ROOT, &aliases[0]), Err(Error::FileAlreadyExists)));
}

#[test]
fn an_alias_avoids_short_and_long_names_alike() {
    let mut card = Card::fat16();
    card.create(ROOT, "AREALB~1.EPU").expect("create occupant");
    card.create_long(ROOT, "A Real Book.epub").expect("create");
    let listed = card.listed(ROOT, "A Real Book.epub").expect("listed");
    assert_eq!(text(&listed.name), "AREALB~2.EPU");
    // A long name that reads like an alias takes that alias.
    card.volume
        .write_new_directory_entry_lfn(
            &mut card.cache,
            &Clock,
            ROOT,
            "arealb~3.epu",
            short("OTHER"),
            Attributes(0),
        )
        .expect("create");
    card.create_long(ROOT, "A Real Bookcase.epub").expect("create");
    let listed = card.listed(ROOT, "A Real Bookcase.epub").expect("listed");
    assert_eq!(text(&listed.name), "AREALB~4.EPU");
    // The readable forms are all taken now: a digest of the name comes next.
    card.create_long(ROOT, "A Real Booklet.epub").expect("create");
    let listed = card.listed(ROOT, "A Real Booklet.epub").expect("listed");
    let alias = text(&listed.name);
    assert!(alias.starts_with("AR") && alias.ends_with("~1.EPU"), "{}", alias);
    assert_eq!(alias.len(), 12);
}

#[test]
fn a_completed_move_leaves_no_second_name_to_strand() {
    let mut card = Card::fat32();
    let mut staged = card.create(ROOT, "STAGED.TMP").expect("create");
    card.write_body(&mut staged, &[b'x'; 10000]).expect("write");
    card.link(ROOT, "A Real Book.epub", &staged).expect("link");
    card.delete(ROOT, "STAGED.TMP").expect("unlink");
    let moved = card.find(ROOT, "AREALB~1.EPU").expect("entry");
    assert_eq!(moved.size, 10000);
    assert!(matches!(card.find(ROOT, "STAGED.TMP"), Err(Error::NotFound)));

    card.volume.truncate_cluster_chain(&mut card.cache, moved.cluster).expect("truncate");
    let mut after = moved;
    after.size = 0;
    card.volume.write_entry_to_disk(&mut card.cache, &after).expect("store");
    let after = card.find(ROOT, "AREALB~1.EPU").expect("entry");
    assert_eq!(after.size, 0);
    assert_eq!(card.names(ROOT).iter().filter(|n| *n == "AREALB~1.EPU").count(), 1);
}

#[test]
fn a_move_interrupted_between_its_two_writes_is_recoverable() {
    let mut card = Card::fat32();
    let mut staged = card.create(ROOT, "STAGED.TMP").expect("create");
    card.write_body(&mut staged, b"interrupted").expect("write");
    card.faults().writes.set(Some((FAT32_DATA, FAT32_DATA + 8)));
    card.faults().writes_from.set(Some(4));
    card.link(ROOT, "A Real Book.epub", &staged).expect("three writes go through");
    assert!(card.delete(ROOT, "STAGED.TMP").is_err());
    assert!(card.delete(ROOT, "AREALB~1.EPU").is_err());
    card.faults().writes.set(None);
    assert_eq!(card.faults().injected.get(), 2);

    let one = card.find(ROOT, "STAGED.TMP").expect("one name");
    assert_eq!(card.read_body(&one), b"interrupted");
    let other = card.find(ROOT, "AREALB~1.EPU").expect("other name");
    assert_eq!(card.read_body(&other), b"interrupted");

    card.delete(ROOT, "STAGED.TMP").expect("recover");
    let other = card.find(ROOT, "AREALB~1.EPU").expect("other name");
    assert_eq!(card.read_body(&other), b"interrupted");
    assert!(matches!(card.find(ROOT, "STAGED.TMP"), Err(Error::NotFound)));
}

/// The clusters of a file.
fn chain_of(card: &mut Card, first: ClusterId) -> Vec<ClusterId> {
    let mut chain = vec![first];
    loop {
        match card.volume.next_cluster(&mut card.cache, chain[chain.len() - 1]) {
            Ok(next) => chain.push(next),
            Err(Error::EndOfFile) => return chain,
            Err(e) => panic!("walk the chain: {e:?}"),
        }
    }
}

fn multi_cluster_file(card: &mut Card) -> Vec<ClusterId> {
    let mut file = card.create(ROOT, "BIG.DAT").expect("create");
    card.write_body(&mut file, &[0xA5; 40_000]).expect("write");
    let first = card.find(ROOT, "BIG.DAT").expect("entry").cluster;
    let chain = chain_of(card, first);
    assert!(chain.len() > 1);
    chain
}

#[test]
fn a_chain_can_be_read_out_before_it_is_taken_apart() {
    let mut card = Card::fat16();
    let chain = multi_cluster_file(&mut card);
    assert_eq!(chain.len(), 20);
    let mut seen: Vec<u32> = chain.iter().map(|c| c.0).collect();
    seen.sort();
    seen.dedup();
    assert_eq!(seen.len(), chain.len(), "a chain must not repeat a cluster");
    assert!(chain.iter().all(|c| c.0 >= 2));
}

#[test]
fn freeing_the_same_cluster_twice_is_not_an_error() {
    let mut card = Card::fat16();
    let chain = multi_cluster_file(&mut card);
    for _ in 0..3 {
        for cluster in &chain {
            card.volume
                .update_fat(&mut card.cache, *cluster, ClusterId(ClusterId::EMPTY))
                .expect("free");
            assert_eq!(card.table(cluster.0), (0, 0));
        }
    }
}

#[test]
fn freed_clusters_come_back_for_the_next_file() {
    let mut card = Card::fat16();
    let chain = multi_cluster_file(&mut card);
    card.delete(ROOT, "BIG.DAT").expect("unlink");
    for cluster in &chain {
        card.volume
            .update_fat(&mut card.cache, *cluster, ClusterId(ClusterId::EMPTY))
            .expect("free");
    }
    let mut file = card.create(ROOT, "AFTER.DAT").expect("create");
    card.write_body(&mut file, &[0x5A; 40_000]).expect("write");
    let found = card.find(ROOT, "AFTER.DAT").expect("reopen");
    assert!(card.read_body(&found).iter().all(|byte| *byte == 0x5A));
}

#[test]
fn a_replay_repairs_a_half_mirrored_free() {
    let mut card = Card::fat32();
    let mut file = card.create(ROOT, "MIRROR.DAT").expect("create");
    card.write_body(&mut file, &[0xC3; 40_000]).expect("write");
    let first = card.find(ROOT, "MIRROR.DAT").expect("entry").cluster;
    card.delete(ROOT, "MIRROR.DAT").expect("unlink");

    card.faults().writes.set(Some((FAT32_TABLE, FAT32_DATA)));
    card.faults().only_write.set(Some(2));
    let interrupted =
        card.volume.update_fat(&mut card.cache, first, ClusterId(ClusterId::EMPTY));
    assert!(matches!(interrupted, Err(Error::DeviceError(Injected))));
    card.faults().writes.set(None);
    let (primary, mirror) = card.table(first.0);
    assert_eq!(primary, 0);
    assert_ne!(mirror, 0);

    card.volume
        .update_fat(&mut card.cache, first, ClusterId(ClusterId::EMPTY))
        .expect("replay");
    assert_eq!(card.table(first.0), (0, 0));
}

#[test]
fn a_fat16_volume_is_described_by_its_boot_sector() {
    let card = Card::fat16();
    let volume = card.volume;
    assert_eq!(volume.lba_start, BlockIdx(100));
    assert_eq!(volume.num_blocks, BlockCount(20073));
    assert_eq!(volume.name.name(), b"P-FAT16");
    assert_eq!(volume.blocks_per_cluster, 4);
    assert_eq!(volume.fat_start, BlockCount(1));
    assert_eq!(volume.second_fat_start, Some(BlockCount(21)));
    assert_eq!(volume.first_data_block, BlockCount(73));
    assert_eq!(volume.cluster_count, 5000);
    assert_eq!(volume.free_clusters_count, None);
    assert_eq!(volume.next_free_cluster, None);
    assert_eq!(volume.get_fat_type(), FatType::Fat16);
    match volume.fat_specific_info {
        FatSpecificInfo::Fat16(info) => {
            assert_eq!(info.first_root_dir_block, BlockCount(41));
            assert_eq!(info.root_entries_count, 512);
        }
        FatSpecificInfo::Fat32(_) => panic!("not FAT16"),
    }
    assert_eq!(volume.bytes_per_cluster(), 2048);
    assert_eq!(volume.cluster_to_block(ClusterId(2)), BlockIdx(FAT16_DATA));
    assert_eq!(volume.cluster_to_block(ClusterId(7)), BlockIdx(FAT16_DATA + 20));
    assert_eq!(volume.cluster_to_block(ROOT), BlockIdx(FAT16_ROOT));
}

#[test]
fn a_fat32_volume_is_described_by_its_boot_and_info_sectors() {
    let card = Card::fat32();
    let volume = card.volume;
    assert_eq!(volume.name.name(), b"P-FAT32");
    assert_eq!(volume.blocks_per_cluster, 8);
    assert_eq!(volume.fat_start, BlockCount(32));
    assert_eq!(volume.second_fat_start, Some(BlockCount(582)));
    assert_eq!(volume.first_data_block, BlockCount(1132));
    assert_eq!(volume.cluster_count, 70000);
    assert_eq!(volume.free_clusters_count, Some(69_999));
    assert_eq!(volume.next_free_cluster, Some(ClusterId(3)));
    assert_eq!(volume.get_fat_type(), FatType::Fat32);
    match volume.fat_specific_info {
        FatSpecificInfo::Fat32(info) => {
            assert_eq!(info.first_root_dir_cluster, ClusterId(2));
            assert_eq!(info.info_location, BlockIdx(FAT32_INFO));
        }
        FatSpecificInfo::Fat16(_) => panic!("not FAT32"),
    }
    assert_eq!(volume.bytes_per_cluster(), 4096);
    assert_eq!(volume.cluster_to_block(ROOT), BlockIdx(FAT32_DATA));
    assert_eq!(volume.cluster_to_block(ClusterId(5)), BlockIdx(FAT32_DATA + 24));
}

fn parse(disk: RamDisk, start: u32) -> Result<VolumeType, Error<Injected>> {
    let mut cache = BlockCache::new(disk);
    parse_volume(&mut cache, BlockIdx(start), BlockCount(1))
}

#[test]
fn a_volume_with_one_table_has_no_second_one() {
    let disk = fat16_disk();
    disk.put(FAT16_START, 16, &[1]);
    let VolumeType::Fat(volume) = parse(disk, FAT16_START).expect("open");
    assert_eq!(volume.second_fat_start, None);
    let mut card = Card { disk: fat16_disk(), cache: BlockCache::new(RamDisk::new()), volume };
    let disk = card.disk.clone();
    card.cache = BlockCache::new(disk);
    card.volume.update_fat(&mut card.cache, ClusterId(9), ClusterId(10)).expect("update");
    assert_eq!(card.table(9), (10, 0));
}

#[test]
fn boot_sectors_that_cannot_be_used_are_refused() {
    let disk = fat16_disk();
    disk.put(FAT16_START, 510, &[0x55, 0xAB]);
    assert!(matches!(parse(disk, FAT16_START), Err(Error::FormatError(_))));

    let disk = fat16_disk();
    disk.put(FAT16_START, 11, &1024u16.to_le_bytes());
    assert!(matches!(parse(disk, FAT16_START), Err(Error::BadBlockSize(1024))));

    // Too few clusters: that would be FAT12.
    let disk = fat16_disk();
    disk.put(FAT16_START, 19, &(73u16 + 4 * 4084).to_le_bytes());
    assert!(matches!(parse(disk, FAT16_START), Err(Error::FormatError(_))));
    let disk = fat16_disk();
    disk.put(FAT16_START, 19, &(73u16 + 4 * 4085).to_le_bytes());
    assert!(parse(disk, FAT16_START).is_ok());

    // Clusters of no blocks.
    let disk = fat16_disk();
    disk.put(FAT16_START, 13, &[0]);
    assert!(matches!(parse(disk, FAT16_START), Err(Error::FormatError("Bad cluster size"))));

    // 73 blocks come before the data.
    let disk = fat16_disk();
    disk.put(FAT16_START, 19, &72u16.to_le_bytes());
    assert!(matches!(parse(disk, FAT16_START), Err(Error::FormatError("Bad volume size"))));

    for at in [0, 484, 508] {
        let disk = fat32_disk();
        disk.put(FAT32_INFO, at, &[1, 2, 3, 4]);
        assert!(matches!(parse(disk, FAT32_START), Err(Error::FormatError(_))));
    }

    let disk = fat32_disk();
    disk.faults.reads.set(Some((FAT32_START, FAT32_START + 1)));
    assert!(matches!(parse(disk, FAT32_START), Err(Error::DeviceError(Injected))));
    let disk = fat32_disk();
    disk.faults.reads.set(Some((FAT32_INFO, FAT32_INFO + 1)));
    assert!(matches!(parse(disk, FAT32_START), Err(Error::DeviceError(Injected))));
}

#[test]
fn an_info_sector_may_know_nothing() {
    let disk = fat32_disk();
    disk.put(FAT32_INFO, 488, &[0xFF; 8]);
    let card = Card::open(disk, FAT32_START, 561_132);
    assert_eq!(card.volume.free_clusters_count, None);
    assert_eq!(card.volume.next_free_cluster, None);
}

#[test]
fn the_info_sector_takes_up_what_is_known_of_free_clusters() {
    let mut card = Card::fat32();
    let cluster = card.volume.alloc_cluster(&mut card.cache, None, false).expect("allocate");
    assert_eq!(cluster, ClusterId(3));
    card.volume.update_info_sector(&mut card.cache).expect("update");
    let again = Card::open(card.disk.clone(), FAT32_START, 561_132);
    assert_eq!(again.volume.free_clusters_count, Some(69_998));
    assert_eq!(again.volume.next_free_cluster, Some(ClusterId(4)));
    // A FAT16 volume has none, and nothing is written.
    let mut card = Card::fat16();
    let before = card.disk.blocks.borrow().clone();
    card.volume.update_info_sector(&mut card.cache).expect("update");
    assert!(*card.disk.blocks.borrow() == before);
}

#[test]
fn the_table_tells_what_follows_a_cluster() {
    let mut card = Card::fat32();
    let v = |n: u32| ClusterId(n);
    for (value, expected) in [(9u32, Ok(9)), (0x0FFF_FFF7, Err(())), (0x0FFF_FFF6, Ok(0x0FFF_FFF6))] {
        card.volume.update_fat(&mut card.cache, v(50), v(value)).expect("update");
        match card.volume.next_cluster(&mut card.cache, v(50)) {
            Ok(next) => assert_eq!(Ok(next.0), expected),
            Err(Error::BadCluster) => assert_eq!(Err(()), expected),
            other => panic!("unexpected {other:?}"),
        }
    }
    for value in [1, 0x0FFF_FFF8, ClusterId::END_OF_FILE] {
        card.volume.update_fat(&mut card.cache, v(50), v(value)).expect("update");
        assert!(matches!(
            card.volume.next_cluster(&mut card.cache, v(50)),
            Err(Error::EndOfFile)
        ));
    }
    card.volume.update_fat(&mut card.cache, v(50), v(0)).expect("update");
    assert!(matches!(
        card.volume.next_cluster(&mut card.cache, v(50)),
        Err(Error::UnterminatedFatChain)
    ));

    let mut card = Card::fat16();
    card.volume.update_fat(&mut card.cache, v(50), v(ClusterId::END_OF_FILE)).expect("update");
    assert_eq!(card.table(50), (0xFFFF, 0xFFFF));
    assert!(matches!(card.volume.next_cluster(&mut card.cache, v(50)), Err(Error::EndOfFile)));
    card.volume.update_fat(&mut card.cache, v(50), v(ClusterId::BAD)).expect("update");
    assert!(matches!(card.volume.next_cluster(&mut card.cache, v(50)), Err(Error::BadCluster)));
    card.volume.update_fat(&mut card.cache, v(50), v(1234)).expect("update");
    assert_eq!(card.volume.next_cluster(&mut card.cache, v(50)).unwrap(), v(1234));
}

#[test]
fn a_table_entry_of_fat32_keeps_its_top_four_bits() {
    let disk = fat32_disk();
    disk.put(FAT32_TABLE, 40, &0xA000_0005u32.to_le_bytes());
    disk.put(FAT32_MIRROR, 44, &0x0000_0007u32.to_le_bytes());
    let mut card = Card::open(disk, FAT32_START, 561_132);
    card.volume.update_fat(&mut card.cache, ClusterId(10), ClusterId(77)).expect("update");
    assert_eq!(card.table(10), (0xA000_004D, 0xA000_004D));
    // The second table is given the whole block of the first.
    assert_eq!(card.table(11), (0, 0));
    assert_eq!(card.volume.next_cluster(&mut card.cache, ClusterId(10)).unwrap(), ClusterId(77));
}

#[test]
fn the_search_for_a_free_cluster_stays_in_its_range() {
    for mut card in [Card::fat16(), Card::fat32()] {
        for c in 2..300 {
            card.volume
                .update_fat(&mut card.cache, ClusterId(c), ClusterId(ClusterId::END_OF_FILE))
                .expect("update");
        }
        let find = |card: &mut Card, from: u32, to: u32| {
            card.volume.find_next_free_cluster(&mut card.cache, ClusterId(from), ClusterId(to))
        };
        assert_eq!(find(&mut card, 2, 1000).unwrap(), ClusterId(300));
        assert_eq!(find(&mut card, 400, 1000).unwrap(), ClusterId(400));
        assert!(matches!(find(&mut card, 2, 300), Err(Error::NotEnoughSpace)));
        assert!(matches!(find(&mut card, 2, 299), Err(Error::NotEnoughSpace)));
        assert_eq!(find(&mut card, 2, 301).unwrap(), ClusterId(300));
        assert!(matches!(find(&mut card, 300, 300), Err(Error::NotEnoughSpace)));
    }
}

#[test]
fn an_allocated_cluster_ends_the_chain_that_it_was_added_to() {
    for mut card in [Card::fat16(), Card::fat32()] {
        let first = card.volume.alloc_cluster(&mut card.cache, None, false).expect("first");
        let second =
            card.volume.alloc_cluster(&mut card.cache, Some(first), false).expect("second");
        assert_ne!(first, second);
        assert_eq!(chain_of(&mut card, first), vec![first, second]);
    }
}

#[test]
fn an_allocated_cluster_is_blank_on_request() {
    let mut card = Card::fat32();
    for block in FAT32_DATA + 8..FAT32_DATA + 16 {
        card.disk.set(block, [7; 512]);
    }
    let cluster = card.volume.alloc_cluster(&mut card.cache, None, true).expect("allocate");
    assert_eq!(cluster, ClusterId(3));
    for block in FAT32_DATA + 8..FAT32_DATA + 16 {
        assert!(card.disk.get(block) == [0; 512]);
    }
}

#[test]
fn a_hint_that_cannot_be_found_does_not_undo_an_allocation() {
    let mut card = Card::fat32();
    // The last entry of the first block of the table is claimed; the search for
    // the next one has to read the second block.
    card.volume.next_free_cluster = Some(ClusterId(127));
    card.faults().reads.set(Some((FAT32_TABLE + 1, FAT32_MIRROR)));
    let cluster = card.volume.alloc_cluster(&mut card.cache, None, false).expect("allocate");
    card.faults().reads.set(None);
    assert!(card.faults().injected.get() > 0);
    assert_eq!(cluster, ClusterId(127));
    assert_eq!(card.table(127).0, 0x0FFF_FFFF);
}

#[test]
fn truncation_keeps_the_first_cluster_alone() {
    for mut card in [Card::fat16(), Card::fat32()] {
        let chain = multi_cluster_file(&mut card);
        let free = card.volume.free_clusters_count;
        card.volume.truncate_cluster_chain(&mut card.cache, chain[0]).expect("truncate");
        assert_eq!(chain_of(&mut card, chain[0]), vec![chain[0]]);
        for c in &chain[1..] {
            assert_eq!(card.table(c.0), (0, 0));
        }
        assert_eq!(card.volume.next_free_cluster, Some(chain[1]));
        if let Some(free) = free {
            let freed = chain.len() as u32 - 1;
            assert_eq!(card.volume.free_clusters_count, Some(free + freed));
        }
        // A chain of one stays what it is.
        let blocks = card.disk.blocks.borrow().clone();
        card.volume.truncate_cluster_chain(&mut card.cache, chain[0]).expect("truncate");
        assert!(*card.disk.blocks.borrow() == blocks);
    }
}

#[test]
fn a_released_cluster_is_free_again() {
    let mut card = Card::fat32();
    let free = card.volume.free_clusters_count;
    let cluster = card.volume.alloc_cluster(&mut card.cache, None, false).expect("allocate");
    assert_eq!(card.volume.free_clusters_count, free.map(|n| n - 1));
    card.volume.release_unpublished_cluster(&mut card.cache, cluster);
    assert_eq!(card.volume.free_clusters_count, free);
    assert_eq!(card.table(cluster.0), (0, 0));
    assert_eq!(card.volume.alloc_cluster(&mut card.cache, None, false).unwrap(), cluster);
}

#[test]
fn the_root_directory_of_fat16_can_be_full() {
    let mut card = Card::fat16();
    for i in 0..512 {
        card.create(ROOT, &format!("F{i:07}.TXT")).expect("create file");
    }
    assert!(matches!(card.create(ROOT, "ONEMORE.TXT"), Err(Error::NotEnoughSpace)));
    assert!(matches!(card.create_long(ROOT, "One More.txt"), Err(Error::NotEnoughSpace)));
    card.delete(ROOT, "F0000100.TXT").expect("delete");
    // One slot is free: enough for a short name, and not for a long one.
    assert!(matches!(card.create_long(ROOT, "One More.txt"), Err(Error::NotEnoughSpace)));
    let entry = card.create(ROOT, "ONEMORE.TXT").expect("a slot is free");
    assert_eq!(entry.entry_block, BlockIdx(FAT16_ROOT + 6));
    assert_eq!(entry.entry_offset, 128);
}

#[test]
fn a_directory_grows_by_a_blank_cluster() {
    let mut card = Card::fat16();
    let dir = card.new_dir("GROWS");
    for i in 0..61 {
        card.create(dir, &format!("F{i:07}.TXT")).expect("create file");
    }
    assert_eq!(chain_of(&mut card, dir).len(), 1);
    // One slot is left, and this name takes three: it goes on in a new cluster.
    card.create_long(dir, "A Real Book.epub").expect("create");
    let chain = chain_of(&mut card, dir);
    assert_eq!(chain.len(), 2);
    let found = card.find_long(dir, "A Real Book.epub").expect("found");
    assert_eq!(found.entry_block, card.volume.cluster_to_block(chain[1]));
    assert_eq!(found.entry_offset, 32);
    assert_eq!(card.listed(dir, "A Real Book.epub"), Some(found));
    assert_eq!(card.names(dir).len(), 64);
}

#[test]
fn a_broken_directory_chain_is_reported() {
    let mut card = Card::fat32();
    let dir = card.new_dir("BROKEN");
    for i in 0..126 {
        card.create(dir, &format!("F{i:07}.TXT")).expect("create file");
    }
    card.volume.update_fat(&mut card.cache, dir, ClusterId(ClusterId::BAD)).expect("update");
    assert!(matches!(card.find(dir, "GHOST.TXT"), Err(Error::BadCluster)));
    assert!(matches!(card.delete(dir, "GHOST.TXT"), Err(Error::BadCluster)));
    assert!(matches!(card.find_long(dir, "Ghost"), Err(Error::BadCluster)));
    card.volume.update_fat(&mut card.cache, dir, ClusterId(0)).expect("update");
    assert!(matches!(card.find(dir, "GHOST.TXT"), Err(Error::UnterminatedFatChain)));
    // What stands in front of the break is found all the same.
    assert!(card.find(dir, "F0000007.TXT").is_ok());
}

#[test]
fn a_directory_names_itself_and_its_parent() {
    for mut card in [Card::fat16(), Card::fat32()] {
        let outer = card.new_dir("OUTER");
        card.make_dir(outer, "INNER").expect("make directory");
        let inner = card.find(outer, "INNER").expect("find").cluster;
        let items = card.list(inner);
        assert_eq!(items.len(), 2);
        assert_eq!(items[0].entry.name, ShortFileName::this_dir());
        assert_eq!(items[0].entry.cluster, inner);
        assert_eq!(items[1].entry.name, ShortFileName::parent_dir());
        assert_eq!(items[1].entry.cluster, outer);
        // The parent of a directory in the root reads as the root.
        let items = card.list(outer);
        assert_eq!(items[0].entry.cluster, outer);
        assert_eq!(items[1].entry.cluster, ROOT);
    }
}

#[test]
fn deleting_a_long_named_file_frees_all_of_its_slots() {
    let mut card = Card::fat32();
    let entry = card.create_long(ROOT, "A Real Book.epub").expect("create");
    assert_eq!(entry.entry_offset, 64);
    card.create(ROOT, "AFTER.TXT").expect("create");
    card.delete(ROOT, "AREALB~1.EPU").expect("delete");
    let block = card.disk.get(FAT32_DATA);
    assert_eq!([block[0], block[32], block[64]], [0xE5; 3]);
    assert_ne!(block[96], 0xE5);
    assert_eq!(card.names(ROOT), vec!["AFTER.TXT"]);
    // A name that takes as many slots goes where the old one was.
    let entry = card.create_long(ROOT, "Another Book.epub").expect("create");
    assert_eq!(entry.entry_block, BlockIdx(FAT32_DATA));
    assert_eq!(entry.entry_offset, 64);
}

#[test]
fn a_listing_shows_no_long_name_that_does_not_fit_its_buffer() {
    let mut card = Card::fat32();
    card.create_long(ROOT, "A Real Book.epub").expect("create");
    let whole = card.list_up_to(ROOT, 16, usize::MAX);
    assert_eq!(whole[0].long_name.as_deref(), Some("A Real Book.epub"));
    let cut = card.list_up_to(ROOT, 15, usize::MAX);
    assert_ne!(cut[0].long_name.as_deref(), Some("A Real Book.epub"));
    assert_eq!(text(&cut[0].entry.name), "AREALB~1.EPU");
}

#[test]
fn a_long_name_needs_its_own_checksum() {
    let mut card = Card::fat32();
    card.create_long(ROOT, "A Real Book.epub").expect("create");
    // Another tool renames the short entry and leaves the long name behind.
    card.disk.put(FAT32_DATA, 64, b"RENAMED EPU");
    let disk = card.disk.clone();
    card.cache = BlockCache::new(disk);
    let items = card.list(ROOT);
    assert_eq!(items.len(), 1);
    assert_eq!(items[0].long_name, None);
    assert!(matches!(card.find_long(ROOT, "A Real Book.epub"), Err(Error::NotFound)));
    // Deleting it leaves alone what is not its own.
    card.delete(ROOT, "RENAMED.EPU").expect("delete");
    let block = card.disk.get(FAT32_DATA);
    assert_ne!(block[0], 0xE5);
    assert_ne!(block[32], 0xE5);
    assert_eq!(block[64], 0xE5);
}

#[test]
fn a_name_that_ends_like_the_one_before_it_is_found() {
    for mut card in [Card::fat16(), Card::fat32()] {
        card.create_long(ROOT, "A Tale of Two Books.epub").expect("create");
        let six = card.create_long(ROOT, "A Tale of Six Books.epub").expect("create");
        card.find_long(ROOT, "A Tale of Two Books.epub").expect("found");
        let found = card.find_long(ROOT, "A Tale of Six Books.epub").expect("found");
        assert_eq!(found.name, six.name);
        assert!(card.taken(ROOT, "a tale of six books.EPUB"));
        assert!(!card.taken(ROOT, "A Tale of Ten Books.epub"));
        assert!(card.listed(ROOT, "A Tale of Six Books.epub").is_some());
    }
}

#[test]
fn a_long_name_stands_right_in_front_of_its_entry() {
    let mut card = Card::fat32();
    card.create_long(ROOT, "A Real Book.epub").expect("create");
    // Another tool puts an entry of its own between the name and its entry.
    let block = card.disk.get(FAT32_DATA);
    card.disk.put(FAT32_DATA, 96, &block[64..96]);
    card.disk.put(FAT32_DATA, 64, b"OTHER   TXT");
    let disk = card.disk.clone();
    card.cache = BlockCache::new(disk);
    assert!(matches!(card.find_long(ROOT, "A Real Book.epub"), Err(Error::NotFound)));
    assert!(!card.taken(ROOT, "A Real Book.epub"));
    card.find(ROOT, "AREALB~1.EPU").expect("found by its short name");
    let items = card.list(ROOT);
    assert_eq!(items.len(), 2);
    assert!(items.iter().all(|l| l.long_name.is_none()));
}

#[test]
fn a_listing_gives_a_long_name_to_one_entry_alone() {
    let mut card = Card::fat32();
    card.create_long(ROOT, "A Real Book.epub").expect("create");
    // Another tool writes the same short entry a second time.
    let block = card.disk.get(FAT32_DATA);
    card.disk.put(FAT32_DATA, 96, &block[64..96]);
    let disk = card.disk.clone();
    card.cache = BlockCache::new(disk);
    let items = card.list(ROOT);
    assert_eq!(items.len(), 2);
    assert_eq!(items[0].long_name.as_deref(), Some("A Real Book.epub"));
    assert_eq!(items[1].long_name, None);
    assert_eq!(items[0].entry.name, items[1].entry.name);
}

#[test]
fn a_name_broken_off_does_not_hide_the_next_one() {
    let mut card = Card::fat32();
    card.create_long(ROOT, "A Tale of Two Books.epub").expect("create");
    // The first piece is all that is left of the first name.
    card.disk.put(FAT32_DATA, 32, &[0xE5]);
    card.disk.put(FAT32_DATA, 64, &[0xE5]);
    let disk = card.disk.clone();
    card.cache = BlockCache::new(disk);
    card.create_long(ROOT, "A Tale of Six Books.epub").expect("create");
    card.find_long(ROOT, "A Tale of Six Books.epub").expect("found");
    assert!(matches!(card.find_long(ROOT, "A Tale of Two Books.epub"), Err(Error::NotFound)));
}

#[test]
fn half_a_character_is_not_passed_over() {
    let mut card = Card::fat32();
    card.create_long(ROOT, "xBook").expect("create");
    card.find_long(ROOT, "xBook").expect("found");
    // A low surrogate takes the place of the first character.
    card.disk.put(FAT32_DATA, 1, &[0x00, 0xDC]);
    let disk = card.disk.clone();
    card.cache = BlockCache::new(disk);
    assert!(matches!(card.find_long(ROOT, "Book"), Err(Error::NotFound)));

    let mut card = Card::fat32();
    card.create_long(ROOT, "\u{1F600}x").expect("create");
    card.find_long(ROOT, "\u{1F600}x").expect("found");
    // One low surrogate behind the other.
    card.disk.put(FAT32_DATA, 5, &[0x00, 0xDC]);
    let disk = card.disk.clone();
    card.cache = BlockCache::new(disk);
    assert!(matches!(card.find_long(ROOT, "\u{1F600}"), Err(Error::NotFound)));
}

#[test]
fn a_deleted_entry_is_not_deleted_twice() {
    let mut card = Card::fat32();
    card.create_long(ROOT, "A Real Book.epub").expect("create");
    card.create_long(ROOT, "Another.epub").expect("create");
    card.delete(ROOT, "AREALB~1.EPU").expect("delete");
    assert!(matches!(card.find(ROOT, "AREALB~1.EPU"), Err(Error::NotFound)));
    assert!(matches!(card.find_long(ROOT, "A Real Book.epub"), Err(Error::NotFound)));
    assert!(matches!(card.delete(ROOT, "AREALB~1.EPU"), Err(Error::NotFound)));
    assert!(card.listed(ROOT, "Another.epub").is_some());
}

#[test]
fn a_name_that_could_not_be_tidied_away_is_neither_found_nor_listed() {
    let long = "A Tale of Two Books, told again.epub";
    let names = ["Before.epub", long, "Behind the others.epub"];
    // Three pieces and the entry that they belong to.
    for failing_write in 2..=4 {
        let mut card = Card::fat32();
        for name in names {
            card.create_long(ROOT, name).expect("create");
        }
        let mut entry = card.find_long(ROOT, long).expect("found");
        card.write_body(&mut entry, &[7; 5000]).expect("write");
        let chain = chain_of(&mut card, entry.cluster);
        card.faults().writes.set(Some((FAT32_DATA, FAT32_DATA + 8)));
        card.faults().only_write.set(Some(failing_write));
        let alias = text(&entry.name);
        card.delete(ROOT, &alias).expect("delete");
        card.faults().writes.set(None);
        assert_eq!(card.faults().injected.get(), 1);

        assert!(matches!(card.find_long(ROOT, long), Err(Error::NotFound)));
        assert!(matches!(card.find(ROOT, &alias), Err(Error::NotFound)));
        assert!(matches!(card.delete(ROOT, &alias), Err(Error::NotFound)));
        let listed: Vec<_> = card.list(ROOT).into_iter().map(|l| l.long_name).collect();
        let others = [names[0], names[2]].map(|n| Some(n.to_string()));
        assert_eq!(listed, others);
        // What the file held is left alone.
        assert_eq!(chain_of(&mut card, entry.cluster), chain);
        assert_eq!(card.read_body(&entry), [7; 5000]);
    }
}

#[test]
fn an_alias_is_made_of_what_stands_around_the_last_dot() {
    let mut card = Card::fat32();
    let info = DirectoryInfo { cluster: ROOT };
    for (name, alias) in [
        ("A.Real.Book.epub", "AREALB~1.EPU"),
        ("no dot at all", "NODOTA~1"),
        (".hidden", "HIDDEN~1"),
        ("name.", "NAME~1"),
        (" . .txt", "_~1.TXT"),
        ("...", "_~1"),
        ("\u{e9}t\u{e9}.t x t", "_T_~1.TXT"),
    ] {
        let found = card.volume.generate_short_alias(&mut card.cache, &info, name).expect("alias");
        assert_eq!(text(&found), alias);
    }
}

#[test]
fn a_first_piece_numbered_zero_leads_nowhere() {
    let mut card = Card::fat32();
    card.create_long(ROOT, "Book.epub").expect("create");
    card.disk.put(FAT32_DATA, 0, &[0x40]);
    let disk = card.disk.clone();
    card.cache = BlockCache::new(disk);
    assert!(matches!(card.find_long(ROOT, "Book.epub"), Err(Error::NotFound)));
    assert_eq!(card.list(ROOT)[0].long_name, None);
}

#[test]
fn every_failing_write_of_a_long_name_leaves_none_of_it() {
    for n in 1..=3 {
        let mut card = Card::fat32();
        card.faults().writes.set(Some((FAT32_DATA, FAT32_DATA + 8)));
        card.faults().only_write.set(Some(n));
        let attempt = card.create_long(ROOT, "A Real Book.epub");
        card.faults().writes.set(None);
        assert!(matches!(attempt, Err(Error::DeviceError(Injected))));
        assert!(card.names(ROOT).is_empty());
        assert!(matches!(card.find_long(ROOT, "A Real Book.epub"), Err(Error::NotFound)));
        card.create_long(ROOT, "A Real Book.epub").expect("the name is still free");
    }
}

#[test]
fn a_cache_does_not_keep_what_could_not_be_stored() {
    let disk = RamDisk::new();
    disk.set(7, [1; 512]);
    let mut cache = BlockCache::new(disk.clone());
    assert!(cache.read(BlockIdx(7)).unwrap().contents == [1; 512]);
    cache.read_mut(BlockIdx(7)).unwrap().contents[0] = 2;
    disk.faults.writes.set(Some((7, 8)));
    assert_eq!(cache.write_back(), Err(Injected));
    disk.faults.writes.set(None);
    assert!(cache.read(BlockIdx(7)).unwrap().contents == [1; 512]);
    cache.blank_mut(BlockIdx(9)).contents[511] = 5;
    cache.write_back_with_duplicate(BlockIdx(10)).unwrap();
    assert_eq!(disk.get(9)[511], 5);
    assert_eq!(disk.get(10)[511], 5);
    assert!(cache.free().get(7) == [1; 512]);
}

#[test]
fn an_entry_that_is_stored_again_stays_where_it_is() {
    let mut card = Card::fat32();
    card.create(ROOT, "FIRST.TXT").expect("create");
    let mut entry = card.create(ROOT, "SECOND.TXT").expect("create");
    entry.size = 0x0102_0304;
    entry.cluster = ClusterId(0x0005_0006);
    entry.attributes = Attributes(Attributes::READ_ONLY);
    card.volume.write_entry_to_disk(&mut card.cache, &entry).expect("store");
    let found = card.find(ROOT, "SECOND.TXT").expect("find");
    assert_eq!(found.size, 0x0102_0304);
    assert_eq!(found.cluster, ClusterId(0x0005_0006));
    assert_eq!(found.attributes, Attributes(Attributes::READ_ONLY));
    assert_eq!((found.entry_block, found.entry_offset), (entry.entry_block, entry.entry_offset));
    assert_eq!(card.names(ROOT), vec!["FIRST.TXT", "SECOND.TXT"]);
}
