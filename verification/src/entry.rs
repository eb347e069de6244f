//! Directory entries: the decoded form, and the 32 bytes on the disk.

use crate::block::BlockIdx;
use crate::bytes::{le16, le16_bytes, le32, le32_bytes, read_u16, read_u32};
use crate::name::ShortFileName;
use crate::time::{fat_time_bytes, timestamp_of, Timestamp};
use vstd::prelude::*;

verus! {

/// Identifies a cluster of a volume.
#[derive(Clone, Copy, Debug, PartialEq, Eq, Structural)]
pub struct ClusterId(pub u32);

impl ClusterId {
    /// The number that stands for an invalid cluster.
    pub const INVALID: u32 = 0xFFFF_FFF6;

    /// The number that stands for a bad cluster.
    pub const BAD: u32 = 0xFFFF_FFF7;

    /// The number that stands for an empty cluster.
    pub const EMPTY: u32 = 0;

    /// The number that stands for the root directory, which on FAT16 has a
    /// region of its own and no cluster.
    pub const ROOT_DIR: u32 = 0xFFFF_FFFC;

    /// The number that marks a cluster as the final one of its file.
    pub const END_OF_FILE: u32 = 0xFFFF_FFFF;
}

/// The two kinds of File Allocation Table.
#[derive(Clone, Copy, Debug, PartialEq, Eq, Structural)]
pub enum FatType {
    /// Entries of 16 bits.
    Fat16,
    /// Entries of 32 bits, of which 28 count.
    Fat32,
}

/// The attribute bits of a directory entry.
#[derive(Clone, Copy, Debug, PartialEq, Eq, Structural)]
pub struct Attributes(pub u8);

impl Attributes {
    /// The file cannot be written to.
    pub const READ_ONLY: u8 = 0x01;

    /// The file should not be shown by default.
    pub const HIDDEN: u8 = 0x02;

    /// The file is a system file.
    pub const SYSTEM: u8 = 0x04;

    /// The entry is a volume label.
    pub const VOLUME: u8 = 0x08;

    /// The entry is a directory.
    pub const DIRECTORY: u8 = 0x10;

    /// The file should be archived.
    pub const ARCHIVE: u8 = 0x20;

    /// The entry is a piece of a long file name.
    pub const LFN: u8 = 0x0F;

    /// Does this attribute indicate a directory?
    pub open spec fn names_directory(self) -> bool {
        self.0 / 16 % 2 == 1
    }

    /// Does this attribute indicate a directory?
    pub fn is_directory(self) -> (directory: bool)
        ensures
            directory == self.names_directory(),
    {
        self.0 / 16 % 2 == 1
    }
}

/// Represents a directory entry, which tells you about other files and
/// directories.
#[derive(Clone, Copy, Debug, PartialEq, Eq)]
pub struct DirEntry {
    /// The name of the file.
    pub name: ShortFileName,
    /// When the file was last modified.
    pub mtime: Timestamp,
    /// When the file was first created.
    pub ctime: Timestamp,
    /// The file attributes (read only, archive, and so on).
    pub attributes: Attributes,
    /// The starting cluster of the file.
    pub cluster: ClusterId,
    /// The size of the file in bytes.
    pub size: u32,
    /// The disk block of this entry.
    pub entry_block: BlockIdx,
    /// The offset on its block, in bytes.
    pub entry_offset: u32,
}

/// What a directory entry says, as plain values.
pub struct EntryView {
    /// The eleven bytes of the short name.
    pub name: Seq<u8>,
    /// When the file was last modified.
    pub mtime: Timestamp,
    /// When the file was first created.
    pub ctime: Timestamp,
    /// The attribute bits.
    pub attributes: Attributes,
    /// The starting cluster.
    pub cluster: ClusterId,
    /// The size in bytes.
    pub size: u32,
    /// The block that the entry stands in.
    pub block: u32,
    /// Where in that block it stands.
    pub offset: u32,
}

impl View for DirEntry {
    type V = EntryView;

    open spec fn view(&self) -> EntryView {
        EntryView {
            name: self.name.contents@,
            mtime: self.mtime,
            ctime: self.ctime,
            attributes: self.attributes,
            cluster: self.cluster,
            size: self.size,
            block: self.entry_block.0,
            offset: self.entry_offset,
        }
    }
}

/// Which directory to look at: the one that begins in this cluster.
#[derive(Clone, Copy, Debug, PartialEq, Eq, Structural)]
pub struct DirectoryInfo {
    /// The first cluster, or the one numbered `ClusterId::ROOT_DIR`.
    pub cluster: ClusterId,
}

/// A new entry for a file of no size, created and modified at `ctime`.
pub open spec fn new_entry(
    name: Seq<u8>,
    attributes: Attributes,
    cluster: ClusterId,
    ctime: Timestamp,
    block: u32,
    offset: u32,
) -> EntryView {
    EntryView { name, mtime: ctime, ctime, attributes, cluster, size: 0, block, offset }
}

/// The 32 bytes by which an entry is stored. A 16-bit table leaves no room for
/// the upper half of the cluster number.
pub open spec fn entry_bytes(e: EntryView, fat_type: FatType) -> Seq<u8> {
    let high = match fat_type {
        FatType::Fat16 => 0u16,
        FatType::Fat32 => (e.cluster.0 / 65536) as u16,
    };
    let low = (e.cluster.0 % 65536) as u16;
    e.name + seq![e.attributes.0, 0, 0] + fat_time_bytes(e.ctime) + seq![0, 0] + le16_bytes(high)
        + fat_time_bytes(e.mtime) + le16_bytes(low) + le32_bytes(e.size)
}

/// Does this slot end the directory?
pub open spec fn slot_is_end(raw: Seq<u8>) -> bool {
    raw[0] == 0
}

/// Does this slot hold an entry? It does not if it was never used, or if its
/// entry was deleted.
pub open spec fn slot_is_valid(raw: Seq<u8>) -> bool {
    raw[0] != 0 && raw[0] != 0xE5
}

/// Does this slot hold a piece of a long name?
pub open spec fn slot_is_lfn(raw: Seq<u8>) -> bool {
    raw[11] % 16 == 15
}

/// The cluster number that a slot stores.
pub open spec fn slot_cluster(raw: Seq<u8>, fat_type: FatType) -> u32 {
    match fat_type {
        FatType::Fat16 => le16(raw, 26) as u32,
        FatType::Fat32 => (le16(raw, 20) * 65536 + le16(raw, 26)) as u32,
    }
}

/// What a slot says, read as an entry. A directory that stores no cluster is
/// the root directory.
pub open spec fn slot_entry(raw: Seq<u8>, fat_type: FatType, block: u32, offset: u32) -> EntryView {
    let attributes = Attributes(raw[11]);
    let cluster = slot_cluster(raw, fat_type);
    EntryView {
        name: raw.take(11),
        mtime: timestamp_of(le16(raw, 24), le16(raw, 22)),
        ctime: timestamp_of(le16(raw, 16), le16(raw, 14)),
        attributes,
        cluster: if cluster == 0 && attributes.names_directory() {
            ClusterId(ClusterId::ROOT_DIR)
        } else {
            ClusterId(cluster)
        },
        size: le32(raw, 28),
        block,
        offset,
    }
}

/// Where in a slot the code units of a long name stand.
pub open spec fn lfn_offset(i: int) -> int {
    if i < 5 {
        1 + 2 * i
    } else if i < 11 {
        4 + 2 * i
    } else {
        6 + 2 * i
    }
}

/// A piece of a long name, as its slot gives it.
pub struct LfnView {
    /// Is it the last piece of the name, which comes first on the disk?
    pub is_start: bool,
    /// Its place in the name, counting from one.
    pub sequence: u8,
    /// The checksum of the short name that it belongs to.
    pub csum: u8,
    /// Thirteen code units, of which those behind the name are padding.
    pub units: Seq<u16>,
}

/// The piece of a long name that a slot holds.
pub open spec fn slot_lfn(raw: Seq<u8>) -> LfnView {
    LfnView {
        is_start: raw[0] / 64 % 2 == 1,
        sequence: raw[0] % 32,
        csum: raw[13],
        units: Seq::new(13, |i: int| le16(raw, lfn_offset(i))),
    }
}

/// A piece of a long name.
#[derive(Clone, Copy)]
pub struct LfnContents {
    /// Is it the last piece of the name, which comes first on the disk?
    pub is_start: bool,
    /// Its place in the name, counting from one.
    pub sequence: u8,
    /// The checksum of the short name that it belongs to.
    pub csum: u8,
    /// Thirteen code units, of which those behind the name are padding.
    pub units: [u16; 13],
}

impl View for LfnContents {
    type V = LfnView;

    open spec fn view(&self) -> LfnView {
        LfnView {
            is_start: self.is_start,
            sequence: self.sequence,
            csum: self.csum,
            units: self.units@,
        }
    }
}

/// The 32 bytes of one slot of a directory.
#[derive(Clone, Copy)]
pub struct OnDiskDirEntry {
    /// The bytes as they stand on the disk.
    pub data: [u8; 32],
}

impl View for OnDiskDirEntry {
    type V = Seq<u8>;

    open spec fn view(&self) -> Seq<u8> {
        self.data@
    }
}

impl OnDiskDirEntry {
    /// How many bytes a slot of a directory takes.
    pub const LEN: usize = 32;

    /// `OnDiskDirEntry::LEN` as a `u32`.
    pub const LEN_U32: u32 = 32;

    /// Take the slot that begins at `at` out of a block.
    pub fn new(block: &[u8], at: usize) -> (entry: OnDiskDirEntry)
        requires
            at + 32 <= block@.len(),
        ensures
            entry@ == block@.subrange(at as int, at + 32),
    {
        let mut data = [0u8; 32];
        let mut i: usize = 0;
        while i < 32
            invariant
                i <= 32,
                at + 32 <= block@.len(),
                data@.len() == 32,
                forall|k: int| 0 <= k < i ==> data@[k] == block@[at + k],
            decreases 32 - i,
        {
            assert(at + 32 <= block.len());
            data[i] = block[at + i];
            i += 1;
        }
        assert(data@ =~= block@.subrange(at as int, at + 32));
        OnDiskDirEntry { data }
    }

    /// Is this the last entry in the directory?
    pub fn is_end(&self) -> (end: bool)
        ensures
            end == slot_is_end(self@),
    {
        self.data[0] == 0
    }

    /// Is this a valid entry?
    pub fn is_valid(&self) -> (valid: bool)
        ensures
            valid == slot_is_valid(self@),
    {
        self.data[0] != 0 && self.data[0] != 0xE5
    }

    /// Is this a piece of a long file name?
    pub fn is_lfn(&self) -> (lfn: bool)
        ensures
            lfn == slot_is_lfn(self@),
    {
        self.data[11] % 16 == 15
    }

    /// If this is a piece of a long file name, get the piece.
    pub fn lfn_contents(&self) -> (contents: Option<LfnContents>)
        ensures
            contents is Some <==> slot_is_lfn(self@),
            contents matches Some(piece) ==> piece@ == slot_lfn(self@),
    {
        if !self.is_lfn() {
            return None;
        }
        let units = [
            read_u16(&self.data, 1),
            read_u16(&self.data, 3),
            read_u16(&self.data, 5),
            read_u16(&self.data, 7),
            read_u16(&self.data, 9),
            read_u16(&self.data, 14),
            read_u16(&self.data, 16),
            read_u16(&self.data, 18),
            read_u16(&self.data, 20),
            read_u16(&self.data, 22),
            read_u16(&self.data, 24),
            read_u16(&self.data, 28),
            read_u16(&self.data, 30),
        ];
        assert(units@ =~= slot_lfn(self@).units);
        Some(
            LfnContents {
                is_start: self.data[0] / 64 % 2 == 1,
                sequence: self.data[0] % 32,
                csum: self.data[13],
                units,
            },
        )
    }

    /// The eleven bytes that a short name would take.
    fn name(&self) -> (name: ShortFileName)
        ensures
            name.contents@ == self@.take(11),
    {
        let d = &self.data;
        let name = ShortFileName {
            contents: [d[0], d[1], d[2], d[3], d[4], d[5], d[6], d[7], d[8], d[9], d[10]],
        };
        assert(name.contents@ =~= self@.take(11));
        name
    }

    /// Does this entry match the given short name?
    pub fn matches(&self, sfn: &ShortFileName) -> (same: bool)
        ensures
            same == (self@.take(11) == sfn.contents@),
    {
        self.name().is_same(sfn)
    }

    /// Convert the on-disk format into a `DirEntry`.
    pub fn get_entry(&self, fat_type: FatType, entry_block: BlockIdx, entry_offset: u32) -> (entry:
        DirEntry)
        ensures
            entry@ == slot_entry(self@, fat_type, entry_block.0, entry_offset),
    {
        let attributes = Attributes(self.data[11]);
        let low: u32 = read_u16(&self.data, 26) as u32;
        let cluster: u32 = match fat_type {
            FatType::Fat16 => low,
            FatType::Fat32 => read_u16(&self.data, 20) as u32 * 65536 + low,
        };
        DirEntry {
            name: self.name(),
            mtime: Timestamp::from_fat(read_u16(&self.data, 24), read_u16(&self.data, 22)),
            ctime: Timestamp::from_fat(read_u16(&self.data, 16), read_u16(&self.data, 14)),
            attributes,
            cluster: if cluster == 0 && attributes.is_directory() {
                ClusterId(ClusterId::ROOT_DIR)
            } else {
                ClusterId(cluster)
            },
            size: read_u32(&self.data, 28),
            entry_block,
            entry_offset,
        }
    }
}

impl DirEntry {
    /// Describe a new file of no size.
    pub fn new(
        name: ShortFileName,
        attributes: Attributes,
        cluster: ClusterId,
        ctime: Timestamp,
        entry_block: BlockIdx,
        entry_offset: u32,
    ) -> (entry: DirEntry)
        ensures
            entry@ == new_entry(
                name.contents@,
                attributes,
                cluster,
                ctime,
                entry_block.0,
                entry_offset,
            ),
    {
        DirEntry {
            name,
            mtime: ctime,
            ctime,
            attributes,
            cluster,
            size: 0,
            entry_block,
            entry_offset,
        }
    }

    /// Convert to the 32 bytes that a directory holds.
    pub fn serialize(&self, fat_type: FatType) -> (data: [u8; 32])
        ensures
            data@ == entry_bytes(self@, fat_type),
    {
        let n = &self.name.contents;
        let ctime = self.ctime.serialize_to_fat();
        let mtime = self.mtime.serialize_to_fat();
        let high: u16 = match fat_type {
            FatType::Fat16 => 0,
            FatType::Fat32 => (self.cluster.0 / 65536) as u16,
        };
        let low: u16 = (self.cluster.0 % 65536) as u16;
        let size: u32 = self.size;
        let data = [
            n[0],
            n[1],
            n[2],
            n[3],
            n[4],
            n[5],
            n[6],
            n[7],
            n[8],
            n[9],
            n[10],
            self.attributes.0,
            0,
            0,
            ctime[0],
            ctime[1],
            ctime[2],
            ctime[3],
            0,
            0,
            (high % 256) as u8,
            (high / 256) as u8,
            mtime[0],
            mtime[1],
            mtime[2],
            mtime[3],
            (low % 256) as u8,
            (low / 256) as u8,
            (size % 256) as u8,
            (size / 256 % 256) as u8,
            (size / 65536 % 256) as u8,
            (size / 16777216) as u8,
        ];
        assert(data@ =~= entry_bytes(self@, fat_type));
        data
    }
}

} // verus!
