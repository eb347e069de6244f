//! The boot sector and the info sector, and opening a volume by them.

use crate::block::{BlockCache, BlockCount, BlockDevice, BlockIdx, Disk};
use crate::bytes::{le16, le32, le32_bytes, read_u16, read_u32, splice, write_u32};
use crate::entry::{ClusterId, FatType, OnDiskDirEntry};
use crate::error::Error;
use crate::label::VolumeName;
use crate::volume::{Fat16Info, Fat32Info, FatSpecificInfo, FatVolume};
use vstd::prelude::*;

verus! {

/// The kinds of volume there are.
#[derive(Clone, Copy, PartialEq, Eq)]
pub enum VolumeType {
    /// FAT16/FAT32 formatted volumes.
    Fat(FatVolume),
}

/// A boot sector, as the sequence of its bytes.
pub struct Boot {
    /// The bytes.
    pub bytes: Seq<u8>,
}

impl Boot {
    /// Number of blocks in front of the first FAT.
    pub open spec fn reserved_blocks(self) -> int {
        le16(self.bytes, 14) as int
    }

    /// Number of FATs.
    pub open spec fn fats(self) -> int {
        self.bytes[16] as int
    }

    /// Number of entries of the root directory, where it has a region.
    pub open spec fn root_entries(self) -> int {
        le16(self.bytes, 17) as int
    }

    /// Number of blocks of the volume.
    pub open spec fn blocks(self) -> int {
        if le16(self.bytes, 19) != 0 {
            le16(self.bytes, 19) as int
        } else {
            le32(self.bytes, 32) as int
        }
    }

    /// Number of blocks of each FAT.
    pub open spec fn fat_blocks(self) -> int {
        if le16(self.bytes, 22) != 0 {
            le16(self.bytes, 22) as int
        } else {
            le32(self.bytes, 36) as int
        }
    }

    /// Number of blocks that the root directory takes, where it has a region.
    pub open spec fn root_blocks(self) -> int {
        (self.root_entries() * 32 + 511) / 512
    }

    /// Number of blocks of a cluster.
    pub open spec fn cluster_blocks(self) -> int {
        self.bytes[13] as int
    }

    /// The block that the data begins in.
    pub open spec fn data_start(self) -> int {
        self.reserved_blocks() + self.fats() * self.fat_blocks() + self.root_blocks()
    }

    /// Number of clusters.
    pub open spec fn clusters(self) -> int {
        (self.blocks() - self.data_start()) / self.cluster_blocks()
    }

    /// The kind of FAT, which depends on the number of clusters alone.
    pub open spec fn fat_type(self) -> FatType {
        if self.clusters() < 65525 {
            FatType::Fat16
        } else {
            FatType::Fat32
        }
    }

    /// What is wrong with the boot sector as such. Its numbers have to go together
    /// before clusters can be counted: a cluster takes a block at least, and the
    /// data does not begin behind the end of the volume.
    pub open spec fn format_error(self) -> Option<Seq<char>> {
        if le16(self.bytes, 510) != 0xAA55 {
            Some("Bad BPB footer"@)
        } else if self.cluster_blocks() == 0 {
            Some("Bad cluster size"@)
        } else if self.data_start() > self.blocks() {
            Some("Bad volume size"@)
        } else if self.clusters() < 4085 {
            Some("FAT12 is unsupported"@)
        } else if self.fat_type() == FatType::Fat32 && le16(self.bytes, 42) != 0 {
            Some("Invalid FAT format"@)
        } else {
            None
        }
    }

    /// Does the number of the block that holds the info sector fit, where there is
    /// one?
    pub open spec fn in_reach(self, lba_start: BlockIdx) -> bool {
        self.format_error() is None && self.fat_type() == FatType::Fat32 ==> lba_start.0 + le16(
            self.bytes,
            48,
        ) <= u32::MAX
    }

    /// Is `volume` the one that this boot sector describes, where nothing is
    /// known of its free clusters?
    pub open spec fn describes(
        self,
        volume: FatVolume,
        lba_start: BlockIdx,
        num_blocks: BlockCount,
    ) -> bool {
        &&& volume.lba_start == lba_start
        &&& volume.num_blocks == num_blocks
        &&& volume.blocks_per_cluster == self.cluster_blocks()
        &&& volume.fat_start.0 == self.reserved_blocks()
        &&& volume.cluster_count == self.clusters()
        &&& match volume.second_fat_start {
            Some(start) => self.fats() == 2 && start.0 == self.reserved_blocks()
                + self.fat_blocks(),
            None => self.fats() != 2,
        }
        &&& match self.fat_type() {
            FatType::Fat16 => {
                &&& volume.name.contents@ == self.bytes.subrange(43, 54)
                &&& volume.first_data_block.0 == self.data_start()
                &&& volume.fat_specific_info matches FatSpecificInfo::Fat16(info)
                    && info.root_entries_count == self.root_entries()
                    && info.first_root_dir_block.0 == self.data_start() - self.root_blocks()
            },
            FatType::Fat32 => {
                &&& volume.name.contents@ == self.bytes.subrange(71, 82)
                &&& volume.first_data_block.0 == self.data_start() - self.root_blocks()
                &&& volume.fat_specific_info matches FatSpecificInfo::Fat32(info)
                    && info.info_location.0 == lba_start.0 + le16(self.bytes, 48)
                    && info.first_root_dir_cluster.0 == le32(self.bytes, 44)
            },
        }
    }
}

/// What is wrong with an info sector.
pub open spec fn info_format_error(bytes: Seq<u8>) -> Option<Seq<char>> {
    if le32(bytes, 0) != 0x4161_5252 {
        Some("Bad lead signature on InfoSector"@)
    } else if le32(bytes, 484) != 0x6141_7272 {
        Some("Bad struc signature on InfoSector"@)
    } else if le32(bytes, 508) != 0xAA55_0000 {
        Some("Bad trail signature on InfoSector"@)
    } else {
        None
    }
}

/// How many clusters are free by an info sector, if it says so.
pub open spec fn info_free_count(bytes: Seq<u8>) -> Option<u32> {
    if le32(bytes, 488) == 0xFFFF_FFFF {
        None
    } else {
        Some(le32(bytes, 488))
    }
}

/// Where to look for a free cluster by an info sector, if it says so.
pub open spec fn info_next_free(bytes: Seq<u8>) -> Option<ClusterId> {
    if le32(bytes, 492) == 0xFFFF_FFFF || le32(bytes, 492) < 2 {
        None
    } else {
        Some(ClusterId(le32(bytes, 492)))
    }
}

/// A boot sector that has been checked.
struct Bpb<'a> {
    data: &'a [u8; 512],
    fat_type: FatType,
    cluster_count: u32,
}

impl<'a> Bpb<'a> {
    /// The boot sector.
    spec fn boot(self) -> Boot {
        Boot { bytes: self.data@ }
    }

    /// Is the kind of FAT, and the number of clusters, that of the boot sector?
    spec fn wf(self) -> bool {
        &&& self.boot().format_error() is None
        &&& self.fat_type == self.boot().fat_type()
        &&& self.cluster_count == self.boot().clusters()
    }

    /// Attempt to parse a Boot Parameter Block from a 512 byte sector.
    fn create_from_bytes(data: &'a [u8; 512]) -> (result: Result<Bpb<'a>, &'static str>)
        ensures
            match (Boot { bytes: data@ }).format_error() {
                Some(error) => result matches Err(e) && e@ == error,
                None => result matches Ok(bpb) && bpb.data == data && bpb.wf(),
            },
    {
        let ghost boot = Boot { bytes: data@ };
        if read_u16(data, 510) != 0xAA55 {
            return Err("Bad BPB footer");
        }
        let root_dir_blocks: u32 = BlockCount::from_bytes(
            read_u16(data, 17) as u32 * OnDiskDirEntry::LEN_U32,
        ).0;
        if data[13] == 0 {
            return Err("Bad cluster size");
        }
        let fats: u64 = data[16] as u64;
        let fat_blocks: u64 = fat_size(data) as u64;
        assert(0 <= fats * fat_blocks <= 0xFF * 0xFFFF_FFFF) by (nonlinear_arith)
            requires
                0 <= fats <= 0xFF,
                0 <= fat_blocks <= 0xFFFF_FFFF,
        ;
        let non_data_blocks: u64 = read_u16(data, 14) as u64 + fats * fat_blocks
            + root_dir_blocks as u64;
        let blocks: u64 = total_blocks(data) as u64;
        if non_data_blocks > blocks {
            return Err("Bad volume size");
        }
        let data_blocks: u32 = (blocks - non_data_blocks) as u32;
        let cluster_count: u32 = data_blocks / data[13] as u32;
        assert(cluster_count == boot.clusters());
        if cluster_count < 4085 {
            return Err("FAT12 is unsupported");
        }
        let fat_type = if cluster_count < 65525 {
            FatType::Fat16
        } else {
            FatType::Fat32
        };
        // Only support FAT32 version 0.0
        match fat_type {
            FatType::Fat16 => {},
            FatType::Fat32 => {
                if read_u16(data, 42) != 0 {
                    return Err("Invalid FAT format");
                }
            },
        }
        Ok(Bpb { data, fat_type, cluster_count })
    }

    /// Get the volume label.
    fn volume_label(&self) -> (label: [u8; 11])
        ensures
            label@ == match self.fat_type {
                FatType::Fat16 => self.data@.subrange(43, 54),
                FatType::Fat32 => self.data@.subrange(71, 82),
            },
    {
        let start: usize = match self.fat_type {
            FatType::Fat16 => 43,
            FatType::Fat32 => 71,
        };
        let mut label = [0u8; 11];
        let mut i: usize = 0;
        while i < 11
            invariant
                i <= 11,
                start <= 71,
                forall|k: int| 0 <= k < i ==> label@[k] == self.data@[start + k],
            decreases 11 - i,
        {
            label[i] = self.data[start + i];
            i += 1;
        }
        assert(label@ =~= self.data@.subrange(start as int, start + 11));
        label
    }
}

/// The number of blocks of each FAT.
fn fat_size(data: &[u8; 512]) -> (blocks: u32)
    ensures
        blocks == (Boot { bytes: data@ }).fat_blocks(),
{
    let short: u32 = read_u16(data, 22) as u32;
    if short != 0 {
        short
    } else {
        read_u32(data, 36)
    }
}

/// The number of blocks of the volume.
fn total_blocks(data: &[u8; 512]) -> (blocks: u32)
    ensures
        blocks == (Boot { bytes: data@ }).blocks(),
{
    let short: u32 = read_u16(data, 19) as u32;
    if short != 0 {
        short
    } else {
        read_u32(data, 32)
    }
}

/// Check an info sector, and take from it how many clusters are free and where
/// to look for one.
fn read_info_sector(data: &[u8; 512]) -> (result: Result<
    (Option<u32>, Option<ClusterId>),
    &'static str,
>)
    ensures
        match info_format_error(data@) {
            Some(error) => result matches Err(e) && e@ == error,
            None => result matches Ok(info) && info == (
                info_free_count(data@),
                info_next_free(data@),
            ),
        },
{
    if read_u32(data, 0) != 0x4161_5252 {
        return Err("Bad lead signature on InfoSector");
    }
    if read_u32(data, 484) != 0x6141_7272 {
        return Err("Bad struc signature on InfoSector");
    }
    if read_u32(data, 508) != 0xAA55_0000 {
        return Err("Bad trail signature on InfoSector");
    }
    let count: u32 = read_u32(data, 488);
    let next: u32 = read_u32(data, 492);
    let free_clusters_count = if count == 0xFFFF_FFFF {
        None
    } else {
        Some(count)
    };
    let next_free_cluster = if next == 0xFFFF_FFFF || next < 2 {
        None
    } else {
        Some(ClusterId(next))
    };
    Ok((free_clusters_count, next_free_cluster))
}

/// Describe the volume that a boot sector describes, where nothing is known of
/// its free clusters.
fn describe_volume(bpb: &Bpb, lba_start: BlockIdx, num_blocks: BlockCount) -> (volume: FatVolume)
    requires
        bpb.wf(),
        bpb.boot().in_reach(lba_start),
    ensures
        bpb.boot().describes(volume, lba_start, num_blocks),
        volume.free_clusters_count is None,
        volume.next_free_cluster is None,
{
    let data = bpb.data;
    let reserved: u32 = read_u16(data, 14) as u32;
    let fats: u32 = data[16] as u32;
    let fat_blocks: u32 = fat_size(data);
    assert(0 <= fats * fat_blocks) by (nonlinear_arith);
    let second_fat_start = if fats == 2 {
        Some(BlockCount(reserved + fat_blocks))
    } else {
        None
    };
    // FirstDataSector = BPB_ResvdSecCnt + (BPB_NumFATs * FATSz) + RootDirSectors
    let behind_fats: u32 = reserved + fats * fat_blocks;
    let name = VolumeName { contents: bpb.volume_label() };
    match bpb.fat_type {
        FatType::Fat16 => {
            let root_entries_count: u16 = read_u16(data, 17);
            let root_dir_blocks: u32 = (root_entries_count as u32 * OnDiskDirEntry::LEN_U32 + 511)
                / 512;
            FatVolume {
                lba_start,
                num_blocks,
                name,
                blocks_per_cluster: data[13],
                first_data_block: BlockCount(behind_fats + root_dir_blocks),
                fat_start: BlockCount(reserved),
                second_fat_start,
                free_clusters_count: None,
                next_free_cluster: None,
                cluster_count: bpb.cluster_count,
                fat_specific_info: FatSpecificInfo::Fat16(
                    Fat16Info {
                        root_entries_count,
                        first_root_dir_block: BlockCount(behind_fats),
                    },
                ),
            }
        },
        FatType::Fat32 => {
            FatVolume {
                lba_start,
                num_blocks,
                name,
                blocks_per_cluster: data[13],
                first_data_block: BlockCount(behind_fats),
                fat_start: BlockCount(reserved),
                second_fat_start,
                free_clusters_count: None,
                next_free_cluster: None,
                cluster_count: bpb.cluster_count,
                fat_specific_info: FatSpecificInfo::Fat32(
                    Fat32Info {
                        info_location: BlockIdx(lba_start.0 + read_u16(data, 48) as u32),
                        first_root_dir_cluster: ClusterId(read_u32(data, 44)),
                    },
                ),
            }
        },
    }
}

/// Is this the outcome of opening the volume that begins at `lba_start`?
pub open spec fn opened<E>(
    disk: Disk,
    lba_start: BlockIdx,
    num_blocks: BlockCount,
    result: Result<VolumeType, Error<E>>,
) -> bool {
    let boot = Boot { bytes: disk[lba_start.0] };
    match boot.format_error() {
        Some(error) => result matches Err(Error::FormatError(e)) && e@ == error,
        None => match boot.fat_type() {
            FatType::Fat16 => if le16(boot.bytes, 11) != 512 {
                result matches Err(Error::BadBlockSize(size)) && size == le16(boot.bytes, 11)
            } else {
                result matches Ok(VolumeType::Fat(volume)) && {
                    &&& boot.describes(volume, lba_start, num_blocks)
                    &&& volume.free_clusters_count is None
                    &&& volume.next_free_cluster is None
                }
            },
            FatType::Fat32 => {
                let info = disk[(lba_start.0 + le16(boot.bytes, 48)) as u32];
                match info_format_error(info) {
                    Some(error) => result matches Err(Error::FormatError(e)) && e@ == error,
                    None => result matches Ok(VolumeType::Fat(volume)) && {
                        &&& boot.describes(volume, lba_start, num_blocks)
                        &&& volume.free_clusters_count == info_free_count(info)
                        &&& volume.next_free_cluster == info_next_free(info)
                    },
                }
            },
        },
    }
}

/// An operation that opens the volume that begins at `lba_start`. If the device reports
/// an error, that is the outcome.
pub open spec fn opens<D: BlockDevice>(
    before: BlockCache<D>,
    lba_start: BlockIdx,
    num_blocks: BlockCount,
    after: BlockCache<D>,
    result: Result<VolumeType, Error<D::Error>>,
) -> bool {
    if after.untroubled(&before) {
        opened(before.disk(), lba_start, num_blocks, result)
    } else {
        result matches Err(Error::DeviceError(e)) && after.failed_with(&before, e)
    }
}

/// Load the boot parameter block from the start of the given partition and
/// determine if the partition contains a valid FAT16 or FAT32 file system.
pub fn parse_volume<D: BlockDevice>(
    block_cache: &mut BlockCache<D>,
    lba_start: BlockIdx,
    num_blocks: BlockCount,
) -> (result: Result<VolumeType, Error<D::Error>>)
    requires
        old(block_cache).clean(),
        (Boot { bytes: old(block_cache).disk()[lba_start.0] }).in_reach(lba_start),
    ensures
        final(block_cache).clean(),
        final(block_cache).disk() == old(block_cache).disk(),
        opens(*old(block_cache), lba_start, num_blocks, *final(block_cache), result),
{
    let block = match block_cache.read(lba_start) {
        Ok(block) => block,
        Err(e) => return Err(Error::DeviceError(e)),
    };
    let bpb = match Bpb::create_from_bytes(&block.contents) {
        Ok(bpb) => bpb,
        Err(e) => return Err(Error::FormatError(e)),
    };
    let mut volume = describe_volume(&bpb, lba_start, num_blocks);
    match bpb.fat_type {
        FatType::Fat16 => {
            let bytes_per_block: u16 = read_u16(bpb.data, 11);
            if bytes_per_block != 512 {
                return Err(Error::BadBlockSize(bytes_per_block));
            }
        },
        FatType::Fat32 => {
            // Now we don't need the BPB, update the volume with data from the info sector
            let info_location: u32 = lba_start.0 + read_u16(bpb.data, 48) as u32;
            let info_block = match block_cache.read(BlockIdx(info_location)) {
                Ok(block) => block,
                Err(e) => return Err(Error::DeviceError(e)),
            };
            match read_info_sector(&info_block.contents) {
                Ok((free_clusters_count, next_free_cluster)) => {
                    volume.free_clusters_count = free_clusters_count;
                    volume.next_free_cluster = next_free_cluster;
                },
                Err(e) => return Err(Error::FormatError(e)),
            }
        },
    }
    Ok(VolumeType::Fat(volume))
}

impl FatVolume {
    /// The info sector of this volume, once what is known of its free clusters
    /// was written to it.
    pub open spec fn info_sector_with(self, info: Seq<u8>) -> Seq<u8> {
        let counted = match self.free_clusters_count {
            Some(count) => splice(info, 488, le32_bytes(count)),
            None => info,
        };
        match self.next_free_cluster {
            Some(cluster) => splice(counted, 492, le32_bytes(cluster.0)),
            None => counted,
        }
    }

    /// The disk once what is known of the free clusters was written to the info
    /// sector. A FAT16 volume has none.
    pub open spec fn with_info_sector(self, disk: Disk) -> Disk {
        match self.fat_specific_info {
            FatSpecificInfo::Fat16(_) => disk,
            FatSpecificInfo::Fat32(info) => if self.free_clusters_count is None
                && self.next_free_cluster is None {
                disk
            } else {
                disk.insert(
                    info.info_location.0,
                    self.info_sector_with(disk[info.info_location.0]),
                )
            },
        }
    }

    /// Write what is known of the free clusters to the info sector.
    pub fn update_info_sector<D: BlockDevice>(&mut self, block_cache: &mut BlockCache<D>) -> (result:
        Result<(), Error<D::Error>>)
        requires
            old(block_cache).clean(),
        ensures
            *final(self) == *old(self),
            final(block_cache).clean(),
            match result {
                Ok(()) => {
                    &&& final(block_cache).untroubled(old(block_cache))
                    &&& final(block_cache).disk() == old(self).with_info_sector(
                        old(block_cache).disk(),
                    )
                },
                Err(error) => {
                    &&& error matches Error::DeviceError(e) && final(block_cache).failed_with(
                        old(block_cache),
                        e,
                    )
                    &&& final(block_cache).disk() == old(block_cache).disk()
                },
            },
    {
        match &self.fat_specific_info {
            FatSpecificInfo::Fat16(_) => {
                // FAT16 volumes don't have an info sector
                Ok(())
            },
            FatSpecificInfo::Fat32(fat32_info) => {
                if self.free_clusters_count.is_none() && self.next_free_cluster.is_none() {
                    return Ok(());
                }
                let block = match block_cache.read_mut(fat32_info.info_location) {
                    Ok(block) => block,
                    Err(e) => return Err(Error::DeviceError(e)),
                };
                if let Some(count) = self.free_clusters_count {
                    write_u32(&mut block.contents, 488, count);
                }
                if let Some(next_free_cluster) = self.next_free_cluster {
                    write_u32(&mut block.contents, 492, next_free_cluster.0);
                }
                match block_cache.write_back() {
                    Ok(()) => Ok(()),
                    Err(e) => Err(Error::DeviceError(e)),
                }
            },
        }
    }
}

} // verus!
