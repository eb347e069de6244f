//! What is known of a volume once it is open.

use crate::block::{BlockCount, BlockIdx};
use crate::entry::{ClusterId, FatType};
use crate::label::VolumeName;
use vstd::prelude::*;

verus! {

/// The first two entries of a File Allocation Table belong to no cluster.
pub const RESERVED_ENTRIES: u32 = 2;

/// What only a FAT16 volume has.
#[derive(Clone, Copy, Debug, PartialEq, Eq, Structural)]
pub struct Fat16Info {
    /// The block the root directory starts in. Relative to start of partition
    /// (so add the volume's `lba_start` before passing to a block device).
    pub first_root_dir_block: BlockCount,
    /// Number of entries in root directory (it's reserved and not in the FAT).
    pub root_entries_count: u16,
}

/// What only a FAT32 volume has.
#[derive(Clone, Copy, Debug, PartialEq, Eq, Structural)]
pub struct Fat32Info {
    /// The root directory does not have a reserved area in FAT32. This is the
    /// cluster it starts in (nominally 2).
    pub first_root_dir_cluster: ClusterId,
    /// Block idx of the info sector.
    pub info_location: BlockIdx,
}

/// What depends on the kind of File Allocation Table.
#[derive(Clone, Copy, Debug, PartialEq, Eq, Structural)]
pub enum FatSpecificInfo {
    /// A FAT16 volume.
    Fat16(Fat16Info),
    /// A FAT32 volume.
    Fat32(Fat32Info),
}

/// Identifies a FAT16 or FAT32 Volume on the disk.
#[derive(Clone, Copy, PartialEq, Eq)]
pub struct FatVolume {
    /// The block number of the start of the partition. All other block numbers
    /// are relative to this.
    pub lba_start: BlockIdx,
    /// The number of blocks in this volume.
    pub num_blocks: BlockCount,
    /// The name of this volume.
    pub name: VolumeName,
    /// Number of 512 byte blocks in a cluster.
    pub blocks_per_cluster: u8,
    /// The block the data starts in. Relative to start of partition.
    pub first_data_block: BlockCount,
    /// The block the FAT starts in. Relative to start of partition.
    pub fat_start: BlockCount,
    /// The block the second FAT starts in. Relative to start of partition.
    pub second_fat_start: Option<BlockCount>,
    /// Expected number of free clusters.
    pub free_clusters_count: Option<u32>,
    /// Number of the next expected free cluster.
    pub next_free_cluster: Option<ClusterId>,
    /// Total number of clusters.
    pub cluster_count: u32,
    /// Type of FAT.
    pub fat_specific_info: FatSpecificInfo,
}

impl FatVolume {
    /// The kind of File Allocation Table that this volume has.
    pub open spec fn fat_type(self) -> FatType {
        match self.fat_specific_info {
            FatSpecificInfo::Fat16(_) => FatType::Fat16,
            FatSpecificInfo::Fat32(_) => FatType::Fat32,
        }
    }

    /// Is this the same volume as `other`, but for what is known of its free
    /// clusters?
    pub open spec fn same_layout(self, other: FatVolume) -> bool {
        self == (FatVolume {
            free_clusters_count: self.free_clusters_count,
            next_free_cluster: self.next_free_cluster,
            ..other
        })
    }

    /// Does `c` stand for a root directory that has a region of its own?
    pub open spec fn is_fixed_root(self, c: ClusterId) -> bool {
        self.fat_specific_info is Fat16 && c.0 == ClusterId::ROOT_DIR
    }

    /// The cluster that `c` stands for: on FAT32 the root directory has one.
    pub open spec fn resolved(self, c: ClusterId) -> ClusterId {
        match self.fat_specific_info {
            FatSpecificInfo::Fat16(_) => c,
            FatSpecificInfo::Fat32(info) => if c.0 == ClusterId::ROOT_DIR {
                info.first_root_dir_cluster
            } else {
                c
            },
        }
    }

    /// The block that the cluster `c`, or the region of its own that `c` stands
    /// for, begins in.
    pub open spec fn block_of(self, c: ClusterId) -> int {
        match self.fat_specific_info {
            FatSpecificInfo::Fat16(info) if c.0 == ClusterId::ROOT_DIR => self.lba_start.0
                + info.first_root_dir_block.0,
            _ => self.lba_start.0 + self.first_data_block.0 + (self.resolved(c).0 - 2)
                * self.blocks_per_cluster,
        }
    }

    /// Is there such a block, and does its number fit?
    pub open spec fn block_in_reach(self, c: ClusterId) -> bool {
        &&& self.is_fixed_root(c) || self.resolved(c).0 >= 2
        &&& self.block_of(c) <= u32::MAX
    }

    /// Get the type of FAT this volume is.
    pub fn get_fat_type(&self) -> (fat_type: FatType)
        ensures
            fat_type == self.fat_type(),
    {
        match &self.fat_specific_info {
            FatSpecificInfo::Fat16(_) => FatType::Fat16,
            FatSpecificInfo::Fat32(_) => FatType::Fat32,
        }
    }

    /// How many bytes a cluster holds.
    pub open spec fn cluster_bytes(self) -> int {
        self.blocks_per_cluster * 512
    }

    /// Number of bytes in a cluster.
    pub fn bytes_per_cluster(&self) -> (bytes: u32)
        ensures
            bytes == self.cluster_bytes(),
            bytes == self.blocks_per_cluster * 512,
    {
        self.blocks_per_cluster as u32 * 512
    }

    /// Converts a cluster number to a block number. Gives an absolute
    /// `BlockIdx` you can pass to a block device.
    pub fn cluster_to_block(&self, cluster: ClusterId) -> (block: BlockIdx)
        requires
            self.block_in_reach(cluster),
        ensures
            block.0 == self.block_of(cluster),
    {
        let cluster_num: u32 = match &self.fat_specific_info {
            FatSpecificInfo::Fat16(info) => {
                if cluster.0 == ClusterId::ROOT_DIR {
                    return BlockIdx(self.lba_start.0 + info.first_root_dir_block.0);
                }
                cluster.0
            },
            FatSpecificInfo::Fat32(info) => {
                if cluster.0 == ClusterId::ROOT_DIR {
                    info.first_root_dir_cluster.0
                } else {
                    cluster.0
                }
            },
        };
        let steps: u32 = cluster_num - 2;
        let bpc: u32 = self.blocks_per_cluster as u32;
        assert(0 <= steps * bpc) by (nonlinear_arith);
        // FirstSectorofCluster = ((N - 2) * BPB_SecPerClus) + FirstDataSector
        let first_block_of_cluster: u32 = steps * bpc;
        BlockIdx(self.lba_start.0 + self.first_data_block.0 + first_block_of_cluster)
    }
}

} // verus!
