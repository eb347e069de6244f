//! The File Allocation Table: what it says of a cluster, and changing that.

use crate::block::{Block, BlockCache, BlockDevice, BlockIdx, Disk};
use crate::bytes::{
    le16, le16_bytes, le32, le32_bytes, read_u16, read_u32, splice, write_u16, write_u32,
};
use crate::entry::ClusterId;
use crate::error::Error;
use crate::volume::{FatSpecificInfo, FatVolume};
use vstd::prelude::*;

verus! {

/// What follows a cluster in its chain.
pub enum Link {
    /// Another cluster.
    Next(ClusterId),
    /// Nothing: the chain ends.
    End,
    /// A cluster that is marked as bad.
    Bad,
    /// The cluster is not in use at all.
    Free,
}

/// The outcome of following a link.
pub open spec fn followed<E>(link: Link) -> Result<ClusterId, Error<E>> {
    match link {
        Link::Next(c) => Ok(c),
        Link::End => Err(Error::EndOfFile),
        Link::Bad => Err(Error::BadCluster),
        Link::Free => Err(Error::UnterminatedFatChain),
    }
}

/// An operation that only reads: it leaves the disk as it was, and either the
/// device reported no error and `result` is the one that the disk calls for, or
/// the device reported an error and `result` is that error.
pub open spec fn only_reads<D: BlockDevice, T>(
    before: BlockCache<D>,
    after: BlockCache<D>,
    result: Result<T, Error<D::Error>>,
    expected: Result<T, Error<D::Error>>,
) -> bool {
    &&& after.clean()
    &&& after.disk() == before.disk()
    &&& {
        ||| after.untroubled(&before) && result == expected
        ||| result matches Err(Error::DeviceError(e)) && after.failed_with(&before, e)
    }
}

impl FatVolume {
    /// How far into the table the entry of `c` stands, in bytes.
    pub open spec fn entry_position(self, c: ClusterId) -> int {
        match self.fat_specific_info {
            FatSpecificInfo::Fat16(_) => c.0 * 2,
            FatSpecificInfo::Fat32(_) => c.0 * 4,
        }
    }

    /// The block that holds the entry of `c`.
    pub open spec fn entry_block(self, c: ClusterId) -> int {
        self.lba_start.0 + self.fat_start.0 + self.entry_position(c) / 512
    }

    /// The block that holds the entry of `c` in the second table, if there is one.
    pub open spec fn mirror_block(self, c: ClusterId) -> Option<int> {
        match self.second_fat_start {
            Some(start) => Some(self.lba_start.0 + start.0 + self.entry_position(c) / 512),
            None => None,
        }
    }

    /// Where in its block the entry of `c` stands.
    pub open spec fn entry_offset(self, c: ClusterId) -> int {
        self.entry_position(c) % 512
    }

    /// Is the entry of `c` at a place whose number can be computed?
    pub open spec fn entry_in_reach(self, c: ClusterId) -> bool {
        self.entry_position(c) <= u32::MAX && self.entry_block(c) <= u32::MAX
    }

    /// Are all copies of the entry of `c` at places whose numbers can be
    /// computed?
    pub open spec fn entries_in_reach(self, c: ClusterId) -> bool {
        self.entry_in_reach(c) && (self.mirror_block(c) matches Some(block) ==> block <= u32::MAX)
    }

    /// What the table says of `c`: 16 bits of it, or 28.
    pub open spec fn entry(self, disk: Disk, c: ClusterId) -> u32 {
        self.entry_in(disk[self.entry_block(c) as u32], c)
    }

    /// What the table says of `c`, taken from the block that holds the entry.
    pub open spec fn entry_in(self, block: Seq<u8>, c: ClusterId) -> u32 {
        match self.fat_specific_info {
            FatSpecificInfo::Fat16(_) => le16(block, self.entry_offset(c)) as u32,
            FatSpecificInfo::Fat32(_) => le32(block, self.entry_offset(c)) % 0x1000_0000,
        }
    }

    /// What follows `c` in its chain.
    pub open spec fn link(self, disk: Disk, c: ClusterId) -> Link {
        self.link_by(self.entry(disk, c))
    }

    /// What follows a cluster in its chain, by what the table says of it.
    pub open spec fn link_by(self, entry: u32) -> Link {
        match self.fat_specific_info {
            FatSpecificInfo::Fat16(_) => {
                if entry == 0xFFF7 {
                    Link::Bad
                } else if entry >= 0xFFF8 {
                    Link::End
                } else {
                    Link::Next(ClusterId(entry))
                }
            },
            FatSpecificInfo::Fat32(_) => {
                if entry == 0 {
                    Link::Free
                } else if entry == 0x0FFF_FFF7 {
                    Link::Bad
                } else if entry == 1 || entry >= 0x0FFF_FFF8 {
                    Link::End
                } else {
                    Link::Next(ClusterId(entry))
                }
            },
        }
    }

    /// As much of a cluster number as an entry of the table holds.
    pub open spec fn stored(self, value: ClusterId) -> u32 {
        match self.fat_specific_info {
            FatSpecificInfo::Fat16(_) => value.0 % 0x1_0000,
            FatSpecificInfo::Fat32(_) => value.0 % 0x1000_0000,
        }
    }

    /// The block that holds the entry of `c`, once that entry says `value`.
    pub open spec fn entry_block_with(self, disk: Disk, c: ClusterId, value: ClusterId) -> Seq<u8> {
        self.entry_set(disk[self.entry_block(c) as u32], self.entry_offset(c), value)
    }

    /// A block of the table, once its entry at `at` says `value`. Of a 32-bit
    /// entry the top four bits stay.
    pub open spec fn entry_set(self, block: Seq<u8>, at: int, value: ClusterId) -> Seq<u8> {
        match self.fat_specific_info {
            FatSpecificInfo::Fat16(_) => splice(block, at, le16_bytes(self.stored(value) as u16)),
            FatSpecificInfo::Fat32(_) => splice(
                block,
                at,
                le32_bytes(
                    (le32(block, at) / 0x1000_0000 * 0x1000_0000 + self.stored(value)) as u32,
                ),
            ),
        }
    }

    /// The disk once the first table says `value` of `c`, and the second table
    /// does not say so yet.
    pub open spec fn with_first_entry(self, disk: Disk, c: ClusterId, value: ClusterId) -> Disk {
        disk.insert(self.entry_block(c) as u32, self.entry_block_with(disk, c, value))
    }

    /// The disk once the table says `value` of `c`. The second table is given
    /// the whole block.
    pub open spec fn with_entry(self, disk: Disk, c: ClusterId, value: ClusterId) -> Disk {
        let once = self.with_first_entry(disk, c, value);
        match self.mirror_block(c) {
            Some(block) => once.insert(block as u32, self.entry_block_with(disk, c, value)),
            None => once,
        }
    }

    /// Make the entry at `at` of a block of the table say `value`.
    fn set_entry(&self, block: &mut Block, at: usize, value: ClusterId)
        requires
            at + 4 <= 512 || self.fat_specific_info is Fat16 && at + 2 <= 512,
        ensures
            final(block).contents@ == self.entry_set(old(block).contents@, at as int, value),
    {
        match &self.fat_specific_info {
            FatSpecificInfo::Fat16(_) => {
                let entry: u16 = (value.0 % 0x1_0000) as u16;
                write_u16(&mut block.contents, at, entry);
            },
            FatSpecificInfo::Fat32(_) => {
                let existing: u32 = read_u32(&block.contents, at);
                let new: u32 = existing / 0x1000_0000 * 0x1000_0000 + value.0 % 0x1000_0000;
                write_u32(&mut block.contents, at, new);
            },
        }
    }

    /// Write a new entry in the FAT.
    ///
    /// A failure leaves the second table as it was, and possibly the first one
    /// too.
    pub fn update_fat<D: BlockDevice>(
        &mut self,
        block_cache: &mut BlockCache<D>,
        cluster: ClusterId,
        new_value: ClusterId,
    ) -> (result: Result<(), Error<D::Error>>)
        requires
            old(block_cache).clean(),
            old(self).entries_in_reach(cluster),
        ensures
            *final(self) == *old(self),
            final(block_cache).clean(),
            match result {
                Ok(()) => {
                    &&& final(block_cache).disk() == old(self).with_entry(
                        old(block_cache).disk(),
                        cluster,
                        new_value,
                    )
                    &&& final(block_cache).untroubled(old(block_cache))
                },
                Err(error) => {
                    &&& error matches Error::DeviceError(e) && final(block_cache).failed_with(
                        old(block_cache),
                        e,
                    )
                    &&& {
                        ||| final(block_cache).disk() == old(block_cache).disk()
                        ||| old(self).second_fat_start is Some && final(block_cache).disk() == old(
                            self,
                        ).with_first_entry(old(block_cache).disk(), cluster, new_value)
                    }
                },
            },
    {
        let fat_offset: u32 = match &self.fat_specific_info {
            FatSpecificInfo::Fat16(_) => cluster.0 * 2,
            FatSpecificInfo::Fat32(_) => cluster.0 * 4,
        };
        let this_fat_block_num: u32 = self.lba_start.0 + (self.fat_start.0 + fat_offset / 512);
        let second_fat_block_num = match self.second_fat_start {
            Some(start) => Some(BlockIdx(self.lba_start.0 + (start.0 + fat_offset / 512))),
            None => None,
        };
        let this_fat_ent_offset: usize = (fat_offset % 512) as usize;
        let block = match block_cache.read_mut(BlockIdx(this_fat_block_num)) {
            Ok(block) => block,
            Err(e) => return Err(Error::DeviceError(e)),
        };
        self.set_entry(block, this_fat_ent_offset, new_value);
        let written = match second_fat_block_num {
            Some(duplicate) => block_cache.write_back_with_duplicate(duplicate),
            None => block_cache.write_back(),
        };
        match written {
            Ok(()) => Ok(()),
            Err(e) => Err(Error::DeviceError(e)),
        }
    }

    /// Look in the FAT to see which cluster comes next.
    pub fn next_cluster<D: BlockDevice>(
        &self,
        block_cache: &mut BlockCache<D>,
        cluster: ClusterId,
    ) -> (result: Result<ClusterId, Error<D::Error>>)
        requires
            old(block_cache).clean(),
            cluster.0 <= u32::MAX / 4,
            self.entry_in_reach(cluster),
        ensures
            only_reads(
                *old(block_cache),
                *final(block_cache),
                result,
                followed(self.link(old(block_cache).disk(), cluster)),
            ),
    {
        match &self.fat_specific_info {
            FatSpecificInfo::Fat16(_) => {
                let fat_offset: u32 = cluster.0 * 2;
                let this_fat_block_num: u32 = self.lba_start.0 + (self.fat_start.0 + fat_offset
                    / 512);
                let this_fat_ent_offset: usize = (fat_offset % 512) as usize;
                let block = match block_cache.read(BlockIdx(this_fat_block_num)) {
                    Ok(block) => block,
                    Err(e) => return Err(Error::DeviceError(e)),
                };
                let fat_entry: u16 = read_u16(&block.contents, this_fat_ent_offset);
                if fat_entry == 0xFFF7 {
                    Err(Error::BadCluster)
                } else if fat_entry >= 0xFFF8 {
                    Err(Error::EndOfFile)
                } else {
                    Ok(ClusterId(fat_entry as u32))
                }
            },
            FatSpecificInfo::Fat32(_) => {
                let fat_offset: u32 = cluster.0 * 4;
                let this_fat_block_num: u32 = self.lba_start.0 + (self.fat_start.0 + fat_offset
                    / 512);
                let this_fat_ent_offset: usize = (fat_offset % 512) as usize;
                let block = match block_cache.read(BlockIdx(this_fat_block_num)) {
                    Ok(block) => block,
                    Err(e) => return Err(Error::DeviceError(e)),
                };
                let fat_entry: u32 = read_u32(&block.contents, this_fat_ent_offset) % 0x1000_0000;
                if fat_entry == 0 {
                    Err(Error::UnterminatedFatChain)
                } else if fat_entry == 0x0FFF_FFF7 {
                    Err(Error::BadCluster)
                } else if fat_entry == 1 || fat_entry >= 0x0FFF_FFF8 {
                    Err(Error::EndOfFile)
                } else {
                    Ok(ClusterId(fat_entry))
                }
            },
        }
    }
}

} // verus!
