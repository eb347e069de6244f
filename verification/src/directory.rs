//! Walking through the slots of a directory.

use crate::block::{BlockCache, BlockDevice, BlockIdx, Disk};
use crate::entry::{ClusterId, OnDiskDirEntry};
use crate::error::Error;
use crate::table::Link;
use crate::volume::{Fat16Info, FatSpecificInfo, FatVolume};
use vstd::prelude::*;

verus! {

/// Where a slot of a directory stands.
#[derive(Clone, Copy, Debug, PartialEq, Eq, Structural)]
pub struct DirectorySlot {
    /// The block.
    pub block: BlockIdx,
    /// How far into the block, in bytes.
    pub offset: u32,
}

/// A place in a directory. A directory is a row of runs of blocks, sixteen
/// slots to the block. Each run is a cluster, or else the only run is the region
/// that FAT16 keeps for the root directory.
#[derive(Clone, Copy, Debug, PartialEq, Eq, Structural)]
pub struct Cursor {
    /// The cluster, where the run is one.
    pub cluster: Option<ClusterId>,
    /// The first block of the run.
    pub first_block: BlockIdx,
    /// How many blocks the run has.
    pub blocks: u32,
    /// The next slot of the run, counting from zero.
    pub slot: u32,
}

/// How a directory ends.
pub enum DirEnd {
    /// With the region that it has.
    Region,
    /// With this cluster, and what it links to is no further cluster.
    Chain(ClusterId, Link),
}

/// What comes next in a directory.
pub enum Step {
    /// A slot with these bytes, and then the place behind it.
    Slot(DirectorySlot, Seq<u8>, Cursor),
    /// The beginning of a further cluster.
    Enter(Cursor),
    /// Nothing.
    End(DirEnd),
    /// A cluster or a table entry at a place whose number does not fit.
    OutOfReach,
}

/// What a cursor met.
pub enum Met {
    /// A slot.
    Slot(DirectorySlot, OnDiskDirEntry),
    /// The beginning of a further cluster.
    Cluster,
    /// The end of the region that the directory has.
    EndOfRegion,
    /// The end of the chain of clusters, with this one.
    EndOfChain(ClusterId),
}

/// The outcome of an operation that went through a chain up to `link`, where
/// the end of the chain is as good as any other.
pub open spec fn ran_to<E>(link: Link) -> Result<(), Error<E>> {
    match link {
        Link::Bad => Err(Error::BadCluster),
        Link::Free => Err(Error::UnterminatedFatChain),
        _ => Ok(()),
    }
}

/// The link with which a directory ends.
pub open spec fn end_link(end: DirEnd) -> Link {
    match end {
        DirEnd::Region => Link::End,
        DirEnd::Chain(_, link) => link,
    }
}

impl Cursor {
    /// Does the run lie within the numbers that fit?
    pub open spec fn wf(self) -> bool {
        self.first_block.0 + self.blocks <= u32::MAX && self.blocks <= 0xFFFF
    }
}

/// Where in a directory the slot number `i` of the run that begins at `first`
/// stands.
pub open spec fn slot_place(first: BlockIdx, i: u32) -> DirectorySlot {
    DirectorySlot {
        block: BlockIdx((first.0 + i / 16) as u32),
        offset: (i % 16 * 32) as u32,
    }
}

/// The bytes of a slot.
pub open spec fn slot_bytes(disk: Disk, slot: DirectorySlot) -> Seq<u8> {
    disk[slot.block.0].subrange(slot.offset as int, slot.offset + 32)
}

impl FatVolume {
    /// How many blocks the region of the root directory has.
    pub open spec fn root_blocks(self) -> int {
        match self.fat_specific_info {
            FatSpecificInfo::Fat16(info) => (info.root_entries_count * 32 + 511) / 512,
            FatSpecificInfo::Fat32(_) => 0,
        }
    }

    /// Can a directory go on in the cluster `c`?
    pub open spec fn run_in_reach(self, c: ClusterId) -> bool {
        self.block_in_reach(c) && self.block_of(c) + self.blocks_per_cluster <= u32::MAX
    }

    /// The place at the beginning of the cluster `c`.
    pub open spec fn cluster_start(self, c: ClusterId) -> Cursor {
        Cursor {
            cluster: Some(c),
            first_block: BlockIdx(self.block_of(c) as u32),
            blocks: self.blocks_per_cluster as u32,
            slot: 0,
        }
    }

    /// The place at the beginning of the directory that begins in `dir`.
    pub open spec fn dir_start(self, dir: ClusterId) -> Cursor {
        if self.is_fixed_root(dir) {
            Cursor {
                cluster: None,
                first_block: BlockIdx(self.block_of(dir) as u32),
                blocks: self.root_blocks() as u32,
                slot: 0,
            }
        } else {
            self.cluster_start(self.resolved(dir))
        }
    }

    /// Does the directory that begins in `dir` begin at a place whose number
    /// fits?
    pub open spec fn dir_in_reach(self, dir: ClusterId) -> bool {
        if self.is_fixed_root(dir) {
            self.block_of(dir) + self.root_blocks() <= u32::MAX
        } else {
            self.run_in_reach(self.resolved(dir))
        }
    }

    /// What comes next in a directory, at a place in it.
    pub open spec fn step(self, disk: Disk, at: Cursor) -> Step {
        if at.slot < at.blocks * 16 {
            let slot = slot_place(at.first_block, at.slot);
            Step::Slot(
                slot,
                slot_bytes(disk, slot),
                Cursor { slot: (at.slot + 1) as u32, ..at },
            )
        } else {
            match at.cluster {
                None => Step::End(DirEnd::Region),
                Some(c) => if c.0 > u32::MAX / 4 || !self.entry_in_reach(c) {
                    Step::OutOfReach
                } else {
                    match self.link(disk, c) {
                        Link::Next(next) => if self.run_in_reach(next) {
                            Step::Enter(self.cluster_start(next))
                        } else {
                            Step::OutOfReach
                        },
                        link => Step::End(DirEnd::Chain(c, link)),
                    }
                },
            }
        }
    }

    /// Go to the beginning of the directory that begins in `dir`.
    pub(crate) fn open_cursor(&self, dir: ClusterId) -> (at: Cursor)
        requires
            self.dir_in_reach(dir),
        ensures
            at == self.dir_start(dir),
            at.wf(),
    {
        match &self.fat_specific_info {
            FatSpecificInfo::Fat16(info) => {
                if dir.0 == ClusterId::ROOT_DIR {
                    self.open_root_region(info)
                } else {
                    self.enter_cluster(dir)
                }
            },
            FatSpecificInfo::Fat32(info) => {
                if dir.0 == ClusterId::ROOT_DIR {
                    self.enter_cluster(info.first_root_dir_cluster)
                } else {
                    self.enter_cluster(dir)
                }
            },
        }
    }

    /// Go to the beginning of the region that FAT16 keeps for the root directory.
    pub(crate) fn open_root_region(&self, info: &Fat16Info) -> (at: Cursor)
        requires
            self.fat_specific_info == FatSpecificInfo::Fat16(*info),
            self.dir_in_reach(ClusterId(ClusterId::ROOT_DIR)),
        ensures
            at == self.dir_start(ClusterId(ClusterId::ROOT_DIR)),
            at.wf(),
    {
        let len_bytes: u32 = info.root_entries_count as u32 * OnDiskDirEntry::LEN_U32;
        Cursor {
            cluster: None,
            first_block: BlockIdx(self.lba_start.0 + info.first_root_dir_block.0),
            blocks: (len_bytes + 511) / 512,
            slot: 0,
        }
    }

    /// Go to the beginning of the cluster `c`.
    pub(crate) fn enter_cluster(&self, c: ClusterId) -> (at: Cursor)
        requires
            self.run_in_reach(c),
        ensures
            at == self.cluster_start(c),
            at.wf(),
    {
        Cursor {
            cluster: Some(c),
            first_block: self.cluster_to_block(c),
            blocks: self.blocks_per_cluster as u32,
            slot: 0,
        }
    }

    /// Look at what comes next, and go past it.
    pub(crate) fn advance<D: BlockDevice>(
        &self,
        block_cache: &mut BlockCache<D>,
        at: &mut Cursor,
    ) -> (result: Result<Met, Error<D::Error>>)
        requires
            old(block_cache).clean(),
            old(at).wf(),
            self.step(old(block_cache).disk(), *old(at)) !is OutOfReach,
        ensures
            final(block_cache).clean(),
            final(block_cache).disk() == old(block_cache).disk(),
            final(at).wf(),
            if final(block_cache).untroubled(old(block_cache)) {
                match self.step(old(block_cache).disk(), *old(at)) {
                    Step::Slot(slot, raw, next) => {
                        &&& result matches Ok(Met::Slot(s, entry)) && s == slot && entry@ == raw
                        &&& raw.len() == 32
                        &&& *final(at) == next
                    },
                    Step::Enter(next) => {
                        &&& result matches Ok(Met::Cluster)
                        &&& *final(at) == next
                    },
                    Step::End(DirEnd::Region) => result matches Ok(Met::EndOfRegion),
                    Step::End(DirEnd::Chain(c, Link::End)) => {
                        result matches Ok(Met::EndOfChain(last)) && last == c
                    },
                    Step::End(DirEnd::Chain(_, link)) => match ran_to::<D::Error>(link) {
                        Err(error) => result matches Err(e) && e == error,
                        Ok(()) => false,
                    },
                    Step::OutOfReach => false,
                }
            } else {
                result matches Err(Error::DeviceError(e)) && final(block_cache).failed_with(
                    old(block_cache),
                    e,
                )
            },
    {
        if at.slot < at.blocks * 16 {
            let slot = DirectorySlot {
                block: BlockIdx(at.first_block.0 + at.slot / 16),
                offset: at.slot % 16 * OnDiskDirEntry::LEN_U32,
            };
            let block = match block_cache.read(slot.block) {
                Ok(block) => block,
                Err(e) => return Err(Error::DeviceError(e)),
            };
            let entry = OnDiskDirEntry::new(&block.contents, slot.offset as usize);
            at.slot = at.slot + 1;
            Ok(Met::Slot(slot, entry))
        } else {
            match at.cluster {
                None => Ok(Met::EndOfRegion),
                Some(cluster) => match self.next_cluster(block_cache, cluster) {
                    Ok(next) => {
                        *at = self.enter_cluster(next);
                        Ok(Met::Cluster)
                    },
                    Err(Error::EndOfFile) => Ok(Met::EndOfChain(cluster)),
                    Err(e) => Err(e),
                },
            }
        }
    }
}

} // verus!
