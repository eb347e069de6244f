//! Making a new directory.

use crate::allocation::{zeroed, Allocation, HintSearch};
use crate::block::{blank_block, BlockCache, BlockDevice, BlockIdx, Disk};
use crate::bytes::{copy_into, splice};
use crate::entry::{
    entry_bytes, Attributes, ClusterId, DirEntry, EntryView, FatType, OnDiskDirEntry,
};
use crate::error::Error;
use crate::name::{parent_dir_name, this_dir_name, ShortFileName};
use crate::time::{tells, TimeSource, Timestamp};
use crate::volume::FatVolume;
use vstd::prelude::*;

verus! {

/// An entry for a directory that begins in `cluster`.
pub open spec fn dir_entry(
    name: Seq<u8>,
    attributes: Attributes,
    cluster: ClusterId,
    now: Timestamp,
) -> EntryView {
    EntryView { name, mtime: now, ctime: now, attributes, cluster, size: 0, block: 0, offset: 0 }
}

/// The cluster by which a directory refers to its parent: the root directory is
/// referred to by none.
pub open spec fn parent_reference(parent: ClusterId) -> ClusterId {
    if parent.0 == ClusterId::ROOT_DIR {
        ClusterId(ClusterId::EMPTY)
    } else {
        parent
    }
}

/// The first block of a new directory: `.` and `..`, and zeros behind them.
pub open spec fn first_dir_block(
    c: ClusterId,
    parent: ClusterId,
    attributes: Attributes,
    now: Timestamp,
    fat_type: FatType,
) -> Seq<u8> {
    splice(
        splice(
            blank_block(),
            0,
            entry_bytes(dir_entry(this_dir_name(), attributes, c, now), fat_type),
        ),
        32,
        entry_bytes(
            dir_entry(parent_dir_name(), attributes, parent_reference(parent), now),
            fat_type,
        ),
    )
}

/// What is to be written to make a directory.
pub struct NewDir {
    /// The directory that it is to be named in.
    pub parent: ClusterId,
    /// Its short name.
    pub short_name: Seq<u8>,
    /// Its long name, if it is to have one.
    pub long_name: Option<Seq<char>>,
    /// The attributes of the entries that name it.
    pub attributes: Attributes,
}

impl FatVolume {
    /// The disk once the cluster `c` holds a new directory, of which the first
    /// block and `n` more have been written.
    pub open spec fn with_dir(
        self,
        disk: Disk,
        c: ClusterId,
        parent: ClusterId,
        attributes: Attributes,
        now: Timestamp,
        n: nat,
    ) -> Disk {
        zeroed(
            disk.insert(
                self.block_of(c) as u32,
                first_dir_block(c, parent, attributes, now, self.fat_type()),
            ),
            self.block_of(c) + 1,
            n,
        )
    }

    /// How many blocks of a cluster come after its first one.
    pub open spec fn further_blocks(self) -> nat {
        if self.blocks_per_cluster == 0 {
            0
        } else {
            (self.blocks_per_cluster - 1) as nat
        }
    }

    /// Can the directory be named in its parent without leaving the numbers
    /// that fit?
    pub open spec fn naming_in_reach(self, disk: Disk, dir: NewDir) -> bool {
        match dir.long_name {
            Some(long_name) => self.creation_in_reach(disk, dir.parent, long_name),
            None => self.free_slots_in_reach(disk, dir.parent, 1),
        }
    }

    /// Can the directory be laid out in `c` and named without leaving the
    /// numbers that fit, whatever the time is?
    pub open spec fn publishing_in_reach(self, disk: Disk, c: ClusterId, dir: NewDir) -> bool {
        &&& self.run_in_reach(c)
        &&& forall|now: Timestamp|
            self.naming_in_reach(
                #[trigger] self.with_dir(
                    disk,
                    c,
                    dir.parent,
                    dir.attributes,
                    now,
                    self.further_blocks(),
                ),
                dir,
            )
    }

    /// An operation that names the directory, which begins in `c`, in its parent.
    pub open spec fn names_dir<D: BlockDevice, T: TimeSource>(
        self,
        before: BlockCache<D>,
        time_source: &T,
        c: ClusterId,
        dir: NewDir,
        now: Timestamp,
        after: BlockCache<D>,
        volume: FatVolume,
        result: Result<DirEntry, Error<D::Error>>,
    ) -> bool {
        match dir.long_name {
            Some(long_name) => self.writes_entry(
                before,
                dir.parent,
                long_name,
                dir_entry(dir.short_name, dir.attributes, c, now),
                after,
                volume,
                result,
            ),
            None => self.adds_entry(
                before,
                time_source,
                dir.parent,
                dir.short_name,
                dir.attributes,
                c,
                after,
                volume,
                result,
            ),
        }
    }

    /// An operation that lays out a new directory in `c`, at some instant that the
    /// time source gives, and then names it in its parent.
    pub open spec fn publishes_dir<D: BlockDevice, T: TimeSource>(
        self,
        before: BlockCache<D>,
        time_source: &T,
        c: ClusterId,
        dir: NewDir,
        after: BlockCache<D>,
        volume: FatVolume,
        result: Result<DirEntry, Error<D::Error>>,
    ) -> bool {
        exists|now: Timestamp|
            tells(time_source, now) && #[trigger] self.publishes_dir_at(
                before,
                time_source,
                c,
                dir,
                now,
                after,
                volume,
                result,
            )
    }

    /// An operation that lays out a new directory in `c`, at the instant `now`,
    /// and then names it in its parent. A device error on the way to that leaves
    /// some blocks of the cluster written.
    pub open spec fn publishes_dir_at<D: BlockDevice, T: TimeSource>(
        self,
        before: BlockCache<D>,
        time_source: &T,
        c: ClusterId,
        dir: NewDir,
        now: Timestamp,
        after: BlockCache<D>,
        volume: FatVolume,
        result: Result<DirEntry, Error<D::Error>>,
    ) -> bool {
        &&& after.at_or_after(&before)
        &&& {
            ||| result matches Err(Error::DeviceError(e)) && {
                &&& after.failed_with(&before, e)
                &&& volume == self
                &&& self.layout_cut_short(
                    before.disk(),
                    c,
                    dir.parent,
                    dir.attributes,
                    now,
                    after.disk(),
                )
            }
            ||| exists|laid_out: BlockCache<D>|
                {
                    &&& laid_out.untroubled(&before)
                    &&& laid_out.disk() == self.with_dir(
                        before.disk(),
                        c,
                        dir.parent,
                        dir.attributes,
                        now,
                        self.further_blocks(),
                    )
                    &&& #[trigger] self.names_dir(
                        laid_out,
                        time_source,
                        c,
                        dir,
                        now,
                        after,
                        volume,
                        result,
                    )
                }
        }
    }

    /// Is this what a device error can leave of a directory that was to be laid
    /// out?
    pub open spec fn layout_cut_short(
        self,
        disk: Disk,
        c: ClusterId,
        parent: ClusterId,
        attributes: Attributes,
        now: Timestamp,
        left: Disk,
    ) -> bool {
        ||| left == disk
        ||| exists|n: nat|
            n < self.further_blocks() && left == #[trigger] self.with_dir(
                disk,
                c,
                parent,
                attributes,
                now,
                n,
            )
    }

    /// Lay out a freshly allocated directory cluster.
    fn lay_out_dir<D: BlockDevice>(
        &self,
        block_cache: &mut BlockCache<D>,
        parent: ClusterId,
        att: Attributes,
        new_cluster: ClusterId,
        now: Timestamp,
    ) -> (result: Result<(), Error<D::Error>>)
        requires
            self.run_in_reach(new_cluster),
        ensures
            final(block_cache).clean(),
            match result {
                Ok(()) => {
                    &&& final(block_cache).untroubled(old(block_cache))
                    &&& final(block_cache).disk() == self.with_dir(
                        old(block_cache).disk(),
                        new_cluster,
                        parent,
                        att,
                        now,
                        self.further_blocks(),
                    )
                },
                Err(error) => {
                    &&& error matches Error::DeviceError(e) && final(block_cache).failed_with(
                        old(block_cache),
                        e,
                    )
                    &&& self.layout_cut_short(
                        old(block_cache).disk(),
                        new_cluster,
                        parent,
                        att,
                        now,
                        final(block_cache).disk(),
                    )
                },
            },
    {
        let ghost disk = block_cache.disk();
        let new_dir_start_block = self.cluster_to_block(new_cluster);
        let fat_type = self.get_fat_type();
        // make the "." entry, which points at ourselves
        let dot_entry_in_child = DirEntry {
            name: ShortFileName::this_dir(),
            mtime: now,
            ctime: now,
            attributes: att,
            cluster: new_cluster,
            size: 0,
            entry_block: new_dir_start_block,
            entry_offset: 0,
        };
        let dot = dot_entry_in_child.serialize(fat_type);
        // make the ".." entry, which points at our parent
        let dot_dot_entry_in_child = DirEntry {
            name: ShortFileName::parent_dir(),
            mtime: now,
            ctime: now,
            attributes: att,
            cluster: if parent.0 == ClusterId::ROOT_DIR {
                // indicate parent is root using Cluster(0)
                ClusterId(ClusterId::EMPTY)
            } else {
                parent
            },
            size: 0,
            entry_block: new_dir_start_block,
            entry_offset: OnDiskDirEntry::LEN_U32,
        };
        let dot_dot = dot_dot_entry_in_child.serialize(fat_type);
        // A blank block
        let block = block_cache.blank_mut(new_dir_start_block);
        copy_into(&mut block.contents, 0, &dot);
        copy_into(&mut block.contents, OnDiskDirEntry::LEN, &dot_dot);
        assert(block.contents@ == first_dir_block(new_cluster, parent, att, now, fat_type));
        match block_cache.write_back() {
            Ok(()) => {},
            Err(e) => return Err(Error::DeviceError(e)),
        }
        let count: u32 = self.blocks_per_cluster as u32;
        let mut i: u32 = 1;
        while i < count
            invariant
                1 <= i,
                i <= count || i == 1,
                count == self.blocks_per_cluster,
                new_dir_start_block.0 == self.block_of(new_cluster),
                new_dir_start_block.0 + count <= u32::MAX,
                disk == old(block_cache).disk(),
                block_cache.clean(),
                block_cache.untroubled(old(block_cache)),
                block_cache.disk() == self.with_dir(
                    disk,
                    new_cluster,
                    parent,
                    att,
                    now,
                    (i - 1) as nat,
                ),
            decreases count - i,
        {
            let _block = block_cache.blank_mut(BlockIdx(new_dir_start_block.0 + i));
            match block_cache.write_back() {
                Ok(()) => {},
                Err(e) => return Err(Error::DeviceError(e)),
            }
            i += 1;
        }
        Ok(())
    }

    /// Lay out a freshly allocated directory cluster and then name it in its
    /// parent.
    ///
    /// Every failure in here is one the caller undoes the same way, by
    /// releasing the cluster.
    fn build_and_publish_dir<D: BlockDevice, T: TimeSource>(
        &mut self,
        block_cache: &mut BlockCache<D>,
        time_source: &T,
        parent: ClusterId,
        sfn: ShortFileName,
        long_name: Option<&str>,
        att: Attributes,
        new_cluster: ClusterId,
    ) -> (result: Result<DirEntry, Error<D::Error>>)
        requires
            old(self).publishing_in_reach(
                old(block_cache).disk(),
                new_cluster,
                new_dir(parent, sfn, long_name, att),
            ),
        ensures
            final(self).same_layout(*old(self)),
            final(block_cache).clean(),
            final(block_cache).at_or_after(old(block_cache)),
            old(self).publishes_dir(
                *old(block_cache),
                time_source,
                new_cluster,
                new_dir(parent, sfn, long_name, att),
                *final(block_cache),
                *final(self),
                result,
            ),
    {
        let ghost volume = *self;
        let ghost dir = new_dir(parent, sfn, long_name, att);
        let now = time_source.get_timestamp();
        match self.lay_out_dir(block_cache, parent, att, new_cluster, now) {
            Ok(()) => {},
            Err(e) => {
                assert(volume.publishes_dir_at(
                    *old(block_cache),
                    time_source,
                    new_cluster,
                    dir,
                    now,
                    *block_cache,
                    *self,
                    Err(e),
                ));
                return Err(e);
            },
        }
        let ghost laid_out = *block_cache;
        assert(volume.naming_in_reach(
            volume.with_dir(
                old(block_cache).disk(),
                new_cluster,
                dir.parent,
                dir.attributes,
                now,
                volume.further_blocks(),
            ),
            dir,
        ));
        // The directory is complete; give it its name.
        let result = match long_name {
            Some(long_name) => self.write_directory_entry_lfn(
                block_cache,
                parent,
                long_name,
                sfn,
                att,
                new_cluster,
                0,
                now,
                now,
            ),
            None => self.write_new_directory_entry(
                block_cache,
                time_source,
                parent,
                sfn,
                att,
                new_cluster,
            ),
        };
        assert(volume.names_dir(
            laid_out,
            time_source,
            new_cluster,
            dir,
            now,
            *block_cache,
            *self,
            result,
        ));
        assert(volume.publishes_dir_at(
            *old(block_cache),
            time_source,
            new_cluster,
            dir,
            now,
            *block_cache,
            *self,
            result,
        ));
        result
    }

    /// Can a directory be made without leaving the numbers that fit, whatever
    /// the time is?
    pub open spec fn make_dir_in_reach(self, disk: Disk, dir: NewDir) -> bool {
        &&& self.allocation_in_reach(disk, None, false)
        &&& forall|search: HintSearch|
            match #[trigger] self.allocation(disk, None, false, search) {
                Some(a) => a.volume.publishing_in_reach(a.disk, a.cluster, dir),
                None => true,
            }
    }

    /// Is this what is left once the cluster `c`, which nothing names, was
    /// handed back? If the device reports an error, it stays allocated, at least
    /// in the second table.
    pub open spec fn releases<D: BlockDevice>(
        self,
        before: BlockCache<D>,
        c: ClusterId,
        after: BlockCache<D>,
        volume: FatVolume,
    ) -> bool {
        let disk = before.disk();
        let empty = ClusterId(ClusterId::EMPTY);
        if after.untroubled(&before) {
            &&& volume == self.after_release(c)
            &&& after.disk() == self.with_entry(disk, c, empty)
        } else {
            &&& after.failed_with(&before, after.last_fault())
            &&& volume == self
            &&& {
                ||| after.disk() == disk
                ||| self.second_fat_start is Some && after.disk() == self.with_first_entry(
                    disk,
                    c,
                    empty,
                )
            }
        }
    }

    /// An operation that allocates a cluster, makes a directory of it, and hands
    /// it back if that fails. If there is no free cluster, that is the outcome.
    pub open spec fn makes_dir<D: BlockDevice, T: TimeSource>(
        self,
        before: BlockCache<D>,
        time_source: &T,
        dir: NewDir,
        after: BlockCache<D>,
        volume: FatVolume,
        result: Result<(), Error<D::Error>>,
    ) -> bool {
        ||| result matches Err(Error::DeviceError(e)) && self.allocation_fails(
            before,
            None,
            false,
            e,
            after,
            volume,
        )
        ||| {
            &&& self.chosen(before.disk()) is None
            &&& result matches Err(Error::NotEnoughSpace)
            &&& after.untroubled(&before)
            &&& volume == self
            &&& after.disk() == before.disk()
        }
        ||| exists|search: HintSearch, claimed: BlockCache<D>|
            #[trigger] self.claims_and_fills(
                before,
                time_source,
                search,
                claimed,
                dir,
                after,
                volume,
                result,
            )
    }

    /// An operation that allocates a cluster, where the search for a hint goes
    /// as `search` says, and goes on from `claimed` to make a directory of it.
    pub open spec fn claims_and_fills<D: BlockDevice, T: TimeSource>(
        self,
        before: BlockCache<D>,
        time_source: &T,
        search: HintSearch,
        claimed: BlockCache<D>,
        dir: NewDir,
        after: BlockCache<D>,
        volume: FatVolume,
        result: Result<(), Error<D::Error>>,
    ) -> bool {
        &&& claimed.at_or_after(&before)
        &&& claimed.untroubled(&before) <==> search is Done
        &&& self.allocation(before.disk(), None, false, search) matches Some(a) && {
            &&& claimed.disk() == a.disk
            &&& a.volume.fills_cluster(
                claimed,
                time_source,
                a.cluster,
                dir,
                after,
                volume,
                result,
            )
        }
    }

    /// An operation that makes a directory of the cluster `c`, and hands it back
    /// if that fails.
    pub open spec fn fills_cluster<D: BlockDevice, T: TimeSource>(
        self,
        before: BlockCache<D>,
        time_source: &T,
        c: ClusterId,
        dir: NewDir,
        after: BlockCache<D>,
        volume: FatVolume,
        result: Result<(), Error<D::Error>>,
    ) -> bool {
        match result {
            Ok(()) => exists|entry: DirEntry|
                #[trigger] self.publishes_dir(
                    before,
                    time_source,
                    c,
                    dir,
                    after,
                    volume,
                    Ok(entry),
                ),
            Err(error) => exists|failed: BlockCache<D>, kept: FatVolume|
                {
                    &&& #[trigger] self.publishes_dir(
                        before,
                        time_source,
                        c,
                        dir,
                        failed,
                        kept,
                        Err(error),
                    )
                    &&& kept.releases(failed, c, after, volume)
                },
        }
    }

    /// Create a new directory.
    ///
    /// 1) Allocates a cluster to hold the new directory
    /// 2) Writes out its `.` and `..` entries and blanks the rest
    /// 3) Only then creates the entry naming it in the parent
    ///
    /// That order matters: an entry whose stored cluster is zero reads back as
    /// the root directory, so publishing the name first would let a failure
    /// leave a folder on the card claiming to be root. If anything fails the
    /// cluster is released, since nothing refers to it.
    ///
    /// With `long_name`, the entry gets a long-name chain as well, so a folder
    /// can be named the way a file can. `sfn` is its alias either way.
    pub fn make_dir<D: BlockDevice, T: TimeSource>(
        &mut self,
        block_cache: &mut BlockCache<D>,
        time_source: &T,
        parent: ClusterId,
        sfn: ShortFileName,
        long_name: Option<&str>,
        att: Attributes,
    ) -> (result: Result<(), Error<D::Error>>)
        requires
            old(block_cache).clean(),
            old(self).make_dir_in_reach(
                old(block_cache).disk(),
                new_dir(parent, sfn, long_name, att),
            ),
        ensures
            final(block_cache).clean(),
            final(self).same_layout(*old(self)),
            old(self).makes_dir(
                *old(block_cache),
                time_source,
                new_dir(parent, sfn, long_name, att),
                *final(block_cache),
                *final(self),
                result,
            ),
    {
        let ghost volume = *self;
        let ghost disk = block_cache.disk();
        let ghost dir = new_dir(parent, sfn, long_name, att);
        let new_cluster = match self.alloc_cluster(block_cache, None, false) {
            Ok(cluster) => cluster,
            Err(e) => return Err(e),
        };
        let ghost claimed = *block_cache;
        let ghost claimed_volume = *self;
        let ghost search = choose|search: HintSearch|
            (claimed.untroubled(old(block_cache)) <==> search == HintSearch::Done)
                && #[trigger] volume.allocation(disk, None, false, search) == Some(
                (Allocation { cluster: new_cluster, volume: *self, disk: block_cache.disk() }),
            );
        match self.build_and_publish_dir(
            block_cache,
            time_source,
            parent,
            sfn,
            long_name,
            att,
            new_cluster,
        ) {
            Ok(entry) => {
                assert(claimed_volume.publishes_dir(
                    claimed,
                    time_source,
                    new_cluster,
                    dir,
                    *block_cache,
                    *self,
                    Ok(entry),
                ));
                assert(claimed_volume.fills_cluster(
                    claimed,
                    time_source,
                    new_cluster,
                    dir,
                    *block_cache,
                    *self,
                    Ok(()),
                ));
                assert(volume.claims_and_fills(
                    *old(block_cache),
                    time_source,
                    search,
                    claimed,
                    dir,
                    *block_cache,
                    *self,
                    Ok(()),
                ));
                Ok(())
            },
            Err(error) => {
                let ghost failed = *block_cache;
                let ghost kept = *self;
                self.release_unpublished_cluster(block_cache, new_cluster);
                assert(claimed_volume.publishes_dir(
                    claimed,
                    time_source,
                    new_cluster,
                    dir,
                    failed,
                    kept,
                    Err(error),
                ));
                assert(claimed_volume.fills_cluster(
                    claimed,
                    time_source,
                    new_cluster,
                    dir,
                    *block_cache,
                    *self,
                    Err(error),
                ));
                assert(volume.claims_and_fills(
                    *old(block_cache),
                    time_source,
                    search,
                    claimed,
                    dir,
                    *block_cache,
                    *self,
                    Err(error),
                ));
                Err(error)
            },
        }
    }
}

/// What `make_dir` is asked to make.
pub open spec fn new_dir(
    parent: ClusterId,
    sfn: ShortFileName,
    long_name: Option<&str>,
    attributes: Attributes,
) -> NewDir {
    NewDir {
        parent,
        short_name: sfn.contents@,
        long_name: match long_name {
            Some(name) => Some(name@),
            None => None,
        },
        attributes,
    }
}

} // verus!
